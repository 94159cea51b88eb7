use feedforward::error::ShapeError;
use feedforward::layer::{InputLayer, Layer, WeightsType};
use feedforward::scalar::Scalar;

#[derive(Clone, Copy, Debug, PartialEq)]
struct Real(f64);

impl Scalar for Real {
    fn zero() -> Self {
        Real(0.0)
    }
    fn one() -> Self {
        Real(1.0)
    }
    fn from_u64(n: u64) -> Self {
        Real(n as f64)
    }
    fn plus(self, rhs: Self) -> Self {
        Real(self.0 + rhs.0)
    }
    fn minus(self, rhs: Self) -> Self {
        Real(self.0 - rhs.0)
    }
    fn times(self, rhs: Self) -> Self {
        Real(self.0 * rhs.0)
    }
    fn over(self, rhs: Self) -> Self {
        Real(self.0 / rhs.0)
    }
    fn negate(self) -> Self {
        Real(-self.0)
    }
    fn exp(self) -> Self {
        Real(self.0.exp())
    }
}

fn reals(values: &[f64]) -> Vec<Real> {
    values.iter().map(|v| Real(*v)).collect()
}

fn plain(values: &[Real]) -> Vec<f64> {
    values.iter().map(|v| v.0).collect()
}

fn matrix(rows: &[&[f64]]) -> WeightsType<Real> {
    WeightsType::Multiple(rows.iter().map(|r| reals(r)).collect())
}

fn sig(x: f64) -> f64 {
    1.0 / (1.0 + (-x).exp())
}

#[test]
fn input_layer_holds_what_it_was_given() {
    let input = InputLayer::new(reals(&[0.0, 1.0]));
    assert_eq!(plain(&input.inputs), vec![0.0, 1.0]);
}

#[test]
fn single_weights_are_one_row() {
    let rows = WeightsType::Single(reals(&[5.0, 6.0])).into_rows();
    assert_eq!(rows, vec![reals(&[5.0, 6.0])]);
    let rows = matrix(&[&[1.0, 3.0], &[2.0, 4.0]]).into_rows();
    assert_eq!(rows, vec![reals(&[1.0, 3.0]), reals(&[2.0, 4.0])]);
}

#[test]
fn new_layer_keeps_weights_and_biases() {
    let layer = Layer::new(matrix(&[&[1.0, 3.0], &[2.0, 4.0], &[0.0, -1.0]]), reals(&[1.0, 2.0, 3.0])).unwrap();
    assert_eq!(layer.input_size(), 2);
    assert_eq!(layer.output_size(), 3);
    assert_eq!(layer.weights(), &vec![reals(&[1.0, 3.0]), reals(&[2.0, 4.0]), reals(&[0.0, -1.0])]);
    assert_eq!(layer.biases(), &reals(&[1.0, 2.0, 3.0]));
}

#[test]
fn new_layer_without_units_takes_no_input() {
    let layer: Layer<Real> = Layer::new(WeightsType::Multiple(vec![]), vec![]).unwrap();
    assert_eq!(layer.input_size(), 0);
    assert_eq!(layer.output_size(), 0);
}

#[test]
fn new_layer_refuses_a_wrong_number_of_biases() {
    let r = Layer::new(matrix(&[&[1.0, 3.0], &[2.0, 4.0]]), reals(&[1.0]));
    assert_eq!(r.err(), Some(ShapeError::Biases { expected: 2, actual: 1 }));
    let r = Layer::new(WeightsType::Single(reals(&[1.0, 3.0])), reals(&[1.0, 2.0]));
    assert_eq!(r.err(), Some(ShapeError::Biases { expected: 1, actual: 2 }));
}

#[test]
fn new_layer_refuses_the_first_ragged_row() {
    let r = Layer::new(matrix(&[&[1.0, 3.0], &[2.0, 4.0, 6.0], &[1.0]]), reals(&[1.0, 2.0, 3.0]));
    assert_eq!(r.err(), Some(ShapeError::Row { row: 1, expected: 2, actual: 3 }));
}

#[test]
fn new_layer_tests_the_biases_before_the_rows() {
    let r = Layer::new(matrix(&[&[1.0, 3.0], &[2.0]]), reals(&[1.0]));
    assert_eq!(r.err(), Some(ShapeError::Biases { expected: 2, actual: 1 }));
}

#[test]
fn single_neuron_gives_the_sigmoid_of_four() {
    let layer = Layer::new(matrix(&[&[1.0, 3.0]]), reals(&[1.0])).unwrap();
    let out = layer.forward_prop(&InputLayer::new(reals(&[0.0, 1.0]))).unwrap();
    assert_eq!(out.len(), 1);
    assert_eq!(out[0].0, sig(4.0));
    assert!((out[0].0 - 0.9820137900).abs() < 1e-9);
}

#[test]
fn single_weights_give_the_same_neuron() {
    let layer = Layer::new(WeightsType::Single(reals(&[1.0, 3.0])), reals(&[1.0])).unwrap();
    let out = layer.forward_prop(&InputLayer::new(reals(&[0.0, 1.0]))).unwrap();
    assert_eq!(plain(&out), vec![sig(4.0)]);
}

#[test]
fn hidden_layer_of_two_units() {
    let layer = Layer::new(matrix(&[&[1.0, 3.0], &[2.0, 4.0]]), reals(&[1.0, 2.0])).unwrap();
    let out = layer.forward_prop(&InputLayer::new(reals(&[0.0, 1.0]))).unwrap();
    assert_eq!(plain(&out), vec![sig(4.0), sig(6.0)]);
    assert!((out[1].0 - 0.9975273768).abs() < 1e-9);
}

#[test]
fn forward_refuses_a_short_input() {
    let layer = Layer::new(matrix(&[&[1.0, 3.0], &[2.0, 4.0]]), reals(&[1.0, 2.0])).unwrap();
    let r = layer.forward_prop(&InputLayer::new(reals(&[1.0])));
    assert_eq!(r.err(), Some(ShapeError::Input { layer: 0, expected: 2, actual: 1 }));
}

#[test]
fn forward_refuses_a_long_input() {
    let layer = Layer::new(matrix(&[&[1.0, 3.0], &[2.0, 4.0]]), reals(&[1.0, 2.0])).unwrap();
    let r = layer.forward_prop(&InputLayer::new(reals(&[1.0, 2.0, 3.0])));
    assert_eq!(r.err(), Some(ShapeError::Input { layer: 0, expected: 2, actual: 3 }));
}

#[test]
fn forward_leaves_the_layer_alone() {
    let layer = Layer::new(matrix(&[&[1.0, 3.0], &[2.0, 4.0]]), reals(&[1.0, 2.0])).unwrap();
    let first = layer.forward_prop(&InputLayer::new(reals(&[0.25, -1.0]))).unwrap();
    let second = layer.forward_prop(&InputLayer::new(reals(&[0.25, -1.0]))).unwrap();
    let a: Vec<u64> = first.iter().map(|v| v.0.to_bits()).collect();
    let b: Vec<u64> = second.iter().map(|v| v.0.to_bits()).collect();
    assert_eq!(a, b);
    assert_eq!(layer.weights(), &vec![reals(&[1.0, 3.0]), reals(&[2.0, 4.0])]);
    assert_eq!(layer.biases(), &reals(&[1.0, 2.0]));
}

#[test]
fn backward_steps_every_weight_and_bias() {
    let mut layer = Layer::new(matrix(&[&[1.0, 3.0], &[2.0, 4.0]]), reals(&[1.0, 2.0])).unwrap();
    let back = layer
        .backward_prop(&InputLayer::new(reals(&[0.5, -1.0])), &reals(&[0.25, -0.5]), Real(0.1))
        .unwrap();
    let w = layer.weights();
    assert_eq!(w[0][0].0, 1.0 - (0.1 * 0.25) * 0.5);
    assert_eq!(w[0][1].0, 3.0 - (0.1 * 0.25) * -1.0);
    assert_eq!(w[1][0].0, 2.0 - (0.1 * -0.5) * 0.5);
    assert_eq!(w[1][1].0, 4.0 - (0.1 * -0.5) * -1.0);
    assert_eq!(plain(&w[0]), vec![0.9875, 3.025]);
    assert_eq!(plain(layer.biases()), vec![1.0 - 0.1 * 0.25, 2.0 - 0.1 * -0.5]);
    assert_eq!(plain(layer.biases()), vec![0.975, 2.05]);
    assert_eq!(plain(&back), vec![0.0 + 1.0 * 0.25 + 2.0 * -0.5, 0.0 + 3.0 * 0.25 + 4.0 * -0.5]);
    assert_eq!(plain(&back), vec![-0.75, -1.25]);
}

#[test]
fn backward_hands_back_the_error_through_the_old_weights() {
    let mut layer = Layer::new(matrix(&[&[2.0]]), reals(&[0.0])).unwrap();
    let back = layer.backward_prop(&InputLayer::new(reals(&[1.0])), &reals(&[1.0]), Real(0.5)).unwrap();
    assert_eq!(plain(&back), vec![2.0]);
    assert_eq!(plain(&layer.weights()[0]), vec![1.5]);
    assert_eq!(plain(layer.biases()), vec![-0.5]);
}

#[test]
fn backward_with_rate_zero_changes_nothing() {
    let mut layer = Layer::new(matrix(&[&[1.0, 3.0], &[2.0, 4.0]]), reals(&[1.0, 2.0])).unwrap();
    layer.backward_prop(&InputLayer::new(reals(&[0.5, -1.0])), &reals(&[0.25, -0.5]), Real(0.0)).unwrap();
    assert_eq!(layer.weights(), &vec![reals(&[1.0, 3.0]), reals(&[2.0, 4.0])]);
    assert_eq!(layer.biases(), &reals(&[1.0, 2.0]));
}

#[test]
fn backward_keeps_the_shape() {
    let mut layer = Layer::new(matrix(&[&[1.0, 3.0, 5.0], &[2.0, 4.0, 6.0]]), reals(&[1.0, 2.0])).unwrap();
    let back = layer
        .backward_prop(&InputLayer::new(reals(&[0.5, -1.0, 2.0])), &reals(&[0.25, -0.5]), Real(0.1))
        .unwrap();
    assert_eq!(back.len(), 3);
    assert_eq!(layer.input_size(), 3);
    assert_eq!(layer.output_size(), 2);
    assert_eq!(layer.weights().len(), 2);
    assert!(layer.weights().iter().all(|row| row.len() == 3));
    assert_eq!(layer.biases().len(), 2);
}

#[test]
fn backward_refuses_a_wrong_input_and_changes_nothing() {
    let mut layer = Layer::new(matrix(&[&[1.0, 3.0], &[2.0, 4.0]]), reals(&[1.0, 2.0])).unwrap();
    let r = layer.backward_prop(&InputLayer::new(reals(&[0.5])), &reals(&[0.25, -0.5]), Real(0.1));
    assert_eq!(r.err(), Some(ShapeError::Input { layer: 0, expected: 2, actual: 1 }));
    assert_eq!(layer.weights(), &vec![reals(&[1.0, 3.0]), reals(&[2.0, 4.0])]);
    assert_eq!(layer.biases(), &reals(&[1.0, 2.0]));
}

#[test]
fn backward_refuses_a_wrong_error_and_changes_nothing() {
    let mut layer = Layer::new(matrix(&[&[1.0, 3.0], &[2.0, 4.0]]), reals(&[1.0, 2.0])).unwrap();
    let r = layer.backward_prop(&InputLayer::new(reals(&[0.5, 1.0])), &reals(&[0.25, -0.5, 1.0]), Real(0.1));
    assert_eq!(r.err(), Some(ShapeError::Signal { layer: 0, expected: 2, actual: 3 }));
    assert_eq!(layer.weights(), &vec![reals(&[1.0, 3.0]), reals(&[2.0, 4.0])]);
    assert_eq!(layer.biases(), &reals(&[1.0, 2.0]));
}

#[test]
fn backward_names_the_input_when_both_lengths_are_wrong() {
    let mut layer = Layer::new(matrix(&[&[1.0, 3.0], &[2.0, 4.0]]), reals(&[1.0, 2.0])).unwrap();
    let r = layer.backward_prop(&InputLayer::new(reals(&[])), &reals(&[0.25]), Real(0.1));
    assert_eq!(r.err(), Some(ShapeError::Input { layer: 0, expected: 2, actual: 0 }));
}
