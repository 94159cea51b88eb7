use feedforward::error::ShapeError;
use feedforward::init::{draw, initial_value, HALF_RANGE};
use feedforward::loss::mean_squared_error;
use feedforward::scalar::Scalar;
use rand::rngs::StdRng;
use rand::SeedableRng;

#[derive(Clone, Copy, Debug, PartialEq)]
struct Real(f64);

impl Scalar for Real {
    fn zero() -> Self {
        Real(0.0)
    }
    fn one() -> Self {
        Real(1.0)
    }
    fn from_u64(n: u64) -> Self {
        Real(n as f64)
    }
    fn plus(self, rhs: Self) -> Self {
        Real(self.0 + rhs.0)
    }
    fn minus(self, rhs: Self) -> Self {
        Real(self.0 - rhs.0)
    }
    fn times(self, rhs: Self) -> Self {
        Real(self.0 * rhs.0)
    }
    fn over(self, rhs: Self) -> Self {
        Real(self.0 / rhs.0)
    }
    fn negate(self) -> Self {
        Real(-self.0)
    }
    fn exp(self) -> Self {
        Real(self.0.exp())
    }
}

fn reals(values: &[f64]) -> Vec<Real> {
    values.iter().map(|v| Real(*v)).collect()
}

fn plain(values: &[Real]) -> Vec<f64> {
    values.iter().map(|v| v.0).collect()
}

#[test]
fn mean_squared_error_of_two_entries() {
    let e = mean_squared_error(&reals(&[1.0, 2.0]), &reals(&[1.0, 0.0])).unwrap();
    assert_eq!(e, Real(((1.0 - 1.0) * (1.0 - 1.0) + (2.0 - 0.0) * (2.0 - 0.0)) / 2.0));
    assert_eq!(e, Real(2.0));
}

#[test]
fn mean_squared_error_of_equal_vectors_is_zero() {
    let v = reals(&[0.25, -3.0, 7.5]);
    assert_eq!(mean_squared_error(&v, &v).unwrap(), Real(0.0));
}

#[test]
fn mean_squared_error_of_one_entry() {
    assert_eq!(mean_squared_error(&reals(&[0.5]), &reals(&[1.0])).unwrap(), Real(0.25));
}

#[test]
fn mean_squared_error_does_not_care_which_is_larger() {
    let a = mean_squared_error(&reals(&[1.0, 4.0]), &reals(&[3.0, 1.0])).unwrap();
    let b = mean_squared_error(&reals(&[3.0, 1.0]), &reals(&[1.0, 4.0])).unwrap();
    assert_eq!(a, Real(6.5));
    assert_eq!(a, b);
}

#[test]
fn mean_squared_error_of_nothing_is_not_a_number() {
    let Real(e) = mean_squared_error(&reals(&[]), &reals(&[])).unwrap();
    assert!(e.is_nan());
}

#[test]
fn mean_squared_error_refuses_different_lengths() {
    let r = mean_squared_error(&reals(&[1.0, 2.0]), &reals(&[1.0]));
    assert_eq!(r, Err(ShapeError::Lengths { expected: 2, actual: 1 }));
    let r = mean_squared_error(&reals(&[]), &reals(&[1.0, 2.0, 3.0]));
    assert_eq!(r, Err(ShapeError::Lengths { expected: 0, actual: 3 }));
}

#[test]
fn half_range_is_two_to_the_52() {
    assert_eq!(HALF_RANGE, 1u64 << 52);
}

#[test]
fn initial_values_at_the_ends_of_the_range() {
    assert_eq!(initial_value::<Real>(0), Real(-1.0));
    assert_eq!(initial_value::<Real>(u64::MAX), Real(1.0 - f64::EPSILON));
    assert_eq!(initial_value::<Real>(1 << 63), Real(0.0));
    assert_eq!(initial_value::<Real>(1 << 62), Real(-0.5));
    assert_eq!(initial_value::<Real>(3 << 62), Real(0.5));
}

#[test]
fn initial_value_reads_the_upper_53_bits() {
    assert_eq!(initial_value::<Real>(0x7ff), Real(-1.0));
    assert_eq!(initial_value::<Real>(0x800), Real(-1.0 + f64::EPSILON));
    assert_eq!(initial_value::<Real>(0xfff), Real(-1.0 + f64::EPSILON));
}

#[test]
fn initial_value_grows_with_the_word() {
    let words = [0u64, 1 << 11, 1 << 30, 1 << 62, 1 << 63, u64::MAX - 0x7ff, u64::MAX];
    let values: Vec<f64> = words.iter().map(|w| initial_value::<Real>(*w).0).collect();
    assert!(values.windows(2).all(|w| w[0] <= w[1]));
    assert!(values.iter().all(|v| -1.0 <= *v && *v < 1.0));
}

#[test]
fn draw_steps_the_source() {
    let mut rng = StdRng::seed_from_u64(6);
    let mut same = StdRng::seed_from_u64(6);
    let first: Real = draw(&mut rng);
    let second: Real = draw(&mut rng);
    let again: Real = draw(&mut same);
    assert_eq!(first, again);
    assert_ne!(first, second);
    assert!(-1.0 <= first.0 && first.0 < 1.0);
    assert!(-1.0 <= second.0 && second.0 < 1.0);
}

#[test]
fn draws_spread_over_the_range() {
    let mut rng = StdRng::seed_from_u64(6);
    let values: Vec<f64> = (0..2000).map(|_| draw::<Real>(&mut rng).0).collect();
    assert!(values.iter().all(|v| -1.0 <= *v && *v < 1.0));
    let mean = values.iter().sum::<f64>() / 2000.0;
    assert!(mean.abs() < 0.1);
    assert!(values.iter().any(|v| *v < -0.9));
    assert!(values.iter().any(|v| *v > 0.9));
}
