use feedforward::scalar::{sigmoid, sigmoid_slope, Scalar};
use feedforward::vector::{dot, duplicate, residual, scale_by_slope};

#[derive(Clone, Copy, Debug, PartialEq)]
struct Real(f64);

impl Scalar for Real {
    fn zero() -> Self {
        Real(0.0)
    }
    fn one() -> Self {
        Real(1.0)
    }
    fn from_u64(n: u64) -> Self {
        Real(n as f64)
    }
    fn plus(self, rhs: Self) -> Self {
        Real(self.0 + rhs.0)
    }
    fn minus(self, rhs: Self) -> Self {
        Real(self.0 - rhs.0)
    }
    fn times(self, rhs: Self) -> Self {
        Real(self.0 * rhs.0)
    }
    fn over(self, rhs: Self) -> Self {
        Real(self.0 / rhs.0)
    }
    fn negate(self) -> Self {
        Real(-self.0)
    }
    fn exp(self) -> Self {
        Real(self.0.exp())
    }
}

fn reals(values: &[f64]) -> Vec<Real> {
    values.iter().map(|v| Real(*v)).collect()
}

fn plain(values: &[Real]) -> Vec<f64> {
    values.iter().map(|v| v.0).collect()
}

#[test]
fn sigmoid_of_zero_is_one_half() {
    assert_eq!(sigmoid(Real(0.0)), Real(0.5));
}

#[test]
fn sigmoid_of_four() {
    let Real(y) = sigmoid(Real(4.0));
    assert_eq!(y, 1.0 / (1.0 + (-4.0f64).exp()));
    assert!((y - 0.9820137900).abs() < 1e-9);
}

#[test]
fn sigmoid_is_symmetric_about_one_half() {
    let Real(up) = sigmoid(Real(2.5));
    let Real(down) = sigmoid(Real(-2.5));
    assert!((up + down - 1.0).abs() < 1e-15);
    assert!(down < 0.5 && 0.5 < up);
}

#[test]
fn sigmoid_saturates_without_failing() {
    assert_eq!(sigmoid(Real(1000.0)), Real(1.0));
    assert_eq!(sigmoid(Real(-1000.0)), Real(0.0));
}

#[test]
fn sigmoid_passes_nan_through() {
    let Real(y) = sigmoid(Real(f64::NAN));
    assert!(y.is_nan());
}

#[test]
fn dot_sums_products_from_the_left() {
    let w = reals(&[1.0, 3.0, -2.0]);
    let x = reals(&[0.5, 1.0, 4.0]);
    assert_eq!(dot(&w, &x), Real(0.0 + 1.0 * 0.5 + 3.0 * 1.0 + -2.0 * 4.0));
    assert_eq!(dot(&w, &x), Real(-4.5));
}

#[test]
fn dot_of_nothing_is_zero() {
    assert_eq!(dot(&reals(&[]), &reals(&[])), Real(0.0));
}

#[test]
fn dot_keeps_the_order_of_summation() {
    let w = reals(&[1e16, 1.0, -1e16]);
    let x = reals(&[1.0, 1.0, 1.0]);
    assert_eq!(dot(&w, &x), Real(((0.0 + 1e16) + 1.0) + -1e16));
    assert_eq!(dot(&w, &x), Real(0.0));
}

#[test]
fn residual_subtracts_entry_by_entry() {
    let d = residual(&reals(&[1.0, 2.0, 0.25]), &reals(&[1.0, 0.0, 1.0]));
    assert_eq!(plain(&d), vec![0.0, 2.0, -0.75]);
}

#[test]
fn duplicate_copies_every_entry() {
    let v = reals(&[3.0, -1.5, 0.0]);
    let c = duplicate(&v);
    assert_eq!(c, v);
    assert_eq!(duplicate(&reals(&[])), reals(&[]));
}

#[test]
fn slope_is_steepest_at_one_half() {
    assert_eq!(sigmoid_slope(Real(0.5)), Real(0.25));
    assert_eq!(sigmoid_slope(Real(0.0)), Real(0.0));
    assert_eq!(sigmoid_slope(Real(1.0)), Real(0.0));
    assert_eq!(sigmoid_slope(Real(0.25)), Real(0.25 * (1.0 - 0.25)));
}

#[test]
fn scale_by_slope_scales_each_entry_by_its_own_output() {
    let r = scale_by_slope(&reals(&[2.0, -4.0, 1.0]), &reals(&[0.5, 0.25, 1.0]));
    assert_eq!(plain(&r), vec![2.0 * (0.5 * (1.0 - 0.5)), -4.0 * (0.25 * (1.0 - 0.25)), 1.0 * (1.0 * (1.0 - 1.0))]);
    assert_eq!(plain(&r), vec![0.5, -0.75, 0.0]);
}
