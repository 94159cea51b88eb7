//! The number type of a network and the relations its operations define.
use vstd::prelude::*;

verus! {

/// The primitive operations a network is computed with.
///
/// The methods carry no contract: nothing is assumed of an implementation.
/// What a method may return is spoken of through the relations below, and
/// every result of this library is stated in terms of them.
pub trait Scalar: Copy {
    /// The additive identity, with which every accumulation starts.
    fn zero() -> Self;

    /// The multiplicative identity.
    fn one() -> Self;

    /// The number that stands for a count.
    fn from_u64(n: u64) -> Self;

    /// `self + rhs`.
    fn plus(self, rhs: Self) -> Self;

    /// `self - rhs`.
    fn minus(self, rhs: Self) -> Self;

    /// `self * rhs`.
    fn times(self, rhs: Self) -> Self;

    /// `self / rhs`.
    fn over(self, rhs: Self) -> Self;

    /// `-self`.
    fn negate(self) -> Self;

    /// The natural exponential of `self`.
    fn exp(self) -> Self;
}

/// `r` is a value that `zero` may return.
pub open spec fn is_zero<T: Scalar>(r: T) -> bool {
    call_ensures(T::zero, (), r)
}

/// `r` is a value that `one` may return.
pub open spec fn is_one<T: Scalar>(r: T) -> bool {
    call_ensures(T::one, (), r)
}

/// `r` is a value that `from_u64(n)` may return.
pub open spec fn is_count<T: Scalar>(n: u64, r: T) -> bool {
    call_ensures(T::from_u64, (n,), r)
}

/// `r` is a value that `a.plus(b)` may return.
pub open spec fn is_sum<T: Scalar>(a: T, b: T, r: T) -> bool {
    call_ensures(T::plus, (a, b), r)
}

/// `r` is a value that `a.minus(b)` may return.
pub open spec fn is_difference<T: Scalar>(a: T, b: T, r: T) -> bool {
    call_ensures(T::minus, (a, b), r)
}

/// `r` is a value that `a.times(b)` may return.
pub open spec fn is_product<T: Scalar>(a: T, b: T, r: T) -> bool {
    call_ensures(T::times, (a, b), r)
}

/// `r` is a value that `a.over(b)` may return.
pub open spec fn is_quotient<T: Scalar>(a: T, b: T, r: T) -> bool {
    call_ensures(T::over, (a, b), r)
}

/// `r` is a value that `a.negate()` may return.
pub open spec fn is_negation<T: Scalar>(a: T, r: T) -> bool {
    call_ensures(T::negate, (a,), r)
}

/// `r` is a value that `a.exp()` may return.
pub open spec fn is_exp<T: Scalar>(a: T, r: T) -> bool {
    call_ensures(T::exp, (a,), r)
}

/// Every primitive operation has one result for given operands.
pub open spec fn functional<T: Scalar>() -> bool {
    &&& forall|r: T, s: T| is_zero(r) && is_zero(s) ==> r == s
    &&& forall|r: T, s: T| is_one(r) && is_one(s) ==> r == s
    &&& forall|n: u64, r: T, s: T| is_count(n, r) && is_count(n, s) ==> r == s
    &&& forall|a: T, b: T, r: T, s: T| is_sum(a, b, r) && is_sum(a, b, s) ==> r == s
    &&& forall|a: T, b: T, r: T, s: T| is_difference(a, b, r) && is_difference(a, b, s) ==> r == s
    &&& forall|a: T, b: T, r: T, s: T| is_product(a, b, r) && is_product(a, b, s) ==> r == s
    &&& forall|a: T, b: T, r: T, s: T| is_quotient(a, b, r) && is_quotient(a, b, s) ==> r == s
    &&& forall|a: T, r: T, s: T| is_negation(a, r) && is_negation(a, s) ==> r == s
    &&& forall|a: T, r: T, s: T| is_exp(a, r) && is_exp(a, s) ==> r == s
}

/// `r` is the logistic sigmoid of `x`: `1 / (1 + exp(-x))`, computed through
/// the intermediate values `n = -x`, `e = exp(n)`, `o = 1` and `s = o + e`.
pub open spec fn sigmoid_via<T: Scalar>(x: T, n: T, e: T, o: T, s: T, r: T) -> bool {
    &&& is_negation(x, n)
    &&& is_exp(n, e)
    &&& is_one(o)
    &&& is_sum(o, e, s)
    &&& is_quotient(o, s, r)
}

/// `r` is a logistic sigmoid of `x`.
pub open spec fn is_sigmoid<T: Scalar>(x: T, r: T) -> bool {
    exists|n: T, e: T, o: T, s: T| sigmoid_via(x, n, e, o, s, r)
}

/// The logistic sigmoid `1 / (1 + exp(-x))`.
pub fn sigmoid<T: Scalar>(x: T) -> (r: T)
    ensures
        is_sigmoid(x, r),
{
    let n = x.negate();
    let e = n.exp();
    let o = T::one();
    let s = o.plus(e);
    let r = o.over(s);
    assert(sigmoid_via(x, n, e, o, s, r));
    r
}

/// `r` is the slope of the sigmoid where its value is `a`: `a * (1 - a)`,
/// through the one `o` and the difference `c = o - a`.
pub open spec fn slope_via<T: Scalar>(a: T, o: T, c: T, r: T) -> bool {
    &&& is_one(o)
    &&& is_difference(o, a, c)
    &&& is_product(a, c, r)
}

/// `r` is a slope of the sigmoid where its value is `a`.
pub open spec fn is_slope<T: Scalar>(a: T, r: T) -> bool {
    exists|o: T, c: T| slope_via(a, o, c, r)
}

/// The derivative of the sigmoid, taken from the sigmoid's value `a` at the
/// point in question: `a * (1 - a)`.
pub fn sigmoid_slope<T: Scalar>(a: T) -> (r: T)
    ensures
        is_slope(a, r),
{
    let o = T::one();
    let c = o.minus(a);
    let r = a.times(c);
    assert(slope_via(a, o, c, r));
    r
}

/// With functional operations the sigmoid has one slope at a value.
pub proof fn lemma_slope_functional<T: Scalar>(a: T, r1: T, r2: T)
    requires
        functional::<T>(),
        is_slope(a, r1),
        is_slope(a, r2),
    ensures
        r1 == r2,
{
    let (o1, c1) = choose|o: T, c: T| slope_via(a, o, c, r1);
    let (o2, c2) = choose|o: T, c: T| slope_via(a, o, c, r2);
    assert(o1 == o2);
    assert(c1 == c2);
}

/// With functional operations a number has one sigmoid.
pub proof fn lemma_sigmoid_functional<T: Scalar>(x: T, r1: T, r2: T)
    requires
        functional::<T>(),
        is_sigmoid(x, r1),
        is_sigmoid(x, r2),
    ensures
        r1 == r2,
{
    let (n1, e1, o1, s1) = choose|n: T, e: T, o: T, s: T| sigmoid_via(x, n, e, o, s, r1);
    let (n2, e2, o2, s2) = choose|n: T, e: T, o: T, s: T| sigmoid_via(x, n, e, o, s, r2);
    assert(n1 == n2);
    assert(e1 == e2);
    assert(o1 == o2);
    assert(s1 == s2);
}

} // verus!
