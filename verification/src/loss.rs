//! The loss a caller reports: mean squared error.
use vstd::prelude::*;
use crate::error::ShapeError;
use crate::scalar::{functional, is_count, is_difference, is_product, is_quotient, Scalar};
use crate::vector::{lemma_sum_extend, lemma_sum_functional, sum_via};

verus! {

/// `r` is the squared error `(p - a) * (p - a)`, through the difference `d`.
pub open spec fn squared_error_via<T: Scalar>(p: T, a: T, d: T, r: T) -> bool {
    &&& is_difference(p, a, d)
    &&& is_product(d, d, r)
}

/// `r` is a squared error of the prediction `p` against `a`.
pub open spec fn is_squared_error<T: Scalar>(p: T, a: T, r: T) -> bool {
    exists|d: T| squared_error_via(p, a, d, r)
}

/// `r` is the mean of the squared errors of `predicted` against `actual`:
/// `sq` holds the squared errors, `acc` records their sum from the left,
/// `count` stands for their number and `r` is the sum over `count`.
pub open spec fn mean_squared_error_via<T: Scalar>(
    predicted: Seq<T>,
    actual: Seq<T>,
    sq: Seq<T>,
    acc: Seq<T>,
    count: T,
    r: T,
) -> bool {
    &&& predicted.len() == actual.len()
    &&& predicted.len() <= u64::MAX
    &&& sq.len() == predicted.len()
    &&& forall|i: int| 0 <= i < sq.len() ==> is_squared_error(predicted[i], actual[i], #[trigger] sq[i])
    &&& sum_via(sq, acc)
    &&& is_count(predicted.len() as u64, count)
    &&& is_quotient(acc.last(), count, r)
}

/// `r` is a mean squared error of `predicted` against `actual`.
pub open spec fn is_mean_squared_error<T: Scalar>(predicted: Seq<T>, actual: Seq<T>, r: T) -> bool {
    exists|sq: Seq<T>, acc: Seq<T>, count: T| mean_squared_error_via(predicted, actual, sq, acc, count, r)
}

/// The mean over all entries of `(predicted[i] - actual[i])` squared. Two
/// vectors of different lengths are refused.
pub fn mean_squared_error<T: Scalar>(predicted: &Vec<T>, actual: &Vec<T>) -> (r: Result<T, ShapeError>)
    ensures
        match r {
            Ok(v) => {
                &&& predicted@.len() == actual@.len()
                &&& is_mean_squared_error(predicted@, actual@, v)
            },
            Err(e) => {
                &&& predicted@.len() != actual@.len()
                &&& e == (ShapeError::Lengths { expected: predicted@.len() as usize, actual: actual@.len() as usize })
            },
        },
{
    if predicted.len() != actual.len() {
        return Err(ShapeError::Lengths { expected: predicted.len(), actual: actual.len() });
    }
    let mut sum = T::zero();
    let ghost mut sq: Seq<T> = Seq::empty();
    let ghost mut acc: Seq<T> = seq![sum];
    let mut i: usize = 0;
    while i < predicted.len()
        invariant
            i <= predicted.len(),
            predicted.len() == actual.len(),
            sq.len() == i,
            forall|k: int| 0 <= k < i ==> is_squared_error(predicted@[k], actual@[k], #[trigger] sq[k]),
            sum_via(sq, acc),
            acc.last() == sum,
        decreases predicted.len() - i,
    {
        let d = predicted[i].minus(actual[i]);
        let s = d.times(d);
        let next = sum.plus(s);
        proof {
            assert(squared_error_via(predicted@[i as int], actual@[i as int], d, s));
            lemma_sum_extend(sq, acc, s, next);
            sq = sq.push(s);
            acc = acc.push(next);
        }
        sum = next;
        i += 1;
    }
    let count = T::from_u64(predicted.len() as u64);
    let mean = sum.over(count);
    assert(mean_squared_error_via(predicted@, actual@, sq, acc, count, mean));
    Ok(mean)
}

/// With functional operations two vectors have one mean squared error.
pub proof fn lemma_mean_squared_error_functional<T: Scalar>(predicted: Seq<T>, actual: Seq<T>, r1: T, r2: T)
    requires
        functional::<T>(),
        is_mean_squared_error(predicted, actual, r1),
        is_mean_squared_error(predicted, actual, r2),
    ensures
        r1 == r2,
{
    let (s1, a1, c1) = choose|sq: Seq<T>, acc: Seq<T>, count: T|
        mean_squared_error_via(predicted, actual, sq, acc, count, r1);
    let (s2, a2, c2) = choose|sq: Seq<T>, acc: Seq<T>, count: T|
        mean_squared_error_via(predicted, actual, sq, acc, count, r2);
    assert forall|i: int| 0 <= i < s1.len() implies s1[i] == s2[i] by {
        assert(is_squared_error(predicted[i], actual[i], s1[i]));
        assert(is_squared_error(predicted[i], actual[i], s2[i]));
        let d1 = choose|d: T| squared_error_via(predicted[i], actual[i], d, s1[i]);
        let d2 = choose|d: T| squared_error_via(predicted[i], actual[i], d, s2[i]);
        assert(d1 == d2);
    }
    assert(s1 =~= s2);
    lemma_sum_functional(s1, a1, a2, s1.len() as int);
    assert(c1 == c2);
}

} // verus!
