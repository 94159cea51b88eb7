//! Initial parameters: numbers spread evenly over `[-1, 1)`, drawn from a
//! random source that the caller hands in.
use vstd::prelude::*;
use rand::rngs::StdRng;
use crate::scalar::{is_count, is_difference, is_one, is_quotient, Scalar};

verus! {

/// rand's standard generator. Nothing inside it is visible here.
#[verifier::external_type_specification]
#[verifier::external_body]
pub struct ExStdRng(StdRng);

/// The next 64 bits of `rng`: `RngCore::next_u64` of rand's `StdRng`, which
/// steps the generator and returns a word. The word depends on the state of
/// the generator, so nothing is claimed of it.
#[verifier::external_body]
pub(crate) fn next_word(rng: &mut StdRng) -> (word: u64) {
    rand::RngCore::next_u64(rng)
}

/// Two to the power of 52.
pub const HALF_RANGE: u64 = 0x10_0000_0000_0000;

/// `r` is the initial value that the random word `word` stands for:
/// `(word >> 11) / 2^52 - 1`, through the count `c` of the upper 53 bits of
/// the word, the count `d` of `2^52`, the quotient `q` and the one `o`.
///
/// The upper 53 bits run over `0 .. 2^53`, so in a number type that holds 53
/// bits exactly the values are the multiples of `2^-52` in `[-1, 1)`.
pub open spec fn initial_via<T: Scalar>(word: u64, c: T, d: T, q: T, o: T, r: T) -> bool {
    &&& is_count(word >> 11, c)
    &&& is_count(HALF_RANGE, d)
    &&& is_quotient(c, d, q)
    &&& is_one(o)
    &&& is_difference(q, o, r)
}

/// The upper 53 bits of a word count less than `2^53`: the quotient by `2^52`
/// is taken of a count below `2 * HALF_RANGE`.
pub proof fn lemma_upper_bits_bounded(word: u64)
    ensures
        (word >> 11) < 2 * HALF_RANGE,
{
    assert((word >> 11) < 0x20_0000_0000_0000u64) by (bit_vector);
}

/// `r` is an initial value for the random word `word`.
pub open spec fn is_initial<T: Scalar>(word: u64, r: T) -> bool {
    exists|c: T, d: T, q: T, o: T| initial_via(word, c, d, q, o, r)
}

/// `r` is an initial value for some word.
pub open spec fn is_drawn<T: Scalar>(r: T) -> bool {
    exists|word: u64| is_initial(word, r)
}

/// The initial value that a random word stands for: `(word >> 11) / 2^52 - 1`.
pub fn initial_value<T: Scalar>(word: u64) -> (r: T)
    ensures
        is_initial(word, r),
{
    let c = T::from_u64(word >> 11);
    let d = T::from_u64(HALF_RANGE);
    let q = c.over(d);
    let o = T::one();
    let r = q.minus(o);
    assert(initial_via(word, c, d, q, o, r));
    r
}

/// An initial value drawn from `rng`.
pub fn draw<T: Scalar>(rng: &mut StdRng) -> (r: T)
    ensures
        is_drawn(r),
{
    let word = next_word(rng);
    let r = initial_value(word);
    assert(is_initial(word, r));
    r
}

} // verus!
