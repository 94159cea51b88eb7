//! Accumulations over vectors of scalars.
use vstd::prelude::*;
use crate::scalar::{
    functional, is_difference, is_product, is_slope, is_sum, is_zero, lemma_slope_functional, sigmoid_slope, Scalar,
};

verus! {

/// `acc` records the sum of `terms` taken from the left: `acc[0]` is a zero
/// and `acc[j + 1]` is `acc[j] + terms[j]`.
pub open spec fn sum_via<T: Scalar>(terms: Seq<T>, acc: Seq<T>) -> bool {
    &&& acc.len() == terms.len() + 1
    &&& is_zero(acc[0])
    &&& forall|j: int| 0 <= j < terms.len() ==> is_sum(acc[j], terms[j], #[trigger] acc[j + 1])
}

/// `prod` and `acc` record a dot product of `w` and `x` taken from the left:
/// `prod[j]` is `w[j] * x[j]`, and `acc` records the sum of `prod`.
pub open spec fn dot_via<T: Scalar>(w: Seq<T>, x: Seq<T>, prod: Seq<T>, acc: Seq<T>) -> bool {
    &&& w.len() == x.len()
    &&& prod.len() == w.len()
    &&& forall|j: int| 0 <= j < w.len() ==> is_product(w[j], x[j], #[trigger] prod[j])
    &&& sum_via(prod, acc)
}

/// `r` is a dot product of `w` and `x`, summed from the left starting at zero.
pub open spec fn is_dot<T: Scalar>(w: Seq<T>, x: Seq<T>, r: T) -> bool {
    exists|prod: Seq<T>, acc: Seq<T>| dot_via(w, x, prod, acc) && acc.last() == r
}

/// `d` is `a - b`, entry by entry.
pub open spec fn is_residual<T: Scalar>(a: Seq<T>, b: Seq<T>, d: Seq<T>) -> bool {
    &&& a.len() == b.len()
    &&& d.len() == a.len()
    &&& forall|i: int| 0 <= i < d.len() ==> is_difference(a[i], b[i], #[trigger] d[i])
}

/// `r` is the error `e` of a unit scaled by the slope of the sigmoid at the
/// unit's output `a`: `e * (a * (1 - a))`, through the slope `s`.
pub open spec fn scaled_via<T: Scalar>(e: T, a: T, s: T, r: T) -> bool {
    &&& is_slope(a, s)
    &&& is_product(e, s, r)
}

/// `r` is the error `e` of a unit scaled by the slope at its output `a`.
pub open spec fn is_scaled<T: Scalar>(e: T, a: T, r: T) -> bool {
    exists|s: T| scaled_via(e, a, s, r)
}

/// `r` is the error `err` of a layer's units, each scaled by the slope of
/// the sigmoid at the unit's output in `out`.
pub open spec fn is_scaled_error<T: Scalar>(err: Seq<T>, out: Seq<T>, r: Seq<T>) -> bool {
    &&& err.len() == out.len()
    &&& r.len() == err.len()
    &&& forall|i: int| 0 <= i < r.len() ==> is_scaled(err[i], out[i], #[trigger] r[i])
}

/// A record of a sum grows by one term.
pub proof fn lemma_sum_extend<T: Scalar>(terms: Seq<T>, acc: Seq<T>, t: T, a: T)
    requires
        sum_via(terms, acc),
        is_sum(acc.last(), t, a),
    ensures
        sum_via(terms.push(t), acc.push(a)),
{
    let terms2 = terms.push(t);
    let acc2 = acc.push(a);
    assert forall|j: int| 0 <= j < terms2.len() implies is_sum(acc2[j], terms2[j], #[trigger] acc2[j + 1]) by {
        if j < terms.len() {
            assert(is_sum(acc[j], terms[j], acc[j + 1]));
        }
    }
}

/// A record of a dot product grows by one term.
pub proof fn lemma_dot_extend<T: Scalar>(
    w: Seq<T>,
    x: Seq<T>,
    prod: Seq<T>,
    acc: Seq<T>,
    wn: T,
    xn: T,
    p: T,
    a: T,
)
    requires
        dot_via(w, x, prod, acc),
        is_product(wn, xn, p),
        is_sum(acc.last(), p, a),
    ensures
        dot_via(w.push(wn), x.push(xn), prod.push(p), acc.push(a)),
{
    let w2 = w.push(wn);
    let x2 = x.push(xn);
    let prod2 = prod.push(p);
    lemma_sum_extend(prod, acc, p, a);
    assert forall|j: int| 0 <= j < w2.len() implies is_product(w2[j], x2[j], #[trigger] prod2[j]) by {
        if j < w.len() {
            assert(is_product(w[j], x[j], prod[j]));
        }
    }
}

/// With functional operations two records of the sum of the same terms agree
/// at every step.
pub proof fn lemma_sum_functional<T: Scalar>(terms: Seq<T>, a1: Seq<T>, a2: Seq<T>, k: int)
    requires
        functional::<T>(),
        sum_via(terms, a1),
        sum_via(terms, a2),
        0 <= k <= terms.len(),
    ensures
        a1[k] == a2[k],
    decreases k,
{
    if k > 0 {
        lemma_sum_functional(terms, a1, a2, k - 1);
        assert(is_sum(a1[k - 1], terms[k - 1], a1[k - 1 + 1]));
        assert(is_sum(a2[k - 1], terms[k - 1], a2[k - 1 + 1]));
    }
}

/// With functional operations two vectors have one dot product.
pub proof fn lemma_dot_functional<T: Scalar>(w: Seq<T>, x: Seq<T>, r1: T, r2: T)
    requires
        functional::<T>(),
        is_dot(w, x, r1),
        is_dot(w, x, r2),
    ensures
        r1 == r2,
{
    let (first, a1) = choose|prod: Seq<T>, acc: Seq<T>| dot_via(w, x, prod, acc) && acc.last() == r1;
    let (second, a2) = choose|prod: Seq<T>, acc: Seq<T>| dot_via(w, x, prod, acc) && acc.last() == r2;
    assert forall|j: int| 0 <= j < w.len() implies first[j] == second[j] by {
        assert(is_product(w[j], x[j], first[j]));
        assert(is_product(w[j], x[j], second[j]));
    }
    assert(first =~= second);
    lemma_sum_functional(first, a1, a2, w.len() as int);
}

/// With functional operations two vectors have one residual.
pub proof fn lemma_residual_functional<T: Scalar>(a: Seq<T>, b: Seq<T>, d1: Seq<T>, d2: Seq<T>)
    requires
        functional::<T>(),
        is_residual(a, b, d1),
        is_residual(a, b, d2),
    ensures
        d1 == d2,
{
    assert forall|i: int| 0 <= i < d1.len() implies d1[i] == d2[i] by {
        assert(is_difference(a[i], b[i], d1[i]));
        assert(is_difference(a[i], b[i], d2[i]));
    }
    assert(d1 =~= d2);
}

/// With functional operations an error has one scaling by given outputs.
pub proof fn lemma_scaled_error_functional<T: Scalar>(err: Seq<T>, out: Seq<T>, r1: Seq<T>, r2: Seq<T>)
    requires
        functional::<T>(),
        is_scaled_error(err, out, r1),
        is_scaled_error(err, out, r2),
    ensures
        r1 == r2,
{
    assert forall|i: int| 0 <= i < r1.len() implies r1[i] == r2[i] by {
        assert(is_scaled(err[i], out[i], r1[i]));
        assert(is_scaled(err[i], out[i], r2[i]));
        let s1 = choose|s: T| scaled_via(err[i], out[i], s, r1[i]);
        let s2 = choose|s: T| scaled_via(err[i], out[i], s, r2[i]);
        lemma_slope_functional(out[i], s1, s2);
    }
    assert(r1 =~= r2);
}

/// The dot product of two vectors of one length, summed from the left.
pub fn dot<T: Scalar>(w: &Vec<T>, x: &Vec<T>) -> (r: T)
    requires
        w.len() == x.len(),
    ensures
        is_dot(w@, x@, r),
{
    let mut sum = T::zero();
    let ghost mut prod: Seq<T> = Seq::empty();
    let ghost mut acc: Seq<T> = seq![sum];
    let mut j: usize = 0;
    while j < w.len()
        invariant
            j <= w.len(),
            w.len() == x.len(),
            dot_via(w@.take(j as int), x@.take(j as int), prod, acc),
            acc.last() == sum,
        decreases w.len() - j,
    {
        let p = w[j].times(x[j]);
        let next = sum.plus(p);
        proof {
            lemma_dot_extend(w@.take(j as int), x@.take(j as int), prod, acc, w@[j as int], x@[j as int], p, next);
            assert(w@.take(j + 1) == w@.take(j as int).push(w@[j as int]));
            assert(x@.take(j + 1) == x@.take(j as int).push(x@[j as int]));
            prod = prod.push(p);
            acc = acc.push(next);
        }
        sum = next;
        j += 1;
    }
    proof {
        assert(w@.take(j as int) == w@);
        assert(x@.take(j as int) == x@);
    }
    sum
}

/// `a - b`, entry by entry, for two vectors of one length.
pub fn residual<T: Scalar>(a: &Vec<T>, b: &Vec<T>) -> (d: Vec<T>)
    requires
        a.len() == b.len(),
    ensures
        is_residual(a@, b@, d@),
{
    let mut d: Vec<T> = Vec::new();
    let mut i: usize = 0;
    while i < a.len()
        invariant
            i <= a.len(),
            a.len() == b.len(),
            d@.len() == i,
            forall|k: int| 0 <= k < i ==> is_difference(a@[k], b@[k], #[trigger] d@[k]),
        decreases a.len() - i,
    {
        d.push(a[i].minus(b[i]));
        i += 1;
    }
    d
}

/// The error of a layer's units, each scaled by the slope of the sigmoid at
/// the unit's output: `err[i] * (out[i] * (1 - out[i]))`.
pub fn scale_by_slope<T: Scalar>(err: &Vec<T>, out: &Vec<T>) -> (r: Vec<T>)
    requires
        err.len() == out.len(),
    ensures
        is_scaled_error(err@, out@, r@),
{
    let mut r: Vec<T> = Vec::new();
    let mut i: usize = 0;
    while i < err.len()
        invariant
            i <= err.len(),
            err.len() == out.len(),
            r@.len() == i,
            forall|k: int| 0 <= k < i ==> is_scaled(err@[k], out@[k], #[trigger] r@[k]),
        decreases err.len() - i,
    {
        let s = sigmoid_slope(out[i]);
        let v = err[i].times(s);
        assert(scaled_via(err@[i as int], out@[i as int], s, v));
        r.push(v);
        i += 1;
    }
    r
}

/// A vector with the same entries.
pub fn duplicate<T: Copy>(v: &Vec<T>) -> (r: Vec<T>)
    ensures
        r@ == v@,
{
    let mut r: Vec<T> = Vec::new();
    let mut i: usize = 0;
    while i < v.len()
        invariant
            i <= v.len(),
            r@ == v@.take(i as int),
        decreases v.len() - i,
    {
        r.push(v[i]);
        assert(v@.take(i + 1) == v@.take(i as int).push(v@[i as int]));
        i += 1;
    }
    assert(v@.take(i as int) == v@);
    r
}

} // verus!
