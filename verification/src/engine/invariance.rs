//! What the overlap keeps in exact arithmetic.
//!
//! The recurrence of the overlap raises the powers of the first center while those of the
//! second are zero, and then those of the second. Without rounding the order of the two
//! does not matter, which makes the overlap symmetric and its derivatives with respect to
//! both centers opposite.
use vstd::prelude::*;

use crate::engine::os::{axis_of, axis_overlap, overlap_value, product_of, Axis, Prim};
use crate::engine::triples::{power, shifted};
use crate::exact::{
    counts_exactly, halves_exactly, is_ring, lemma_ring_commute, lemma_ring_factors,
    lemma_ring_negatives, lemma_ring_sums,
};
use crate::math::am::Powers;
use crate::scalar::{fraction, Real, Scalar};

verus! {

/// The inner two of four summands may change places.
pub proof fn lemma_interchange<T: Scalar>(a: T, b: T, c: T, d: T)
    requires
        is_ring::<T>(),
    ensures
        T::sum(T::sum(a, b), T::sum(c, d)) == T::sum(T::sum(a, c), T::sum(b, d)),
{
    lemma_ring_sums(T::sum(a, b), c, d);
    lemma_ring_sums(a, b, c);
    lemma_ring_sums(T::sum(a, c), b, d);
}

proof fn lemma_seven<T: Scalar>(p: T, q: T, r: T, s: T, t: T, u: T, v: T)
    requires
        is_ring::<T>(),
    ensures
        T::sum(T::sum(p, q), T::sum(T::sum(T::sum(r, s), t), T::sum(u, v))) == T::sum(
            T::sum(r, u),
            T::sum(T::sum(p, s), T::sum(T::sum(q, v), t)),
        ),
{
    let e = T::sum(T::sum(r, s), t);
    let f = T::sum(u, v);
    let m = T::sum(p, s);
    let n = T::sum(q, v);
    lemma_interchange(p, q, e, f);
    lemma_ring_sums(p, T::sum(r, s), t);
    lemma_ring_sums(p, r, s);
    lemma_ring_sums(r, p, s);
    assert(T::sum(p, T::sum(r, s)) == T::sum(r, m));
    lemma_ring_sums(q, u, v);
    lemma_ring_sums(u, q, v);
    assert(T::sum(q, f) == T::sum(u, n));
    lemma_ring_sums(r, m, t);
    assert(T::sum(p, e) == T::sum(r, T::sum(m, t)));
    lemma_interchange(r, T::sum(m, t), u, n);
    lemma_ring_sums(m, t, n);
    lemma_ring_sums(t, n, n);
}

/// The lower neighbours of a pair of powers, each times its power.
pub open spec fn lower<T: Scalar>(x: Axis<T>, i: int, j: int) -> T {
    T::sum(
        T::prod(T::count(i as u64), axis_overlap(x, i - 1, j)),
        T::prod(T::count(j as u64), axis_overlap(x, i, j - 1)),
    )
}

/// No times a value is zero.
pub proof fn lemma_no_count<T: Scalar>(a: T)
    requires
        is_ring::<T>(),
    ensures
        T::prod(T::count(0), a) == T::count(0),
{
    lemma_ring_commute(T::count(0), a);
    lemma_ring_sums(a, a, a);
}

/// The second power raised.
pub proof fn lemma_raise_second<T: Scalar>(x: Axis<T>, i: int, j: int)
    requires
        is_ring::<T>(),
        0 <= i,
        0 <= j,
    ensures
        axis_overlap(x, i, j + 1) == T::sum(
            T::prod(x.pb, axis_overlap(x, i, j)),
            T::prod(x.h, lower(x, i, j)),
        ),
{
    lemma_no_count(axis_overlap(x, i - 1, j));
    lemma_no_count(axis_overlap(x, i, j - 1));
}

/// The first power raised, whatever the second.
proof fn lemma_raise_first<T: Scalar>(x: Axis<T>, i: int, j: int)
    requires
        is_ring::<T>(),
        counts_exactly::<T>(),
        0 <= i < u64::MAX,
        0 <= j < u64::MAX,
    ensures
        axis_overlap(x, i + 1, j) == T::sum(
            T::prod(x.pa, axis_overlap(x, i, j)),
            T::prod(x.h, lower(x, i, j)),
        ),
    decreases j, i,
{
    let (ci, cj) = (T::count(i as u64), T::count(j as u64));
    if j == 0 {
        lemma_no_count(axis_overlap(x, i - 1, j));
        lemma_no_count(axis_overlap(x, i, j - 1));
        let v = T::prod(ci, axis_overlap(x, i - 1, j));
        lemma_ring_sums(v, v, v);
    } else {
        let k = j - 1;
        let (a, b, h) = (x.pa, x.pb, x.h);
        let cc = T::count(k as u64);
        let s = axis_overlap(x, i, k);
        let up = axis_overlap(x, i + 1, k);
        let across = axis_overlap(x, i, j);
        lemma_raise_first(x, i, k);
        lemma_raise_second(x, i, k);
        lemma_raise_second(x, i + 1, k);
        let bb = axis_overlap(x, i - 1, k);
        let c = axis_overlap(x, i, k - 1);
        let w = lower(x, i, k);
        let u = axis_overlap(x, i + 1, k - 1);
        let v = axis_overlap(x, i - 1, j);
        let kk = T::prod(h, lower(x, i - 1, k));
        let g = T::prod(h, lower(x, i, k - 1));
        assert(T::prod(ci, s) == T::prod(ci, T::sum(T::prod(a, bb), kk)) && T::prod(ci, v)
            == T::prod(ci, T::sum(T::prod(b, bb), kk))) by {
            if i == 0 {
                lemma_no_count(s);
                lemma_no_count(v);
                lemma_no_count(T::sum(T::prod(a, bb), kk));
                lemma_no_count(T::sum(T::prod(b, bb), kk));
            } else {
                lemma_raise_first(x, i - 1, k);
                lemma_raise_second(x, i - 1, k);
            }
        }
        assert(T::prod(cc, s) == T::prod(cc, T::sum(T::prod(b, c), g)) && T::prod(cc, u)
            == T::prod(cc, T::sum(T::prod(a, c), g))) by {
            if k == 0 {
                lemma_no_count(s);
                lemma_no_count(u);
                lemma_no_count(T::sum(T::prod(b, c), g));
                lemma_no_count(T::sum(T::prod(a, c), g));
            } else {
                lemma_raise_first(x, i, k - 1);
                lemma_raise_second(x, i, k - 1);
            }
        }
        lemma_ring_factors(ci, T::prod(a, bb), kk);
        lemma_ring_factors(ci, T::prod(b, bb), kk);
        lemma_ring_factors(cc, T::prod(b, c), g);
        lemma_ring_factors(cc, T::prod(a, c), g);
        let (ib, ia) = (T::prod(ci, T::prod(b, bb)), T::prod(ci, T::prod(a, bb)));
        let (jb, ja) = (T::prod(cc, T::prod(b, c)), T::prod(cc, T::prod(a, c)));
        let (ik, jg) = (T::prod(ci, kk), T::prod(cc, g));
        lemma_ring_factors(b, T::prod(ci, bb), T::prod(cc, c));
        lemma_ring_factors(ci, b, bb);
        lemma_ring_factors(cc, b, c);
        assert(T::prod(b, w) == T::sum(ib, jb));
        lemma_ring_factors(a, T::prod(ci, bb), T::prod(cc, c));
        lemma_ring_factors(ci, a, bb);
        lemma_ring_factors(cc, a, c);
        assert(T::prod(a, w) == T::sum(ia, ja));
        lemma_more(i as u64, s);
        lemma_more(k as u64, s);
        let left = T::sum(T::sum(T::prod(ci, s), s), T::prod(cc, u));
        let right = T::sum(T::prod(ci, v), T::sum(T::prod(cc, s), s));
        assert(lower(x, i + 1, k) == left);
        assert(lower(x, i, j) == right);
        lemma_ring_sums(ia, ik, s);
        lemma_seven(ib, jb, ia, ik, s, ja, jg);
        assert(T::sum(T::prod(b, w), left) == T::sum(T::prod(a, w), right));
        lemma_ring_factors(b, T::prod(a, s), T::prod(h, w));
        lemma_ring_factors(a, T::prod(b, s), T::prod(h, w));
        lemma_ring_factors(h, b, w);
        lemma_ring_factors(h, a, w);
        lemma_ring_factors(b, a, s);
        lemma_ring_factors(h, T::prod(b, w), left);
        lemma_ring_factors(h, T::prod(a, w), right);
        let base = T::prod(a, T::prod(b, s));
        lemma_ring_sums(base, T::prod(h, T::prod(b, w)), T::prod(h, left));
        lemma_ring_sums(base, T::prod(h, T::prod(a, w)), T::prod(h, right));
    }
}

/// One more than a count, times a value.
proof fn lemma_more<T: Scalar>(n: u64, a: T)
    requires
        is_ring::<T>(),
        counts_exactly::<T>(),
        n < u64::MAX,
    ensures
        T::prod(T::count((n + 1) as u64), a) == T::sum(T::prod(T::count(n), a), a),
{
    let c = T::count(n);
    let d = T::count((n + 1) as u64);
    assert(d == T::sum(c, T::count(1)));
    lemma_ring_commute(d, a);
    lemma_ring_factors(a, c, T::count(1));
    lemma_ring_commute(a, c);
    lemma_ring_commute(a, T::count(1));
    lemma_ring_sums(a, a, a);
}

/// The recurrence with the centers exchanged.
pub open spec fn exchanged<T>(x: Axis<T>) -> Axis<T> {
    Axis { h: x.h, pa: x.pb, pb: x.pa, base: x.base }
}

/// The overlap along an axis in the other order.
pub proof fn lemma_exchanged<T: Scalar>(x: Axis<T>, i: int, j: int)
    requires
        is_ring::<T>(),
        counts_exactly::<T>(),
        0 <= i < u64::MAX,
        0 <= j < u64::MAX,
    ensures
        axis_overlap(x, i, j) == axis_overlap(exchanged(x), j, i),
    decreases i + j,
{
    let y = exchanged(x);
    if j > 0 {
        lemma_raise_second(x, i, j - 1);
        lemma_raise_first(y, j - 1, i);
        lemma_exchanged(x, i, j - 1);
        lemma_exchanged_lower(x, i, j - 1);
    } else if i > 0 {
        lemma_raise_first(x, i - 1, j);
        lemma_raise_second(y, j, i - 1);
        lemma_exchanged(x, i - 1, j);
        lemma_exchanged_lower(x, i - 1, j);
    }
}

/// The lower neighbours in the other order.
pub proof fn lemma_exchanged_lower<T: Scalar>(x: Axis<T>, i: int, j: int)
    requires
        is_ring::<T>(),
        counts_exactly::<T>(),
        0 <= i < u64::MAX,
        0 <= j < u64::MAX,
    ensures
        lower(x, i, j) == lower(exchanged(x), j, i),
    decreases i + j,
{
    let y = exchanged(x);
    if i > 0 {
        lemma_exchanged(x, i - 1, j);
    } else {
        lemma_no_count(axis_overlap(x, i - 1, j));
        lemma_no_count(axis_overlap(y, j, i - 1));
    }
    if j > 0 {
        lemma_exchanged(x, i, j - 1);
    } else {
        lemma_no_count(axis_overlap(x, i, j - 1));
        lemma_no_count(axis_overlap(y, j - 1, i));
    }
    let (u, v) = (
        T::prod(T::count(i as u64), axis_overlap(x, i - 1, j)),
        T::prod(T::count(j as u64), axis_overlap(x, i, j - 1)),
    );
    lemma_ring_sums(u, v, v);
}

/// A difference and its negative have the same square.
pub proof fn lemma_opposite<T: Scalar>(a: T, b: T, m: T)
    requires
        is_ring::<T>(),
    ensures
        T::diff(b, a) == T::neg(T::diff(a, b)),
        T::prod(T::prod(m, T::diff(b, a)), T::diff(b, a)) == T::prod(
            T::prod(m, T::diff(a, b)),
            T::diff(a, b),
        ),
{
    let d = T::diff(a, b);
    let e = T::diff(b, a);
    lemma_ring_negatives(a, b);
    lemma_ring_negatives(b, a);
    lemma_ring_negatives(a, T::neg(b));
    lemma_ring_sums(T::neg(a), b, b);
    assert(e == T::neg(d));
    lemma_ring_negatives(e, d);
    lemma_ring_commute(e, d);
    lemma_ring_negatives(d, d);
    assert(T::prod(e, e) == T::neg(T::prod(d, e)));
    assert(T::prod(d, e) == T::neg(T::prod(d, d)));
    lemma_ring_negatives(T::prod(d, d), d);
    lemma_ring_factors(m, e, e);
    lemma_ring_factors(m, d, d);
}

/// The recurrence along an axis of two primitives in the other order.
pub proof fn lemma_axis_exchanged<T: Real>(a: Prim<T>, b: Prim<T>, k: int)
    requires
        is_ring::<T>(),
        0 <= k < 3,
    ensures
        axis_of(b, a, k) == exchanged(axis_of(a, b, k)),
        product_of(b.exp, b.center, a.exp, a.center).p_center[k] == product_of(
            a.exp,
            a.center,
            b.exp,
            b.center,
        ).p_center[k],
{
    let p = product_of(a.exp, a.center, b.exp, b.center);
    let q = product_of(b.exp, b.center, a.exp, a.center);
    lemma_ring_sums(a.exp, b.exp, b.exp);
    lemma_ring_commute(a.exp, b.exp);
    lemma_ring_sums(
        T::prod(a.exp, a.center[0]),
        T::prod(b.exp, b.center[0]),
        T::prod(b.exp, b.center[0]),
    );
    lemma_ring_sums(
        T::prod(a.exp, a.center[1]),
        T::prod(b.exp, b.center[1]),
        T::prod(b.exp, b.center[1]),
    );
    lemma_ring_sums(
        T::prod(a.exp, a.center[2]),
        T::prod(b.exp, b.center[2]),
        T::prod(b.exp, b.center[2]),
    );
    assert(p.p == q.p && p.mu == q.mu && p.one_over_2p == q.one_over_2p);
    assert(p.p_center[0] == q.p_center[0] && p.p_center[1] == q.p_center[1] && p.p_center[2]
        == q.p_center[2]);
    lemma_opposite(a.center[k], b.center[k], T::neg(p.mu));
}

/// The overlap of two primitives does not depend on their order, in any commutative ring
/// in which counts add up.
pub proof fn law_overlap_is_symmetric<T: Real>(a: Prim<T>, b: Prim<T>, ca: Powers, cb: Powers)
    requires
        is_ring::<T>(),
        counts_exactly::<T>(),
        0 <= ca.0 < u64::MAX,
        0 <= ca.1 < u64::MAX,
        0 <= ca.2 < u64::MAX,
        0 <= cb.0 < u64::MAX,
        0 <= cb.1 < u64::MAX,
        0 <= cb.2 < u64::MAX,
    ensures
        overlap_value(a, b, ca, cb) == overlap_value(b, a, cb, ca),
{
    lemma_axis_exchanged(a, b, 0);
    lemma_axis_exchanged(a, b, 1);
    lemma_axis_exchanged(a, b, 2);
    lemma_exchanged(axis_of(a, b, 0), ca.0, cb.0);
    lemma_exchanged(axis_of(a, b, 1), ca.1, cb.1);
    lemma_exchanged(axis_of(a, b, 2), ca.2, cb.2);
}

/// Whether the sum of two exponents can be divided by, and twice a half is one.
pub open spec fn has_product<T: Scalar>(alpha: T, beta: T) -> bool {
    &&& forall|z: T| T::prod(
        T::sum(alpha, beta),
        #[trigger] T::quot(z, T::sum(alpha, beta)),
    ) == z
    &&& halves_exactly::<T>()
}

/// The distances of the product center, each times its exponent, cancel.
pub proof fn lemma_center<T: Scalar>(alpha: T, a: T, beta: T, b: T, c: T)
    requires
        is_ring::<T>(),
        T::prod(T::sum(alpha, beta), c) == T::sum(T::prod(alpha, a), T::prod(beta, b)),
    ensures
        T::sum(T::prod(alpha, T::diff(c, a)), T::prod(beta, T::diff(c, b))) == T::count(0),
{
    let (u, v) = (T::prod(alpha, a), T::prod(beta, b));
    let (m, n) = (T::prod(alpha, c), T::prod(beta, c));
    lemma_ring_negatives(c, a);
    lemma_ring_negatives(c, b);
    lemma_ring_factors(alpha, c, T::neg(a));
    lemma_ring_factors(beta, c, T::neg(b));
    lemma_ring_negatives(alpha, a);
    lemma_ring_negatives(beta, b);
    lemma_interchange(m, T::neg(u), n, T::neg(v));
    lemma_ring_factors(c, alpha, beta);
    lemma_ring_commute(c, alpha);
    lemma_ring_commute(c, beta);
    lemma_ring_commute(c, T::sum(alpha, beta));
    assert(T::sum(m, n) == T::sum(u, v));
    lemma_ring_negatives(u, v);
    lemma_ring_negatives(T::sum(u, v), v);
}

/// The derivatives along one axis with respect to both centers cancel.
proof fn lemma_axis_invariant<T: Scalar>(x: Axis<T>, alpha: T, beta: T, i: int, j: int)
    requires
        is_ring::<T>(),
        counts_exactly::<T>(),
        0 <= i < u64::MAX,
        0 <= j < u64::MAX,
        T::sum(T::prod(alpha, x.pa), T::prod(beta, x.pb)) == T::count(0),
        T::prod(T::count(2), T::prod(T::sum(alpha, beta), x.h)) == T::count(1),
    ensures
        T::sum(
            T::prod(T::prod(T::count(2), alpha), axis_overlap(x, i + 1, j)),
            T::prod(T::prod(T::count(2), beta), axis_overlap(x, i, j + 1)),
        ) == lower(x, i, j),
{
    let two = T::count(2);
    let s = axis_overlap(x, i, j);
    let w = lower(x, i, j);
    let (a, b, h) = (x.pa, x.pb, x.h);
    let (p, q) = (axis_overlap(x, i + 1, j), axis_overlap(x, i, j + 1));
    lemma_raise_first(x, i, j);
    lemma_raise_second(x, i, j);
    let hw = T::prod(h, w);
    lemma_ring_factors(two, alpha, p);
    lemma_ring_factors(two, beta, q);
    lemma_ring_factors(two, T::prod(alpha, p), T::prod(beta, q));
    lemma_ring_factors(alpha, T::prod(a, s), hw);
    lemma_ring_factors(beta, T::prod(b, s), hw);
    let (as_, bs) = (T::prod(alpha, T::prod(a, s)), T::prod(beta, T::prod(b, s)));
    let (ah, bh) = (T::prod(alpha, hw), T::prod(beta, hw));
    lemma_interchange(as_, ah, bs, bh);
    lemma_ring_factors(alpha, a, s);
    lemma_ring_factors(beta, b, s);
    lemma_ring_factors(s, T::prod(alpha, a), T::prod(beta, b));
    lemma_ring_commute(s, T::prod(alpha, a));
    lemma_ring_commute(s, T::prod(beta, b));
    assert(T::sum(as_, bs) == T::prod(s, T::count(0)));
    lemma_ring_sums(s, s, s);
    lemma_ring_factors(hw, alpha, beta);
    lemma_ring_commute(hw, alpha);
    lemma_ring_commute(hw, beta);
    let e = T::sum(alpha, beta);
    assert(T::sum(ah, bh) == T::prod(hw, e));
    lemma_ring_commute(hw, e);
    lemma_ring_factors(e, h, w);
    lemma_ring_sums(T::sum(ah, bh), w, w);
    lemma_ring_factors(two, T::prod(e, h), w);
    lemma_ring_sums(w, w, w);
}

/// The derivatives along an axis of two primitives cancel.
pub proof fn lemma_axis_of_two<T: Real>(a: Prim<T>, b: Prim<T>, k: int, i: int, j: int)
    requires
        is_ring::<T>(),
        counts_exactly::<T>(),
        has_product(a.exp, b.exp),
        0 <= k < 3,
        0 <= i < u64::MAX,
        0 <= j < u64::MAX,
    ensures
        T::sum(
            T::prod(T::prod(T::count(2), a.exp), axis_overlap(axis_of(a, b, k), i + 1, j)),
            T::prod(T::prod(T::count(2), b.exp), axis_overlap(axis_of(a, b, k), i, j + 1)),
        ) == lower(axis_of(a, b, k), i, j),
{
    let pr = product_of(a.exp, a.center, b.exp, b.center);
    let z = T::sum(T::prod(a.exp, a.center[k]), T::prod(b.exp, b.center[k]));
    assert(pr.p_center[k] == T::quot(z, pr.p));
    assert(T::prod(pr.p, T::quot(z, pr.p)) == z);
    lemma_center(a.exp, a.center[k], b.exp, b.center[k], pr.p_center[k]);
    let half = fraction::<T>(1, 2);
    assert(T::prod(pr.p, T::quot(half, pr.p)) == half);
    lemma_ring_commute(half, T::count(2));
    lemma_axis_invariant(axis_of(a, b, k), a.exp, b.exp, i, j);
}

/// A factor along one axis, times those of the others.
pub proof fn lemma_along_axis<T: Scalar>(t: T, u: T, v: T)
    requires
        is_ring::<T>(),
    ensures
        T::prod(T::prod(t, u), v) == T::prod(T::prod(u, v), t),
        T::prod(T::prod(u, t), v) == T::prod(T::prod(u, v), t),
{
    lemma_ring_factors(t, u, v);
    lemma_ring_commute(t, T::prod(u, v));
    lemma_ring_factors(u, t, v);
    lemma_ring_commute(t, v);
    lemma_ring_factors(u, v, t);
}

proof fn lemma_pulled_out<T: Scalar>(m: T, c: T, x: T, d: T, y: T)
    requires
        is_ring::<T>(),
    ensures
        T::sum(T::prod(c, T::prod(m, x)), T::prod(d, T::prod(m, y))) == T::prod(
            m,
            T::sum(T::prod(c, x), T::prod(d, y)),
        ),
{
    lemma_ring_factors(m, c, x);
    lemma_ring_factors(m, d, y);
    lemma_ring_factors(m, T::prod(c, x), T::prod(d, y));
}

/// Twice the exponents times the raised overlaps are the powers times the lowered ones.
pub proof fn lemma_overlap_invariant<T: Real>(
    a: Prim<T>,
    b: Prim<T>,
    ca: Powers,
    cb: Powers,
    k: int,
)
    requires
        is_ring::<T>(),
        counts_exactly::<T>(),
        has_product(a.exp, b.exp),
        0 <= k < 3,
        0 <= power(ca, k) < u64::MAX,
        0 <= power(cb, k) < u64::MAX,
    ensures
        T::sum(
            T::prod(T::prod(T::count(2), a.exp), overlap_value(a, b, shifted(ca, k, 1), cb)),
            T::prod(T::prod(T::count(2), b.exp), overlap_value(a, b, ca, shifted(cb, k, 1))),
        ) == T::sum(
            T::prod(T::count(power(ca, k) as u64), overlap_value(a, b, shifted(ca, k, -1), cb)),
            T::prod(T::count(power(cb, k) as u64), overlap_value(a, b, ca, shifted(cb, k, -1))),
        ),
{
    let x = axis_of(a, b, k);
    let (i, j) = (power(ca, k), power(cb, k));
    lemma_axis_of_two(a, b, k, i, j);
    let s0 = axis_overlap(axis_of(a, b, 0), ca.0, cb.0);
    let s1 = axis_overlap(axis_of(a, b, 1), ca.1, cb.1);
    let s2 = axis_overlap(axis_of(a, b, 2), ca.2, cb.2);
    let (u, v) = if k == 0 {
        (s1, s2)
    } else if k == 1 {
        (s0, s2)
    } else {
        (s0, s1)
    };
    let m = T::prod(u, v);
    let (t1, t2) = (axis_overlap(x, i + 1, j), axis_overlap(x, i, j + 1));
    let (t3, t4) = (axis_overlap(x, i - 1, j), axis_overlap(x, i, j - 1));
    lemma_along_axis(t1, u, v);
    lemma_along_axis(t2, u, v);
    lemma_along_axis(t3, u, v);
    lemma_along_axis(t4, u, v);
    assert(overlap_value(a, b, shifted(ca, k, 1), cb) == T::prod(m, t1));
    assert(overlap_value(a, b, ca, shifted(cb, k, 1)) == T::prod(m, t2));
    assert(overlap_value(a, b, shifted(ca, k, -1), cb) == T::prod(m, t3));
    assert(overlap_value(a, b, ca, shifted(cb, k, -1)) == T::prod(m, t4));
    let two = T::count(2);
    lemma_pulled_out(m, T::prod(two, a.exp), t1, T::prod(two, b.exp), t2);
    lemma_pulled_out(m, T::count(i as u64), t3, T::count(j as u64), t4);
}

} // verus!
