//! Translation invariance of the kinetic energy.
//!
//! Along one axis the kinetic energy is a combination of three overlaps. Without rounding
//! its derivatives with respect to both centers are opposite, as those of the overlaps are.
use vstd::prelude::*;

use crate::engine::invariance::{
    has_product, lemma_along_axis, lemma_axis_of_two, lemma_interchange, lemma_no_count,
};
use crate::engine::os::{axis_kinetic, axis_of, axis_overlap, kinetic_value, Axis, Prim};
use crate::engine::triples::{power, shifted};
use crate::exact::{
    counts_exactly, halves_exactly, is_ring, lemma_count_product, lemma_count_sum,
    lemma_half_of_double, lemma_negative_factor, lemma_ring_commute, lemma_ring_factors,
    lemma_ring_negatives, lemma_ring_sums,
};
use crate::math::am::Powers;
use crate::scalar::{fraction, Real, Scalar};

verus! {

/// A combination of three values.
spec fn three<T: Scalar>(p: T, q: T, r: T, x: T, y: T, z: T) -> T {
    T::sum(T::sum(T::prod(p, x), T::prod(q, y)), T::prod(r, z))
}

/// A combination of four values.
spec fn four<T: Scalar>(p: T, q: T, r: T, t: T, w: T, x: T, y: T, z: T) -> T {
    T::sum(three(p, q, r, w, x, y), T::prod(t, z))
}

/// A multiple of a combination combines multiples of the values or of the coefficients.
proof fn lemma_three_scaled<T: Scalar>(s: T, p: T, q: T, r: T, x: T, y: T, z: T)
    requires
        is_ring::<T>(),
    ensures
        T::prod(s, three(p, q, r, x, y, z)) == three(
            p,
            q,
            r,
            T::prod(s, x),
            T::prod(s, y),
            T::prod(s, z),
        ),
        T::prod(s, three(p, q, r, x, y, z)) == three(
            T::prod(s, p),
            T::prod(s, q),
            T::prod(s, r),
            x,
            y,
            z,
        ),
{
    let (px, qy, rz) = (T::prod(p, x), T::prod(q, y), T::prod(r, z));
    lemma_ring_factors(s, T::sum(px, qy), rz);
    lemma_ring_factors(s, px, qy);
    lemma_ring_factors(p, s, x);
    lemma_ring_factors(q, s, y);
    lemma_ring_factors(r, s, z);
    lemma_ring_factors(s, p, x);
    lemma_ring_factors(s, q, y);
    lemma_ring_factors(s, r, z);
}

/// The combination of sums of values.
proof fn lemma_three_sums<T: Scalar>(p: T, q: T, r: T, x: T, y: T, z: T, u: T, v: T, w: T)
    requires
        is_ring::<T>(),
    ensures
        three(p, q, r, T::sum(x, u), T::sum(y, v), T::sum(z, w)) == T::sum(
            three(p, q, r, x, y, z),
            three(p, q, r, u, v, w),
        ),
{
    lemma_ring_factors(p, x, u);
    lemma_ring_factors(q, y, v);
    lemma_ring_factors(r, z, w);
    lemma_interchange(T::prod(p, x), T::prod(p, u), T::prod(q, y), T::prod(q, v));
    lemma_interchange(
        T::sum(T::prod(p, x), T::prod(q, y)),
        T::sum(T::prod(p, u), T::prod(q, v)),
        T::prod(r, z),
        T::prod(r, w),
    );
}

/// A factor that is a sum.
proof fn lemma_factor_sum<T: Scalar>(p: T, q: T, x: T)
    requires
        is_ring::<T>(),
    ensures
        T::prod(T::sum(p, q), x) == T::sum(T::prod(p, x), T::prod(q, x)),
{
    lemma_ring_commute(T::sum(p, q), x);
    lemma_ring_commute(p, x);
    lemma_ring_commute(q, x);
    lemma_ring_factors(x, p, q);
}

/// The sum of two combinations of the same values combines the sums of the coefficients.
proof fn lemma_four_sums<T: Scalar>(
    p: T,
    q: T,
    r: T,
    t: T,
    d: T,
    e: T,
    f: T,
    g: T,
    w: T,
    x: T,
    y: T,
    z: T,
)
    requires
        is_ring::<T>(),
    ensures
        T::sum(four(p, q, r, t, w, x, y, z), four(d, e, f, g, w, x, y, z)) == four(
            T::sum(p, d),
            T::sum(q, e),
            T::sum(r, f),
            T::sum(t, g),
            w,
            x,
            y,
            z,
        ),
{
    lemma_factor_sum(p, d, w);
    lemma_factor_sum(q, e, x);
    lemma_factor_sum(r, f, y);
    lemma_factor_sum(t, g, z);
    lemma_interchange(T::prod(p, w), T::prod(d, w), T::prod(q, x), T::prod(e, x));
    lemma_interchange(
        T::sum(T::prod(p, w), T::prod(q, x)),
        T::sum(T::prod(d, w), T::prod(e, x)),
        T::prod(r, y),
        T::prod(f, y),
    );
    lemma_interchange(
        three(p, q, r, w, x, y),
        three(d, e, f, w, x, y),
        T::prod(t, z),
        T::prod(g, z),
    );
}

/// A combination of three of four values.
proof fn lemma_three_of_four<T: Scalar>(p: T, q: T, r: T, w: T, x: T, y: T, z: T)
    requires
        is_ring::<T>(),
    ensures
        three(p, q, r, w, x, y) == four(p, q, r, T::count(0), w, x, y, z),
        three(p, q, r, y, w, z) == four(q, T::count(0), p, r, w, x, y, z),
{
    lemma_no_count(z);
    lemma_no_count(x);
    let v = three(p, q, r, w, x, y);
    lemma_ring_sums(v, v, v);
    lemma_ring_sums(T::prod(p, y), T::prod(q, w), T::count(0));
    lemma_ring_sums(T::prod(q, w), T::prod(q, w), T::count(0));
}

/// What was added is taken away.
proof fn lemma_taken_away<T: Scalar>(g: T, h: T)
    requires
        is_ring::<T>(),
    ensures
        T::sum(T::sum(g, h), T::neg(g)) == h,
        T::sum(T::neg(g), T::sum(g, h)) == h,
{
    let m = T::neg(g);
    lemma_ring_negatives(g, g);
    lemma_ring_sums(g, h, m);
    lemma_ring_sums(m, T::sum(g, h), m);
    lemma_ring_sums(h, h, h);
}

/// Equal sums with an equal summand.
proof fn lemma_cancelled<T: Scalar>(u: T, v: T, w: T)
    requires
        is_ring::<T>(),
        T::sum(u, w) == T::sum(v, w),
    ensures
        u == v,
{
    lemma_ring_sums(w, u, u);
    lemma_ring_sums(w, v, v);
    lemma_taken_away(w, u);
    lemma_taken_away(w, v);
}

/// The coefficient of the overlap in the kinetic energy.
spec fn level_weight<T: Scalar>(beta: T, j: int) -> T {
    T::prod(beta, T::count((2 * j + 1) as u64))
}

/// The coefficient of the overlap with the ket raised twice.
spec fn raised_weight<T: Scalar>(beta: T) -> T {
    T::prod(T::prod(T::count(2), beta), beta)
}

/// The coefficient of the overlap with the ket lowered twice.
spec fn lowered_weight<T: Scalar>(j: int) -> T {
    T::prod(fraction::<T>(1, 2), T::count((j * (j - 1)) as u64))
}

proof fn lemma_no_lowered_weight<T: Scalar>(j: int)
    requires
        is_ring::<T>(),
        0 <= j < 2,
    ensures
        lowered_weight::<T>(j) == T::count(0),
        T::neg(lowered_weight::<T>(j)) == T::count(0),
{
    assert(j * (j - 1) == 0) by (nonlinear_arith)
        requires
            0 <= j < 2,
    ;
    let half = fraction::<T>(1, 2);
    lemma_ring_sums(half, half, half);
    lemma_ring_negatives(half, half);
}

/// The kinetic energy along one axis as a combination of overlaps.
proof fn lemma_combination<T: Scalar>(x: Axis<T>, beta: T, i: int, j: int)
    requires
        is_ring::<T>(),
        0 <= j,
    ensures
        axis_kinetic(x, beta, i, j) == three(
            level_weight(beta, j),
            T::neg(raised_weight(beta)),
            T::neg(lowered_weight(j)),
            axis_overlap(x, i, j),
            axis_overlap(x, i, j + 2),
            axis_overlap(x, i, j - 2),
        ),
{
    let (s, s2, low) = (
        axis_overlap(x, i, j),
        axis_overlap(x, i, j + 2),
        axis_overlap(x, i, j - 2),
    );
    let a = T::prod(level_weight(beta, j), s);
    let q = T::prod(raised_weight(beta), s2);
    lemma_ring_negatives(a, q);
    lemma_negative_factor(raised_weight(beta), s2);
    let first = T::diff(a, q);
    if j >= 2 {
        lemma_ring_negatives(first, T::prod(lowered_weight(j), low));
        lemma_negative_factor(lowered_weight::<T>(j), low);
    } else {
        lemma_no_lowered_weight::<T>(j);
        lemma_no_count(low);
        lemma_ring_negatives(first, T::count(0));
    }
}

/// The coefficients of the singly raised overlap agree.
proof fn lemma_level_steps<T: Scalar>(beta: T, j: int)
    requires
        is_ring::<T>(),
        counts_exactly::<T>(),
        0 <= j <= 0xffff,
    ensures
        ({
            let b = T::prod(T::count(2), beta);
            let m = T::neg(raised_weight(beta));
            T::sum(
                T::prod(b, level_weight(beta, j + 1)),
                T::prod(T::count((j + 2) as u64), m),
            ) == T::sum(
                T::prod(b, level_weight(beta, j)),
                T::prod(T::count(j as u64), m),
            )
        }),
{
    let b = T::prod(T::count(2), beta);
    let q = raised_weight(beta);
    let (c0, c1, c2) = (
        T::count(j as u64),
        T::count((j + 1) as u64),
        T::count((j + 2) as u64),
    );
    lemma_ring_factors(b, beta, T::count((2 * (j + 1) + 1) as u64));
    lemma_ring_factors(b, beta, T::count((2 * j + 1) as u64));
    lemma_count_sum::<T>(j + 2, j + 1);
    lemma_count_sum::<T>(j, j + 1);
    lemma_ring_factors(q, c2, c1);
    lemma_ring_factors(q, c0, c1);
    lemma_ring_negatives(c2, q);
    lemma_ring_negatives(c0, q);
    lemma_ring_commute(c2, q);
    lemma_ring_commute(c0, q);
    lemma_taken_away(T::prod(q, c2), T::prod(q, c1));
    lemma_taken_away(T::prod(q, c0), T::prod(q, c1));
}

/// Twice the exponent times the coefficient of the lowered overlap.
proof fn lemma_doubled_lowered_weight<T: Scalar>(beta: T, j: int)
    requires
        is_ring::<T>(),
        halves_exactly::<T>(),
    ensures
        T::prod(T::prod(T::count(2), beta), T::neg(lowered_weight(j))) == T::neg(
            T::prod(beta, T::count((j * (j - 1)) as u64)),
        ),
{
    let two = T::count(2);
    let b = T::prod(two, beta);
    let c = T::count((j * (j - 1)) as u64);
    lemma_ring_negatives(b, lowered_weight(j));
    lemma_ring_factors(fraction::<T>(1, 2), b, c);
    lemma_ring_factors(two, beta, c);
    lemma_half_of_double(T::prod(beta, c));
}

/// A count times the coefficient of the overlap.
proof fn lemma_counted_level_weight<T: Scalar>(beta: T, m: int, j: int)
    requires
        is_ring::<T>(),
        counts_exactly::<T>(),
        0 <= m <= 0xffff,
        0 <= j <= 0xffff,
    ensures
        T::prod(T::count(m as u64), level_weight(beta, j)) == T::prod(
            beta,
            T::count((m * (2 * j + 1)) as u64),
        ),
        0 <= m * (2 * j + 1) <= 0x2_ffff_ffff,
{
    let n = 2 * j + 1;
    assert(0 <= m * n <= 0x2_ffff_ffff) by (nonlinear_arith)
        requires
            0 <= m <= 0xffff,
            0 <= n <= 0x1_ffff,
    ;
    lemma_ring_factors(beta, T::count(m as u64), T::count(n as u64));
    lemma_count_product::<T>(m, n);
}

/// The coefficients of the singly lowered overlap agree.
proof fn lemma_lowered_steps<T: Scalar>(beta: T, j: int)
    requires
        is_ring::<T>(),
        counts_exactly::<T>(),
        halves_exactly::<T>(),
        1 <= j <= 0xfff0,
    ensures
        ({
            let b = T::prod(T::count(2), beta);
            let c = T::count(j as u64);
            T::sum(
                T::prod(b, T::neg(lowered_weight(j + 1))),
                T::prod(c, level_weight(beta, j)),
            ) == T::sum(
                T::prod(b, T::neg(lowered_weight(j))),
                T::prod(c, level_weight(beta, j - 1)),
            )
        }),
{
    lemma_doubled_lowered_weight(beta, j + 1);
    lemma_doubled_lowered_weight(beta, j);
    lemma_counted_level_weight(beta, j, j);
    lemma_counted_level_weight(beta, j, j - 1);
    let square = j * j;
    let (over, under) = ((j + 1) * (j + 1 - 1), j * (j - 1));
    assert(over + square == j * (2 * j + 1) && under + square == j * (2 * (j - 1) + 1) && 0 <= over
        && 0 <= under && 0 <= square <= 0xffff_ffff && over <= 0xffff_ffff && under
        <= 0xffff_ffff) by (nonlinear_arith)
        requires
            1 <= j <= 0xfff0,
            square == j * j,
            over == (j + 1) * (j + 1 - 1),
            under == j * (j - 1),
    ;
    lemma_count_sum::<T>(over, square);
    lemma_count_sum::<T>(under, square);
    let (co, cu, cs) = (T::count(over as u64), T::count(under as u64), T::count(square as u64));
    lemma_ring_factors(beta, co, cs);
    lemma_ring_factors(beta, cu, cs);
    lemma_taken_away(T::prod(beta, co), T::prod(beta, cs));
    lemma_taken_away(T::prod(beta, cu), T::prod(beta, cs));
}

/// The coefficients of the overlap lowered three times agree.
proof fn lemma_last_steps<T: Scalar>(j: int)
    requires
        is_ring::<T>(),
        counts_exactly::<T>(),
        1 <= j <= 0xffff,
    ensures
        T::prod(T::count((j - 2) as u64), T::neg(lowered_weight::<T>(j))) == T::prod(
            T::count(j as u64),
            T::neg(lowered_weight::<T>(j - 1)),
        ),
{
    let (c, d) = (T::count(j as u64), T::count((j - 2) as u64));
    lemma_ring_negatives(d, lowered_weight(j));
    lemma_ring_negatives(c, lowered_weight(j - 1));
    if j == 1 {
        lemma_no_lowered_weight::<T>(1);
        lemma_no_lowered_weight::<T>(0);
        lemma_ring_sums(d, d, d);
        lemma_ring_sums(c, c, c);
    } else {
        let half = fraction::<T>(1, 2);
        let (m, n) = (j * (j - 1), (j - 1) * (j - 1 - 1));
        assert((j - 2) * m == j * n && 0 <= m <= 0xffff_ffff && 0 <= n <= 0xffff_ffff && 0 <= j * n
            <= 0xffff_ffff_ffff) by (nonlinear_arith)
            requires
                2 <= j <= 0xffff,
                m == j * (j - 1),
                n == (j - 1) * (j - 1 - 1),
        ;
        lemma_ring_factors(half, d, T::count(m as u64));
        lemma_ring_factors(half, c, T::count(n as u64));
        lemma_count_product::<T>(j - 2, m);
        lemma_count_product::<T>(j, n);
    }
}

/// The derivatives of the kinetic energy along one axis with respect to both centers
/// cancel.
proof fn lemma_axis_kinetic_invariant<T: Real>(a: Prim<T>, b: Prim<T>, k: int, i: int, j: int)
    requires
        is_ring::<T>(),
        counts_exactly::<T>(),
        has_product(a.exp, b.exp),
        0 <= k < 3,
        0 <= i <= 0xfff0,
        0 <= j <= 0xfff0,
    ensures
        ({
            let x = axis_of(a, b, k);
            T::sum(
                T::prod(T::prod(T::count(2), a.exp), axis_kinetic(x, b.exp, i + 1, j)),
                T::prod(T::prod(T::count(2), b.exp), axis_kinetic(x, b.exp, i, j + 1)),
            ) == T::sum(
                T::prod(T::count(i as u64), axis_kinetic(x, b.exp, i - 1, j)),
                T::prod(T::count(j as u64), axis_kinetic(x, b.exp, i, j - 1)),
            )
        }),
{
    let x = axis_of(a, b, k);
    let beta = b.exp;
    let (da, db) = (T::prod(T::count(2), a.exp), T::prod(T::count(2), beta));
    let (ci, cj) = (T::count(i as u64), T::count(j as u64));
    let (ck, cl) = (T::count((j + 2) as u64), T::count((j - 2) as u64));
    let (p, q, r) = (level_weight(beta, j), T::neg(raised_weight(beta)), T::neg(lowered_weight(j)));
    let s = |m: int, n: int| axis_overlap(x, m, n);
    let zero = T::count(0);
    // The derivatives of the three overlaps, combined.
    lemma_axis_of_two(a, b, k, i, j);
    lemma_axis_of_two(a, b, k, i, j + 2);
    let (u, v, w) = (
        T::prod(da, s(i + 1, j)),
        T::prod(da, s(i + 1, j + 2)),
        T::prod(da, s(i + 1, j - 2)),
    );
    let (d, e, f) = (T::prod(db, s(i, j + 1)), T::prod(db, s(i, j + 3)), T::prod(db, s(i, j - 1)));
    lemma_three_sums(p, q, r, u, v, w, d, e, f);
    let (l, m, n) = (
        T::prod(ci, s(i - 1, j)),
        T::prod(ci, s(i - 1, j + 2)),
        T::prod(ci, s(i - 1, j - 2)),
    );
    let (g, h, o) = (T::prod(cj, s(i, j - 1)), T::prod(ck, s(i, j + 1)), T::prod(cl, s(i, j - 3)));
    lemma_three_sums(p, q, r, l, m, n, g, h, o);
    if j >= 2 {
        lemma_axis_of_two(a, b, k, i, j - 2);
    } else {
        lemma_no_lowered_weight::<T>(j);
        lemma_no_count(T::sum(w, f));
        lemma_no_count(T::sum(n, o));
    }
    assert(T::sum(three(p, q, r, u, v, w), three(p, q, r, d, e, f)) == T::sum(
        three(p, q, r, l, m, n),
        three(p, q, r, g, h, o),
    ));
    lemma_combination(x, beta, i + 1, j);
    lemma_combination(x, beta, i - 1, j);
    lemma_combination(x, beta, i, j + 1);
    lemma_three_scaled(da, p, q, r, s(i + 1, j), s(i + 1, j + 2), s(i + 1, j - 2));
    lemma_three_scaled(ci, p, q, r, s(i - 1, j), s(i - 1, j + 2), s(i - 1, j - 2));
    // What is left is a combination of four overlaps of the bra.
    let (s1, s3, m1, m3) = (s(i, j + 1), s(i, j + 3), s(i, j - 1), s(i, j - 3));
    lemma_three_scaled(db, p, q, r, s1, s3, m1);
    lemma_three_of_four(T::prod(db, p), T::prod(db, q), T::prod(db, r), s1, s3, m1, m3);
    let (pn, rn) = (level_weight(beta, j + 1), T::neg(lowered_weight(j + 1)));
    lemma_three_scaled(db, pn, q, rn, s1, s3, m1);
    lemma_three_of_four(T::prod(db, pn), T::prod(db, q), T::prod(db, rn), s1, s3, m1, m3);
    lemma_ring_factors(cj, p, m1);
    lemma_ring_factors(ck, q, s1);
    lemma_ring_factors(cl, r, m3);
    lemma_three_of_four(T::prod(cj, p), T::prod(ck, q), T::prod(cl, r), s1, s3, m1, m3);
    let up = T::prod(db, axis_kinetic(x, beta, i, j + 1));
    let down = T::prod(cj, axis_kinetic(x, beta, i, j - 1));
    let (bx, y) = (three(p, q, r, d, e, f), three(p, q, r, g, h, o));
    assert(up == four(T::prod(db, pn), T::prod(db, q), T::prod(db, rn), zero, s1, s3, m1, m3));
    assert(bx == four(T::prod(db, p), T::prod(db, q), T::prod(db, r), zero, s1, s3, m1, m3));
    assert(y == four(T::prod(ck, q), zero, T::prod(cj, p), T::prod(cl, r), s1, s3, m1, m3));
    lemma_four_sums(
        T::prod(db, pn),
        T::prod(db, q),
        T::prod(db, rn),
        zero,
        T::prod(ck, q),
        zero,
        T::prod(cj, p),
        T::prod(cl, r),
        s1,
        s3,
        m1,
        m3,
    );
    lemma_level_steps(beta, j);
    if j >= 1 {
        let (pl, rl) = (level_weight(beta, j - 1), T::neg(lowered_weight(j - 1)));
        lemma_combination(x, beta, i, j - 1);
        lemma_three_scaled(cj, pl, q, rl, m1, s1, m3);
        lemma_three_of_four(T::prod(cj, pl), T::prod(cj, q), T::prod(cj, rl), s1, s3, m1, m3);
        lemma_four_sums(
            T::prod(db, p),
            T::prod(db, q),
            T::prod(db, r),
            zero,
            T::prod(cj, q),
            zero,
            T::prod(cj, pl),
            T::prod(cj, rl),
            s1,
            s3,
            m1,
            m3,
        );
        lemma_lowered_steps(beta, j);
        lemma_last_steps::<T>(j);
    } else {
        lemma_no_lowered_weight::<T>(0);
        lemma_no_lowered_weight::<T>(1);
        lemma_no_count(axis_kinetic(x, beta, i, j - 1));
        lemma_no_count(p);
        lemma_no_count(q);
        lemma_ring_sums(cl, cl, cl);
        lemma_ring_sums(db, db, db);
        lemma_ring_sums(T::prod(db, p), zero, zero);
        lemma_ring_sums(T::prod(db, q), zero, zero);
        lemma_ring_sums(zero, zero, zero);
        lemma_ring_sums(bx, zero, zero);
    }
    assert(T::sum(up, y) == T::sum(bx, down));
    let (left, right) = (
        T::prod(da, axis_kinetic(x, beta, i + 1, j)),
        T::prod(ci, axis_kinetic(x, beta, i - 1, j)),
    );
    assert(T::sum(left, bx) == T::sum(right, y));
    lemma_interchange(left, bx, up, y);
    lemma_interchange(right, y, bx, down);
    lemma_ring_sums(y, bx, bx);
    lemma_ring_sums(y, down, down);
    lemma_ring_sums(right, down, T::sum(bx, y));
    lemma_interchange(right, y, down, bx);
    lemma_ring_sums(down, bx, bx);
    lemma_cancelled(T::sum(left, up), T::sum(right, down), T::sum(bx, y));
}

/// The overlaps along the two other axes.
pub open spec fn beside<T: Real>(a: Prim<T>, b: Prim<T>, ca: Powers, cb: Powers, k: int) -> T {
    let s0 = axis_overlap(axis_of(a, b, 0), ca.0, cb.0);
    let s1 = axis_overlap(axis_of(a, b, 1), ca.1, cb.1);
    let s2 = axis_overlap(axis_of(a, b, 2), ca.2, cb.2);
    if k == 0 {
        T::prod(s1, s2)
    } else if k == 1 {
        T::prod(s0, s2)
    } else {
        T::prod(s0, s1)
    }
}


/// The kinetic energies along the two other axes, each times the overlap of the other.
spec fn beside_kinetic<T: Real>(a: Prim<T>, b: Prim<T>, ca: Powers, cb: Powers, k: int) -> T {
    let (x, y, z) = (axis_of(a, b, 0), axis_of(a, b, 1), axis_of(a, b, 2));
    let (s0, s1, s2) = (
        axis_overlap(x, ca.0, cb.0),
        axis_overlap(y, ca.1, cb.1),
        axis_overlap(z, ca.2, cb.2),
    );
    let (t0, t1, t2) = (
        axis_kinetic(x, b.exp, ca.0, cb.0),
        axis_kinetic(y, b.exp, ca.1, cb.1),
        axis_kinetic(z, b.exp, ca.2, cb.2),
    );
    if k == 0 {
        T::sum(T::prod(t1, s2), T::prod(s1, t2))
    } else if k == 1 {
        T::sum(T::prod(t0, s2), T::prod(s0, t2))
    } else {
        T::sum(T::prod(t0, s1), T::prod(s0, t1))
    }
}

/// The kinetic energy with the powers along one axis shifted.
proof fn lemma_kinetic_along<T: Real>(
    a: Prim<T>,
    b: Prim<T>,
    ca: Powers,
    cb: Powers,
    k: int,
    m: int,
    n: int,
)
    requires
        is_ring::<T>(),
        0 <= k < 3,
    ensures
        ({
            let x = axis_of(a, b, k);
            let (i, j) = (power(ca, k) + m, power(cb, k) + n);
            kinetic_value(a, b, shifted(ca, k, m), shifted(cb, k, n)) == T::sum(
                T::prod(beside(a, b, ca, cb, k), axis_kinetic(x, b.exp, i, j)),
                T::prod(beside_kinetic(a, b, ca, cb, k), axis_overlap(x, i, j)),
            )
        }),
{
    let (x, y, z) = (axis_of(a, b, 0), axis_of(a, b, 1), axis_of(a, b, 2));
    let (s0, s1, s2) = (
        axis_overlap(x, ca.0, cb.0),
        axis_overlap(y, ca.1, cb.1),
        axis_overlap(z, ca.2, cb.2),
    );
    let (t0, t1, t2) = (
        axis_kinetic(x, b.exp, ca.0, cb.0),
        axis_kinetic(y, b.exp, ca.1, cb.1),
        axis_kinetic(z, b.exp, ca.2, cb.2),
    );
    let w = axis_of(a, b, k);
    let (i, j) = (power(ca, k) + m, power(cb, k) + n);
    let (s, t) = (axis_overlap(w, i, j), axis_kinetic(w, b.exp, i, j));
    let (side, other) = (beside(a, b, ca, cb, k), beside_kinetic(a, b, ca, cb, k));
    if k == 0 {
        lemma_along_axis(t, s1, s2);
        lemma_along_axis(s, t1, s2);
        lemma_along_axis(s, s1, t2);
        lemma_factor_sum(T::prod(t1, s2), T::prod(s1, t2), s);
        lemma_ring_sums(
            T::prod(side, t),
            T::prod(T::prod(t1, s2), s),
            T::prod(T::prod(s1, t2), s),
        );
    } else if k == 1 {
        lemma_along_axis(t, s0, s2);
        lemma_along_axis(s, t0, s2);
        lemma_along_axis(s, s0, t2);
        lemma_factor_sum(T::prod(t0, s2), T::prod(s0, t2), s);
        let (u, v) = (T::prod(T::prod(t0, s2), s), T::prod(T::prod(s0, t2), s));
        lemma_ring_sums(u, T::prod(side, t), v);
        lemma_ring_sums(T::prod(side, t), u, v);
    } else {
        lemma_factor_sum(T::prod(t0, s1), T::prod(s0, t1), s);
        lemma_ring_sums(T::prod(side, t), T::prod(other, s), s);
    }
}

/// Multiples of two combinations of the same two factors.
proof fn lemma_two_scaled<T: Scalar>(c: T, d: T, u: T, v: T, t: T, s: T, q: T, p: T)
    requires
        is_ring::<T>(),
    ensures
        T::sum(
            T::prod(c, T::sum(T::prod(u, t), T::prod(v, s))),
            T::prod(d, T::sum(T::prod(u, q), T::prod(v, p))),
        ) == T::sum(
            T::prod(u, T::sum(T::prod(c, t), T::prod(d, q))),
            T::prod(v, T::sum(T::prod(c, s), T::prod(d, p))),
        ),
{
    lemma_ring_factors(c, T::prod(u, t), T::prod(v, s));
    lemma_ring_factors(d, T::prod(u, q), T::prod(v, p));
    lemma_ring_factors(u, c, t);
    lemma_ring_factors(v, c, s);
    lemma_ring_factors(u, d, q);
    lemma_ring_factors(v, d, p);
    lemma_ring_factors(u, T::prod(c, t), T::prod(d, q));
    lemma_ring_factors(v, T::prod(c, s), T::prod(d, p));
    lemma_interchange(
        T::prod(u, T::prod(c, t)),
        T::prod(v, T::prod(c, s)),
        T::prod(u, T::prod(d, q)),
        T::prod(v, T::prod(d, p)),
    );
}

/// Twice the exponents times the raised kinetic energies are the powers times the lowered
/// ones.
pub proof fn lemma_kinetic_invariant<T: Real>(
    a: Prim<T>,
    b: Prim<T>,
    ca: Powers,
    cb: Powers,
    k: int,
)
    requires
        is_ring::<T>(),
        counts_exactly::<T>(),
        has_product(a.exp, b.exp),
        0 <= k < 3,
        0 <= power(ca, k) <= 0xfff0,
        0 <= power(cb, k) <= 0xfff0,
    ensures
        T::sum(
            T::prod(T::prod(T::count(2), a.exp), kinetic_value(a, b, shifted(ca, k, 1), cb)),
            T::prod(T::prod(T::count(2), b.exp), kinetic_value(a, b, ca, shifted(cb, k, 1))),
        ) == T::sum(
            T::prod(T::count(power(ca, k) as u64), kinetic_value(a, b, shifted(ca, k, -1), cb)),
            T::prod(T::count(power(cb, k) as u64), kinetic_value(a, b, ca, shifted(cb, k, -1))),
        ),
{
    let x = axis_of(a, b, k);
    let (i, j) = (power(ca, k), power(cb, k));
    assert(shifted(ca, k, 0) == ca && shifted(cb, k, 0) == cb);
    lemma_kinetic_along(a, b, ca, cb, k, 1, 0);
    lemma_kinetic_along(a, b, ca, cb, k, 0, 1);
    lemma_kinetic_along(a, b, ca, cb, k, -1, 0);
    lemma_kinetic_along(a, b, ca, cb, k, 0, -1);
    lemma_axis_of_two(a, b, k, i, j);
    lemma_axis_kinetic_invariant(a, b, k, i, j);
    let (u, v) = (beside(a, b, ca, cb, k), beside_kinetic(a, b, ca, cb, k));
    let beta = b.exp;
    lemma_two_scaled(
        T::prod(T::count(2), a.exp),
        T::prod(T::count(2), beta),
        u,
        v,
        axis_kinetic(x, beta, i + 1, j),
        axis_overlap(x, i + 1, j),
        axis_kinetic(x, beta, i, j + 1),
        axis_overlap(x, i, j + 1),
    );
    lemma_two_scaled(
        T::count(i as u64),
        T::count(j as u64),
        u,
        v,
        axis_kinetic(x, beta, i - 1, j),
        axis_overlap(x, i - 1, j),
        axis_kinetic(x, beta, i, j - 1),
        axis_overlap(x, i, j - 1),
    );
}

} // verus!
