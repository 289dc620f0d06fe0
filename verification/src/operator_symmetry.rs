//! Symmetry of the matrices of operators.
//!
//! Without rounding the overlap, the dipole and the kinetic energy are symmetric, the
//! momentum and the angular momentum antisymmetric.
use vstd::prelude::*;

use crate::engine::invariance::{
    exchanged, has_product, law_overlap_is_symmetric, lemma_axis_exchanged, lemma_axis_of_two,
    lemma_exchanged, lemma_exchanged_lower, lemma_no_count, lower,
};
use crate::engine::os::{
    axis_kinetic, axis_moment, axis_of, axis_overlap, dipole_factor, kinetic_value,
    overlap_value, product_of, Axis, Prim,
};
use crate::engine::pairs::Vec3;
use crate::exact::{
    counts_exactly, halves_exactly, is_ring, lemma_count_product, lemma_half_of_double,
    lemma_negative_factor, lemma_ring_difference, lemma_ring_factors, lemma_ring_negatives,
    lemma_ring_sums,
};
use crate::flat::added;
use crate::grad::invariance::have_products;
use crate::math::am::{is_component, Powers};
use crate::one_electron::{dipole_step, kinetic_step, overlap_step, pair_entries};
use crate::pair_values::{
    adds, dipole_of, entries_of, kinetic_of, lemma_kinetic_adds, lemma_overlap_adds, overlap_of,
};
use crate::scalar::{fraction, Real, Scalar};
use crate::shell::{function_counts, Shell};
use crate::tensor::{is_function, At};
use crate::transposition::lemma_entries_transposed;

verus! {

/// The overlap matrix is symmetric, in any commutative ring in which counts add up.
pub proof fn law_overlap_matrix_is_symmetric<T: Real>(shells: Seq<Shell<T>>, x: At, y: At)
    requires
        is_ring::<T>(),
        counts_exactly::<T>(),
        is_function(function_counts(shells), x),
        is_function(function_counts(shells), y),
        shells[x.0].valid(),
        shells[y.0].valid(),
    ensures
        pair_entries(overlap_step::<T>(), shells)(x, y) == pair_entries(
            overlap_step::<T>(),
            shells,
        )(y, x),
{
    let (a, b) = (shells[x.0], shells[y.0]);
    let one = T::count(1);
    lemma_overlap_adds::<T>();
    assert forall|i: int, j: int, ca: Powers, cb: Powers|
        0 <= i < a.exponents@.len() && 0 <= j < b.exponents@.len() && is_component(
            ca,
            a.l as int,
        ) && is_component(cb, b.l as int) implies #[trigger] overlap_of()(
        a.primitive(i),
        b.primitive(j),
        ca,
        cb,
    ) == T::prod(one, overlap_of()(b.primitive(j), a.primitive(i), cb, ca)) by {
        law_overlap_is_symmetric(a.primitive(i), b.primitive(j), ca, cb);
        let v = overlap_value(b.primitive(j), a.primitive(i), cb, ca);
        lemma_ring_sums(v, v, v);
    }
    lemma_entries_transposed(overlap_step::<T>(), overlap_of(), one, shells, x, y);
    let v = pair_entries(overlap_step::<T>(), shells)(y, x);
    lemma_ring_sums(v, v, v);
}

/// The first moment along an axis in the other order.
pub proof fn lemma_moment_exchanged<T: Scalar>(x: Axis<T>, po: T, i: int, j: int)
    requires
        is_ring::<T>(),
        counts_exactly::<T>(),
        0 <= i < u64::MAX,
        0 <= j < u64::MAX,
    ensures
        axis_moment(x, po, i, j) == axis_moment(exchanged(x), po, j, i),
{
    let y = exchanged(x);
    lemma_exchanged(x, i, j);
    lemma_exchanged_lower(x, i, j);
    lemma_no_count(axis_overlap(x, i - 1, j));
    lemma_no_count(axis_overlap(x, i, j - 1));
    lemma_no_count(axis_overlap(y, j - 1, i));
    lemma_no_count(axis_overlap(y, j, i - 1));
    assert(axis_moment(x, po, i, j) == T::sum(
        T::prod(po, axis_overlap(x, i, j)),
        T::prod(x.h, lower(x, i, j)),
    ));
    assert(axis_moment(y, po, j, i) == T::sum(
        T::prod(po, axis_overlap(y, j, i)),
        T::prod(y.h, lower(y, j, i)),
    ));
}

proof fn lemma_dipole_exchanged<T: Real>(
    o: Vec3<T>,
    k: int,
    m: int,
    a: Prim<T>,
    b: Prim<T>,
    i: int,
    j: int,
)
    requires
        is_ring::<T>(),
        counts_exactly::<T>(),
        0 <= m < 3,
        0 <= i < u64::MAX,
        0 <= j < u64::MAX,
    ensures
        dipole_factor(a, b, o, k, m, i, j) == dipole_factor(b, a, o, k, m, j, i),
{
    let x = axis_of(a, b, m);
    lemma_axis_exchanged(a, b, m);
    lemma_exchanged(x, i, j);
    let pr = product_of(a.exp, a.center, b.exp, b.center);
    lemma_moment_exchanged(x, T::diff(pr.p_center[m], o[m]), i, j);
}

/// The step of the dipole adds dipoles.
proof fn lemma_dipole_adds<T: Real>(o: Vec3<T>, k: int)
    requires
        is_ring::<T>(),
    ensures
        adds(dipole_step(o, k), dipole_of(o, k)),
{
    assert forall|old: Seq<T>, a: Prim<T>, b: Prim<T>, w: T| #[trigger]
        dipole_step(o, k)(old, a, b, w) == added(
            old,
            crate::engine::os::block_size(a.l as int, b.l as int),
            entries_of(dipole_of(o, k), a, b, w),
        ) by {
        let g = crate::engine::os::dipole_entries(a, b, o, w, k);
        let h = entries_of(dipole_of(o, k), a, b, w);
        assert forall|e: int| #[trigger] g(e) == h(e) by {
            let (ca, cb) = crate::engine::os::pair_at(a.l as int, b.l as int, e);
            let (f0, f1, f2) = (
                dipole_factor(a, b, o, k, 0, ca.0, cb.0),
                dipole_factor(a, b, o, k, 1, ca.1, cb.1),
                dipole_factor(a, b, o, k, 2, ca.2, cb.2),
            );
            lemma_ring_factors(w, f0, f1);
            lemma_ring_factors(w, T::prod(f0, f1), f2);
        }
        assert(g =~= h);
    }
}

/// The dipole matrix is symmetric, in any commutative ring in which counts add up.
pub proof fn law_dipole_is_symmetric<T: Real>(
    o: Vec3<T>,
    k: int,
    shells: Seq<Shell<T>>,
    x: At,
    y: At,
)
    requires
        is_ring::<T>(),
        counts_exactly::<T>(),
        is_function(function_counts(shells), x),
        is_function(function_counts(shells), y),
        shells[x.0].valid(),
        shells[y.0].valid(),
    ensures
        pair_entries(dipole_step(o, k), shells)(x, y) == pair_entries(dipole_step(o, k), shells)(
            y,
            x,
        ),
{
    let (a, b) = (shells[x.0], shells[y.0]);
    let one = T::count(1);
    lemma_dipole_adds(o, k);
    let value = dipole_of(o, k);
    assert forall|i: int, j: int, ca: Powers, cb: Powers|
        0 <= i < a.exponents@.len() && 0 <= j < b.exponents@.len() && is_component(
            ca,
            a.l as int,
        ) && is_component(cb, b.l as int) implies #[trigger] value(
        a.primitive(i),
        b.primitive(j),
        ca,
        cb,
    ) == T::prod(one, value(b.primitive(j), a.primitive(i), cb, ca)) by {
        let (pa, pb) = (a.primitive(i), b.primitive(j));
        lemma_dipole_exchanged(o, k, 0, pa, pb, ca.0, cb.0);
        lemma_dipole_exchanged(o, k, 1, pa, pb, ca.1, cb.1);
        lemma_dipole_exchanged(o, k, 2, pa, pb, ca.2, cb.2);
        let v = value(pb, pa, cb, ca);
        lemma_ring_sums(v, v, v);
    }
    lemma_entries_transposed(dipole_step(o, k), value, one, shells, x, y);
    let v = pair_entries(dipole_step(o, k), shells)(y, x);
    lemma_ring_sums(v, v, v);
}

/// The derivative of the overlap along an axis with respect to the second center.
pub open spec fn slope_second<T: Scalar>(x: Axis<T>, b: T, i: int, j: int) -> T {
    T::diff(
        T::prod(b, axis_overlap(x, i, j + 1)),
        T::prod(T::count(j as u64), axis_overlap(x, i, j - 1)),
    )
}

/// The second derivative of the overlap along an axis with respect to the second center.
spec fn bend_second<T: Scalar>(x: Axis<T>, b: T, i: int, j: int) -> T {
    T::diff(
        T::prod(b, slope_second(x, b, i, j + 1)),
        T::prod(T::count(j as u64), slope_second(x, b, i, j - 1)),
    )
}

/// The negative of a difference of differences.
proof fn lemma_negative_differences<T: Scalar>(r: T, l: T, m: T, n: T)
    requires
        is_ring::<T>(),
    ensures
        T::neg(T::diff(T::diff(r, l), T::diff(m, n))) == T::sum(
            T::sum(T::neg(r), l),
            T::sum(m, T::neg(n)),
        ),
{
    let (p, q) = (T::diff(r, l), T::diff(m, n));
    lemma_ring_negatives(r, l);
    lemma_ring_negatives(m, n);
    lemma_ring_negatives(p, q);
    lemma_ring_negatives(p, T::neg(q));
    lemma_ring_negatives(q, q);
    lemma_ring_negatives(r, T::neg(l));
    lemma_ring_negatives(l, l);
}

/// Half of a value times twice an exponent.
proof fn lemma_half_doubled<T: Scalar>(beta: T, z: T)
    requires
        is_ring::<T>(),
        halves_exactly::<T>(),
    ensures
        T::prod(fraction::<T>(1, 2), T::prod(T::prod(T::count(2), beta), z)) == T::prod(beta, z),
{
    lemma_ring_factors(T::count(2), beta, z);
    lemma_half_of_double(T::prod(beta, z));
}

/// The kinetic energy along an axis is minus half the second derivative of the overlap.
proof fn lemma_half_bend<T: Scalar>(x: Axis<T>, beta: T, i: int, j: int)
    requires
        is_ring::<T>(),
        counts_exactly::<T>(),
        halves_exactly::<T>(),
        0 <= j <= 0xffff,
    ensures
        axis_kinetic(x, beta, i, j) == T::neg(
            T::prod(
                fraction::<T>(1, 2),
                bend_second(x, T::prod(T::count(2), beta), i, j),
            ),
        ),
{
    let half = fraction::<T>(1, 2);
    let b = T::prod(T::count(2), beta);
    let (s2, s, low) = (
        axis_overlap(x, i, j + 2),
        axis_overlap(x, i, j),
        axis_overlap(x, i, j - 2),
    );
    let (next, cj, before) = (
        T::count((j + 1) as u64),
        T::count(j as u64),
        T::count((j - 1) as u64),
    );
    let square = T::prod(b, beta);
    let (d1, d2) = (T::prod(b, T::prod(b, s2)), T::prod(b, T::prod(next, s)));
    let (d3, d4) = (T::prod(cj, T::prod(b, s)), T::prod(cj, T::prod(before, low)));
    let bend = bend_second(x, b, i, j);
    lemma_ring_difference(b, T::prod(b, s2), T::prod(next, s));
    lemma_ring_difference(cj, T::prod(b, s), T::prod(before, low));
    assert(bend == T::diff(T::diff(d1, d2), T::diff(d3, d4)));
    lemma_ring_difference(half, T::diff(d1, d2), T::diff(d3, d4));
    lemma_ring_difference(half, d1, d2);
    lemma_ring_difference(half, d3, d4);
    lemma_half_doubled(beta, T::prod(b, s2));
    lemma_ring_factors(b, beta, s2);
    let r = T::prod(square, s2);
    assert(T::prod(half, d1) == r);
    lemma_half_doubled(beta, T::prod(next, s));
    lemma_ring_factors(beta, next, s);
    let l = T::prod(T::prod(beta, next), s);
    assert(T::prod(half, d2) == l);
    lemma_ring_factors(b, cj, s);
    lemma_half_doubled(beta, T::prod(cj, s));
    lemma_ring_factors(beta, cj, s);
    let m = T::prod(T::prod(beta, cj), s);
    assert(T::prod(half, d3) == m);
    let n = T::prod(half, d4);
    lemma_negative_differences(r, l, m, n);
    crate::operator_laws::lemma_axis_kinetic(x, beta, i, j);
    lemma_negative_factor(square, s2);
    if j >= 2 {
        let product = j * (j - 1);
        assert(0 <= product <= 0xffff_ffff) by (nonlinear_arith)
            requires
                2 <= j <= 0xffff,
                product == j * (j - 1),
        ;
        lemma_count_product::<T>(j, j - 1);
        lemma_ring_factors(cj, before, low);
        lemma_ring_factors(half, T::prod(cj, before), low);
        lemma_negative_factor(T::prod(half, T::count(product as u64)), low);
    } else {
        if j == 0 {
            lemma_no_count(T::prod(before, low));
        } else {
            lemma_no_count(low);
            lemma_ring_sums(cj, cj, cj);
        }
        lemma_ring_sums(half, half, half);
        lemma_ring_negatives(half, half);
    }
}

/// Two sums as differences.
proof fn lemma_moved<T: Scalar>(u: T, v: T, x: T, y: T)
    requires
        is_ring::<T>(),
        T::sum(u, v) == T::sum(x, y),
    ensures
        T::diff(v, y) == T::diff(x, u),
{
    let (mu, my) = (T::neg(u), T::neg(y));
    lemma_ring_negatives(v, y);
    lemma_ring_negatives(x, u);
    lemma_ring_negatives(u, u);
    lemma_ring_negatives(y, y);
    // v - y == ((u + v) - u) - y == ((x + y) - u) - y == x - u.
    let total = T::sum(u, v);
    lemma_ring_sums(u, v, mu);
    lemma_ring_sums(T::count(0), v, v);
    lemma_ring_sums(v, v, v);
    assert(T::sum(total, mu) == v);
    lemma_ring_sums(x, y, mu);
    lemma_ring_sums(T::sum(x, mu), y, my);
    let d = T::sum(x, mu);
    lemma_ring_sums(d, d, d);
}

/// The derivative with respect to the second center by that with respect to the first.
pub proof fn lemma_slope<T: Real>(a: Prim<T>, b: Prim<T>, k: int, i: int, j: int)
    requires
        is_ring::<T>(),
        counts_exactly::<T>(),
        has_product(a.exp, b.exp),
        0 <= k < 3,
        0 <= i < u64::MAX,
        0 <= j < u64::MAX,
    ensures
        ({
            let x = axis_of(a, b, k);
            slope_second(x, T::prod(T::count(2), b.exp), i, j) == T::diff(
                T::prod(T::count(i as u64), axis_overlap(x, i - 1, j)),
                T::prod(T::prod(T::count(2), a.exp), axis_overlap(x, i + 1, j)),
            )
        }),
{
    let x = axis_of(a, b, k);
    let (da, db) = (T::prod(T::count(2), a.exp), T::prod(T::count(2), b.exp));
    lemma_axis_of_two(a, b, k, i, j);
    lemma_moved(
        T::prod(da, axis_overlap(x, i + 1, j)),
        T::prod(db, axis_overlap(x, i, j + 1)),
        T::prod(T::count(i as u64), axis_overlap(x, i - 1, j)),
        T::prod(T::count(j as u64), axis_overlap(x, i, j - 1)),
    );
}

/// Two differences of two differences.
proof fn lemma_differences_exchanged<T: Scalar>(a: T, b: T, c: T, d: T, p: T, q: T, r: T, t: T)
    requires
        is_ring::<T>(),
    ensures
        T::diff(
            T::prod(b, T::diff(T::prod(c, p), T::prod(a, q))),
            T::prod(d, T::diff(T::prod(c, r), T::prod(a, t))),
        ) == T::diff(
            T::prod(c, T::diff(T::prod(b, p), T::prod(d, r))),
            T::prod(a, T::diff(T::prod(b, q), T::prod(d, t))),
        ),
{
    let (bp, bq) = (T::prod(b, p), T::prod(b, q));
    let (dr, dt) = (T::prod(d, r), T::prod(d, t));
    lemma_ring_difference(b, T::prod(c, p), T::prod(a, q));
    lemma_ring_difference(d, T::prod(c, r), T::prod(a, t));
    lemma_ring_difference(c, bp, dr);
    lemma_ring_difference(a, bq, dt);
    lemma_ring_factors(c, b, p);
    lemma_ring_factors(a, b, q);
    lemma_ring_factors(c, d, r);
    lemma_ring_factors(a, d, t);
    let (u, v) = (T::prod(c, bp), T::prod(a, bq));
    let (w, z) = (T::prod(c, dr), T::prod(a, dt));
    // (u - v) - (w - z) == (u - w) - (v - z)
    lemma_ring_negatives(u, v);
    lemma_ring_negatives(w, z);
    lemma_ring_negatives(u, w);
    lemma_ring_negatives(v, z);
    lemma_ring_negatives(T::diff(u, v), T::diff(w, z));
    lemma_ring_negatives(T::diff(u, w), T::diff(v, z));
    lemma_ring_negatives(w, T::neg(z));
    lemma_ring_negatives(v, T::neg(z));
    lemma_ring_negatives(z, z);
    crate::engine::invariance::lemma_interchange(u, T::neg(v), T::neg(w), z);
}

/// A difference of differences, each turned around.
proof fn lemma_turned<T: Scalar>(a: T, c: T, u: T, v: T, w: T, y: T)
    requires
        is_ring::<T>(),
    ensures
        T::diff(T::prod(c, T::diff(v, u)), T::prod(a, T::diff(y, w))) == T::diff(
            T::prod(a, T::diff(w, y)),
            T::prod(c, T::diff(u, v)),
        ),
{
    let (p, q) = (T::diff(u, v), T::diff(w, y));
    lemma_ring_negatives(u, v);
    lemma_ring_negatives(v, u);
    lemma_ring_negatives(w, y);
    lemma_ring_negatives(y, w);
    lemma_ring_negatives(u, T::neg(v));
    lemma_ring_negatives(v, v);
    lemma_ring_negatives(w, T::neg(y));
    lemma_ring_negatives(y, y);
    lemma_ring_sums(T::neg(u), v, v);
    lemma_ring_sums(T::neg(w), y, y);
    assert(T::diff(v, u) == T::neg(p) && T::diff(y, w) == T::neg(q));
    lemma_ring_negatives(c, p);
    lemma_ring_negatives(a, q);
    let (cp, aq) = (T::prod(c, p), T::prod(a, q));
    lemma_ring_negatives(T::neg(cp), T::neg(aq));
    lemma_ring_negatives(aq, cp);
    lemma_ring_negatives(aq, aq);
    lemma_ring_sums(T::neg(cp), aq, aq);
}

/// The second derivatives with respect to both centers agree.
proof fn lemma_bend_exchanged<T: Real>(a: Prim<T>, b: Prim<T>, k: int, i: int, j: int)
    requires
        is_ring::<T>(),
        counts_exactly::<T>(),
        has_product(a.exp, b.exp),
        0 <= k < 3,
        0 <= i <= 0xffff,
        0 <= j <= 0xffff,
    ensures
        ({
            let x = axis_of(a, b, k);
            bend_second(x, T::prod(T::count(2), b.exp), i, j) == bend_second(
                exchanged(x),
                T::prod(T::count(2), a.exp),
                j,
                i,
            )
        }),
{
    let x = axis_of(a, b, k);
    let y = exchanged(x);
    let (da, db) = (T::prod(T::count(2), a.exp), T::prod(T::count(2), b.exp));
    let (ci, cj) = (T::count(i as u64), T::count(j as u64));
    let s = |m: int, n: int| axis_overlap(x, m, n);
    lemma_slope(a, b, k, i, j + 1);
    let (p, q) = (s(i - 1, j + 1), s(i + 1, j + 1));
    let (r, t) = (s(i - 1, j - 1), s(i + 1, j - 1));
    let low = T::diff(T::prod(ci, r), T::prod(da, t));
    if j >= 1 {
        lemma_slope(a, b, k, i, j - 1);
    } else {
        lemma_no_count(slope_second(x, db, i, j - 1));
        lemma_no_count(low);
    }
    assert(bend_second(x, db, i, j) == T::diff(
        T::prod(db, T::diff(T::prod(ci, p), T::prod(da, q))),
        T::prod(cj, low),
    ));
    lemma_differences_exchanged(da, db, ci, cj, p, q, r, t);
    lemma_slope(a, b, k, i + 1, j);
    let (u, v) = (T::prod(da, s(i, j)), T::prod(T::count((i - 1) as u64), s(i - 2, j)));
    let (w, z) = (T::prod(da, s(i + 2, j)), T::prod(T::count((i + 1) as u64), s(i, j)));
    let near = T::diff(T::prod(db, p), T::prod(cj, r));
    if i >= 1 {
        lemma_slope(a, b, k, i - 1, j);
        assert(near == T::diff(v, u));
    } else {
        lemma_no_count(near);
        lemma_no_count(T::diff(v, u));
    }
    assert(bend_second(x, db, i, j) == T::diff(
        T::prod(ci, T::diff(v, u)),
        T::prod(da, T::diff(z, w)),
    ));
    lemma_turned(da, ci, u, v, w, z);
    lemma_exchanged(x, i, j);
    lemma_exchanged(x, i + 2, j);
    if i >= 2 {
        lemma_exchanged(x, i - 2, j);
    } else if i == 1 {
        lemma_no_count(s(i - 2, j));
        lemma_no_count(axis_overlap(y, j, i - 2));
    } else {
        lemma_no_count(T::diff(u, v));
        lemma_no_count(slope_second(y, da, j, i - 1));
    }
}

/// The overlap and the kinetic energy along an axis in the other order.
proof fn lemma_kinetic_exchanged<T: Real>(a: Prim<T>, b: Prim<T>, k: int, i: int, j: int)
    requires
        is_ring::<T>(),
        counts_exactly::<T>(),
        has_product(a.exp, b.exp),
        0 <= k < 3,
        0 <= i <= 0xffff,
        0 <= j <= 0xffff,
    ensures
        axis_overlap(axis_of(a, b, k), i, j) == axis_overlap(axis_of(b, a, k), j, i),
        axis_kinetic(axis_of(a, b, k), b.exp, i, j) == axis_kinetic(
            axis_of(b, a, k),
            a.exp,
            j,
            i,
        ),
{
    let x = axis_of(a, b, k);
    lemma_axis_exchanged(a, b, k);
    lemma_exchanged(x, i, j);
    lemma_bend_exchanged(a, b, k, i, j);
    lemma_half_bend(x, b.exp, i, j);
    lemma_half_bend(exchanged(x), a.exp, j, i);
}

/// The kinetic energy matrix is symmetric, in any commutative ring in which counts add up
/// and the sums of exponents can be divided by.
pub proof fn law_kinetic_is_symmetric<T: Real>(shells: Seq<Shell<T>>, x: At, y: At)
    requires
        is_ring::<T>(),
        counts_exactly::<T>(),
        is_function(function_counts(shells), x),
        is_function(function_counts(shells), y),
        shells[x.0].valid(),
        shells[y.0].valid(),
        have_products(shells[x.0], shells[y.0]),
    ensures
        pair_entries(kinetic_step::<T>(), shells)(x, y) == pair_entries(
            kinetic_step::<T>(),
            shells,
        )(y, x),
{
    let (a, b) = (shells[x.0], shells[y.0]);
    let one = T::count(1);
    lemma_kinetic_adds::<T>();
    assert forall|i: int, j: int, ca: Powers, cb: Powers|
        0 <= i < a.exponents@.len() && 0 <= j < b.exponents@.len() && is_component(
            ca,
            a.l as int,
        ) && is_component(cb, b.l as int) implies #[trigger] kinetic_of()(
        a.primitive(i),
        b.primitive(j),
        ca,
        cb,
    ) == T::prod(one, kinetic_of()(b.primitive(j), a.primitive(i), cb, ca)) by {
        let (pa, pb) = (a.primitive(i), b.primitive(j));
        assert(has_product(a.exponents@[i], b.exponents@[j]));
        lemma_kinetic_exchanged(pa, pb, 0, ca.0, cb.0);
        lemma_kinetic_exchanged(pa, pb, 1, ca.1, cb.1);
        lemma_kinetic_exchanged(pa, pb, 2, ca.2, cb.2);
        let v = kinetic_value(pb, pa, cb, ca);
        lemma_ring_sums(v, v, v);
    }
    lemma_entries_transposed(kinetic_step::<T>(), kinetic_of(), one, shells, x, y);
    let v = pair_entries(kinetic_step::<T>(), shells)(y, x);
    lemma_ring_sums(v, v, v);
}

} // verus!
