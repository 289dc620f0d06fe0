//! The product of two Gaussians is a Gaussian.
//!
//! The exponents of two Gaussians add up, at every point, to that of a Gaussian about the
//! center of the pair and a constant; the prefactor of the pair is the exponential of the
//! constant. Only pairs of a negligible prefactor are dropped.
use vstd::prelude::*;

use crate::ecp::products::{lemma_four, lemma_squared, lemma_three_scaled, lemma_three_sums};
use crate::engine::pairs::{
    difference, dropped, kept_pairs, negligible, prim_pair, primitive_count, shell_pairs, square,
    Contraction, Vec3,
};
use crate::exact::{
    counts_exactly, is_ring, lemma_count_product, lemma_negative_factor, lemma_ring_commute,
    lemma_ring_difference, lemma_ring_factors, lemma_ring_negatives, lemma_ring_sums,
};
use crate::math::rotation::{
    divides_by_units, has_inverse, inverts_counts, lemma_cancelled,
};
use crate::scalar::{fraction, Real, Scalar};

verus! {

/// The square of a sum.
proof fn lemma_square_of_sum<T: Scalar>(a: T, b: T)
    requires
        is_ring::<T>(),
    ensures
        T::prod(T::sum(a, b), T::sum(a, b)) == T::sum(
            T::sum(T::prod(a, a), T::prod(a, b)),
            T::sum(T::prod(a, b), T::prod(b, b)),
        ),
{
    let s = T::sum(a, b);
    lemma_ring_factors(s, a, b);
    lemma_ring_commute(s, a);
    lemma_ring_commute(s, b);
    lemma_ring_factors(a, a, b);
    lemma_ring_factors(b, a, b);
    lemma_ring_commute(b, a);
}

/// `(e + f)(e u^2 + f v^2)` is `(e u + f v)^2 + e f (v - u)^2`.
proof fn lemma_weights<T: Scalar>(e: T, f: T, u: T, v: T)
    requires
        is_ring::<T>(),
    ensures
        ({
            let (d, m) = (T::diff(v, u), T::sum(T::prod(e, u), T::prod(f, v)));
            T::prod(
                T::sum(e, f),
                T::sum(T::prod(e, T::prod(u, u)), T::prod(f, T::prod(v, v))),
            ) == T::sum(T::prod(m, m), T::prod(T::prod(e, f), T::prod(d, d)))
        }),
{
    let (uu, vv, uv) = (T::prod(u, u), T::prod(v, v), T::prod(u, v));
    let (eu, fv) = (T::prod(e, u), T::prod(f, v));
    let ef = T::prod(e, f);
    let d = T::diff(v, u);
    let a = T::prod(eu, eu);
    let b = T::prod(ef, vv);
    let c = T::prod(ef, uu);
    let g = T::prod(fv, fv);
    let x = T::prod(eu, fv);
    let (p, q) = (T::prod(e, uu), T::prod(f, vv));
    let s = T::sum(e, f);
    // The left side.
    lemma_ring_factors(s, p, q);
    lemma_ring_commute(s, p);
    lemma_ring_commute(s, q);
    lemma_ring_factors(p, e, f);
    lemma_ring_factors(q, e, f);
    lemma_ring_commute(p, e);
    lemma_ring_commute(p, f);
    lemma_ring_commute(q, e);
    lemma_ring_commute(q, f);
    lemma_squared(e, u);
    lemma_squared(f, v);
    lemma_ring_factors(e, e, uu);
    lemma_ring_factors(f, f, vv);
    lemma_ring_factors(e, f, uu);
    lemma_ring_factors(e, f, vv);
    assert(T::prod(e, p) == a && T::prod(f, q) == g);
    assert(T::prod(f, p) == c && T::prod(e, q) == b);
    // The square of the sum.
    lemma_square_of_sum(eu, fv);
    // The square of the difference.
    let n = T::neg(u);
    lemma_ring_negatives(v, u);
    lemma_square_of_sum(v, n);
    lemma_ring_negatives(v, u);
    lemma_ring_negatives(n, u);
    lemma_negative_factor(u, u);
    lemma_ring_negatives(uu, uu);
    lemma_ring_commute(v, u);
    let nuv = T::neg(uv);
    assert(T::prod(d, d) == T::sum(T::sum(vv, nuv), T::sum(nuv, uu)));
    lemma_ring_factors(ef, T::sum(vv, nuv), T::sum(nuv, uu));
    lemma_ring_factors(ef, vv, nuv);
    lemma_ring_factors(ef, nuv, uu);
    lemma_ring_negatives(ef, uv);
    // (e f)(u v) is (e u)(f v).
    lemma_ring_factors(e, f, uv);
    lemma_ring_factors(u, f, v);
    lemma_ring_factors(e, u, fv);
    assert(T::prod(ef, uv) == x);
    let nx = T::neg(x);
    assert(T::prod(ef, T::prod(d, d)) == T::sum(T::sum(b, nx), T::sum(nx, c)));
    // ((a + x) + (x + g)) + ((b - x) + (c - x)).
    lemma_ring_negatives(x, x);
    lemma_ring_sums(nx, c, c);
    lemma_ring_sums(x, g, g);
    lemma_four(a, x, g, x);
    lemma_four(b, nx, c, nx);
    let (xx, nn) = (T::sum(x, x), T::sum(nx, nx));
    lemma_four(T::sum(a, g), xx, T::sum(b, c), nn);
    lemma_four(x, x, nx, nx);
    lemma_ring_sums(T::count(0), T::count(0), T::count(0));
    let all = T::sum(T::sum(a, g), T::sum(b, c));
    lemma_ring_sums(all, all, all);
    lemma_ring_sums(b, c, c);
    lemma_four(a, g, c, b);
    lemma_ring_sums(g, b, b);
}

/// The exponents along one axis.
proof fn lemma_axis<T: Scalar>(e: T, a: T, f: T, b: T, x: T)
    requires
        is_ring::<T>(),
        divides_by_units::<T>(),
        has_inverse(T::sum(e, f)),
    ensures
        ({
            let z = T::sum(e, f);
            let p = T::quot(T::sum(T::prod(e, a), T::prod(f, b)), z);
            let (u, v, w, d) = (T::diff(x, a), T::diff(x, b), T::diff(x, p), T::diff(a, b));
            T::sum(T::prod(e, T::prod(u, u)), T::prod(f, T::prod(v, v))) == T::sum(
                T::prod(z, T::prod(w, w)),
                T::prod(T::quot(T::prod(e, f), z), T::prod(d, d)),
            )
        }),
{
    let z = T::sum(e, f);
    let (ea, fb) = (T::prod(e, a), T::prod(f, b));
    let p = T::quot(T::sum(ea, fb), z);
    let (u, v, w, d) = (T::diff(x, a), T::diff(x, b), T::diff(x, p), T::diff(a, b));
    let m = T::quot(T::prod(e, f), z);
    assert(T::prod(z, p) == T::sum(ea, fb));
    assert(T::prod(z, m) == T::prod(e, f));
    lemma_weights(e, f, u, v);
    // z (x - p) is e (x - a) + f (x - b).
    lemma_ring_difference(z, x, p);
    lemma_ring_difference(e, x, a);
    lemma_ring_difference(f, x, b);
    lemma_ring_commute(z, x);
    lemma_ring_factors(x, e, f);
    lemma_ring_commute(x, e);
    lemma_ring_commute(x, f);
    let (ex, fx) = (T::prod(e, x), T::prod(f, x));
    lemma_ring_negatives(ea, fb);
    lemma_ring_negatives(T::sum(ex, fx), T::sum(ea, fb));
    lemma_four(ex, fx, T::neg(ea), T::neg(fb));
    lemma_ring_negatives(ex, ea);
    lemma_ring_negatives(fx, fb);
    let zw = T::prod(z, w);
    assert(zw == T::sum(T::prod(e, u), T::prod(f, v)));
    // v - u is a - b.
    let (na, nb) = (T::neg(a), T::neg(b));
    lemma_ring_negatives(x, a);
    lemma_ring_negatives(x, b);
    lemma_ring_negatives(v, u);
    lemma_ring_negatives(x, na);
    lemma_ring_negatives(a, a);
    let nx = T::neg(x);
    lemma_four(x, nb, nx, a);
    lemma_ring_negatives(x, x);
    lemma_ring_sums(T::sum(nb, a), nb, a);
    lemma_ring_sums(nb, a, a);
    lemma_ring_negatives(a, b);
    assert(T::diff(v, u) == d);
    // Both sides times z.
    let (ww, dd) = (T::prod(w, w), T::prod(d, d));
    let right = T::sum(T::prod(z, ww), T::prod(m, dd));
    lemma_ring_factors(z, T::prod(z, ww), T::prod(m, dd));
    lemma_squared(z, w);
    lemma_ring_factors(z, z, ww);
    lemma_ring_factors(z, m, dd);
    let left = T::sum(T::prod(e, T::prod(u, u)), T::prod(f, T::prod(v, v)));
    lemma_cancelled(z, left, right);
}

/// At every point, the exponents of two Gaussians add up to that of the Gaussian of the pair
/// and the negative of the logarithm of its prefactor.
pub proof fn law_product_of_gaussians<T: Real>(
    a: Vec3<T>,
    e1: T,
    c1: T,
    b: Vec3<T>,
    e2: T,
    c2: T,
    x: Vec3<T>,
)
    requires
        is_ring::<T>(),
        divides_by_units::<T>(),
        has_inverse(T::sum(e1, e2)),
    ensures
        ({
            let pair = prim_pair(a, e1, c1, b, e2, c2);
            let both = T::sum(
                T::prod(e1, square(difference(x, a))),
                T::prod(e2, square(difference(x, b))),
            );
            let one = T::prod(pair.zeta, square(difference(x, pair.center)));
            pair.kappa == T::expo(T::diff(one, both))
        }),
{
    let pair = prim_pair(a, e1, c1, b, e2, c2);
    let z = pair.zeta;
    let p = pair.center;
    let m = T::quot(T::prod(e1, e2), z);
    let (u, v) = (difference(x, a), difference(x, b));
    let (w, d) = (difference(x, p), difference(a, b));
    lemma_axis(e1, a[0], e2, b[0], x[0]);
    lemma_axis(e1, a[1], e2, b[1], x[1]);
    lemma_axis(e1, a[2], e2, b[2], x[2]);
    lemma_three_scaled(e1, T::prod(u[0], u[0]), T::prod(u[1], u[1]), T::prod(u[2], u[2]));
    lemma_three_scaled(e2, T::prod(v[0], v[0]), T::prod(v[1], v[1]), T::prod(v[2], v[2]));
    lemma_three_scaled(z, T::prod(w[0], w[0]), T::prod(w[1], w[1]), T::prod(w[2], w[2]));
    lemma_three_scaled(m, T::prod(d[0], d[0]), T::prod(d[1], d[1]), T::prod(d[2], d[2]));
    let eu = |k: int| T::prod(e1, T::prod(u[k], u[k]));
    let fv = |k: int| T::prod(e2, T::prod(v[k], v[k]));
    let zw = |k: int| T::prod(z, T::prod(w[k], w[k]));
    let md = |k: int| T::prod(m, T::prod(d[k], d[k]));
    lemma_three_sums(eu(0), eu(1), eu(2), fv(0), fv(1), fv(2));
    lemma_three_sums(zw(0), zw(1), zw(2), md(0), md(1), md(2));
    let both = T::sum(T::prod(e1, square(u)), T::prod(e2, square(v)));
    let (one, rest) = (T::prod(z, square(w)), T::prod(m, square(d)));
    assert(both == T::sum(one, rest));
    lemma_ring_negatives(one, both);
    lemma_ring_negatives(one, rest);
    lemma_ring_sums(one, T::neg(one), T::neg(rest));
    lemma_ring_sums(T::neg(rest), one, one);
    lemma_negative_factor(m, square(d));
}

/// The bound below which a pair is dropped is one over the thirty-second power of ten.
pub proof fn law_negligible<T: Real>()
    requires
        is_ring::<T>(),
        counts_exactly::<T>(),
        divides_by_units::<T>(),
        inverts_counts::<T>(u64::MAX as int),
    ensures
        T::prod(
            T::prod(T::count(10_000_000_000_000_000), T::count(10_000_000_000_000_000)),
            negligible::<T>(),
        ) == T::count(1),
{
    let (few, hundred) = (T::count(100_000_000_000_000), T::count(100));
    let (some, many) = (T::count(10_000_000_000_000_000), T::count(1_000_000_000_000_000_000));
    lemma_count_product::<T>(100_000_000_000_000, 100);
    lemma_count_product::<T>(100, 10_000_000_000_000_000);
    lemma_ring_factors(few, hundred, some);
    assert(T::prod(some, some) == T::prod(few, many));
    let part = fraction::<T>(1, 100_000_000_000_000);
    assert(has_inverse(few) && has_inverse(many));
    assert(T::prod(few, part) == T::count(1));
    assert(T::prod(many, negligible::<T>()) == part);
    lemma_ring_factors(few, many, negligible::<T>());
}

/// A pair of primitives is among the pairs of two shells, or its prefactor times the
/// magnitude of its coefficients is negligible.
pub proof fn law_only_negligible_pairs_are_dropped<T: Real>(
    s1: Contraction<T>,
    s2: Contraction<T>,
    i: int,
    j: int,
)
    requires
        0 <= i < primitive_count(s1),
        0 <= j < primitive_count(s2),
    ensures
        ({
            let p = prim_pair(s1.0, s1.1[i], s1.2[i], s2.0, s2.1[j], s2.2[j]);
            shell_pairs(s1, s2).contains(p) || T::lt(
                T::prod(p.kappa, T::magnitude(T::prod(p.c1, p.c2))),
                negligible::<T>(),
            )
        }),
{
    lemma_kept(s1, s2, primitive_count(s1), 0, i, j);
}

proof fn lemma_kept<T: Real>(
    s1: Contraction<T>,
    s2: Contraction<T>,
    m: int,
    n: int,
    i: int,
    j: int,
)
    requires
        0 <= i,
        0 <= j < primitive_count(s2),
        0 <= m,
        0 <= n <= primitive_count(s2),
        i < m || i == m && j < n,
    ensures
        ({
            let p = prim_pair(s1.0, s1.1[i], s1.2[i], s2.0, s2.1[j], s2.2[j]);
            kept_pairs(s1, s2, m, n).contains(p) || dropped(p)
        }),
    decreases m, n,
{
    let p = prim_pair(s1.0, s1.1[i], s1.2[i], s2.0, s2.1[j], s2.2[j]);
    if n > 0 {
        let before = kept_pairs(s1, s2, m, n - 1);
        let list = kept_pairs(s1, s2, m, n);
        if i == m && j == n - 1 {
            if !dropped(p) {
                assert(list[list.len() - 1] == p);
            }
        } else {
            lemma_kept(s1, s2, m, n - 1, i, j);
            if before.contains(p) {
                let k = choose|k: int| 0 <= k < before.len() && before[k] == p;
                assert(list[k] == p);
            }
        }
    } else {
        lemma_kept(s1, s2, m - 1, primitive_count(s2), i, j);
    }
}

} // verus!
