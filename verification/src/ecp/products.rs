//! What the parts of the integrals of a potential stand for.
//!
//! The product of two Gaussians is, about the center of the potential, a polynomial in the
//! coordinates times the exponential of a constant, of a multiple of the coordinates and of
//! one of the square of the distance.
use vstd::prelude::*;

use crate::dense::larger;
use crate::ecp::angular::shifted_powers;
use crate::ecp::local::LocalPair;
use crate::ecp::monopole::calculates_exactly;
use crate::ecp::own_center::{law_binomials_are_pascals, pascal};
use crate::ecp::projected::ProjectedPair;
use crate::ecp::radial::{bessel_series, bessel_upward, series_from, window};
use crate::ecp::side::direction;
use crate::engine::pairs::{difference, square, Vec3};
use crate::engine::tower_roots::root_power;
use crate::exact::{
    is_ring, lemma_count_product, lemma_count_sum, lemma_negative_factor, lemma_ring_commute,
    lemma_ring_difference, lemma_ring_factors, lemma_ring_negatives, lemma_ring_sums,
    lemma_same_sum, lemma_sum_of_sums, sum_before,
};
use crate::math::harmonic_products::lemma_odd_factorial;
use crate::math::norm::odd_factorial;
use crate::math::rotation::{
    divides_by_units, has_inverse, lemma_cancelled, lemma_one_is_a_unit, lemma_units,
    lemma_zero_factor,
};
use crate::scalar::{fraction, Real, Scalar};
use crate::transposition::lemma_scaled_sum;

verus! {

/// The product of two vectors.
pub open spec fn dot<T: Scalar>(u: Vec3<T>, v: Vec3<T>) -> T {
    three(T::prod(u[0], v[0]), T::prod(u[1], v[1]), T::prod(u[2], v[2]))
}

/// The sum of three values.
pub open spec fn three<T: Scalar>(a: T, b: T, c: T) -> T {
    T::sum(T::sum(a, b), c)
}

/// Sums of three of sums.
pub proof fn lemma_three_sums<T: Scalar>(a: T, b: T, c: T, x: T, y: T, z: T)
    requires
        is_ring::<T>(),
    ensures
        three(T::sum(a, x), T::sum(b, y), T::sum(c, z)) == T::sum(three(a, b, c), three(x, y, z)),
{
    lemma_four(a, x, b, y);
    lemma_four(T::sum(a, b), T::sum(x, y), c, z);
}

/// Two sums of two may be taken crosswise.
pub proof fn lemma_four<T: Scalar>(a: T, x: T, b: T, y: T)
    requires
        is_ring::<T>(),
    ensures
        T::sum(T::sum(a, x), T::sum(b, y)) == T::sum(T::sum(a, b), T::sum(x, y)),
{
    lemma_ring_sums(T::sum(a, x), b, y);
    lemma_ring_sums(a, x, b);
    lemma_ring_sums(T::sum(a, b), x, y);
}

/// A factor of a sum of three.
pub proof fn lemma_three_scaled<T: Scalar>(s: T, a: T, b: T, c: T)
    requires
        is_ring::<T>(),
    ensures
        T::prod(s, three(a, b, c)) == three(T::prod(s, a), T::prod(s, b), T::prod(s, c)),
{
    lemma_ring_factors(s, a, b);
    lemma_ring_factors(s, T::sum(a, b), c);
}

/// `-a (x - c)^2` is `-a c^2 + 2 a c x - a x^2`.
proof fn lemma_axis_exponent<T: Real>(a: T, x: T, c: T)
    requires
        calculates_exactly::<T>(),
    ensures
        T::prod(T::neg(a), T::prod(T::diff(x, c), T::diff(x, c))) == T::sum(
            T::sum(
                T::prod(T::neg(a), T::prod(c, c)),
                T::prod(T::prod(T::count(2), T::prod(a, c)), x),
            ),
            T::prod(T::neg(a), T::prod(x, x)),
        ),
{
    let (m, na, d) = (T::neg(c), T::neg(a), T::diff(x, c));
    let (xx, cc, xc) = (T::prod(x, x), T::prod(c, c), T::prod(x, c));
    let (nxx, ncc) = (T::prod(na, xx), T::prod(na, cc));
    let axc = T::prod(a, xc);
    lemma_ring_negatives(x, c);
    assert(d == T::sum(x, m));
    lemma_ring_factors(d, x, m);
    lemma_ring_commute(d, x);
    lemma_ring_commute(d, m);
    lemma_ring_factors(x, x, m);
    lemma_ring_factors(m, x, m);
    lemma_ring_commute(m, x);
    lemma_ring_negatives(m, c);
    lemma_negative_factor(c, c);
    lemma_ring_negatives(cc, cc);
    let nxc = T::neg(xc);
    assert(T::prod(x, m) == nxc);
    assert(T::prod(m, m) == cc);
    assert(T::prod(d, d) == T::sum(T::sum(xx, nxc), T::sum(nxc, cc)));
    lemma_ring_factors(na, T::sum(xx, nxc), T::sum(nxc, cc));
    lemma_ring_factors(na, xx, nxc);
    lemma_ring_factors(na, nxc, cc);
    lemma_ring_negatives(na, xc);
    lemma_negative_factor(a, xc);
    lemma_ring_negatives(axc, axc);
    assert(T::prod(na, nxc) == axc);
    // (nxx + axc) + (axc + ncc) is (ncc + 2 axc) + nxx.
    lemma_count_sum::<T>(1, 1);
    lemma_ring_commute(T::count(2), axc);
    lemma_ring_factors(axc, T::count(1), T::count(1));
    lemma_ring_commute(axc, T::count(1));
    lemma_ring_sums(axc, axc, axc);
    let two = T::prod(T::count(2), axc);
    assert(two == T::sum(axc, axc));
    lemma_ring_sums(nxx, axc, T::sum(axc, ncc));
    lemma_ring_sums(axc, axc, ncc);
    lemma_ring_sums(two, ncc, nxx);
    lemma_ring_sums(nxx, T::sum(two, ncc), nxx);
    // 2 (a (x c)) is (2 (a c)) x.
    lemma_ring_commute(x, c);
    lemma_ring_factors(a, c, x);
    lemma_ring_factors(T::count(2), T::prod(a, c), x);
}

/// The exponent of one Gaussian about the center of the potential.
proof fn lemma_exponent<T: Real>(a: T, r: Vec3<T>, c: Vec3<T>)
    requires
        calculates_exactly::<T>(),
    ensures
        T::prod(T::neg(a), square(difference(r, c))) == T::sum(
            T::sum(
                T::prod(T::neg(a), square(c)),
                three(
                    T::prod(T::prod(T::count(2), T::prod(a, c[0])), r[0]),
                    T::prod(T::prod(T::count(2), T::prod(a, c[1])), r[1]),
                    T::prod(T::prod(T::count(2), T::prod(a, c[2])), r[2]),
                ),
            ),
            T::prod(T::neg(a), square(r)),
        ),
{
    let n = T::neg(a);
    let d = difference(r, c);
    lemma_axis_exponent(a, r[0], c[0]);
    lemma_axis_exponent(a, r[1], c[1]);
    lemma_axis_exponent(a, r[2], c[2]);
    lemma_three_scaled(n, T::prod(d[0], d[0]), T::prod(d[1], d[1]), T::prod(d[2], d[2]));
    lemma_three_scaled(n, T::prod(c[0], c[0]), T::prod(c[1], c[1]), T::prod(c[2], c[2]));
    lemma_three_scaled(n, T::prod(r[0], r[0]), T::prod(r[1], r[1]), T::prod(r[2], r[2]));
    let u = |k: int| T::prod(n, T::prod(c[k], c[k]));
    let v = |k: int| T::prod(T::prod(T::count(2), T::prod(a, c[k])), r[k]);
    let w = |k: int| T::prod(n, T::prod(r[k], r[k]));
    lemma_three_sums(u(0), u(1), u(2), v(0), v(1), v(2));
    lemma_three_sums(
        T::sum(u(0), v(0)),
        T::sum(u(1), v(1)),
        T::sum(u(2), v(2)),
        w(0),
        w(1),
        w(2),
    );
}

/// At every point, the exponents of two Gaussians about the centers of two sides add up to
/// the exponent at the center of the potential, the product of the point with the vector
/// of the exponential, and the sum of the exponents times the square of the distance.
pub proof fn law_exponents_of_a_pair<T: Real>(x: LocalPair<T>, r: Vec3<T>)
    requires
        calculates_exactly::<T>(),
    ensures
        T::sum(
            T::prod(T::neg(x.aa), square(difference(r, x.a.cv))),
            T::prod(T::neg(x.ab), square(difference(r, x.b.cv))),
        ) == T::diff(
            T::sum(x.arg0(), dot(x.vector(), r)),
            T::prod(x.asum(), square(r)),
        ),
{
    let (a, b) = (x.aa, x.ab);
    let (u, v) = (x.a.cv, x.b.cv);
    let two = T::count(2);
    lemma_exponent(a, r, u);
    lemma_exponent(b, r, v);
    let ka = |k: int| T::prod(T::prod(two, T::prod(a, u[k])), r[k]);
    let kb = |k: int| T::prod(T::prod(two, T::prod(b, v[k])), r[k]);
    assert forall|k: int| 0 <= k < 3 implies #[trigger] T::prod(x.vector()[k], r[k]) == T::sum(
        ka(k),
        kb(k),
    ) by {
        let (p, q) = (T::prod(a, u[k]), T::prod(b, v[k]));
        lemma_ring_factors(two, p, q);
        lemma_ring_commute(T::sum(T::prod(two, p), T::prod(two, q)), r[k]);
        lemma_ring_factors(r[k], T::prod(two, p), T::prod(two, q));
        lemma_ring_commute(r[k], T::prod(two, p));
        lemma_ring_commute(r[k], T::prod(two, q));
    }
    assert(T::prod(x.vector()[0], r[0]) == T::sum(ka(0), kb(0)));
    assert(T::prod(x.vector()[1], r[1]) == T::sum(ka(1), kb(1)));
    assert(T::prod(x.vector()[2], r[2]) == T::sum(ka(2), kb(2)));
    lemma_three_sums(ka(0), ka(1), ka(2), kb(0), kb(1), kb(2));
    let (sa, sb) = (three(ka(0), ka(1), ka(2)), three(kb(0), kb(1), kb(2)));
    assert(dot(x.vector(), r) == T::sum(sa, sb));
    let (ca, cb) = (T::prod(T::neg(a), square(u)), T::prod(T::neg(b), square(v)));
    lemma_negative_factor(b, square(v));
    lemma_ring_negatives(ca, T::prod(b, square(v)));
    assert(x.arg0() == T::sum(ca, cb));
    let s = square(r);
    let (ra, rb) = (T::prod(T::neg(a), s), T::prod(T::neg(b), s));
    // -((a + b) s) is -(a s) - (b s).
    lemma_ring_commute(T::sum(a, b), s);
    lemma_ring_factors(s, a, b);
    lemma_ring_commute(s, a);
    lemma_ring_commute(s, b);
    lemma_negative_factor(a, s);
    lemma_negative_factor(b, s);
    lemma_ring_negatives(T::prod(a, s), T::prod(b, s));
    assert(T::neg(T::prod(x.asum(), s)) == T::sum(ra, rb));
    let all = T::sum(x.arg0(), dot(x.vector(), r));
    lemma_ring_negatives(all, T::prod(x.asum(), s));
    lemma_four(ca, sa, cb, sb);
    lemma_four(T::sum(ca, sa), ra, T::sum(cb, sb), rb);
}

/// The exponents of a pair over a projected part are those of the same pair over the local
/// part, and the length of each side is twice the exponent times its distance.
pub proof fn law_exponents_of_a_projected_pair<T: Real>(y: ProjectedPair<T>, x: LocalPair<T>)
    requires
        calculates_exactly::<T>(),
        y.a == x.a,
        y.b == x.b,
        y.aa == x.aa,
        y.ab == x.ab,
        T::le(T::count(0), square(y.a.cv)),
        T::le(T::count(0), square(y.b.cv)),
        T::lt(fraction(1, 1000000000000), T::root(square(y.a.cv))),
        T::lt(fraction(1, 1000000000000), T::root(square(y.b.cv))),
    ensures
        y.arg0() == x.arg0(),
        y.asum() == x.asum(),
        T::prod(y.lengths().0, y.lengths().0) == T::prod(
            T::prod(T::prod(T::count(2), y.aa), T::prod(T::count(2), y.aa)),
            square(y.a.cv),
        ),
        T::prod(y.lengths().1, y.lengths().1) == T::prod(
            T::prod(T::prod(T::count(2), y.ab), T::prod(T::count(2), y.ab)),
            square(y.b.cv),
        ),
        y.length() == T::sum(y.lengths().0, y.lengths().1),
{
    lemma_squared(T::prod(T::count(2), y.aa), T::root(square(y.a.cv)));
    lemma_squared(T::prod(T::count(2), y.ab), T::root(square(y.b.cv)));
}

/// The square of a product.
pub proof fn lemma_squared<T: Scalar>(a: T, b: T)
    requires
        is_ring::<T>(),
    ensures
        T::prod(T::prod(a, b), T::prod(a, b)) == T::prod(T::prod(a, a), T::prod(b, b)),
{
    let ab = T::prod(a, b);
    lemma_ring_factors(a, b, ab);
    lemma_ring_factors(a, b, b);
    lemma_ring_factors(a, a, T::prod(b, b));
}

/// The direction of a vector that is not too short, times its length, is the vector.
pub proof fn law_direction<T: Real>(v: Vec3<T>, r: T, k: int)
    requires
        divides_by_units::<T>(),
        has_inverse(r),
        T::lt(fraction(1, 1000000000000), r),
        0 <= k < 3,
    ensures
        T::prod(direction(v, r).0, direction(v, r).1[k]) == v[k],
{
}

/// The value of a polynomial with the first `n` of its coefficients.
pub open spec fn polynomial<T: Real>(c: Seq<T>, u: T, n: int) -> T {
    sum_before(|i: int| T::prod(c[i], T::raised(u, i as u64)), n)
}

/// Neighbours in a column of Pascal's triangle add up to the one below.
proof fn lemma_shifted_step<T: Real>(p: int, c: T, i: int)
    requires
        calculates_exactly::<T>(),
        0 <= p < 40,
        0 <= i <= p + 1,
    ensures
        shifted_powers(p + 1, c)[i] == T::sum(
            if i > 0 {
                shifted_powers(p, c)[i - 1]
            } else {
                T::count(0)
            },
            if i <= p {
                T::prod(T::neg(c), shifted_powers(p, c)[i])
            } else {
                T::count(0)
            },
        ),
{
    let m = T::neg(c);
    law_binomials_are_pascals::<T>(p + 1, i);
    let w = T::raised(m, (p + 1 - i) as u64);
    let (lo, hi) = (pascal(p, i - 1), pascal(p, i));
    let all = pascal(p + 1, i);
    let (tlo, thi) = (T::count(lo as u64), T::count(hi as u64));
    if i > 0 {
        law_binomials_are_pascals::<T>(p, i - 1);
        assert(p - (i - 1) == p + 1 - i);
        assert(shifted_powers(p, c)[i - 1] == T::prod(tlo, w));
    }
    if i <= p {
        law_binomials_are_pascals::<T>(p, i);
        let low = (p - i) as u64;
        assert(T::raised(m, (low + 1) as u64) == T::prod(m, T::raised(m, low)));
        lemma_ring_factors(m, thi, T::raised(m, low));
        assert(T::prod(m, shifted_powers(p, c)[i]) == T::prod(thi, w));
    }
    let v = T::prod(T::count(all as u64), w);
    lemma_ring_sums(v, v, v);
    if i == 0 {
        assert(all == 1 && hi == 1);
    } else if i == p + 1 {
        assert(hi == 0);
        assert(all == lo);
    } else {
        assert(all == lo + hi);
        lemma_count_sum::<T>(lo, hi);
        lemma_ring_commute(T::sum(tlo, thi), w);
        lemma_ring_factors(w, tlo, thi);
        lemma_ring_commute(w, tlo);
        lemma_ring_commute(w, thi);
    }
}

/// A sum whose terms are shifted by one place.
proof fn lemma_shifted_sum<T: Scalar>(f: spec_fn(int) -> T, g: spec_fn(int) -> T, n: int)
    requires
        is_ring::<T>(),
        0 <= n,
        g(0) == T::count(0),
        forall|i: int| 1 <= i <= n ==> #[trigger] g(i) == f(i - 1),
    ensures
        sum_before(g, n + 1) == sum_before(f, n),
    decreases n,
{
    let zero = T::count(0);
    lemma_ring_sums(zero, zero, zero);
    if n > 0 {
        lemma_shifted_sum(f, g, n - 1);
        assert(g(n) == f(n - 1));
    } else {
        assert(sum_before(g, 0) == zero);
    }
}

/// The coefficients of a component about the center of the potential are those of the
/// power of the distance along the axis: at every point the polynomial is `(u - c)^p`.
pub proof fn law_components_are_expanded<T: Real>(p: int, c: T, u: T)
    requires
        calculates_exactly::<T>(),
        0 <= p <= 40,
    ensures
        shifted_powers(p, c).len() == p + 1,
        polynomial(shifted_powers(p, c), u, p + 1) == T::raised(T::diff(u, c), p as u64),
    decreases p,
{
    let s = shifted_powers(p, c);
    let (one, zero) = (T::count(1), T::count(0));
    let m = T::neg(c);
    let d = T::diff(u, c);
    if p == 0 {
        let f = |i: int| T::prod(s[i], T::raised(u, i as u64));
        assert(T::raised(m, 0) == one && T::raised(u, 0) == one && T::raised(d, 0) == one);
        lemma_ring_sums(one, one, one);
        reveal_with_fuel(sum_before, 2);
        assert(f(0) == one);
    } else {
        law_components_are_expanded(p - 1, c, u);
        let t = shifted_powers(p - 1, c);
        let f = |i: int| T::prod(t[i], T::raised(u, i as u64));
        let h = |i: int| T::prod(s[i], T::raised(u, i as u64));
        let up = |i: int| T::prod(u, f(i));
        let moved = |i: int|
            if i <= 0 {
                zero
            } else {
                up(i - 1)
            };
        let own = |i: int|
            if i < p {
                T::prod(m, f(i))
            } else {
                zero
            };
        assert forall|i: int| 0 <= i < p + 1 implies #[trigger] h(i) == T::sum(
            moved(i),
            own(i),
        ) by {
            lemma_shifted_step(p - 1, c, i);
            let w = T::raised(u, i as u64);
            let a = if i > 0 {
                t[i - 1]
            } else {
                zero
            };
            let b = if i < p {
                T::prod(m, t[i])
            } else {
                zero
            };
            assert(s[i] == T::sum(a, b));
            lemma_ring_commute(T::sum(a, b), w);
            lemma_ring_factors(w, a, b);
            lemma_ring_commute(w, a);
            lemma_ring_commute(w, b);
            lemma_zero_factor(w);
            if i > 0 {
                let low = (i - 1) as u64;
                assert(T::raised(u, (low + 1) as u64) == T::prod(u, T::raised(u, low)));
                lemma_ring_factors(u, t[i - 1], T::raised(u, low));
            }
            if i < p {
                lemma_ring_factors(m, t[i], w);
            }
        }
        lemma_ring_sums(zero, zero, zero);
        lemma_sum_of_sums(moved, own, h, p + 1);
        lemma_shifted_sum(up, moved, p);
        lemma_scaled_sum(u, f, up, p);
        let mine = |i: int| T::prod(m, f(i));
        lemma_same_sum(mine, own, p);
        lemma_scaled_sum(m, f, mine, p);
        let all = sum_before(f, p);
        assert(sum_before(own, p + 1) == T::sum(sum_before(own, p), zero));
        let part = sum_before(own, p);
        lemma_ring_sums(part, part, part);
        let low = (p - 1) as u64;
        assert(all == T::raised(d, low));
        assert(T::raised(d, (low + 1) as u64) == T::prod(d, T::raised(d, low)));
        lemma_ring_negatives(u, c);
        lemma_ring_commute(d, all);
        lemma_ring_factors(all, u, m);
        lemma_ring_commute(all, u);
        lemma_ring_commute(all, m);
    }
}

/// The functions that are found by the recurrence are the modified spherical Bessel
/// functions, times `exp(-x)`: neighbours obey `x i(n-1) - x i(n+1) = (2n+1) i(n)`, and the
/// first two are those of the hyperbolic sine and cosine.
pub proof fn law_bessel_recurrence<T: Real>(x: T, n: int)
    requires
        calculates_exactly::<T>(),
        has_inverse(x),
        1 <= n < 0x3fff_ffff,
    ensures
        T::diff(
            T::prod(x, bessel_upward(x, n - 1)),
            T::prod(x, bessel_upward(x, n + 1)),
        ) == T::prod(T::count((2 * n + 1) as u64), bessel_upward(x, n)),
        ({
            let e = T::expo(T::prod(T::neg(T::count(2)), x));
            &&& T::prod(T::prod(T::count(2), x), bessel_upward(x, 0)) == T::diff(T::count(1), e)
            &&& T::prod(T::prod(T::prod(T::count(2), x), x), bessel_upward(x, 1)) == T::sum(
                T::diff(x, T::count(1)),
                T::prod(T::sum(x, T::count(1)), e),
            )
        }),
{
    let (lo, at, hi) = (
        bessel_upward(x, n - 1),
        bessel_upward(x, n),
        bessel_upward(x, n + 1),
    );
    let c = T::count((2 * n + 1) as u64);
    let q = T::quot(c, x);
    assert(2 * (n + 1) - 1 == 2 * n + 1);
    let step = T::prod(q, at);
    assert(hi == T::diff(lo, step));
    lemma_ring_difference(x, lo, step);
    lemma_ring_factors(x, q, at);
    assert(T::prod(x, q) == c);
    let (a, b) = (T::prod(x, lo), T::prod(c, at));
    assert(T::prod(x, hi) == T::diff(a, b));
    // a - (a - b) is b.
    lemma_ring_negatives(a, T::diff(a, b));
    lemma_ring_negatives(a, b);
    lemma_ring_negatives(a, T::neg(b));
    lemma_ring_negatives(b, b);
    lemma_ring_sums(a, T::neg(a), b);
    lemma_ring_sums(b, b, b);
    let two = T::count(2);
    assert(has_inverse(two));
    lemma_units(two, x);
    lemma_units(T::prod(two, x), x);
}

/// The window of an integrand `r^n exp(k r - alpha r^2)` is laid about its peak, where
/// `2 alpha r` is `k`, as far as `alpha d^2` is below 80, and starts at no less than zero:
/// the middle plus and minus half the width are its ends.
pub proof fn law_window<T: Real>(alpha: T, k: T)
    requires
        calculates_exactly::<T>(),
        has_inverse(alpha),
        T::le(T::count(0), alpha),
    ensures
        ({
            let peak = T::quot(k, T::prod(T::count(2), alpha));
            let reach = T::root(T::quot(T::count(80), alpha));
            let (half, middle) = window(alpha, k);
            &&& T::prod(T::prod(T::count(2), alpha), peak) == k
            &&& T::prod(alpha, T::prod(reach, reach)) == T::count(80)
            &&& T::sum(middle, half) == T::sum(peak, reach)
            &&& T::diff(middle, half) == larger(T::diff(peak, reach), T::count(0))
        }),
{
    let two = T::count(2);
    assert(has_inverse(two));
    lemma_units(two, alpha);
    let peak = T::quot(k, T::prod(two, alpha));
    let q = T::quot(T::count(80), alpha);
    let reach = T::root(q);
    assert(T::le(T::count(0), T::count(80)));
    assert(T::le(T::count(0), q));
    let lo = larger(T::diff(peak, reach), T::count(0));
    let hi = T::sum(peak, reach);
    let h = fraction::<T>(1, 2);
    assert(T::prod(two, h) == T::count(1));
    lemma_ring_commute(two, h);
    let (a, b) = (T::prod(h, hi), T::prod(h, lo));
    lemma_ring_factors(h, hi, lo);
    lemma_ring_difference(h, hi, lo);
    let (half, middle) = window(alpha, k);
    assert(half == T::diff(a, b) && middle == T::sum(a, b));
    lemma_ring_negatives(a, b);
    lemma_halves(hi);
    lemma_halves(lo);
    let mb = T::neg(b);
    lemma_four(a, b, a, mb);
    lemma_ring_negatives(b, b);
    lemma_ring_sums(T::sum(a, a), b, b);
    // (a + b) - (a - b) is b + b.
    lemma_ring_negatives(middle, half);
    lemma_ring_negatives(a, mb);
    lemma_ring_negatives(a, a);
    let ma = T::neg(a);
    assert(T::neg(half) == T::sum(ma, b));
    lemma_four(a, b, ma, b);
    lemma_ring_sums(T::sum(b, b), b, b);
}

proof fn lemma_halves<T: Real>(a: T)
    requires
        calculates_exactly::<T>(),
    ensures
        T::sum(T::prod(fraction(1, 2), a), T::prod(fraction(1, 2), a)) == a,
{
    let h = fraction::<T>(1, 2);
    let two = T::count(2);
    assert(has_inverse(two));
    assert(T::prod(two, h) == T::count(1));
    lemma_count_sum::<T>(1, 1);
    let v = T::prod(h, a);
    lemma_ring_commute(two, v);
    lemma_ring_factors(v, T::count(1), T::count(1));
    lemma_ring_commute(v, T::count(1));
    lemma_ring_sums(v, v, v);
    lemma_ring_factors(two, h, a);
    lemma_ring_sums(a, a, a);
}

/// Double factorials have inverses.
proof fn lemma_odd_factorial_is_a_unit<T: Real>(n: int)
    requires
        calculates_exactly::<T>(),
        n <= u64::MAX,
    ensures
        has_inverse(odd_factorial::<T>(n)),
    decreases n,
{
    if n <= 1 {
        lemma_one_is_a_unit::<T>();
    } else {
        lemma_odd_factorial_is_a_unit::<T>(n - 2);
        lemma_odd_factorial::<T>(n);
        assert(has_inverse(T::count(n as u64)));
        lemma_units(T::count(n as u64), odd_factorial::<T>(n - 2));
    }
}

/// Term `t` of the power series of the modified spherical Bessel function of degree `lam`,
/// without `x^lam`: `x^(2t)/((2t)!! (2 lam + 2t + 1)!!)`.
pub open spec fn bessel_term<T: Real>(x2: T, lam: int, t: int) -> T {
    T::quot(
        root_power(x2, t),
        T::prod(odd_factorial::<T>(2 * t), odd_factorial::<T>(2 * lam + 2 * t + 1)),
    )
}

proof fn lemma_bessel_term<T: Real>(x2: T, lam: int, t: int)
    requires
        calculates_exactly::<T>(),
        0 <= lam <= 0x3fff_ffff,
        0 <= t < 500,
    ensures
        bessel_term(x2, lam, t + 1) == T::prod(
            bessel_term(x2, lam, t),
            T::quot(x2, T::count(((2 * t + 2) * (2 * (lam + t) + 3)) as u64)),
        ),
{
    let (e, o) = (odd_factorial::<T>(2 * t), odd_factorial::<T>(2 * lam + 2 * t + 1));
    let (m, n) = (2 * t + 2, 2 * (lam + t) + 3);
    let (e1, o1) = (odd_factorial::<T>(m), odd_factorial::<T>(n));
    let (tm, tn) = (T::count(m as u64), T::count(n as u64));
    lemma_odd_factorial::<T>(m);
    lemma_odd_factorial::<T>(n);
    assert(e1 == T::prod(tm, e) && o1 == T::prod(tn, o));
    assert(1 <= m * n <= 1002 * 0x8000_1000) by (nonlinear_arith)
        requires
            1 <= m <= 1002,
            1 <= n <= 0x8000_1000,
    ;
    lemma_count_product::<T>(m, n);
    let c = T::count((m * n) as u64);
    assert(c == T::prod(tm, tn));
    let (d, d1) = (T::prod(e, o), T::prod(e1, o1));
    // d1 is c d.
    lemma_ring_factors(tm, e, o1);
    lemma_ring_factors(tn, e, o);
    lemma_ring_factors(tm, tn, d);
    assert(d1 == T::prod(c, d));
    lemma_odd_factorial_is_a_unit::<T>(2 * t);
    lemma_odd_factorial_is_a_unit::<T>(2 * lam + 2 * t + 1);
    lemma_units(e, o);
    assert(has_inverse(c));
    lemma_units(c, d);
    let p = root_power(x2, t);
    let (b, q) = (T::quot(p, d), T::quot(x2, c));
    assert(T::prod(d, b) == p && T::prod(c, q) == x2);
    // d1 (b q) is (c q) (d b), that is x2 p.
    lemma_ring_factors(c, d, T::prod(b, q));
    lemma_ring_factors(d, b, q);
    lemma_ring_factors(p, c, q);
    lemma_ring_commute(p, x2);
    assert(T::prod(d1, T::prod(b, q)) == T::prod(x2, p));
    let b1 = T::quot(T::prod(x2, p), d1);
    assert(T::prod(d1, b1) == T::prod(x2, p));
    lemma_cancelled(d1, T::prod(b, q), b1);
    assert(root_power(x2, t + 1) == T::prod(x2, p));
}

proof fn lemma_series_terms<T: Real>(x2: T, lam: int, t: int) -> (n: int)
    requires
        calculates_exactly::<T>(),
        0 <= lam <= 0x3fff_ffff,
        0 <= t <= 500,
    ensures
        t <= n <= 500,
        series_from(
            x2,
            lam,
            t,
            bessel_term(x2, lam, t),
            sum_before(|k: int| bessel_term(x2, lam, k), t + 1),
        ) == sum_before(|k: int| bessel_term(x2, lam, k), n + 1),
    decreases 500 - t,
{
    let f = |k: int| bessel_term(x2, lam, k);
    let (term, sum) = (bessel_term(x2, lam, t), sum_before(f, t + 1));
    if t < 500 && T::lt(T::prod(fraction(1, 1000000000000000000), sum), term) {
        lemma_bessel_term(x2, lam, t);
        let n = lemma_series_terms(x2, lam, t + 1);
        assert(sum_before(f, t + 2) == T::sum(sum, f(t + 1)));
        n
    } else {
        t
    }
}

/// The functions that are found by the series are the first terms of the power series of
/// the modified spherical Bessel functions, times `exp(-x)`.
pub proof fn law_bessel_series<T: Real>(x: T, lam: int) -> (n: int)
    requires
        calculates_exactly::<T>(),
        0 <= lam <= 0x3fff_ffff,
    ensures
        0 <= n <= 500,
        bessel_series(x, lam) == T::prod(
            T::prod(
                T::raised(x, lam as u64),
                sum_before(|k: int| bessel_term(T::prod(x, x), lam, k), n + 1),
            ),
            T::expo(T::neg(x)),
        ),
{
    let x2 = T::prod(x, x);
    let f = |k: int| bessel_term(x2, lam, k);
    let one = T::count(1);
    let o = odd_factorial::<T>(2 * lam + 1);
    let n = lemma_series_terms(x2, lam, 0);
    assert(odd_factorial::<T>(0) == one);
    lemma_ring_sums(o, o, o);
    let first = T::quot(one, o);
    assert(f(0) == first);
    reveal_with_fuel(sum_before, 2);
    lemma_ring_sums(first, first, first);
    assert(sum_before(f, 1) == first);
    n
}

} // verus!
