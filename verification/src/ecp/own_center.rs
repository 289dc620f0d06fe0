//! Potentials about the center of a function.
//!
//! A component of a shell on the center of a potential is a monomial times a Gaussian. The
//! local part of the potential integrates the product of two monomials over the unit
//! sphere. The projected part of degree `l` sums, over the harmonics of that degree, the
//! products of their integrals with the two monomials. Both have the same radial integral,
//! and no other factor.
use vstd::prelude::*;

use crate::ecp::angular::{
    convolution, convolved, gathered, lemma_powers_at, local_table, monomials, powers_at,
    projected_angle, projected_table, shifted_powers,
};
use crate::ecp::harmonics::{binomial, harmonic, single_integral, sphere_integral};
use crate::ecp::local::{
    joined_up, local_before, local_factors, local_pair, local_radials, product_powers, with_local,
    LocalPair,
};
use crate::ecp::monopole::{
    calculates_exactly, lemma_local_angle, lemma_monopole, lemma_nothing_over, lemma_over_one,
    lemma_projected_angle, monopole,
};
use crate::ecp::projected::{
    component_powers, projected_before, projected_factors, projected_pair, with_projected,
    ProjectedPair,
};
use crate::ecp::radial::{scaled_bessel, series_from, Radial};
use crate::ecp::side::{direction, left_out, pair_left_out, EcpPrimitive, SideView};
use crate::engine::os::{block_size, lemma_block_bounds, pair_at};
use crate::engine::pairs::{square, Vec3};
use crate::exact::{
    is_ring, lemma_count_product, lemma_ring_commute, lemma_ring_factors, lemma_ring_negatives,
    lemma_ring_sums, lemma_same_sum, lemma_zero_sum, sum_before,
};
use crate::flat::{
    added, cell, lemma_cell_in_range, lemma_index_parts, lemma_pair_in_range, lemma_pair_parts,
    pair,
};
use crate::math::am::{cart_count, component_at, law_every_position_is_taken, Powers};
use crate::math::norm::odd_factorial;
use crate::math::rotation::{has_inverse, lemma_cancelled, lemma_zero_factor};
use crate::math::solid_harmonics::vanishes;
use crate::scalar::{Real, Scalar};
use crate::transposition::lemma_scaled_sum;

verus! {

/// The numbers of Pascal's triangle.
pub open spec fn pascal(n: int, k: int) -> int
    decreases n,
{
    if k < 0 || n < k {
        0
    } else if k == 0 || n <= 0 {
        1
    } else {
        pascal(n - 1, k - 1) + pascal(n - 1, k)
    }
}

/// Neighbours in a row of Pascal's triangle.
proof fn lemma_pascal_row(n: int, k: int)
    requires
        1 <= k <= n,
    ensures
        k * pascal(n, k) == n * pascal(n - 1, k - 1),
        (n - k + 1) * pascal(n, k - 1) == n * pascal(n - 1, k - 1),
    decreases n,
{
    let c = pascal(n - 1, k - 1);
    if k < n {
        lemma_pascal_row(n - 1, k);
        let b = pascal(n - 1, k);
        assert(k * b == (n - k) * c);
        assert(k * (c + b) == n * c) by (nonlinear_arith)
            requires
                k * b == (n - k) * c,
        ;
    } else {
        assert(pascal(n - 1, k) == 0);
        assert(pascal(n, k) == c);
    }
    if k > 1 {
        lemma_pascal_row(n - 1, k - 1);
        let b = pascal(n - 1, k - 2);
        assert((k - 1) * c == (n - k + 1) * b);
        assert(pascal(n, k - 1) == b + c);
        assert((n - k + 1) * (b + c) == n * c) by (nonlinear_arith)
            requires
                (k - 1) * c == (n - k + 1) * b,
        ;
    } else {
        assert(pascal(n, 0) == 1 && c == 1);
    }
}

proof fn lemma_pascal_bound(n: int, k: int)
    requires
        0 <= n <= 40,
    ensures
        0 <= pascal(n, k) <= power_of_two(n),
        power_of_two(n) <= 0x100_0000_0000,
    decreases n,
{
    if n > 0 {
        lemma_pascal_bound(n - 1, k - 1);
        lemma_pascal_bound(n - 1, k);
    }
    lemma_power_of_two(n);
}

spec fn power_of_two(n: int) -> int
    decreases n,
{
    if n <= 0 {
        1
    } else {
        2 * power_of_two(n - 1)
    }
}

proof fn lemma_power_of_two(n: int)
    requires
        n <= 40,
    ensures
        1 <= power_of_two(n) <= 0x100_0000_0000,
{
    reveal_with_fuel(power_of_two, 41);
    if n > 0 {
        lemma_powers_grow(n, 40);
    }
}

proof fn lemma_powers_grow(n: int, m: int)
    requires
        n <= m,
    ensures
        1 <= power_of_two(n) <= power_of_two(m),
    decreases m - n, if m < 0 { 0 } else { m },
{
    if m <= 0 {
    } else if n < m {
        lemma_powers_grow(n, m - 1);
    } else if n > 0 {
        lemma_powers_grow(n - 1, m - 1);
    }
}

/// The binomials that expand a component are the numbers of Pascal's triangle.
pub proof fn law_binomials_are_pascals<T: Real>(n: int, k: int)
    requires
        calculates_exactly::<T>(),
        0 <= k <= n <= 40,
    ensures
        0 <= pascal(n, k) <= u64::MAX,
        binomial::<T>(n, k) == T::count(pascal(n, k) as u64),
    decreases k,
{
    lemma_pascal_bound(n, k);
    if k > 0 {
        law_binomials_are_pascals::<T>(n, k - 1);
        lemma_pascal_row(n, k);
        lemma_pascal_bound(n, k - 1);
        let (b, c) = (pascal(n, k - 1), pascal(n, k));
        assert(b * (n - k + 1) == k * c && 0 <= k * c <= 40 * 0x100_0000_0000) by (nonlinear_arith)
            requires
                k * c == (n - k + 1) * b,
                0 <= k <= 40,
                0 <= c <= 0x100_0000_0000,
        ;
        lemma_count_product::<T>(b, n - k + 1);
        lemma_count_product::<T>(k, c);
        let (tk, tc) = (T::count(k as u64), T::count(c as u64));
        let all = T::prod(tk, tc);
        assert(n - (k - 1) == n - k + 1);
        assert(binomial::<T>(n, k) == T::quot(all, tk));
        assert(has_inverse(tk));
        assert(T::prod(tk, T::quot(all, tk)) == all);
        lemma_cancelled(tk, T::quot(all, tk), tc);
    }
}

proof fn lemma_pascal_ends(n: int)
    requires
        0 <= n,
    ensures
        pascal(n, n) == 1,
        pascal(n, 0) == 1,
    decreases n,
{
    if n > 0 {
        lemma_pascal_ends(n - 1);
        assert(pascal(n - 1, n) == 0);
    }
}

/// Whether a polynomial is the power `p`.
pub open spec fn is_power<T: Scalar>(c: Seq<T>, p: int) -> bool {
    &&& 0 <= p
    &&& c.len() == p + 1
    &&& c[p] == T::count(1)
    &&& forall|i: int| 0 <= i < p ==> #[trigger] c[i] == T::count(0)
}

/// Powers of zero.
proof fn lemma_power_of_zero<T: Real>(n: int)
    requires
        calculates_exactly::<T>(),
        1 <= n <= u64::MAX,
    ensures
        T::raised(T::count(0), n as u64) == T::count(0),
{
    let low = (n - 1) as u64;
    assert(T::raised(T::count(0), (low + 1) as u64) == T::prod(
        T::count(0),
        T::raised(T::count(0), low),
    ));
    lemma_zero_factor(T::raised(T::count(0), low));
}

/// About its own center a power of a coordinate is that power.
proof fn lemma_own_powers<T: Real>(p: int)
    requires
        calculates_exactly::<T>(),
        0 <= p <= 40,
    ensures
        is_power(shifted_powers(p, T::count(0)), p),
{
    let c = shifted_powers::<T>(p, T::count(0));
    let zero = T::count(0);
    lemma_ring_negatives(zero, zero);
    law_binomials_are_pascals::<T>(p, p);
    lemma_pascal_ends(p);
    assert(T::raised(zero, 0) == T::count(1));
    lemma_ring_sums::<T>(T::count(1), T::count(1), T::count(1));
    assert forall|i: int| 0 <= i < p implies #[trigger] c[i] == zero by {
        lemma_power_of_zero::<T>(p - i);
        lemma_zero_factor(binomial::<T>(p, i));
    }
}

/// The product of two powers, over the first pairs of coefficients.
proof fn lemma_power_products<T: Scalar>(a: Seq<T>, b: Seq<T>, p: int, q: int, s: int, k: int)
    requires
        is_ring::<T>(),
        is_power(a, p),
        is_power(b, q),
        0 <= k <= (p + 1) * (q + 1),
    ensures
        convolved(a, b, s, k) == (if s == p + q && k == (p + 1) * (q + 1) {
            T::count(1)
        } else {
            T::count(0)
        }),
    decreases k,
{
    assert((p + 1) * (q + 1) >= 1) by (nonlinear_arith)
        requires
            0 <= p,
            0 <= q,
    ;
    if k > 0 {
        lemma_power_products(a, b, p, q, s, k - 1);
        lemma_index_parts(k - 1, p + 1, q + 1);
        let (i, j) = ((k - 1) / (q + 1), (k - 1) % (q + 1));
        let last = pair(p, q + 1, q);
        assert(last == (p + 1) * (q + 1) - 1) by (nonlinear_arith)
            requires
                last == p * (q + 1) + q,
        ;
        if i == p && j == q {
            assert(k - 1 == last);
        } else {
            lemma_zero_factor(a[i]);
            lemma_zero_factor(b[j]);
            assert(T::prod(a[i], b[j]) == T::count(0));
            assert(k - 1 != last) by {
                lemma_pair_parts(p, q + 1, q);
            }
        }
        lemma_ring_sums::<T>(T::count(1), T::count(1), T::count(1));
        lemma_ring_sums::<T>(T::count(0), T::count(0), T::count(0));
    }
}

/// The product of two powers is a power.
proof fn lemma_power_product<T: Scalar>(a: Seq<T>, b: Seq<T>, p: int, q: int)
    requires
        is_ring::<T>(),
        is_power(a, p),
        is_power(b, q),
    ensures
        is_power(convolution(a, b), p + q),
{
    let c = convolution(a, b);
    assert((p + 1) * (q + 1) >= 0) by (nonlinear_arith)
        requires
            0 <= p,
            0 <= q,
    ;
    lemma_power_products(a, b, p, q, p + q, (p + 1) * (q + 1));
    assert forall|i: int| 0 <= i < p + q implies #[trigger] c[i] == T::count(0) by {
        lemma_power_products(a, b, p, q, i, (p + 1) * (q + 1));
    }
}

/// A monomial meets its own entry of a table.
proof fn lemma_monomial_gathered<T: Real>(
    c: (Seq<T>, Seq<T>, Seq<T>),
    t: Powers,
    table: Seq<T>,
    d: int,
    s: int,
    k: int,
)
    requires
        calculates_exactly::<T>(),
        is_power(c.0, t.0),
        is_power(c.1, t.1),
        is_power(c.2, t.2),
        0 <= k <= monomials(c),
    ensures
        gathered(c, table, d, s, k) == (if k == monomials(c) && s == t.0 + t.1 + t.2 {
            table[cell(t.0, d, t.1, d, t.2)]
        } else {
            T::count(0)
        }),
    decreases k,
{
    let (nx, ny, nz) = (t.0 + 1, t.1 + 1, t.2 + 1);
    assert(monomials(c) == nx * ny * nz);
    assert(nx * ny * nz > 0) by (nonlinear_arith)
        requires
            nx > 0,
            ny > 0,
            nz > 0,
    ;
    if k > 0 {
        lemma_monomial_gathered(c, t, table, d, s, k - 1);
        lemma_powers_at(k - 1, nx, ny, nz);
        let g = powers_at(k - 1, ny, nz);
        let coef = T::prod(T::prod(c.0[g.0], c.1[g.1]), c.2[g.2]);
        let entry = table[cell(g.0, d, g.1, d, g.2)];
        let one = T::count(1);
        lemma_ring_sums(one, one, one);
        lemma_ring_sums(entry, entry, entry);
        lemma_last_monomial(t, k);
        if g == t {
            assert(coef == one);
            assert(!vanishes(one));
        } else {
            lemma_zero_factor(c.0[g.0]);
            lemma_zero_factor(c.1[g.1]);
            lemma_zero_factor(c.2[g.2]);
            lemma_zero_factor(T::prod(c.0[g.0], c.1[g.1]));
            assert(coef == T::count(0));
            assert(vanishes(coef));
        }
    }
}

/// The last of the monomials is the one of the highest powers.
proof fn lemma_last_monomial(t: Powers, k: int)
    requires
        0 <= t.0,
        0 <= t.1,
        0 <= t.2,
        1 <= k <= (t.0 + 1) * (t.1 + 1) * (t.2 + 1),
    ensures
        powers_at(k - 1, t.1 + 1, t.2 + 1) == t <==> k == (t.0 + 1) * (t.1 + 1) * (t.2 + 1),
{
    let (nx, ny, nz) = (t.0 + 1, t.1 + 1, t.2 + 1);
    assert(0 <= nx * ny) by (nonlinear_arith)
        requires
            0 <= nx,
            0 <= ny,
    ;
    lemma_index_parts(k - 1, nx * ny, nz);
    lemma_index_parts((k - 1) / nz, nx, ny);
    let top = pair(t.0, ny, t.1);
    lemma_pair_parts(t.0, ny, t.1);
    lemma_pair_parts(top, nz, t.2);
    assert(top == nx * ny - 1) by (nonlinear_arith)
        requires
            top == t.0 * ny + t.1,
            nx == t.0 + 1,
            ny == t.1 + 1,
    ;
    assert(pair(top, nz, t.2) == nx * ny * nz - 1) by (nonlinear_arith)
        requires
            pair(top, nz, t.2) == top * nz + t.2,
            top == nx * ny - 1,
            nz == t.2 + 1,
    ;
}

/// The Bessel function of degree zero is one at zero, and the others vanish.
proof fn lemma_bessel_at_zero<T: Real>(lam: int)
    requires
        calculates_exactly::<T>(),
        0 <= lam <= 0x3fff_ffff,
    ensures
        scaled_bessel(T::count(0), lam) == (if lam == 0 {
            T::count(1)
        } else {
            T::count(0)
        }),
{
    let (zero, one) = (T::count(0), T::count(1));
    let first = T::quot(one, odd_factorial(2 * lam + 1));
    let x2 = T::prod(zero, zero);
    lemma_zero_factor(zero);
    lemma_ring_negatives(zero, zero);
    let sum = series_from(x2, lam, 0, first, first);
    lemma_ring_sums(one, one, one);
    if lam == 0 {
        lemma_over_one(one);
        assert(odd_factorial::<T>(1) == one);
        lemma_series_at_zero::<T>(0, 0, one);
        assert(T::raised(zero, 0) == one);
    } else {
        lemma_power_of_zero::<T>(lam);
        lemma_zero_factor(sum);
        lemma_zero_factor(T::expo(T::neg(zero)));
    }
}

/// The series of the Bessel function at zero keeps its first term.
proof fn lemma_series_at_zero<T: Real>(lam: int, t: int, term: T)
    requires
        calculates_exactly::<T>(),
        0 <= lam <= 0x3fff_ffff,
        0 <= t <= 500,
    ensures
        series_from(T::count(0), lam, t, term, T::count(1)) == T::count(1),
    decreases 500 - t,
{
    let (zero, one) = (T::count(0), T::count(1));
    if t < 500 {
        let n = (2 * t + 2) * (2 * (lam + t) + 3);
        assert(1 <= n <= 1002 * 0x8000_1000) by (nonlinear_arith)
            requires
                n == (2 * t + 2) * (2 * (lam + t) + 3),
                0 <= t < 500,
                0 <= lam <= 0x3fff_ffff,
        ;
        assert(has_inverse(T::count(n as u64)));
        lemma_nothing_over(T::count(n as u64));
        lemma_zero_factor(term);
        lemma_ring_sums(one, one, one);
        lemma_series_at_zero::<T>(lam, t + 1, zero);
    }
}

/// The radial integral of `r^(n + s)` without a Bessel function, over the first `m` nodes.
pub open spec fn plain_radial<T: Real>(x: Radial<T>, nodes: Seq<(T, T)>, s: int, m: int) -> T
    decreases m,
{
    if m <= 0 {
        T::count(0)
    } else {
        T::sum(
            plain_radial(x, nodes, s, m - 1),
            if vanishes(x.decay(nodes[m - 1])) {
                T::count(0)
            } else {
                x.weight(nodes[m - 1], s)
            },
        )
    }
}

/// The radial integrals of a pair of functions about the center.
proof fn lemma_plain_radials<T: Real>(
    x: Radial<T>,
    nodes: Seq<(T, T)>,
    lama: int,
    lamb: int,
    s: int,
    m: int,
)
    requires
        calculates_exactly::<T>(),
        x.k == T::count(0),
        0 <= lama <= 0x3fff_ffff,
        0 <= lamb <= 0x3fff_ffff,
    ensures
        x.local(nodes, lama, s, m) == (if lama == 0 {
            plain_radial(x, nodes, s, m)
        } else {
            T::count(0)
        }),
        x.projected(nodes, T::count(0), T::count(0), lama, lamb, s, m) == (if lama == 0 && lamb
            == 0 {
            plain_radial(x, nodes, s, m)
        } else {
            T::count(0)
        }),
    decreases m,
{
    let zero = T::count(0);
    lemma_ring_sums(zero, zero, zero);
    if m > 0 {
        lemma_plain_radials(x, nodes, lama, lamb, s, m - 1);
        let node = nodes[m - 1];
        let (r, w) = (x.at(node), x.weight(node, s));
        lemma_zero_factor(r);
        lemma_bessel_at_zero::<T>(lama);
        lemma_bessel_at_zero::<T>(lamb);
        lemma_ring_commute(w, T::count(1));
        lemma_ring_sums(w, w, w);
        lemma_zero_factor(w);
        lemma_zero_factor(T::count(1));
        let before = plain_radial(x, nodes, s, m - 1);
        lemma_ring_sums(before, before, before);
    }
}

/// Whether a side is on the center of the potential.
pub open spec fn is_centered<T: Real>(s: SideView<T>) -> bool {
    &&& s.cv == [T::count(0), T::count(0), T::count(0)]
    &&& 0 <= s.l <= 7
}

/// The length and direction of the zero vector.
proof fn lemma_no_direction<T: Real>(v: Vec3<T>)
    requires
        calculates_exactly::<T>(),
        v == [T::count(0), T::count(0), T::count(0)],
    ensures
        square(v) == T::count(0),
        T::root(square(v)) == T::count(0),
        direction(v, T::root(square(v))) == (
            T::count(0),
            [T::count(0), T::count(0), T::count(1)],
        ),
{
    let zero = T::count(0);
    lemma_zero_factor(zero);
    lemma_ring_sums(zero, zero, zero);
}

/// What is added for a term of the potential: the weights, the coefficient, an angular and
/// the radial integral.
pub open spec fn center_term<T: Real>(
    w: T,
    coef: T,
    angle: T,
    x: Radial<T>,
    nodes: Seq<(T, T)>,
    s: int,
) -> T {
    T::prod(T::prod(w, coef), T::prod(angle, plain_radial(x, nodes, s, nodes.len() as int)))
}

/// The integrand of a pair of primitives and a term.
pub open spec fn center_radial<T: Real>(aa: T, ab: T, ep: EcpPrimitive<T>) -> Radial<T> {
    Radial {
        alpha: T::sum(T::sum(aa, ab), ep.zeta),
        k: T::count(0),
        arg0: T::count(0),
        n: ep.n as int,
    }
}

/// What the exponents are of two primitives about the center.
proof fn lemma_no_exponent<T: Real>(x: LocalPair<T>, y: ProjectedPair<T>)
    requires
        calculates_exactly::<T>(),
        is_centered(x.a),
        is_centered(x.b),
        y.a == x.a,
        y.b == x.b,
        y.aa == x.aa,
        y.ab == x.ab,
        y.w == x.w,
    ensures
        x.arg0() == T::count(0),
        y.arg0() == T::count(0),
        x.length() == T::count(0),
        x.expansion() == (T::count(0), [T::count(0), T::count(0), T::count(1)]),
        y.lengths() == (T::count(0), T::count(0)),
        y.length() == T::count(0),
{
    let zero = T::count(0);
    lemma_no_direction(x.a.cv);
    lemma_no_direction(x.b.cv);
    lemma_zero_factor(x.aa);
    lemma_zero_factor(x.ab);
    lemma_zero_factor(T::neg(x.aa));
    lemma_zero_factor::<T>(T::count(2));
    lemma_zero_factor(T::prod(T::count(2), x.aa));
    lemma_zero_factor(T::prod(T::count(2), x.ab));
    lemma_ring_sums(zero, zero, zero);
    lemma_ring_negatives(zero, zero);
    assert(x.vector() == [zero, zero, zero]);
    lemma_no_direction(x.vector());
}

/// The sum of products of which all but one vanish.
proof fn lemma_one_product<T: Real>(v: Seq<T>, q: Seq<T>, at: int, n: int)
    requires
        calculates_exactly::<T>(),
        0 <= at,
        forall|j: int| 0 <= j < n && j != at ==> T::prod(#[trigger] v[j], q[j]) == T::count(0),
    ensures
        joined_up(v, q, n) == (if at < n {
            T::prod(v[at], q[at])
        } else {
            T::count(0)
        }),
    decreases n,
{
    let zero = T::count(0);
    lemma_ring_sums(zero, zero, zero);
    if n > 0 {
        lemma_one_product(v, q, at, n - 1);
        let (before, p) = (joined_up(v, q, n - 1), T::prod(v[n - 1], q[n - 1]));
        lemma_ring_sums(p, p, p);
        lemma_ring_sums(before, before, before);
        lemma_zero_factor(q[n - 1]);
        assert(n - 1 != at ==> p == zero);
    }
}

/// The two monomials of an entry.
proof fn lemma_entry_powers<T: Real>(a: SideView<T>, b: SideView<T>, e: int)
    requires
        calculates_exactly::<T>(),
        is_centered(a),
        is_centered(b),
        0 <= e < block_size(a.l, b.l),
    ensures
        ({
            let (p, q) = pair_at(a.l, b.l, e);
            &&& 0 <= p.0 && 0 <= p.1 && 0 <= p.2 && p.0 + p.1 + p.2 == a.l
            &&& 0 <= q.0 && 0 <= q.1 && 0 <= q.2 && q.0 + q.1 + q.2 == b.l
            &&& is_power(component_powers(p, a.cv).0, p.0)
            &&& is_power(component_powers(p, a.cv).1, p.1)
            &&& is_power(component_powers(p, a.cv).2, p.2)
            &&& is_power(component_powers(q, b.cv).0, q.0)
            &&& is_power(component_powers(q, b.cv).1, q.1)
            &&& is_power(component_powers(q, b.cv).2, q.2)
            &&& is_power(product_powers(p, a.cv, q, b.cv).0, p.0 + q.0)
            &&& is_power(product_powers(p, a.cv, q, b.cv).1, p.1 + q.1)
            &&& is_power(product_powers(p, a.cv, q, b.cv).2, p.2 + q.2)
        }),
{
    let (p, q) = pair_at(a.l, b.l, e);
    lemma_block_bounds(a.l, b.l);
    lemma_index_parts(e, cart_count(a.l), cart_count(b.l));
    law_every_position_is_taken(a.l, e / cart_count(b.l));
    law_every_position_is_taken(b.l, e % cart_count(b.l));
    lemma_own_powers::<T>(p.0);
    lemma_own_powers::<T>(p.1);
    lemma_own_powers::<T>(p.2);
    lemma_own_powers::<T>(q.0);
    lemma_own_powers::<T>(q.1);
    lemma_own_powers::<T>(q.2);
    let z = T::count(0);
    lemma_power_product(shifted_powers(p.0, z), shifted_powers(q.0, z), p.0, q.0);
    lemma_power_product(shifted_powers(p.1, z), shifted_powers(q.1, z), p.1, q.1);
    lemma_power_product(shifted_powers(p.2, z), shifted_powers(q.2, z), p.2, q.2);
}

/// The angular integral of the local part: that of the product of the two monomials.
pub open spec fn local_angle_of<T: Real>(p: Powers, q: Powers) -> T {
    sphere_integral::<T>(p.0 + q.0, p.1 + q.1, p.2 + q.2)
}

/// The integral of the harmonic of degree `l` and order `m` with a monomial.
pub open spec fn overlap_with<T: Real>(l: int, m: int, p: Powers) -> T {
    single_integral(harmonic::<T>(l, m), p, harmonic::<T>(l, m).len() as int)
}

/// The angular integral of the projected part of degree `l`: the sum over the harmonics of
/// that degree of the products of their integrals with the two monomials, none of which is
/// left of a monomial of a lower degree or of the other parity.
pub open spec fn projected_angle_of<T: Real>(l: int, la: int, lb: int, p: Powers, q: Powers) -> T {
    if la < l || lb < l || (l + la) % 2 == 1 || (l + lb) % 2 == 1 {
        T::count(0)
    } else {
        sum_before(
            |i: int| T::prod(overlap_with::<T>(l, i - l, p), overlap_with::<T>(l, i - l, q)),
            2 * l + 1,
        )
    }
}

/// The sum of the factors of the local part about the center.
proof fn lemma_local_sum<T: Real>(
    a: SideView<T>,
    b: SideView<T>,
    u: Vec3<T>,
    x: Radial<T>,
    nodes: Seq<(T, T)>,
    e: int,
)
    requires
        calculates_exactly::<T>(),
        is_centered(a),
        is_centered(b),
        x.k == T::count(0),
        0 <= e < block_size(a.l, b.l),
    ensures
        ({
            let d = a.l + b.l + 1;
            let (p, q) = pair_at(a.l, b.l, e);
            joined_up(local_factors(a, b, u, e), local_radials(x, nodes, d), d * d) == T::prod(
                T::prod(T::prod(monopole::<T>(), monopole::<T>()), local_angle_of::<T>(p, q)),
                plain_radial(x, nodes, a.l + b.l, nodes.len() as int),
            )
        }),
{
    let ltot = a.l + b.l;
    let d = ltot + 1;
    let (p, q) = pair_at(a.l, b.l, e);
    let t = (p.0 + q.0, p.1 + q.1, p.2 + q.2);
    let c = product_powers(p, a.cv, q, b.cv);
    let (v, r) = (local_factors(a, b, u, e), local_radials(x, nodes, d));
    lemma_entry_powers(a, b, e);
    assert(t.0 < d && t.1 < d && t.2 < d);
    lemma_cell_in_range(t.0, d, d, t.1, d, t.2);
    lemma_table_entry(t, d);
    assert(ltot < d * d) by (nonlinear_arith)
        requires
            d == ltot + 1,
            0 <= ltot,
    ;
    assert forall|j: int| 0 <= j < d * d implies #[trigger] v[j] == (if j % d == ltot {
        local_table(ltot, j / d, u)[cell(t.0, d, t.1, d, t.2)]
    } else {
        T::count(0)
    }) && r[j] == (if j / d == 0 {
        plain_radial(x, nodes, j % d, nodes.len() as int)
    } else {
        T::count(0)
    }) by {
        lemma_index_parts(j, d, d);
        lemma_monomials_positive(c, t);
        lemma_monomial_gathered(c, t, local_table(ltot, j / d, u), d, j % d, monomials(c));
        lemma_plain_radials(x, nodes, j / d, 0, j % d, nodes.len() as int);
    }
    assert forall|j: int| 0 <= j < d * d && j != ltot implies T::prod(#[trigger] v[j], r[j])
        == T::count(0) by {
        lemma_index_parts(j, d, d);
        lemma_zero_factor(v[j]);
        lemma_zero_factor(r[j]);
        if j / d == 0 && j % d == ltot {
            assert(pair(0, d, ltot) == ltot);
        }
    }
    lemma_one_product(v, r, ltot, d * d);
    lemma_pair_parts(0, d, ltot);
    assert(pair(0, d, ltot) == ltot);
    assert(v[ltot] == local_table(ltot, 0, u)[cell(t.0, d, t.1, d, t.2)]);
    lemma_local_angle(ltot, t, u);
}

/// A cell of a table holds the monomial that it is for.
proof fn lemma_table_entry(t: Powers, d: int)
    requires
        0 <= t.0 < d,
        0 <= t.1 < d,
        0 <= t.2 < d,
    ensures
        0 <= cell(t.0, d, t.1, d, t.2) < d * d * d,
        powers_at(cell(t.0, d, t.1, d, t.2), d, d) == t,
{
    lemma_cell_in_range(t.0, d, d, t.1, d, t.2);
    lemma_pair_parts(t.0, d, t.1);
    lemma_pair_parts(pair(t.0, d, t.1), d, t.2);
}

proof fn lemma_monomials_positive<T>(c: (Seq<T>, Seq<T>, Seq<T>), t: Powers)
    requires
        c.0.len() == t.0 + 1,
        c.1.len() == t.1 + 1,
        c.2.len() == t.2 + 1,
        0 <= t.0,
        0 <= t.1,
        0 <= t.2,
    ensures
        0 < monomials(c),
{
    let (x, y, z) = (c.0.len() as int, c.1.len() as int, c.2.len() as int);
    assert(x * y * z > 0) by (nonlinear_arith)
        requires
            x > 0,
            y > 0,
            z > 0,
    ;
}

/// The factors of one side about the center.
proof fn lemma_own_factors<T: Real>(s: SideView<T>, l: int, u: Vec3<T>, i: int, j: int)
    requires
        calculates_exactly::<T>(),
        is_centered(s),
        0 <= l,
        0 <= i < cart_count(s.l),
        0 <= j < (2 * l + 1) * (l + s.l + 1) * (s.l + 1),
    ensures
        ({
            let d = s.l + 1;
            let nl = l + s.l + 1;
            let p = component_at(s.l, i);
            projected_factors(s, l, u, i)[j] == (if j % d != s.l {
                T::count(0)
            } else {
                projected_angle(l, j / d / nl - l, s.l, j / d % nl, p, u)
            })
        }),
{
    let d = s.l + 1;
    let nl = l + s.l + 1;
    let p = component_at(s.l, i);
    let c = component_powers(p, s.cv);
    law_every_position_is_taken(s.l, i);
    lemma_own_powers::<T>(p.0);
    lemma_own_powers::<T>(p.1);
    lemma_own_powers::<T>(p.2);
    lemma_monomials_positive(c, p);
    lemma_table_entry(p, d);
    let table = projected_table::<T>(l, j / d / nl - l, s.l, j / d % nl, u);
    lemma_monomial_gathered(c, p, table, d, j % d, monomials(c));
}

/// A sum in rows of which one entry each does not vanish.
proof fn lemma_sum_of_rows<T: Scalar>(
    g: spec_fn(int) -> T,
    f: spec_fn(int) -> T,
    width: int,
    at: int,
    rows: int,
    n: int,
)
    requires
        is_ring::<T>(),
        0 <= rows,
        0 <= at < width,
        0 <= n <= width,
        forall|u: int|
            0 <= u < rows * width + n ==> #[trigger] g(u) == (if u % width == at {
                f(u / width)
            } else {
                T::count(0)
            }),
    ensures
        sum_before(g, rows * width + n) == sum_before(
            f,
            if at < n {
                rows + 1
            } else {
                rows
            },
        ),
    decreases rows, n,
{
    assert(0 <= rows * width) by (nonlinear_arith)
        requires
            0 <= rows,
            0 <= width,
    ;
    if n > 0 {
        let u = rows * width + (n - 1);
        assert forall|w: int| 0 <= w < rows * width + (n - 1) implies #[trigger] g(w) == (if w
            % width == at {
            f(w / width)
        } else {
            T::count(0)
        }) by {}
        lemma_sum_of_rows(g, f, width, at, rows, n - 1);
        lemma_pair_parts(rows, width, n - 1);
        assert(pair(rows, width, n - 1) == u);
        assert(g(u) == (if n - 1 == at {
            f(rows)
        } else {
            T::count(0)
        }));
        let before = sum_before(g, u);
        lemma_ring_sums(before, before, before);
        assert(rows * width + n - 1 == u);
    } else if rows > 0 {
        assert((rows - 1) * width + width == rows * width) by (nonlinear_arith);
        lemma_sum_of_rows(g, f, width, at, rows - 1, width);
    } else {
        assert(rows * width == 0) by (nonlinear_arith)
            requires
                rows == 0,
        ;
    }
}

/// The row of a factor: of the factors of the other side one meets it.
proof fn lemma_own_row<T: Real>(
    y: ProjectedPair<T>,
    acc: T,
    ga: Seq<T>,
    gb: Seq<T>,
    x: Radial<T>,
    nodes: Seq<(T, T)>,
    u: int,
    n: int,
)
    requires
        calculates_exactly::<T>(),
        y.lengths() == (T::count(0), T::count(0)),
        x.k == T::count(0),
        0 <= y.l <= 0xfff_ffff,
        0 <= y.a.l <= 7,
        0 <= y.b.l <= 7,
        0 <= u,
        0 <= n <= y.degrees().1 * (y.b.l + 1),
        forall|v: int|
            0 <= v < y.degrees().1 * (y.b.l + 1) && v % (y.b.l + 1) != y.b.l ==> #[trigger] gb[pair(
                u / (y.a.l + 1) / y.degrees().0,
                y.degrees().1 * (y.b.l + 1),
                v,
            )] == T::count(0),
    ensures
        y.row(acc, ga, gb, x, nodes, u, n) == T::sum(
            acc,
            if y.b.l < n && u / (y.a.l + 1) % y.degrees().0 == 0 {
                T::prod(
                    T::prod(
                        ga[u],
                        gb[pair(
                            u / (y.a.l + 1) / y.degrees().0,
                            y.degrees().1 * (y.b.l + 1),
                            y.b.l,
                        )],
                    ),
                    plain_radial(x, nodes, u % (y.a.l + 1) + y.b.l, nodes.len() as int),
                )
            } else {
                T::count(0)
            },
        ),
    decreases n,
{
    let (da, db) = (y.a.l + 1, y.b.l + 1);
    let (na, nb) = y.degrees();
    let mi = u / da / na;
    lemma_ring_sums(acc, acc, acc);
    if n > 0 {
        lemma_own_row(y, acc, ga, gb, x, nodes, u, n - 1);
        let v = n - 1;
        let h = gb[pair(mi, nb * db, v)];
        lemma_index_parts(v, nb, db);
        assert(0 <= u / da % na < na);
        lemma_plain_radials(x, nodes, u / da % na, v / db, u % da + v % db, nodes.len() as int);
        let r = y.radial(x, nodes, u, v);
        let before = y.row(acc, ga, gb, x, nodes, u, n - 1);
        lemma_ring_sums(before, before, before);
        lemma_zero_factor(ga[u]);
        lemma_zero_factor(r);
        lemma_zero_factor(T::prod(ga[u], h));
        if v % db != y.b.l {
            assert(h == T::count(0));
            assert(v != y.b.l) by {
                lemma_pair_parts(0, db, y.b.l);
            }
        } else if v / db != 0 {
            assert(r == T::count(0));
            assert(v != y.b.l) by {
                lemma_pair_parts(0, db, y.b.l);
            }
        } else {
            assert(pair(0, db, v % db) == v % db);
            assert(v == y.b.l);
            if u / da % na != 0 {
                assert(r == T::count(0));
            }
        }
    }
}

/// The sum over the factors of both sides about the center.
#[verifier::spinoff_prover]
#[verifier::rlimit(40)]
proof fn lemma_projected_rows<T: Real>(
    y: ProjectedPair<T>,
    ua: Vec3<T>,
    ub: Vec3<T>,
    x: Radial<T>,
    nodes: Seq<(T, T)>,
    ia: int,
    ib: int,
    n: int,
)
    requires
        calculates_exactly::<T>(),
        is_centered(y.a),
        is_centered(y.b),
        y.lengths() == (T::count(0), T::count(0)),
        x.k == T::count(0),
        0 <= y.l <= 0xfff_ffff,
        0 <= ia < cart_count(y.a.l),
        0 <= ib < cart_count(y.b.l),
        0 <= n <= y.factor_count(),
    ensures
        y.sum(
            projected_factors(y.a, y.l, ua, ia),
            projected_factors(y.b, y.l, ub, ib),
            x,
            nodes,
            n,
        ) == sum_before(
            |u: int|
                if u % (y.degrees().0 * (y.a.l + 1)) == y.a.l {
                    own_product(y, ua, ub, x, nodes, ia, ib)(
                        u / (y.degrees().0 * (y.a.l + 1)),
                    )
                } else {
                    T::count(0)
                },
            n,
        ),
    decreases n,
{
    let (ga, gb) = (projected_factors(y.a, y.l, ua, ia), projected_factors(y.b, y.l, ub, ib));
    let (la, lb) = (y.a.l, y.b.l);
    let (da, db) = (la + 1, lb + 1);
    let (na, nb) = y.degrees();
    let width = na * da;
    let nm = 2 * y.l + 1;
    let f = own_product(y, ua, ub, x, nodes, ia, ib);
    let g = |u: int|
        if u % width == la {
            f(u / width)
        } else {
            T::count(0)
        };
    if n > 0 {
        lemma_projected_rows(y, ua, ub, x, nodes, ia, ib, n - 1);
        let u = n - 1;
        assert(0 <= nm * na) by (nonlinear_arith)
            requires
                0 <= nm,
                0 <= na,
        ;
        lemma_index_parts(u, nm * na, da);
        lemma_index_parts(u / da, nm, na);
        let (mi, lam, s) = (u / da / na, u / da % na, u % da);
        let rest = pair(lam, da, s);
        lemma_pair_in_range(lam, na, da, s);
        assert(u == pair(mi, width, rest)) by (nonlinear_arith)
            requires
                u == pair(pair(mi, na, lam), da, s),
                pair(pair(mi, na, lam), da, s) == (mi * na + lam) * da + s,
                pair(mi, width, rest) == mi * width + rest,
                rest == lam * da + s,
                width == na * da,
        ;
        lemma_pair_parts(mi, width, rest);
        assert(rest == la <==> lam == 0 && s == la) by {
            lemma_pair_parts(lam, da, s);
            lemma_pair_parts(0, da, la);
            assert(pair(0, da, la) == la);
        }
        lemma_own_factors(y.a, y.l, ua, ia, u);
        assert forall|v: int| 0 <= v < nb * db && v % db != lb implies #[trigger] gb[pair(
            u / (y.a.l + 1) / y.degrees().0,
            y.degrees().1 * (y.b.l + 1),
            v,
        )] == T::count(0) by {
            lemma_side_index(y.l, lb, mi, v);
            lemma_own_factors(y.b, y.l, ub, ib, pair(mi, nb * db, v));
        }
        let before = y.sum(ga, gb, x, nodes, u);
        lemma_own_row(y, before, ga, gb, x, nodes, u, nb * db);
        lemma_ring_sums(before, before, before);
        let h = gb[pair(mi, nb * db, lb)];
        let r = plain_radial(x, nodes, s + lb, nodes.len() as int);
        lemma_zero_factor(h);
        lemma_zero_factor(r);
        assert(lb < nb * db) by (nonlinear_arith)
            requires
                1 <= nb,
                db == lb + 1,
                0 <= lb,
        ;
        assert(g(u) == (if lam == 0 && s == la {
            T::prod(T::prod(ga[u], h), r)
        } else {
            T::count(0)
        }));
        if s != la {
            assert(ga[u] == T::count(0));
            assert(vanishes(ga[u]));
        }
        assert(y.sum(ga, gb, x, nodes, n) == T::sum(before, g(u)));
    }
}

/// An index of a factor of one side.
proof fn lemma_side_index(l: int, s: int, mi: int, v: int)
    requires
        0 <= l,
        0 <= s,
        0 <= mi < 2 * l + 1,
        0 <= v < (l + s + 1) * (s + 1),
    ensures
        ({
            let (d, nl) = (s + 1, l + s + 1);
            let j = pair(mi, nl * d, v);
            &&& 0 <= j < (2 * l + 1) * nl * d
            &&& j % d == v % d
            &&& j / d / nl == mi
            &&& j / d % nl == v / d
        }),
{
    let (d, nl) = (s + 1, l + s + 1);
    let j = pair(mi, nl * d, v);
    lemma_pair_in_range(mi, 2 * l + 1, nl * d, v);
    assert((2 * l + 1) * nl * d == (2 * l + 1) * (nl * d)) by (nonlinear_arith);
    lemma_index_parts(v, nl, d);
    let (lam, t) = (v / d, v % d);
    let top = pair(mi, nl, lam);
    assert(j == pair(top, d, t)) by (nonlinear_arith)
        requires
            j == mi * (nl * d) + v,
            v == lam * d + t,
            top == mi * nl + lam,
            pair(top, d, t) == top * d + t,
    ;
    lemma_pair_in_range(mi, 2 * l + 1, nl, lam);
    lemma_pair_parts(top, d, t);
    lemma_pair_parts(mi, nl, lam);
}

/// What the two sides and the radial integral make of one order.
spec fn own_product<T: Real>(
    y: ProjectedPair<T>,
    ua: Vec3<T>,
    ub: Vec3<T>,
    x: Radial<T>,
    nodes: Seq<(T, T)>,
    ia: int,
    ib: int,
) -> spec_fn(int) -> T {
    |mi: int|
        T::prod(
            T::prod(
                projected_factors(y.a, y.l, ua, ia)[pair(
                    mi,
                    y.degrees().0 * (y.a.l + 1),
                    y.a.l,
                )],
                projected_factors(y.b, y.l, ub, ib)[pair(
                    mi,
                    y.degrees().1 * (y.b.l + 1),
                    y.b.l,
                )],
            ),
            plain_radial(x, nodes, y.a.l + y.b.l, nodes.len() as int),
        )
}

/// The factor of one order on one side.
proof fn lemma_order_factor<T: Real>(s: SideView<T>, l: int, u: Vec3<T>, i: int, mi: int)
    requires
        calculates_exactly::<T>(),
        is_centered(s),
        0 <= l,
        0 <= i < cart_count(s.l),
        0 <= mi < 2 * l + 1,
    ensures
        projected_factors(s, l, u, i)[pair(mi, (l + s.l + 1) * (s.l + 1), s.l)] == (if s.l < l || (l
            + s.l) % 2 == 1 {
            T::count(0)
        } else {
            T::prod(
                T::prod(monopole::<T>(), monopole::<T>()),
                overlap_with::<T>(l, mi - l, component_at(s.l, i)),
            )
        }),
{
    assert(s.l < (l + s.l + 1) * (s.l + 1)) by (nonlinear_arith)
        requires
            0 <= s.l,
            0 <= l,
    ;
    lemma_side_index(l, s.l, mi, s.l);
    lemma_own_factors(s, l, u, i, pair(mi, (l + s.l + 1) * (s.l + 1), s.l));
    lemma_pair_parts(0, s.l + 1, s.l);
    assert(pair(0, s.l + 1, s.l) == s.l);
    law_every_position_is_taken(s.l, i);
    lemma_projected_angle(l, mi - l, s.l, component_at(s.l, i), u);
}

/// The sum over the factors of both sides about the center.
proof fn lemma_projected_total<T: Real>(
    y: ProjectedPair<T>,
    ua: Vec3<T>,
    ub: Vec3<T>,
    x: Radial<T>,
    nodes: Seq<(T, T)>,
    ia: int,
    ib: int,
)
    requires
        calculates_exactly::<T>(),
        is_centered(y.a),
        is_centered(y.b),
        y.lengths() == (T::count(0), T::count(0)),
        x.k == T::count(0),
        0 <= y.l <= 0xfff_ffff,
        0 <= ia < cart_count(y.a.l),
        0 <= ib < cart_count(y.b.l),
    ensures
        ({
            let yy = T::prod(monopole::<T>(), monopole::<T>());
            y.sum(
                projected_factors(y.a, y.l, ua, ia),
                projected_factors(y.b, y.l, ub, ib),
                x,
                nodes,
                y.factor_count(),
            ) == T::prod(
                T::prod(
                    T::prod(yy, yy),
                    plain_radial(x, nodes, y.a.l + y.b.l, nodes.len() as int),
                ),
                projected_angle_of::<T>(
                    y.l,
                    y.a.l,
                    y.b.l,
                    component_at(y.a.l, ia),
                    component_at(y.b.l, ib),
                ),
            )
        }),
{
    let (l, la, lb) = (y.l, y.a.l, y.b.l);
    let (p, q) = (component_at(la, ia), component_at(lb, ib));
    let yy = T::prod(monopole::<T>(), monopole::<T>());
    let r = plain_radial(x, nodes, la + lb, nodes.len() as int);
    let c = T::prod(T::prod(yy, yy), r);
    let width = (l + la + 1) * (la + 1);
    let nm = 2 * l + 1;
    let f = own_product(y, ua, ub, x, nodes, ia, ib);
    let g = |u: int|
        if u % (y.degrees().0 * (y.a.l + 1)) == y.a.l {
            f(u / (y.degrees().0 * (y.a.l + 1)))
        } else {
            T::count(0)
        };
    assert(y.factor_count() == nm * width + 0 && 0 <= nm * width && la < width)
        by (nonlinear_arith)
        requires
            y.factor_count() == nm * (l + la + 1) * (la + 1),
            width == (l + la + 1) * (la + 1),
            0 <= l,
            0 <= la,
            0 <= nm,
    ;
    lemma_projected_rows(y, ua, ub, x, nodes, ia, ib, y.factor_count());
    lemma_sum_of_rows(g, f, width, la, nm, 0);
    let h = |i: int| T::prod(overlap_with::<T>(l, i - l, p), overlap_with::<T>(l, i - l, q));
    let z = |i: int| T::count(0);
    if la < l || lb < l || (l + la) % 2 == 1 || (l + lb) % 2 == 1 {
        assert forall|mi: int| 0 <= mi < nm implies #[trigger] f(mi) == z(mi) by {
            lemma_order_factor(y.a, l, ua, ia, mi);
            lemma_order_factor(y.b, l, ub, ib, mi);
            let (ga, gb) = (
                projected_factors(y.a, l, ua, ia)[pair(mi, (l + la + 1) * (la + 1), la)],
                projected_factors(y.b, l, ub, ib)[pair(mi, (l + lb + 1) * (lb + 1), lb)],
            );
            lemma_zero_factor(ga);
            lemma_zero_factor(gb);
            lemma_zero_factor(r);
        }
        lemma_same_sum(z, f, nm);
        lemma_ring_sums(c, c, c);
        lemma_zero_sum(z, nm);
    } else {
        assert forall|mi: int| 0 <= mi < nm implies #[trigger] f(mi) == T::prod(c, h(mi)) by {
            lemma_order_factor(y.a, l, ua, ia, mi);
            lemma_order_factor(y.b, l, ub, ib, mi);
            let (s, t) = (overlap_with::<T>(l, mi - l, p), overlap_with::<T>(l, mi - l, q));
            lemma_ring_factors(yy, s, T::prod(yy, t));
            lemma_ring_factors(yy, s, t);
            lemma_ring_factors(yy, yy, T::prod(s, t));
            let st = T::prod(s, t);
            let y4 = T::prod(yy, yy);
            assert(T::prod(T::prod(yy, s), T::prod(yy, t)) == T::prod(y4, st));
            lemma_ring_factors(y4, st, r);
            lemma_ring_factors(y4, r, st);
            lemma_ring_commute(st, r);
        }
        lemma_scaled_sum(c, h, f, nm);
    }
}

/// A factor and its inverse may be left out.
proof fn lemma_without_factor<T: Scalar>(w: T, k: T, c: T, r: T, s: T)
    requires
        is_ring::<T>(),
        T::prod(k, c) == T::count(1),
    ensures
        T::prod(T::prod(w, k), T::prod(T::prod(c, r), s)) == T::prod(w, T::prod(s, r)),
        T::prod(T::prod(w, k), T::prod(T::prod(c, s), r)) == T::prod(w, T::prod(s, r)),
{
    let rs = T::prod(r, s);
    lemma_ring_factors(c, r, s);
    lemma_ring_factors(c, s, r);
    lemma_ring_commute(r, s);
    lemma_ring_factors(w, k, T::prod(c, rs));
    lemma_ring_factors(k, c, rs);
    lemma_ring_sums(rs, rs, rs);
}

/// The factors of the two parts cancel the squares of the harmonic of degree zero.
proof fn lemma_areas<T: Real>()
    requires
        calculates_exactly::<T>(),
    ensures
        ({
            let yy = T::prod(monopole::<T>(), monopole::<T>());
            &&& T::prod(T::prod(T::count(4), T::circle()), yy) == T::count(1)
            &&& T::prod(
                T::prod(T::prod(T::count(16), T::circle()), T::circle()),
                T::prod(yy, yy),
            ) == T::count(1)
        }),
{
    let yy = T::prod(monopole::<T>(), monopole::<T>());
    let (four, pi, one) = (T::count(4), T::circle(), T::count(1));
    let area = T::prod(four, pi);
    lemma_monopole::<T>();
    lemma_ring_commute(yy, area);
    assert(T::prod(area, yy) == one);
    lemma_count_product::<T>(4, 4);
    // (4 pi) (4 pi) is ((4 4) pi) pi.
    lemma_ring_factors(four, pi, area);
    lemma_ring_factors(four, pi, pi);
    lemma_ring_factors(four, four, T::prod(pi, pi));
    lemma_ring_factors(T::prod(four, four), pi, pi);
    assert(T::prod(area, area) == T::prod(T::prod(T::count(16), pi), pi));
    lemma_ring_factors(area, area, T::prod(yy, yy));
    lemma_ring_factors(area, yy, yy);
    lemma_ring_sums(yy, yy, yy);
}

/// A term of the local part about the center.
proof fn lemma_local_term<T: Real>(
    x: LocalPair<T>,
    ep: EcpPrimitive<T>,
    nodes: Seq<(T, T)>,
    e: int,
)
    requires
        calculates_exactly::<T>(),
        is_centered(x.a),
        is_centered(x.b),
        0 <= e < block_size(x.a.l, x.b.l),
    ensures
        x.term(ep, nodes)(e) == center_term(
            x.w,
            ep.coef,
            local_angle_of::<T>(pair_at(x.a.l, x.b.l, e).0, pair_at(x.a.l, x.b.l, e).1),
            center_radial(x.aa, x.ab, ep),
            nodes,
            x.a.l + x.b.l,
        ),
{
    let y = ProjectedPair { l: 0, a: x.a, b: x.b, aa: x.aa, ab: x.ab, w: x.w };
    lemma_no_exponent(x, y);
    let r = center_radial(x.aa, x.ab, ep);
    let (p, q) = pair_at(x.a.l, x.b.l, e);
    lemma_local_sum(x.a, x.b, x.expansion().1, r, nodes, e);
    lemma_areas::<T>();
    let yy = T::prod(monopole::<T>(), monopole::<T>());
    lemma_without_factor(
        T::prod(x.w, ep.coef),
        T::prod(T::count(4), T::circle()),
        yy,
        plain_radial(r, nodes, x.a.l + x.b.l, nodes.len() as int),
        local_angle_of::<T>(p, q),
    );
}

/// A term of a projected part about the center.
proof fn lemma_projected_term<T: Real>(
    y: ProjectedPair<T>,
    ep: EcpPrimitive<T>,
    nodes: Seq<(T, T)>,
    e: int,
)
    requires
        calculates_exactly::<T>(),
        is_centered(y.a),
        is_centered(y.b),
        0 <= y.l <= 0xfff_ffff,
        0 <= e < block_size(y.a.l, y.b.l),
    ensures
        y.term(ep, nodes)(e) == center_term(
            y.w,
            ep.coef,
            projected_angle_of::<T>(
                y.l,
                y.a.l,
                y.b.l,
                pair_at(y.a.l, y.b.l, e).0,
                pair_at(y.a.l, y.b.l, e).1,
            ),
            center_radial(y.aa, y.ab, ep),
            nodes,
            y.a.l + y.b.l,
        ),
{
    let x = LocalPair { a: y.a, b: y.b, aa: y.aa, ab: y.ab, w: y.w };
    lemma_no_exponent(x, y);
    let r = center_radial(y.aa, y.ab, ep);
    let (p, q) = pair_at(y.a.l, y.b.l, e);
    lemma_block_bounds(y.a.l, y.b.l);
    lemma_index_parts(e, cart_count(y.a.l), cart_count(y.b.l));
    let ua = direction(y.a.cv, T::root(square(y.a.cv))).1;
    let ub = direction(y.b.cv, T::root(square(y.b.cv))).1;
    lemma_projected_total(
        y,
        ua,
        ub,
        r,
        nodes,
        e / cart_count(y.b.l),
        e % cart_count(y.b.l),
    );
    lemma_areas::<T>();
    let yy = T::prod(monopole::<T>(), monopole::<T>());
    lemma_without_factor(
        T::prod(y.w, ep.coef),
        T::prod(T::prod(T::count(16), T::circle()), T::circle()),
        T::prod(yy, yy),
        plain_radial(r, nodes, y.a.l + y.b.l, nodes.len() as int),
        projected_angle_of::<T>(y.l, y.a.l, y.b.l, p, q),
    );
}

/// The angular integrals of the entries of a block.
pub type Angles<T> = spec_fn(Powers, Powers) -> T;

/// A block with the first `n` terms of a potential added for one pair of primitives about
/// its center.
pub open spec fn with_center_terms<T: Real>(
    old: Seq<T>,
    x: LocalPair<T>,
    angles: Angles<T>,
    prims: Seq<EcpPrimitive<T>>,
    nodes: Seq<(T, T)>,
    n: int,
) -> Seq<T>
    decreases n,
{
    if n <= 0 {
        old
    } else {
        let before = with_center_terms(old, x, angles, prims, nodes, n - 1);
        let ep = prims[n - 1];
        if left_out(ep, T::count(0), T::count(0), T::sum(x.aa, x.ab)) {
            before
        } else {
            added(
                before,
                block_size(x.a.l, x.b.l),
                |e: int|
                    center_term(
                        x.w,
                        ep.coef,
                        angles(pair_at(x.a.l, x.b.l, e).0, pair_at(x.a.l, x.b.l, e).1),
                        center_radial(x.aa, x.ab, ep),
                        nodes,
                        x.a.l + x.b.l,
                    ),
            )
        }
    }
}

/// A block with a potential added over the primitive pairs before `(i, j)` about its
/// center.
pub open spec fn centered_before<T: Real>(
    old: Seq<T>,
    a: SideView<T>,
    b: SideView<T>,
    angles: Angles<T>,
    prims: Seq<EcpPrimitive<T>>,
    nodes: Seq<(T, T)>,
    i: int,
    j: int,
) -> Seq<T>
    decreases i, j,
{
    if j > 0 {
        let before = centered_before(old, a, b, angles, prims, nodes, i, j - 1);
        let x = local_pair(a, b, i, j - 1);
        if pair_left_out(T::count(0), T::count(0), T::sum(x.aa, x.ab)) {
            before
        } else {
            with_center_terms(before, x, angles, prims, nodes, prims.len() as int)
        }
    } else if i > 0 {
        centered_before(old, a, b, angles, prims, nodes, i - 1, b.exps.len() as int)
    } else {
        old
    }
}

/// A block with a potential of given angular integrals added about its center.
pub open spec fn centered<T: Real>(
    old: Seq<T>,
    a: SideView<T>,
    b: SideView<T>,
    angles: Angles<T>,
    prims: Seq<EcpPrimitive<T>>,
    nodes: Seq<(T, T)>,
) -> Seq<T> {
    centered_before(old, a, b, angles, prims, nodes, a.exps.len() as int, 0)
}

proof fn lemma_center_terms<T: Real>(
    old: Seq<T>,
    x: LocalPair<T>,
    y: ProjectedPair<T>,
    prims: Seq<EcpPrimitive<T>>,
    nodes: Seq<(T, T)>,
    n: int,
)
    requires
        calculates_exactly::<T>(),
        is_centered(x.a),
        is_centered(x.b),
        y.a == x.a,
        y.b == x.b,
        y.aa == x.aa,
        y.ab == x.ab,
        y.w == x.w,
        0 <= y.l <= 0xfff_ffff,
        old.len() == block_size(x.a.l, x.b.l),
        n <= prims.len(),
    ensures
        ({
            let (la, lb) = (x.a.l, x.b.l);
            let own = |p: Powers, q: Powers| local_angle_of::<T>(p, q);
            let cut = |p: Powers, q: Powers| projected_angle_of::<T>(y.l, la, lb, p, q);
            &&& x.with_terms(old, prims, nodes, n) == with_center_terms(
                old,
                x,
                own,
                prims,
                nodes,
                n,
            )
            &&& y.with_terms(old, prims, nodes, n) == with_center_terms(
                old,
                x,
                cut,
                prims,
                nodes,
                n,
            )
            &&& x.with_terms(old, prims, nodes, n).len() == old.len()
            &&& y.with_terms(old, prims, nodes, n).len() == old.len()
        }),
    decreases n,
{
    if n > 0 {
        let (la, lb) = (x.a.l, x.b.l);
        let own = |p: Powers, q: Powers| local_angle_of::<T>(p, q);
        let cut = |p: Powers, q: Powers| projected_angle_of::<T>(y.l, la, lb, p, q);
        lemma_center_terms(old, x, y, prims, nodes, n - 1);
        lemma_no_exponent(x, y);
        let ep = prims[n - 1];
        assert forall|e: int| 0 <= e < block_size(la, lb) implies #[trigger] x.term(ep, nodes)(e)
            == center_term(
            x.w,
            ep.coef,
            own(pair_at(la, lb, e).0, pair_at(la, lb, e).1),
            center_radial(x.aa, x.ab, ep),
            nodes,
            la + lb,
        ) by {
            lemma_local_term(x, ep, nodes, e);
        }
        assert forall|e: int| 0 <= e < block_size(la, lb) implies #[trigger] y.term(ep, nodes)(e)
            == center_term(
            x.w,
            ep.coef,
            cut(pair_at(la, lb, e).0, pair_at(la, lb, e).1),
            center_radial(x.aa, x.ab, ep),
            nodes,
            la + lb,
        ) by {
            lemma_projected_term(y, ep, nodes, e);
        }
        assert(x.with_terms(old, prims, nodes, n) =~= with_center_terms(
            old,
            x,
            own,
            prims,
            nodes,
            n,
        ));
        assert(y.with_terms(old, prims, nodes, n) =~= with_center_terms(
            old,
            x,
            cut,
            prims,
            nodes,
            n,
        ));
    }
}

proof fn lemma_centered_before<T: Real>(
    old: Seq<T>,
    l: int,
    a: SideView<T>,
    b: SideView<T>,
    prims: Seq<EcpPrimitive<T>>,
    nodes: Seq<(T, T)>,
    i: int,
    j: int,
)
    requires
        calculates_exactly::<T>(),
        is_centered(a),
        is_centered(b),
        0 <= l <= 0xfff_ffff,
        old.len() == block_size(a.l, b.l),
    ensures
        ({
            let own = |p: Powers, q: Powers| local_angle_of::<T>(p, q);
            let cut = |p: Powers, q: Powers| projected_angle_of::<T>(l, a.l, b.l, p, q);
            &&& local_before(old, a, b, prims, nodes, i, j) == centered_before(
                old,
                a,
                b,
                own,
                prims,
                nodes,
                i,
                j,
            )
            &&& projected_before(old, l, a, b, prims, nodes, i, j) == centered_before(
                old,
                a,
                b,
                cut,
                prims,
                nodes,
                i,
                j,
            )
            &&& local_before(old, a, b, prims, nodes, i, j).len() == old.len()
            &&& projected_before(old, l, a, b, prims, nodes, i, j).len() == old.len()
        }),
    decreases i, j,
{
    if j > 0 {
        lemma_centered_before(old, l, a, b, prims, nodes, i, j - 1);
        let (x, y) = (local_pair(a, b, i, j - 1), projected_pair(l, a, b, i, j - 1));
        lemma_no_exponent(x, y);
        let n = prims.len() as int;
        lemma_center_terms(local_before(old, a, b, prims, nodes, i, j - 1), x, y, prims, nodes, n);
        lemma_center_terms(
            projected_before(old, l, a, b, prims, nodes, i, j - 1),
            x,
            y,
            prims,
            nodes,
            n,
        );
    } else if i > 0 {
        lemma_centered_before(old, l, a, b, prims, nodes, i - 1, b.exps.len() as int);
    }
}

proof fn lemma_no_terms<T: Real>(
    old: Seq<T>,
    a: SideView<T>,
    b: SideView<T>,
    angles: Angles<T>,
    prims: Seq<EcpPrimitive<T>>,
    nodes: Seq<(T, T)>,
    i: int,
    j: int,
)
    requires
        prims.len() == 0,
    ensures
        centered_before(old, a, b, angles, prims, nodes, i, j) == old,
    decreases i, j,
{
    if j > 0 {
        lemma_no_terms(old, a, b, angles, prims, nodes, i, j - 1);
    } else if i > 0 {
        lemma_no_terms(old, a, b, angles, prims, nodes, i - 1, b.exps.len() as int);
    }
}

/// About the center of its potential, two shells have from the local part the radial
/// integral times the integral of the product of their monomials over the unit sphere.
pub proof fn law_local_part_about_its_center<T: Real>(
    old: Seq<T>,
    a: SideView<T>,
    b: SideView<T>,
    prims: Seq<EcpPrimitive<T>>,
    nodes: Seq<(T, T)>,
)
    requires
        calculates_exactly::<T>(),
        is_centered(a),
        is_centered(b),
        old.len() == block_size(a.l, b.l),
    ensures
        with_local(old, a, b, prims, nodes) == centered(
            old,
            a,
            b,
            |p: Powers, q: Powers| sphere_integral::<T>(p.0 + q.0, p.1 + q.1, p.2 + q.2),
            prims,
            nodes,
        ),
{
    let own = |p: Powers, q: Powers| local_angle_of::<T>(p, q);
    let said = |p: Powers, q: Powers| sphere_integral::<T>(p.0 + q.0, p.1 + q.1, p.2 + q.2);
    assert(own =~= said);
    if prims.len() == 0 {
        lemma_no_terms(old, a, b, own, prims, nodes, a.exps.len() as int, 0);
    } else {
        lemma_centered_before(old, 0, a, b, prims, nodes, a.exps.len() as int, 0);
    }
}

/// About the center of its potential, two shells have from the projected part of degree
/// `l` the radial integral times the sum over the harmonics of that degree of the products
/// of their integrals with the two monomials.
pub proof fn law_projected_part_about_its_center<T: Real>(
    old: Seq<T>,
    l: int,
    a: SideView<T>,
    b: SideView<T>,
    prims: Seq<EcpPrimitive<T>>,
    nodes: Seq<(T, T)>,
)
    requires
        calculates_exactly::<T>(),
        is_centered(a),
        is_centered(b),
        0 <= l <= 0xfff_ffff,
        old.len() == block_size(a.l, b.l),
    ensures
        with_projected(old, l, a, b, prims, nodes) == centered(
            old,
            a,
            b,
            |p: Powers, q: Powers| projected_angle_of::<T>(l, a.l, b.l, p, q),
            prims,
            nodes,
        ),
{
    lemma_centered_before(old, l, a, b, prims, nodes, a.exps.len() as int, 0);
}

} // verus!
