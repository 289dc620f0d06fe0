//! A projector keeps the functions of its own degree.
//!
//! On the center of a potential an `s` or a `p` shell is made of harmonics of its own
//! degree. The projector of that degree leaves them as they are, so that the projected part
//! with a radial expansion is the local part with the same one; those of higher degrees
//! leave nothing.
use vstd::prelude::*;

use crate::ecp::harmonics::{
    binomial, column, derived_times, factorial_of, first_power, harmonic, harmonic_norm, legendre,
    legendre_coefficient, order_size, plane, sign_of, single_integral, sphere_integral,
};
use crate::ecp::local::{local_pair, with_local, LocalPair};
use crate::ecp::monopole::{
    calculates_exactly, lemma_monopole, lemma_monopole_integral, lemma_over_one, monopole,
    sphere_area,
};
use crate::ecp::own_center::{
    center_radial, center_term, centered, centered_before, is_centered,
    law_local_part_about_its_center, law_projected_part_about_its_center, overlap_with,
    plain_radial, projected_angle_of, with_center_terms, Angles,
};
use crate::ecp::projected::with_projected;
use crate::ecp::quadrupole::lemma_quadratic_angles;
use crate::ecp::side::{left_out, pair_left_out, EcpPrimitive, SideView};
use crate::engine::os::{block_size, lemma_block_bounds, pair_at};
use crate::exact::{
    is_ring, lemma_count_product, lemma_ring_commute, lemma_ring_factors, lemma_ring_sums,
    sum_before,
};
use crate::flat::lemma_index_parts;
use crate::math::am::{cart_count, component_at, law_every_position_is_taken, Powers};
use crate::math::norm::{descending_product, odd_factorial};
use crate::math::rotation::{has_inverse, lemma_cancelled, lemma_units, lemma_zero_factor};
use crate::math::solid_harmonics::vanishes;
use crate::scalar::{fraction, Real, Scalar};

verus! {

/// Whether two lists of angular integrals are the same for two momenta.
spec fn same_angles<T: Real>(f: Angles<T>, g: Angles<T>, la: int, lb: int) -> bool {
    forall|e: int|
        0 <= e < block_size(la, lb) ==> f(
            #[trigger] pair_at(la, lb, e).0,
            pair_at(la, lb, e).1,
        ) == g(pair_at(la, lb, e).0, pair_at(la, lb, e).1)
}

proof fn lemma_same_terms<T: Real>(
    old: Seq<T>,
    x: LocalPair<T>,
    f: Angles<T>,
    g: Angles<T>,
    prims: Seq<EcpPrimitive<T>>,
    nodes: Seq<(T, T)>,
    n: int,
)
    requires
        same_angles(f, g, x.a.l, x.b.l),
        old.len() == block_size(x.a.l, x.b.l),
    ensures
        with_center_terms(old, x, f, prims, nodes, n) == with_center_terms(
            old,
            x,
            g,
            prims,
            nodes,
            n,
        ),
        with_center_terms(old, x, f, prims, nodes, n).len() == old.len(),
    decreases n,
{
    if n > 0 {
        lemma_same_terms(old, x, f, g, prims, nodes, n - 1);
        assert(with_center_terms(old, x, f, prims, nodes, n) =~= with_center_terms(
            old,
            x,
            g,
            prims,
            nodes,
            n,
        ));
    }
}

proof fn lemma_same_centered<T: Real>(
    old: Seq<T>,
    a: SideView<T>,
    b: SideView<T>,
    f: Angles<T>,
    g: Angles<T>,
    prims: Seq<EcpPrimitive<T>>,
    nodes: Seq<(T, T)>,
    i: int,
    j: int,
)
    requires
        same_angles(f, g, a.l, b.l),
        old.len() == block_size(a.l, b.l),
    ensures
        centered_before(old, a, b, f, prims, nodes, i, j) == centered_before(
            old,
            a,
            b,
            g,
            prims,
            nodes,
            i,
            j,
        ),
        centered_before(old, a, b, f, prims, nodes, i, j).len() == old.len(),
    decreases i, j,
{
    if j > 0 {
        lemma_same_centered(old, a, b, f, g, prims, nodes, i, j - 1);
        let before = centered_before(old, a, b, f, prims, nodes, i, j - 1);
        lemma_same_terms(
            before,
            local_pair(a, b, i, j - 1),
            f,
            g,
            prims,
            nodes,
            prims.len() as int,
        );
    } else if i > 0 {
        lemma_same_centered(old, a, b, f, g, prims, nodes, i - 1, b.exps.len() as int);
    }
}

proof fn lemma_blank_terms<T: Real>(
    old: Seq<T>,
    x: LocalPair<T>,
    prims: Seq<EcpPrimitive<T>>,
    nodes: Seq<(T, T)>,
    n: int,
)
    requires
        is_ring::<T>(),
    ensures
        with_center_terms(old, x, |p: Powers, q: Powers| T::count(0), prims, nodes, n) == old,
    decreases n,
{
    if n > 0 {
        lemma_blank_terms(old, x, prims, nodes, n - 1);
        let f = |p: Powers, q: Powers| T::count(0);
        let ep = prims[n - 1];
        let r = plain_radial(
            center_radial(x.aa, x.ab, ep),
            nodes,
            x.a.l + x.b.l,
            nodes.len() as int,
        );
        lemma_zero_factor(r);
        lemma_zero_factor(T::prod(x.w, ep.coef));
        assert forall|e: int| 0 <= e < old.len() implies #[trigger] T::sum(old[e], T::count(0))
            == old[e] by {
            lemma_ring_sums(old[e], old[e], old[e]);
        }
        assert(with_center_terms(old, x, f, prims, nodes, n) =~= old);
    }
}

proof fn lemma_blank_centered<T: Real>(
    old: Seq<T>,
    a: SideView<T>,
    b: SideView<T>,
    prims: Seq<EcpPrimitive<T>>,
    nodes: Seq<(T, T)>,
    i: int,
    j: int,
)
    requires
        is_ring::<T>(),
    ensures
        centered_before(old, a, b, |p: Powers, q: Powers| T::count(0), prims, nodes, i, j) == old,
    decreases i, j,
{
    if j > 0 {
        lemma_blank_centered(old, a, b, prims, nodes, i, j - 1);
        lemma_blank_terms(old, local_pair(a, b, i, j - 1), prims, nodes, prims.len() as int);
    } else if i > 0 {
        lemma_blank_centered(old, a, b, prims, nodes, i - 1, b.exps.len() as int);
    }
}

/// The projected part of a degree above the angular momentum of either shell, or of the
/// other parity, adds nothing about its center.
pub proof fn law_other_channels_add_nothing<T: Real>(
    old: Seq<T>,
    l: int,
    a: SideView<T>,
    b: SideView<T>,
    prims: Seq<EcpPrimitive<T>>,
    nodes: Seq<(T, T)>,
)
    requires
        calculates_exactly::<T>(),
        is_centered(a),
        is_centered(b),
        0 <= l <= 0xfff_ffff,
        a.l < l || b.l < l || (l + a.l) % 2 == 1 || (l + b.l) % 2 == 1,
        old.len() == block_size(a.l, b.l),
    ensures
        with_projected(old, l, a, b, prims, nodes) == old,
{
    law_projected_part_about_its_center(old, l, a, b, prims, nodes);
    let f = |p: Powers, q: Powers| projected_angle_of::<T>(l, a.l, b.l, p, q);
    let z = |p: Powers, q: Powers| T::count(0);
    lemma_same_centered(old, a, b, f, z, prims, nodes, a.exps.len() as int, 0);
    lemma_blank_centered(old, a, b, prims, nodes, a.exps.len() as int, 0);
}

/// The integral of a monomial of one power each.
proof fn lemma_sphere_moments<T: Real>()
    requires
        calculates_exactly::<T>(),
    ensures
        sphere_integral::<T>(0, 0, 0) == sphere_area::<T>(),
        T::prod(T::count(3), sphere_integral::<T>(2, 0, 0)) == sphere_area::<T>(),
        sphere_integral::<T>(0, 2, 0) == sphere_integral::<T>(2, 0, 0),
        sphere_integral::<T>(0, 0, 2) == sphere_integral::<T>(2, 0, 0),
{
    let one = T::count(1);
    let area = sphere_area::<T>();
    reveal_with_fuel(descending_product, 3);
    lemma_ring_sums(one, one, one);
    lemma_ring_commute(area, one);
    lemma_ring_sums(area, area, area);
    assert(odd_factorial::<T>(-1) == one && odd_factorial::<T>(1) == one);
    let three = T::count(3);
    lemma_ring_sums(three, three, three);
    assert(odd_factorial::<T>(3) == three);
    lemma_over_one(area);
    assert(has_inverse(three));
    let q = T::quot(area, three);
    assert(T::prod(three, q) == area);
}

/// The norm of the harmonics of degree one.
proof fn lemma_dipole_norm<T: Real>(m: int)
    requires
        calculates_exactly::<T>(),
        -1 <= m <= 1,
    ensures
        ({
            let n = harmonic_norm::<T>(1, m);
            T::prod(T::prod(n, n), sphere_area::<T>()) == T::count(3)
        }),
{
    let (zero, one, two, three, four) = (
        T::count(0),
        T::count(1),
        T::count(2),
        T::count(3),
        T::count(4),
    );
    let pi = T::circle();
    let area = sphere_area::<T>();
    let n = harmonic_norm::<T>(1, m);
    assert(T::le(zero, one) && T::le(zero, two) && T::le(zero, three) && T::le(zero, four)
        && T::le(zero, pi));
    assert(has_inverse(two) && has_inverse(four));
    lemma_units(four, pi);
    lemma_units(two, pi);
    if m == 0 {
        let q = T::quot(three, area);
        assert(T::le(zero, area) && T::le(zero, q));
        assert(T::prod(area, q) == three);
        assert(T::prod(n, n) == q);
        lemma_ring_commute(q, area);
    } else {
        reveal_with_fuel(factorial_of, 3);
        lemma_ring_sums(one, one, one);
        lemma_ring_sums(two, two, two);
        lemma_ring_commute(one, two);
        assert(factorial_of::<T>(0) == one);
        assert(factorial_of::<T>(2) == two);
        let half = T::prod(two, pi);
        let q = T::quot(three, half);
        assert(T::prod(half, q) == three);
        lemma_ring_commute(q, one);
        lemma_ring_sums(q, q, q);
        let r = T::quot(q, two);
        assert(T::prod(two, r) == q);
        assert(T::le(zero, half) && T::le(zero, q) && T::le(zero, r));
        assert(order_size(m) == 1);
        assert(n == T::root(r));
        assert(T::prod(n, n) == r);
        // (2 2) pi r is (2 pi) (2 r).
        lemma_count_product::<T>(2, 2);
        lemma_ring_factors(two, two, pi);
        lemma_ring_factors(two, half, r);
        lemma_ring_commute(r, area);
        assert(area == T::prod(two, half));
        assert(T::prod(area, r) == T::prod(two, T::prod(half, r)));
        lemma_ring_factors(half, two, r);
        assert(T::prod(half, T::prod(two, r)) == T::prod(two, T::prod(half, r)));
    }
}

/// The coefficients of the Legendre polynomial of degree one.
proof fn lemma_legendre_one<T: Real>()
    requires
        calculates_exactly::<T>(),
    ensures
        legendre::<T>(1) == seq![T::count(0), T::count(1)],
        derived_times(legendre::<T>(1), 1) == seq![T::count(1)],
{
    let (one, two) = (T::count(1), T::count(2));
    let half = fraction::<T>(1, 2);
    assert(has_inverse(two));
    assert(T::prod(two, half) == one);
    assert(T::raised(half, (0u64 + 1) as u64) == T::prod(half, T::raised(half, 0)));
    assert(T::raised(half, 0) == one);
    lemma_ring_commute(half, one);
    lemma_ring_sums(half, half, half);
    assert(T::raised(half, 1) == half);
    reveal_with_fuel(binomial, 3);
    assert(binomial::<T>(1, 0) == one);
    lemma_ring_sums(two, two, two);
    lemma_over_one(two);
    assert(binomial::<T>(2, 1) == two);
    lemma_ring_commute(half, two);
    assert(sign_of::<T>(false) == one);
    assert(legendre_coefficient::<T>(1, 1) == one);
    assert(legendre::<T>(1) =~= seq![T::count(0), one]);
    reveal_with_fuel(derived_times, 2);
    lemma_ring_sums(one, one, one);
    assert(derived_times(legendre::<T>(1), 1) =~= seq![one]);
}

/// The axis of the harmonic of degree one and order `m`.
spec fn dipole_axis(m: int) -> Powers {
    if m < 0 {
        (0, 1, 0)
    } else if m == 0 {
        (0, 0, 1)
    } else {
        (1, 0, 0)
    }
}

/// The harmonics of degree one are multiples of the coordinates.
proof fn lemma_dipole<T: Real>(m: int)
    requires
        calculates_exactly::<T>(),
        -1 <= m <= 1,
    ensures
        ({
            let t = dipole_axis(m);
            harmonic::<T>(1, m) == seq![
                (
                    harmonic_norm::<T>(1, m),
                    [t.0 as usize, t.1 as usize, t.2 as usize],
                ),
            ]
        }),
{
    let (zero, one) = (T::count(0), T::count(1));
    let n = harmonic_norm::<T>(1, m);
    lemma_legendre_one::<T>();
    lemma_ring_commute(n, one);
    lemma_ring_sums(n, n, n);
    lemma_ring_sums(one, one, one);
    assert(!vanishes(one) && vanishes(zero));
    reveal_with_fuel(column, 3);
    if m == 0 {
        assert(derived_times(legendre::<T>(1), 0) == legendre::<T>(1));
        assert(harmonic::<T>(1, 0) =~= seq![(n, [0usize, 0usize, 1usize])]);
    } else {
        let c = derived_times(legendre::<T>(1), 1);
        assert(c == seq![one]);
        reveal_with_fuel(plane, 2);
        reveal_with_fuel(binomial, 3);
        lemma_over_one(one);
        assert(binomial::<T>(1, 0) == one);
        assert(binomial::<T>(1, 1) == one);
        assert(sign_of::<T>(false) == one);
        let first = first_power(m);
        assert((1 - first) / 2 + 1 == 1);
        assert((first / 2) % 2 == 0);
        let f = T::prod(n, T::prod(sign_of((first / 2) % 2 != 0), binomial(1, first)));
        assert(f == n);
        let col = column(f, c, 1 - first, first, 1);
        assert(col =~= seq![(n, [(1 - first) as usize, first as usize, 0usize])]);
        assert(plane(n, c, 1, first, 0) =~= Seq::empty());
        assert(harmonic::<T>(1, m) =~= col);
    }
}

/// The integral of a harmonic of degree one with a coordinate.
proof fn lemma_dipole_overlap<T: Real>(m: int, p: Powers)
    requires
        calculates_exactly::<T>(),
        -1 <= m <= 1,
        p == (1int, 0int, 0int) || p == (0int, 1int, 0int) || p == (0int, 0int, 1int),
    ensures
        overlap_with::<T>(1, m, p) == (if p == dipole_axis(m) {
            T::prod(harmonic_norm::<T>(1, m), sphere_integral::<T>(2, 0, 0))
        } else {
            T::count(0)
        }),
{
    let n = harmonic_norm::<T>(1, m);
    lemma_dipole::<T>(m);
    lemma_sphere_moments::<T>();
    reveal_with_fuel(single_integral, 2);
    let t = dipole_axis(m);
    let v = T::prod(n, sphere_integral::<T>(p.0 + t.0, p.1 + t.1, p.2 + t.2));
    lemma_ring_sums(v, v, v);
    lemma_ring_sums(n, n, n);
}

/// The components of a shell of degree one.
proof fn lemma_dipole_component(i: int)
    requires
        0 <= i < cart_count(1),
    ensures
        ({
            let p = component_at(1, i);
            p == (1int, 0int, 0int) || p == (0int, 1int, 0int) || p == (0int, 0int, 1int)
        }),
{
    law_every_position_is_taken(1, i);
}

/// The angular integrals of the projector of degree one between coordinates.
proof fn lemma_dipole_angles<T: Real>(p: Powers, q: Powers)
    requires
        calculates_exactly::<T>(),
        p == (1int, 0int, 0int) || p == (0int, 1int, 0int) || p == (0int, 0int, 1int),
        q == (1int, 0int, 0int) || q == (0int, 1int, 0int) || q == (0int, 0int, 1int),
    ensures
        projected_angle_of::<T>(1, 1, 1, p, q) == sphere_integral::<T>(
            p.0 + q.0,
            p.1 + q.1,
            p.2 + q.2,
        ),
{
    let s = sphere_integral::<T>(2, 0, 0);
    let zero = T::count(0);
    lemma_sphere_moments::<T>();
    let f = |i: int| T::prod(overlap_with::<T>(1, i - 1, p), overlap_with::<T>(1, i - 1, q));
    assert forall|i: int| 0 <= i < 3 implies #[trigger] f(i) == (if p == dipole_axis(i - 1) && q
        == dipole_axis(i - 1) {
        s
    } else {
        zero
    }) by {
        let m = i - 1;
        lemma_dipole_overlap::<T>(m, p);
        lemma_dipole_overlap::<T>(m, q);
        let n = harmonic_norm::<T>(1, m);
        let ns = T::prod(n, s);
        lemma_zero_factor(overlap_with::<T>(1, m, p));
        lemma_zero_factor(overlap_with::<T>(1, m, q));
        // With n n (4 pi) == 3 and 3 s == 4 pi: (n s) (n s) == s.
        lemma_dipole_norm::<T>(m);
        let nn = T::prod(n, n);
        let area = sphere_area::<T>();
        let three = T::count(3);
        lemma_ring_factors(n, s, ns);
        lemma_ring_factors(n, s, s);
        lemma_ring_factors(n, n, T::prod(s, s));
        assert(T::prod(ns, ns) == T::prod(nn, T::prod(s, s)));
        // 3 (nn (s s)) == nn ((3 s) s) == nn (area s) == (nn area) s == 3 s.
        lemma_ring_factors(three, nn, T::prod(s, s));
        lemma_ring_factors(three, s, s);
        lemma_ring_factors(nn, area, s);
        assert(T::prod(three, T::prod(ns, ns)) == T::prod(three, s));
        assert(has_inverse(three));
        lemma_cancelled(three, T::prod(ns, ns), s);
    }
    reveal_with_fuel(sum_before, 4);
    assert(f(0) == f(0) && f(1) == f(1) && f(2) == f(2));
    lemma_ring_sums(s, zero, zero);
    lemma_ring_sums(zero, s, zero);
    lemma_ring_sums(zero, zero, s);
}

/// The angular integral of the projector of degree zero between constants.
proof fn lemma_monopole_angle<T: Real>()
    requires
        calculates_exactly::<T>(),
    ensures
        projected_angle_of::<T>(0, 0, 0, (0, 0, 0), (0, 0, 0)) == sphere_integral::<T>(0, 0, 0),
{
    let area = sphere_area::<T>();
    let y = monopole::<T>();
    lemma_monopole::<T>();
    lemma_sphere_moments::<T>();
    let p = (0int, 0int, 0int);
    reveal_with_fuel(single_integral, 2);
    let ya = T::prod(y, area);
    lemma_ring_sums(ya, ya, ya);
    assert(overlap_with::<T>(0, 0, p) == ya);
    let f = |i: int| T::prod(overlap_with::<T>(0, i - 0, p), overlap_with::<T>(0, i - 0, p));
    reveal_with_fuel(sum_before, 2);
    assert(f(0) == T::prod(ya, ya));
    lemma_ring_factors(y, area, ya);
    lemma_ring_factors(y, area, area);
    lemma_ring_factors(y, y, T::prod(area, area));
    lemma_ring_factors(T::prod(y, y), area, area);
    lemma_ring_sums(area, area, area);
    lemma_ring_sums(f(0), f(0), f(0));
}

/// For two `s` shells or two `p` shells on the center of a potential, the projected part of
/// their own degree with any radial expansion is the local part with that expansion.
pub proof fn law_own_channel_is_the_local_part<T: Real>(
    old: Seq<T>,
    l: int,
    a: SideView<T>,
    b: SideView<T>,
    prims: Seq<EcpPrimitive<T>>,
    nodes: Seq<(T, T)>,
)
    requires
        calculates_exactly::<T>(),
        is_centered(a),
        is_centered(b),
        0 <= l <= 1,
        a.l == l,
        b.l == l,
        old.len() == block_size(a.l, b.l),
    ensures
        with_projected(old, l, a, b, prims, nodes) == with_local(old, a, b, prims, nodes),
{
    law_projected_part_about_its_center(old, l, a, b, prims, nodes);
    law_local_part_about_its_center(old, a, b, prims, nodes);
    let f = |p: Powers, q: Powers| projected_angle_of::<T>(l, a.l, b.l, p, q);
    let g = |p: Powers, q: Powers| sphere_integral::<T>(p.0 + q.0, p.1 + q.1, p.2 + q.2);
    lemma_block_bounds(l, l);
    assert forall|e: int| 0 <= e < block_size(l, l) implies f(
        #[trigger] pair_at(l, l, e).0,
        pair_at(l, l, e).1,
    ) == g(pair_at(l, l, e).0, pair_at(l, l, e).1) by {
        lemma_index_parts(e, cart_count(l), cart_count(l));
        let (p, q) = pair_at(l, l, e);
        law_every_position_is_taken(l, e / cart_count(l));
        law_every_position_is_taken(l, e % cart_count(l));
        if l == 0 {
            lemma_monopole_angle::<T>();
        } else {
            lemma_dipole_component(e / cart_count(1));
            lemma_dipole_component(e % cart_count(1));
            lemma_dipole_angles::<T>(p, q);
        }
    }
    lemma_same_centered(old, a, b, f, g, prims, nodes, a.exps.len() as int, 0);
}

/// What the first `n` terms of a potential add to an entry for one pair of primitives.
spec fn term_gain<T: Real>(
    x: LocalPair<T>,
    f: Angles<T>,
    prims: Seq<EcpPrimitive<T>>,
    nodes: Seq<(T, T)>,
    n: int,
    e: int,
) -> T
    decreases n,
{
    if n <= 0 {
        T::count(0)
    } else {
        let ep = prims[n - 1];
        T::sum(
            term_gain(x, f, prims, nodes, n - 1, e),
            if left_out(ep, T::count(0), T::count(0), T::sum(x.aa, x.ab)) {
                T::count(0)
            } else {
                center_term(
                    x.w,
                    ep.coef,
                    f(pair_at(x.a.l, x.b.l, e).0, pair_at(x.a.l, x.b.l, e).1),
                    center_radial(x.aa, x.ab, ep),
                    nodes,
                    x.a.l + x.b.l,
                )
            },
        )
    }
}

/// What a potential adds to an entry over the primitive pairs before `(i, j)`.
spec fn gain<T: Real>(
    a: SideView<T>,
    b: SideView<T>,
    f: Angles<T>,
    prims: Seq<EcpPrimitive<T>>,
    nodes: Seq<(T, T)>,
    i: int,
    j: int,
    e: int,
) -> T
    decreases i, j,
{
    if j > 0 {
        let x = local_pair(a, b, i, j - 1);
        T::sum(
            gain(a, b, f, prims, nodes, i, j - 1, e),
            if pair_left_out(T::count(0), T::count(0), T::sum(x.aa, x.ab)) {
                T::count(0)
            } else {
                term_gain(x, f, prims, nodes, prims.len() as int, e)
            },
        )
    } else if i > 0 {
        gain(a, b, f, prims, nodes, i - 1, b.exps.len() as int, e)
    } else {
        T::count(0)
    }
}

proof fn lemma_term_gain<T: Real>(
    old: Seq<T>,
    x: LocalPair<T>,
    f: Angles<T>,
    prims: Seq<EcpPrimitive<T>>,
    nodes: Seq<(T, T)>,
    n: int,
    e: int,
)
    requires
        is_ring::<T>(),
        0 <= e < old.len(),
        old.len() == block_size(x.a.l, x.b.l),
    ensures
        with_center_terms(old, x, f, prims, nodes, n).len() == old.len(),
        with_center_terms(old, x, f, prims, nodes, n)[e] == T::sum(
            old[e],
            term_gain(x, f, prims, nodes, n, e),
        ),
    decreases n,
{
    lemma_ring_sums(old[e], old[e], old[e]);
    if n > 0 {
        lemma_term_gain(old, x, f, prims, nodes, n - 1, e);
        let before = term_gain(x, f, prims, nodes, n - 1, e);
        let ep = prims[n - 1];
        let t = center_term(
            x.w,
            ep.coef,
            f(pair_at(x.a.l, x.b.l, e).0, pair_at(x.a.l, x.b.l, e).1),
            center_radial(x.aa, x.ab, ep),
            nodes,
            x.a.l + x.b.l,
        );
        lemma_ring_sums(old[e], before, t);
        lemma_ring_sums(before, before, before);
    }
}

proof fn lemma_gain<T: Real>(
    old: Seq<T>,
    a: SideView<T>,
    b: SideView<T>,
    f: Angles<T>,
    prims: Seq<EcpPrimitive<T>>,
    nodes: Seq<(T, T)>,
    i: int,
    j: int,
    e: int,
)
    requires
        is_ring::<T>(),
        0 <= e < old.len(),
        old.len() == block_size(a.l, b.l),
    ensures
        centered_before(old, a, b, f, prims, nodes, i, j).len() == old.len(),
        centered_before(old, a, b, f, prims, nodes, i, j)[e] == T::sum(
            old[e],
            gain(a, b, f, prims, nodes, i, j, e),
        ),
    decreases i, j,
{
    lemma_ring_sums(old[e], old[e], old[e]);
    if j > 0 {
        lemma_gain(old, a, b, f, prims, nodes, i, j - 1, e);
        let before = centered_before(old, a, b, f, prims, nodes, i, j - 1);
        let x = local_pair(a, b, i, j - 1);
        let n = prims.len() as int;
        lemma_term_gain(before, x, f, prims, nodes, n, e);
        let (g, t) = (
            gain(a, b, f, prims, nodes, i, j - 1, e),
            term_gain(x, f, prims, nodes, n, e),
        );
        lemma_ring_sums(old[e], g, t);
        lemma_ring_sums(g, g, g);
    } else if i > 0 {
        lemma_gain(old, a, b, f, prims, nodes, i - 1, b.exps.len() as int, e);
    }
}

/// Angular integrals that add up.
spec fn are_summed<T: Real>(
    f: Angles<T>,
    g: Angles<T>,
    h: Angles<T>,
    la: int,
    lb: int,
    e: int,
) -> bool {
    let (p, q) = pair_at(la, lb, e);
    h(p, q) == T::sum(f(p, q), g(p, q))
}

proof fn lemma_four_terms<T: Scalar>(a: T, b: T, c: T, d: T)
    requires
        is_ring::<T>(),
    ensures
        T::sum(T::sum(a, b), T::sum(c, d)) == T::sum(T::sum(a, c), T::sum(b, d)),
{
    lemma_ring_sums(T::sum(a, b), c, d);
    lemma_ring_sums(a, b, c);
    lemma_ring_sums(T::sum(a, c), b, d);
}

proof fn lemma_term_gains_add<T: Real>(
    x: LocalPair<T>,
    f: Angles<T>,
    g: Angles<T>,
    h: Angles<T>,
    prims: Seq<EcpPrimitive<T>>,
    nodes: Seq<(T, T)>,
    n: int,
    e: int,
)
    requires
        is_ring::<T>(),
        are_summed(f, g, h, x.a.l, x.b.l, e),
    ensures
        term_gain(x, h, prims, nodes, n, e) == T::sum(
            term_gain(x, f, prims, nodes, n, e),
            term_gain(x, g, prims, nodes, n, e),
        ),
    decreases n,
{
    let zero = T::count(0);
    lemma_ring_sums(zero, zero, zero);
    if n > 0 {
        lemma_term_gains_add(x, f, g, h, prims, nodes, n - 1, e);
        let ep = prims[n - 1];
        let (p, q) = pair_at(x.a.l, x.b.l, e);
        let r = plain_radial(
            center_radial(x.aa, x.ab, ep),
            nodes,
            x.a.l + x.b.l,
            nodes.len() as int,
        );
        let (u, v, w) = (f(p, q), g(p, q), T::prod(x.w, ep.coef));
        lemma_ring_commute(T::sum(u, v), r);
        lemma_ring_factors(r, u, v);
        lemma_ring_commute(r, u);
        lemma_ring_commute(r, v);
        lemma_ring_factors(w, T::prod(u, r), T::prod(v, r));
        let (a, c) = (
            term_gain(x, f, prims, nodes, n - 1, e),
            term_gain(x, g, prims, nodes, n - 1, e),
        );
        lemma_four_terms(a, c, T::prod(w, T::prod(u, r)), T::prod(w, T::prod(v, r)));
        lemma_four_terms(a, c, zero, zero);
    }
}

proof fn lemma_gains_add<T: Real>(
    a: SideView<T>,
    b: SideView<T>,
    f: Angles<T>,
    g: Angles<T>,
    h: Angles<T>,
    prims: Seq<EcpPrimitive<T>>,
    nodes: Seq<(T, T)>,
    i: int,
    j: int,
    e: int,
)
    requires
        is_ring::<T>(),
        are_summed(f, g, h, a.l, b.l, e),
    ensures
        gain(a, b, h, prims, nodes, i, j, e) == T::sum(
            gain(a, b, f, prims, nodes, i, j, e),
            gain(a, b, g, prims, nodes, i, j, e),
        ),
    decreases i, j,
{
    let zero = T::count(0);
    lemma_ring_sums(zero, zero, zero);
    if j > 0 {
        lemma_gains_add(a, b, f, g, h, prims, nodes, i, j - 1, e);
        let x = local_pair(a, b, i, j - 1);
        let n = prims.len() as int;
        lemma_term_gains_add(x, f, g, h, prims, nodes, n, e);
        let (u, v) = (
            gain(a, b, f, prims, nodes, i, j - 1, e),
            gain(a, b, g, prims, nodes, i, j - 1, e),
        );
        lemma_four_terms(
            u,
            v,
            term_gain(x, f, prims, nodes, n, e),
            term_gain(x, g, prims, nodes, n, e),
        );
        lemma_four_terms(u, v, zero, zero);
    } else if i > 0 {
        lemma_gains_add(a, b, f, g, h, prims, nodes, i - 1, b.exps.len() as int, e);
    }
}

/// Two potentials one after the other are one whose angular integrals are the sums.
proof fn lemma_centered_twice<T: Real>(
    old: Seq<T>,
    a: SideView<T>,
    b: SideView<T>,
    f: Angles<T>,
    g: Angles<T>,
    h: Angles<T>,
    prims: Seq<EcpPrimitive<T>>,
    nodes: Seq<(T, T)>,
)
    requires
        is_ring::<T>(),
        old.len() == block_size(a.l, b.l),
        forall|e: int| 0 <= e < old.len() ==> #[trigger] are_summed(f, g, h, a.l, b.l, e),
        0 < old.len(),
    ensures
        centered(centered(old, a, b, f, prims, nodes), a, b, g, prims, nodes) == centered(
            old,
            a,
            b,
            h,
            prims,
            nodes,
        ),
        centered(old, a, b, f, prims, nodes).len() == old.len(),
{
    let i = a.exps.len() as int;
    let mid = centered(old, a, b, f, prims, nodes);
    lemma_gain(old, a, b, f, prims, nodes, i, 0, 0);
    lemma_gain(mid, a, b, g, prims, nodes, i, 0, 0);
    lemma_gain(old, a, b, h, prims, nodes, i, 0, 0);
    let (left, right) = (
        centered(mid, a, b, g, prims, nodes),
        centered(old, a, b, h, prims, nodes),
    );
    assert forall|e: int| 0 <= e < old.len() implies left[e] == right[e] by {
        assert(are_summed(f, g, h, a.l, b.l, e));
        lemma_gain(old, a, b, f, prims, nodes, i, 0, e);
        lemma_gain(mid, a, b, g, prims, nodes, i, 0, e);
        lemma_gain(old, a, b, h, prims, nodes, i, 0, e);
        lemma_gains_add(a, b, f, g, h, prims, nodes, i, 0, e);
        lemma_ring_sums(
            old[e],
            gain(a, b, f, prims, nodes, i, 0, e),
            gain(a, b, g, prims, nodes, i, 0, e),
        );
    }
    assert(left =~= right);
}

/// Between a constant and a monomial, the projector of degree zero leaves the integral of
/// the monomial.
proof fn lemma_constant_angle<T: Real>(p: Powers, q: Powers)
    requires
        calculates_exactly::<T>(),
        p == (0int, 0int, 0int) || q == (0int, 0int, 0int),
    ensures
        T::prod(overlap_with::<T>(0, 0, p), overlap_with::<T>(0, 0, q)) == sphere_integral::<T>(
            p.0 + q.0,
            p.1 + q.1,
            p.2 + q.2,
        ),
{
    let y = monopole::<T>();
    let area = sphere_area::<T>();
    lemma_monopole::<T>();
    lemma_sphere_moments::<T>();
    lemma_monopole_integral::<T>(p);
    lemma_monopole_integral::<T>(q);
    let (s, t) = (
        sphere_integral::<T>(p.0, p.1, p.2),
        sphere_integral::<T>(q.0, q.1, q.2),
    );
    let yy = T::prod(y, y);
    lemma_ring_factors(y, s, T::prod(y, t));
    lemma_ring_factors(y, s, t);
    lemma_ring_factors(y, y, T::prod(s, t));
    lemma_ring_commute(s, t);
    lemma_ring_factors(yy, area, t);
    lemma_ring_factors(yy, area, s);
    lemma_ring_sums(s, s, s);
    lemma_ring_sums(t, t, t);
}

/// Between monomials of degrees up to two, the projectors of degrees up to two add up to the
/// integral of the product.
proof fn lemma_complete_angles<T: Real>(la: int, lb: int, p: Powers, q: Powers)
    requires
        calculates_exactly::<T>(),
        0 <= la <= 2,
        0 <= lb <= 2,
        0 <= p.0 && 0 <= p.1 && 0 <= p.2 && p.0 + p.1 + p.2 == la,
        0 <= q.0 && 0 <= q.1 && 0 <= q.2 && q.0 + q.1 + q.2 == lb,
    ensures
        T::sum(
            T::sum(
                projected_angle_of::<T>(0, la, lb, p, q),
                projected_angle_of::<T>(1, la, lb, p, q),
            ),
            projected_angle_of::<T>(2, la, lb, p, q),
        ) == sphere_integral::<T>(p.0 + q.0, p.1 + q.1, p.2 + q.2),
{
    let s = sphere_integral::<T>(p.0 + q.0, p.1 + q.1, p.2 + q.2);
    let zero = T::count(0);
    lemma_ring_sums(s, zero, zero);
    lemma_ring_sums(zero, s, zero);
    lemma_ring_sums(zero, zero, s);
    if (la + lb) % 2 == 1 {
        let t = (p.0 + q.0, p.1 + q.1, p.2 + q.2);
        assert(t.0 % 2 == 1 || t.1 % 2 == 1 || t.2 % 2 == 1);
        assert(s == zero);
    } else if la == 1 {
        lemma_dipole_angles::<T>(p, q);
    } else if la == 2 && lb == 2 {
        lemma_quadratic_angles::<T>(p, q);
        let (u, v) = (
            projected_angle_of::<T>(0, 2, 2, p, q),
            projected_angle_of::<T>(2, 2, 2, p, q),
        );
        lemma_ring_sums(u, zero, v);
        lemma_ring_sums(u, u, u);
    } else {
        lemma_constant_angle::<T>(p, q);
        let f = |i: int| T::prod(overlap_with::<T>(0, i - 0, p), overlap_with::<T>(0, i - 0, q));
        reveal_with_fuel(sum_before, 2);
        assert(f(0) == s);
        assert(projected_angle_of::<T>(0, la, lb, p, q) == s);
    }
}

/// For shells of angular momenta up to two on the center of a potential, the projected
/// parts of the degrees up to two with one radial expansion add up to the local part with
/// that expansion.
pub proof fn law_channels_are_complete<T: Real>(
    old: Seq<T>,
    a: SideView<T>,
    b: SideView<T>,
    prims: Seq<EcpPrimitive<T>>,
    nodes: Seq<(T, T)>,
)
    requires
        calculates_exactly::<T>(),
        is_centered(a),
        is_centered(b),
        a.l <= 2,
        b.l <= 2,
        old.len() == block_size(a.l, b.l),
    ensures
        with_projected(
            with_projected(
                with_projected(old, 0, a, b, prims, nodes),
                1,
                a,
                b,
                prims,
                nodes,
            ),
            2,
            a,
            b,
            prims,
            nodes,
        ) == with_local(old, a, b, prims, nodes),
{
    let (la, lb) = (a.l, b.l);
    let f0 = |p: Powers, q: Powers| projected_angle_of::<T>(0, la, lb, p, q);
    let f1 = |p: Powers, q: Powers| projected_angle_of::<T>(1, la, lb, p, q);
    let f2 = |p: Powers, q: Powers| projected_angle_of::<T>(2, la, lb, p, q);
    let f01 = |p: Powers, q: Powers| T::sum(f0(p, q), f1(p, q));
    let own = |p: Powers, q: Powers| sphere_integral::<T>(p.0 + q.0, p.1 + q.1, p.2 + q.2);
    lemma_block_bounds(la, lb);
    let first = with_projected(old, 0, a, b, prims, nodes);
    law_projected_part_about_its_center(old, 0, a, b, prims, nodes);
    assert forall|e: int| 0 <= e < old.len() implies #[trigger] are_summed(
        f0,
        f1,
        f01,
        la,
        lb,
        e,
    ) by {}
    lemma_centered_twice(old, a, b, f0, f1, f01, prims, nodes);
    law_projected_part_about_its_center(first, 1, a, b, prims, nodes);
    let second = with_projected(first, 1, a, b, prims, nodes);
    assert(second == centered(old, a, b, f01, prims, nodes));
    assert forall|e: int| 0 <= e < old.len() implies #[trigger] are_summed(
        f01,
        f2,
        own,
        la,
        lb,
        e,
    ) by {
        lemma_index_parts(e, cart_count(la), cart_count(lb));
        let (p, q) = pair_at(la, lb, e);
        law_every_position_is_taken(la, e / cart_count(lb));
        law_every_position_is_taken(lb, e % cart_count(lb));
        lemma_complete_angles::<T>(la, lb, p, q);
    }
    lemma_centered_twice(old, a, b, f01, f2, own, prims, nodes);
    law_projected_part_about_its_center(second, 2, a, b, prims, nodes);
    law_local_part_about_its_center(old, a, b, prims, nodes);
}

} // verus!
