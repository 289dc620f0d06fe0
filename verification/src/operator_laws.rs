//! Operators written as polynomials and the matrices that are built directly.
//!
//! The dipole is the polynomial `r`, the kinetic energy half of `p.p`. Without rounding
//! the matrices of these operators are those of the dipole and of the kinetic energy.
use vstd::prelude::*;

use crate::engine::invariance::{lemma_along_axis, lemma_no_count, lemma_raise_second, lower};
use crate::engine::kinetic_invariance::beside;
use crate::engine::operator::{
    applied, expansion, ket_overlap, momenta, operated, overlaps_added, term_value, terms_value,
    Factor, TermView,
};
use crate::engine::os::{
    axis_kinetic, axis_moment, axis_of, axis_overlap, block_size, dipole_factor, kinetic_entries,
    kinetic_value, lemma_block_bounds, overlap_value, product_of, Axis, Prim,
};
use crate::engine::os_eri::MAX_L;
use crate::engine::pairs::{difference, Vec3};
use crate::engine::triples::{power, shifted};
use crate::exact::{
    counts_exactly, halves_exactly, is_ring, lemma_count_product, lemma_count_sum,
    lemma_half_of_double, lemma_ring_commute, lemma_ring_factors, lemma_ring_negatives,
    lemma_ring_sums,
};
use crate::flat::{added, lemma_index_parts};
use crate::math::am::{cart_count, component_at, degree, Powers};
use crate::one_electron::{contracted_pair, dipole_step, kinetic_step, pair_entries, PairStep};
use crate::operator::operator_step;
use crate::scalar::{fraction, Real, Scalar};
use crate::shell::Shell;
use crate::tensor::At;

verus! {

/// Whether two steps do the same to every block that fits.
pub open spec fn agree<T: Real>(s: PairStep<T>, u: PairStep<T>) -> bool {
    forall|old: Seq<T>, a: Prim<T>, b: Prim<T>, scale: T|
        a.l <= MAX_L && b.l <= MAX_L && old.len() == block_size(a.l as int, b.l as int)
            ==> #[trigger] s(old, a, b, scale) == u(old, a, b, scale) && s(old, a, b, scale).len()
            == old.len()
}

/// Steps that agree contract to the same blocks.
pub proof fn lemma_same_contraction<T: Real>(
    s: PairStep<T>,
    u: PairStep<T>,
    a: Shell<T>,
    b: Shell<T>,
    i: int,
    j: int,
)
    requires
        agree(s, u),
        a.l <= MAX_L,
        b.l <= MAX_L,
    ensures
        contracted_pair(s, a, b, i, j) == contracted_pair(u, a, b, i, j),
        contracted_pair(s, a, b, i, j).len() == block_size(a.l as int, b.l as int),
    decreases i, j,
{
    lemma_block_bounds(a.l as int, b.l as int);
    if j > 0 {
        lemma_same_contraction(s, u, a, b, i, j - 1);
        let old = contracted_pair(s, a, b, i, j - 1);
        let (pa, pb) = (a.primitive(i), b.primitive(j - 1));
        let scale = T::prod(a.effective(i), b.effective(j - 1));
        assert(s(old, pa, pb, scale) == u(old, pa, pb, scale));
    } else if i > 0 {
        lemma_same_contraction(s, u, a, b, i - 1, b.exponents@.len() as int);
    }
}

/// The overlap with a Gaussian of the ket, in a ring.
pub proof fn lemma_ket_overlap<T: Real>(a: Prim<T>, b: Prim<T>, ca: Powers, m: Powers)
    requires
        is_ring::<T>(),
    ensures
        ket_overlap(a, b, ca, m) == overlap_value(a, b, ca, m),
{
    let ket = Prim { exp: b.exp, center: b.center, l: degree(m) as usize };
    assert(overlap_value(a, ket, ca, m) == overlap_value(a, b, ca, m));
    let v = overlap_value(a, b, ca, m);
    lemma_ring_sums(v, v, v);
}

/// The terms of the dipole along an axis.
pub open spec fn dipole_terms<T: Scalar>(axis: int) -> Seq<TermView<T>> {
    seq![(T::count(1), seq![Factor::R(axis as usize)])]
}

/// `(P-B) + (B-O)` is `P-O`.
pub proof fn lemma_between<T: Scalar>(p: T, b: T, o: T)
    requires
        is_ring::<T>(),
    ensures
        T::sum(T::diff(p, b), T::diff(b, o)) == T::diff(p, o),
{
    let (mb, mo) = (T::neg(b), T::neg(o));
    lemma_ring_negatives(p, b);
    lemma_ring_negatives(b, o);
    lemma_ring_negatives(p, o);
    lemma_ring_sums(T::sum(p, mb), b, mo);
    lemma_ring_sums(p, mb, b);
    lemma_ring_sums(mb, b, b);
    lemma_ring_sums(p, T::count(0), T::count(0));
}

/// The raised overlap and the shifted one along an axis make the first moment.
pub proof fn lemma_axis_moment<T: Real>(
    a: Prim<T>,
    b: Prim<T>,
    o: Vec3<T>,
    k: int,
    i: int,
    j: int,
)
    requires
        is_ring::<T>(),
        0 <= k < 3,
        0 <= i < u64::MAX,
        0 <= j < u64::MAX,
    ensures
        ({
            let x = axis_of(a, b, k);
            let pr = product_of(a.exp, a.center, b.exp, b.center);
            T::sum(
                axis_overlap(x, i, j + 1),
                T::prod(T::diff(b.center[k], o[k]), axis_overlap(x, i, j)),
            ) == axis_moment(x, T::diff(pr.p_center[k], o[k]), i, j)
        }),
{
    let x = axis_of(a, b, k);
    let pr = product_of(a.exp, a.center, b.exp, b.center);
    let s = axis_overlap(x, i, j);
    let t = axis_overlap(x, i, j + 1);
    let d = T::diff(b.center[k], o[k]);
    let po = T::diff(pr.p_center[k], o[k]);
    let hw = T::prod(x.h, lower(x, i, j));
    lemma_raise_second(x, i, j);
    lemma_no_count(axis_overlap(x, i - 1, j));
    lemma_no_count(axis_overlap(x, i, j - 1));
    let moment = axis_moment(x, po, i, j);
    assert(moment == T::sum(T::prod(po, s), hw));
    lemma_between(pr.p_center[k], b.center[k], o[k]);
    lemma_ring_factors(s, x.pb, d);
    lemma_ring_commute(s, x.pb);
    lemma_ring_commute(s, d);
    lemma_ring_commute(s, po);
    lemma_ring_sums(T::prod(x.pb, s), T::prod(d, s), hw);
    assert(T::sum(t, T::prod(d, s)) == moment);
}

/// The raised overlap and the shifted one make the first moment.
proof fn lemma_moment<T: Real>(
    a: Prim<T>,
    b: Prim<T>,
    o: Vec3<T>,
    k: int,
    ca: Powers,
    cb: Powers,
    scale: T,
)
    requires
        is_ring::<T>(),
        0 <= k < 3,
        0 <= power(ca, k) < u64::MAX,
        0 <= power(cb, k) < u64::MAX,
    ensures
        T::sum(
            T::prod(scale, overlap_value(a, b, ca, shifted(cb, k, 1))),
            T::prod(
                T::prod(scale, T::diff(b.center[k], o[k])),
                overlap_value(a, b, ca, cb),
            ),
        ) == T::prod(
            T::prod(
                T::prod(scale, dipole_factor(a, b, o, k, 0, ca.0, cb.0)),
                dipole_factor(a, b, o, k, 1, ca.1, cb.1),
            ),
            dipole_factor(a, b, o, k, 2, ca.2, cb.2),
        ),
{
    let x = axis_of(a, b, k);
    let pr = product_of(a.exp, a.center, b.exp, b.center);
    let (i, j) = (power(ca, k), power(cb, k));
    let (s, t) = (axis_overlap(x, i, j), axis_overlap(x, i, j + 1));
    let d = T::diff(b.center[k], o[k]);
    let moment = axis_moment(x, T::diff(pr.p_center[k], o[k]), i, j);
    lemma_axis_moment(a, b, o, k, i, j);
    let s0 = axis_overlap(axis_of(a, b, 0), ca.0, cb.0);
    let s1 = axis_overlap(axis_of(a, b, 1), ca.1, cb.1);
    let s2 = axis_overlap(axis_of(a, b, 2), ca.2, cb.2);
    let (u, v) = if k == 0 {
        (s1, s2)
    } else if k == 1 {
        (s0, s2)
    } else {
        (s0, s1)
    };
    let m = T::prod(u, v);
    lemma_along_axis(t, u, v);
    lemma_along_axis(s, u, v);
    lemma_along_axis(moment, u, v);
    assert(overlap_value(a, b, ca, shifted(cb, k, 1)) == T::prod(m, t));
    assert(overlap_value(a, b, ca, cb) == T::prod(m, s));
    lemma_ring_factors(scale, d, T::prod(m, s));
    lemma_ring_factors(scale, T::prod(m, t), T::prod(d, T::prod(m, s)));
    lemma_ring_factors(m, d, s);
    lemma_ring_factors(m, t, T::prod(d, s));
    let (f0, f1, f2) = (
        dipole_factor(a, b, o, k, 0, ca.0, cb.0),
        dipole_factor(a, b, o, k, 1, ca.1, cb.1),
        dipole_factor(a, b, o, k, 2, ca.2, cb.2),
    );
    lemma_ring_factors(scale, f0, f1);
    lemma_ring_factors(scale, T::prod(f0, f1), f2);
    assert(T::prod(T::prod(f0, f1), f2) == T::prod(m, moment));
}

proof fn lemma_dipole_entry<T: Real>(
    start: T,
    o: Vec3<T>,
    a: Prim<T>,
    b: Prim<T>,
    scale: T,
    ca: Powers,
    cb: Powers,
    k: int,
)
    requires
        is_ring::<T>(),
        0 <= k < 3,
        0 <= power(ca, k) < u64::MAX,
        0 <= power(cb, k) < u64::MAX,
    ensures
        terms_value(start, dipole_terms::<T>(k), o, a, b, scale, false, ca, cb, 1) == T::sum(
            start,
            T::prod(
                T::prod(
                    T::prod(scale, dipole_factor(a, b, o, k, 0, ca.0, cb.0)),
                    dipole_factor(a, b, o, k, 1, ca.1, cb.1),
                ),
                dipole_factor(a, b, o, k, 2, ca.2, cb.2),
            ),
        ),
{
    let factors = seq![Factor::R(k as usize)];
    let terms = dipole_terms::<T>(k);
    let bo = difference(b.center, o);
    let one = T::count(1);
    reveal_with_fuel(terms_value, 2);
    reveal_with_fuel(momenta, 2);
    reveal_with_fuel(expansion, 2);
    reveal_with_fuel(applied, 2);
    reveal_with_fuel(overlaps_added, 3);
    assert(momenta(factors, 1) == 0);
    let up = shifted(cb, k, 1);
    let list = expansion(factors, b.exp, bo, cb, 0);
    assert(expansion(factors, b.exp, bo, cb, 1) == seq![(cb, one)]);
    assert(list =~= seq![(up, one), (cb, T::prod(one, bo[k]))]);
    let w = T::prod(T::prod(scale, one), one);
    lemma_ring_commute(scale, one);
    lemma_ring_sums(scale, scale, scale);
    assert(w == scale);
    lemma_ring_sums(bo[k], scale, scale);
    lemma_ket_overlap(a, b, ca, up);
    lemma_ket_overlap(a, b, ca, cb);
    let (x, y) = (
        T::prod(scale, overlap_value(a, b, ca, up)),
        T::prod(T::prod(scale, bo[k]), overlap_value(a, b, ca, cb)),
    );
    lemma_ring_sums(start, x, y);
    lemma_moment(a, b, o, k, ca, cb, scale);
}

/// The powers of a component of a shell.
pub proof fn lemma_component_powers(l: int, i: int)
    requires
        0 <= l <= MAX_L,
        0 <= i < cart_count(l),
    ensures
        ({
            let c = component_at(l, i);
            0 <= c.0 <= l && 0 <= c.1 <= l && 0 <= c.2 <= l
        }),
{
    crate::math::am::law_every_position_is_taken(l, i);
}

/// The matrix of the dipole operator is the dipole, in any commutative ring.
pub proof fn law_dipole_operator_is_the_dipole<T: Real>(
    o: Vec3<T>,
    shells: Seq<Shell<T>>,
    k: int,
    x: At,
    y: At,
)
    requires
        is_ring::<T>(),
        0 <= k < 3,
        0 <= x.0 < shells.len(),
        0 <= y.0 < shells.len(),
        shells[x.0].valid(),
        shells[y.0].valid(),
    ensures
        pair_entries(operator_step(dipole_terms::<T>(k), o, false), shells)(x, y) == pair_entries(
            dipole_step(o, k),
            shells,
        )(x, y),
{
    let s = operator_step(dipole_terms::<T>(k), o, false);
    let u = dipole_step(o, k);
    assert forall|old: Seq<T>, a: Prim<T>, b: Prim<T>, scale: T|
        a.l <= MAX_L && b.l <= MAX_L && old.len() == block_size(
            a.l as int,
            b.l as int,
        ) implies #[trigger] s(old, a, b, scale) == u(old, a, b, scale) && s(
        old,
        a,
        b,
        scale,
    ).len() == old.len() by {
        let (la, lb) = (a.l as int, b.l as int);
        let (left, right) = (s(old, a, b, scale), u(old, a, b, scale));
        let nb = cart_count(lb);
        lemma_block_bounds(la, lb);
        assert forall|e: int| 0 <= e < old.len() implies left[e] == right[e] by {
            lemma_index_parts(e, cart_count(la), nb);
            lemma_component_powers(la, e / nb);
            lemma_component_powers(lb, e % nb);
            lemma_dipole_entry(
                old[e],
                o,
                a,
                b,
                scale,
                component_at(la, e / nb),
                component_at(lb, e % nb),
                k,
            );
        }
        assert(left =~= right);
    }
    let (a, b) = (shells[x.0], shells[y.0]);
    lemma_same_contraction(s, u, a, b, a.exponents@.len() as int, 0);
}

/// The terms of the kinetic energy.
pub open spec fn kinetic_terms<T: Scalar>() -> Seq<TermView<T>> {
    Seq::new(
        3,
        |k: int| (fraction::<T>(1, 2), seq![Factor::P(k as usize), Factor::P(k as usize)]),
    )
}

/// Half of a doubled coefficient, with the sign of two momenta.
proof fn lemma_half_taken<T: Scalar>(c: T, beta: T)
    requires
        is_ring::<T>(),
        halves_exactly::<T>(),
    ensures
        T::prod(fraction::<T>(1, 2), T::prod(T::prod(c, T::count(2)), beta)) == T::prod(c, beta),
{
    let two = T::count(2);
    lemma_ring_commute(c, two);
    lemma_ring_factors(two, c, beta);
    lemma_half_of_double(T::prod(c, beta));
}

/// What the second momentum makes of the first, halved and with its sign: the
/// coefficients of the kinetic energy.
proof fn lemma_kinetic_coefficients<T: Scalar>(beta: T, j: int)
    requires
        is_ring::<T>(),
        counts_exactly::<T>(),
        halves_exactly::<T>(),
        0 <= j <= 0xffff,
    ensures
        ({
            let minus = T::neg(fraction::<T>(1, 2));
            let up = T::prod(T::prod(T::count(1), T::count(2)), beta);
            let down = T::prod(T::neg(T::count(1)), T::count(j as u64));
            &&& T::prod(minus, T::prod(T::prod(up, T::count(2)), beta)) == T::neg(
                T::prod(T::prod(T::count(2), beta), beta),
            )
            &&& T::prod(minus, T::prod(T::neg(up), T::count((j + 1) as u64))) == T::prod(
                beta,
                T::count((j + 1) as u64),
            )
            &&& T::prod(minus, T::prod(T::prod(down, T::count(2)), beta)) == T::prod(
                beta,
                T::count(j as u64),
            )
            &&& j >= 1 ==> T::prod(minus, T::prod(T::neg(down), T::count((j - 1) as u64)))
                == T::neg(T::prod(fraction::<T>(1, 2), T::count((j * (j - 1)) as u64)))
        }),
{
    let half = fraction::<T>(1, 2);
    let minus = T::neg(half);
    let (one, two) = (T::count(1), T::count(2));
    let up = T::prod(T::prod(one, two), beta);
    let cj = T::count(j as u64);
    let next = T::count((j + 1) as u64);
    let down = T::prod(T::neg(one), cj);
    lemma_ring_sums(two, two, two);
    assert(up == T::prod(two, beta));
    // Minus a half times a value is the negative of half the value.
    let c1 = T::prod(T::prod(up, two), beta);
    lemma_ring_commute(minus, c1);
    lemma_ring_negatives(c1, half);
    lemma_ring_commute(c1, half);
    lemma_half_taken(up, beta);
    let c2 = T::prod(T::neg(up), next);
    lemma_ring_commute(minus, c2);
    lemma_ring_negatives(c2, half);
    lemma_ring_commute(c2, half);
    lemma_ring_commute(T::neg(up), next);
    lemma_ring_negatives(next, up);
    assert(c2 == T::neg(T::prod(next, up)));
    lemma_ring_negatives(half, T::prod(next, up));
    lemma_ring_factors(two, next, beta);
    lemma_half_of_double(T::prod(next, beta));
    lemma_ring_commute(next, beta);
    lemma_ring_negatives(T::prod(beta, next), beta);
    assert(T::prod(half, c2) == T::neg(T::prod(beta, next)));
    lemma_ring_commute(T::neg(one), cj);
    lemma_ring_negatives(cj, one);
    lemma_ring_commute(cj, one);
    lemma_ring_sums(cj, cj, cj);
    assert(down == T::neg(cj));
    let c3 = T::prod(T::prod(down, two), beta);
    lemma_ring_commute(minus, c3);
    lemma_ring_negatives(c3, half);
    lemma_ring_commute(c3, half);
    lemma_half_taken(down, beta);
    lemma_ring_commute(down, beta);
    lemma_ring_negatives(beta, cj);
    lemma_ring_negatives(T::prod(beta, cj), beta);
    if j >= 1 {
        let before = T::count((j - 1) as u64);
        lemma_ring_negatives(cj, cj);
        let c4 = T::prod(T::neg(down), before);
        assert(j * (j - 1) <= 0xffff * 0xffff) by (nonlinear_arith)
            requires
                1 <= j <= 0xffff,
        ;
        lemma_count_product::<T>(j, j - 1);
        lemma_ring_commute(minus, c4);
        lemma_ring_negatives(c4, half);
        lemma_ring_commute(c4, half);
    }
}

/// The coefficients times the overlaps make the kinetic energy along one axis.
pub proof fn lemma_axis_kinetic<T: Scalar>(x: Axis<T>, beta: T, i: int, j: int)
    requires
        is_ring::<T>(),
        counts_exactly::<T>(),
        halves_exactly::<T>(),
        0 <= j <= 0xffff,
    ensures
        axis_kinetic(x, beta, i, j) == T::sum(
            T::sum(
                T::prod(
                    T::neg(T::prod(T::prod(T::count(2), beta), beta)),
                    axis_overlap(x, i, j + 2),
                ),
                T::prod(T::prod(beta, T::count((j + 1) as u64)), axis_overlap(x, i, j)),
            ),
            T::sum(
                T::prod(T::prod(beta, T::count(j as u64)), axis_overlap(x, i, j)),
                if j >= 2 {
                    T::prod(
                        T::neg(T::prod(fraction::<T>(1, 2), T::count((j * (j - 1)) as u64))),
                        axis_overlap(x, i, j - 2),
                    )
                } else {
                    T::count(0)
                },
            ),
        ),
{
    let (s, s2) = (axis_overlap(x, i, j), axis_overlap(x, i, j + 2));
    let (next, cj) = (T::count((j + 1) as u64), T::count(j as u64));
    let both = T::count((2 * j + 1) as u64);
    let square = T::prod(T::prod(T::count(2), beta), beta);
    let (a, b) = (T::prod(T::prod(beta, next), s), T::prod(T::prod(beta, cj), s));
    let up = T::prod(T::neg(square), s2);
    lemma_count_sum::<T>(j + 1, j);
    lemma_ring_factors(beta, next, cj);
    lemma_ring_commute(T::prod(beta, next), s);
    lemma_ring_commute(T::prod(beta, cj), s);
    lemma_ring_commute(T::prod(beta, both), s);
    lemma_ring_factors(s, T::prod(beta, next), T::prod(beta, cj));
    assert(T::prod(T::prod(beta, both), s) == T::sum(a, b));
    lemma_ring_commute(T::neg(square), s2);
    lemma_ring_negatives(s2, square);
    lemma_ring_commute(s2, square);
    let first = T::diff(T::sum(a, b), T::prod(square, s2));
    lemma_ring_negatives(T::sum(a, b), T::prod(square, s2));
    assert(first == T::sum(T::sum(a, b), up));
    lemma_ring_sums(a, b, up);
    lemma_ring_sums(up, a, b);
    lemma_ring_sums(T::sum(a, up), b, b);
    assert(first == T::sum(T::sum(up, a), b));
    if j >= 2 {
        let low = axis_overlap(x, i, j - 2);
        let c = T::prod(fraction::<T>(1, 2), T::count((j * (j - 1)) as u64));
        lemma_ring_commute(T::neg(c), low);
        lemma_ring_negatives(low, c);
        lemma_ring_commute(low, c);
        lemma_ring_negatives(first, T::prod(c, low));
        lemma_ring_sums(T::sum(up, a), b, T::prod(T::neg(c), low));
    } else {
        lemma_ring_negatives(first, T::count(0));
        lemma_ring_sums(first, first, first);
        lemma_ring_sums(T::sum(up, a), b, T::count(0));
    }
}

/// The overlap with a Gaussian whose power along one axis is another.
pub proof fn lemma_value_along<T: Real>(
    a: Prim<T>,
    b: Prim<T>,
    ca: Powers,
    cb: Powers,
    k: int,
    n: int,
)
    requires
        is_ring::<T>(),
        0 <= k < 3,
    ensures
        ket_overlap(a, b, ca, shifted(cb, k, n)) == T::prod(
            beside(a, b, ca, cb, k),
            axis_overlap(axis_of(a, b, k), power(ca, k), power(cb, k) + n),
        ),
{
    let t = axis_overlap(axis_of(a, b, k), power(ca, k), power(cb, k) + n);
    let s0 = axis_overlap(axis_of(a, b, 0), ca.0, cb.0);
    let s1 = axis_overlap(axis_of(a, b, 1), ca.1, cb.1);
    let s2 = axis_overlap(axis_of(a, b, 2), ca.2, cb.2);
    lemma_ket_overlap(a, b, ca, shifted(cb, k, n));
    if k == 0 {
        lemma_along_axis(t, s1, s2);
    } else if k == 1 {
        lemma_along_axis(t, s0, s2);
    }
}

/// A scaled coefficient times a scaled overlap.
proof fn lemma_term_scaled<T: Scalar>(w: T, scale: T, minus: T, c: T, d: T, m: T, s: T)
    requires
        is_ring::<T>(),
        w == T::prod(scale, minus),
        T::prod(minus, c) == d,
    ensures
        T::prod(T::prod(w, c), T::prod(m, s)) == T::prod(scale, T::prod(m, T::prod(d, s))),
{
    lemma_ring_factors(scale, minus, c);
    lemma_ring_factors(scale, d, T::prod(m, s));
    lemma_ring_factors(m, d, s);
}

/// Four scaled summands.
proof fn lemma_four_scaled<T: Scalar>(start: T, scale: T, m: T, p: T, q: T, r: T, t: T)
    requires
        is_ring::<T>(),
    ensures
        ({
            let f = |v: T| T::prod(scale, T::prod(m, v));
            T::sum(T::sum(T::sum(T::sum(start, f(p)), f(q)), f(r)), f(t)) == T::sum(
                start,
                f(T::sum(T::sum(p, q), T::sum(r, t))),
            )
        }),
{
    let f = |v: T| T::prod(scale, T::prod(m, v));
    lemma_ring_factors(m, p, q);
    lemma_ring_factors(scale, T::prod(m, p), T::prod(m, q));
    lemma_ring_factors(m, r, t);
    lemma_ring_factors(scale, T::prod(m, r), T::prod(m, t));
    lemma_ring_factors(m, T::sum(p, q), T::sum(r, t));
    lemma_ring_factors(scale, T::prod(m, T::sum(p, q)), T::prod(m, T::sum(r, t)));
    let (u, v) = (f(T::sum(p, q)), f(T::sum(r, t)));
    lemma_ring_sums(start, f(p), f(q));
    lemma_ring_sums(T::sum(start, u), f(r), f(t));
    lemma_ring_sums(start, u, v);
}

/// One axis of the kinetic energy.
proof fn lemma_kinetic_term<T: Real>(
    start: T,
    o: Vec3<T>,
    a: Prim<T>,
    b: Prim<T>,
    scale: T,
    ca: Powers,
    cb: Powers,
    k: int,
)
    requires
        is_ring::<T>(),
        counts_exactly::<T>(),
        halves_exactly::<T>(),
        0 <= k < 3,
        0 <= power(cb, k) <= 0xffff,
    ensures
        term_value(start, kinetic_terms::<T>()[k], o, a, b, scale, false, ca, cb) == T::sum(
            start,
            T::prod(
                scale,
                T::prod(
                    beside(a, b, ca, cb, k),
                    axis_kinetic(axis_of(a, b, k), b.exp, power(ca, k), power(cb, k)),
                ),
            ),
        ),
{
    let f = Factor::P(k as usize);
    let factors = seq![f, f];
    let (beta, bo) = (b.exp, difference(b.center, o));
    let (one, two, half) = (T::count(1), T::count(2), fraction::<T>(1, 2));
    let (i, j) = (power(ca, k), power(cb, k));
    let x = axis_of(a, b, k);
    let m = beside(a, b, ca, cb, k);
    reveal_with_fuel(momenta, 3);
    assert(momenta(factors, 2) == 2);
    let up = T::prod(T::prod(one, two), beta);
    let down = T::prod(T::neg(one), T::count(j as u64));
    let (cu, cd) = (shifted(cb, k, 1), shifted(cb, k, -1));
    reveal_with_fuel(applied, 3);
    let src = expansion(factors, beta, bo, cb, 2);
    assert(src == seq![(cb, one)]);
    let first = expansion(factors, beta, bo, cb, 1);
    assert(first == applied(f, beta, bo, src, 1));
    let list = expansion(factors, beta, bo, cb, 0);
    assert(list == applied(f, beta, bo, first, first.len() as int));
    let c1 = T::prod(T::prod(up, two), beta);
    let c2 = T::prod(T::neg(up), T::count((j + 1) as u64));
    let c3 = T::prod(T::prod(down, two), beta);
    let c4 = T::prod(T::neg(down), T::count((j - 1) as u64));
    let w = T::prod(T::prod(scale, T::neg(one)), half);
    let minus = T::neg(half);
    lemma_ring_factors(scale, T::neg(one), half);
    lemma_ring_commute(T::neg(one), half);
    lemma_ring_negatives(half, one);
    lemma_ring_commute(half, one);
    lemma_ring_sums(half, half, half);
    assert(w == T::prod(scale, minus));
    lemma_kinetic_coefficients(beta, j);
    lemma_axis_kinetic(x, beta, i, j);
    lemma_value_along(a, b, ca, cb, k, 2);
    lemma_value_along(a, b, ca, cb, k, 0);
    lemma_value_along(a, b, ca, cb, k, -2);
    assert(shifted(cu, k, 1) == shifted(cb, k, 2) && shifted(cu, k, -1) == shifted(cb, k, 0)
        && shifted(cd, k, 1) == shifted(cb, k, 0) && shifted(cd, k, -1) == shifted(cb, k, -2));
    let (s2, s, low) = (
        axis_overlap(x, i, j + 2),
        axis_overlap(x, i, j),
        axis_overlap(x, i, j - 2),
    );
    let d1 = T::neg(T::prod(T::prod(two, beta), beta));
    let d2 = T::prod(beta, T::count((j + 1) as u64));
    let d3 = T::prod(beta, T::count(j as u64));
    let d4 = T::neg(T::prod(half, T::count((j * (j - 1)) as u64)));
    lemma_term_scaled(w, scale, minus, c1, d1, m, s2);
    lemma_term_scaled(w, scale, minus, c2, d2, m, s);
    let zero = T::count(0);
    lemma_ring_sums(scale, scale, scale);
    lemma_ring_sums(m, m, m);
    reveal_with_fuel(overlaps_added, 5);
    if j == 0 {
        assert(first =~= seq![(cu, up)]);
        assert(list =~= seq![(shifted(cu, k, 1), c1), (shifted(cu, k, -1), c2)]);
        lemma_four_scaled(start, scale, m, T::prod(d1, s2), T::prod(d2, s), zero, zero);
        lemma_ring_sums(beta, beta, beta);
        lemma_no_count(s);
        let sum = overlaps_added(start, w, a, b, ca, list, 2);
        lemma_ring_sums(sum, sum, sum);
    } else {
        assert(first =~= seq![(cu, up), (cd, down)]);
        lemma_term_scaled(w, scale, minus, c3, d3, m, s);
        if j == 1 {
            assert(list =~= seq![
                (shifted(cu, k, 1), c1),
                (shifted(cu, k, -1), c2),
                (shifted(cd, k, 1), c3),
            ]);
            lemma_four_scaled(
                start,
                scale,
                m,
                T::prod(d1, s2),
                T::prod(d2, s),
                T::prod(d3, s),
                zero,
            );
            let sum = overlaps_added(start, w, a, b, ca, list, 3);
            lemma_ring_sums(sum, sum, sum);
        } else {
            assert(list =~= seq![
                (shifted(cu, k, 1), c1),
                (shifted(cu, k, -1), c2),
                (shifted(cd, k, 1), c3),
                (shifted(cd, k, -1), c4),
            ]);
            lemma_term_scaled(w, scale, minus, c4, d4, m, low);
            lemma_four_scaled(
                start,
                scale,
                m,
                T::prod(d1, s2),
                T::prod(d2, s),
                T::prod(d3, s),
                T::prod(d4, low),
            );
        }
    }
}

proof fn lemma_kinetic_entry<T: Real>(
    start: T,
    o: Vec3<T>,
    a: Prim<T>,
    b: Prim<T>,
    scale: T,
    ca: Powers,
    cb: Powers,
)
    requires
        is_ring::<T>(),
        counts_exactly::<T>(),
        halves_exactly::<T>(),
        0 <= cb.0 <= 0xffff,
        0 <= cb.1 <= 0xffff,
        0 <= cb.2 <= 0xffff,
    ensures
        terms_value(start, kinetic_terms::<T>(), o, a, b, scale, false, ca, cb, 3) == T::sum(
            start,
            T::prod(scale, kinetic_value(a, b, ca, cb)),
        ),
{
    let terms = kinetic_terms::<T>();
    let t = |k: int|
        T::prod(
            beside(a, b, ca, cb, k),
            axis_kinetic(axis_of(a, b, k), b.exp, power(ca, k), power(cb, k)),
        );
    let v0 = terms_value(start, terms, o, a, b, scale, false, ca, cb, 0);
    let v1 = terms_value(start, terms, o, a, b, scale, false, ca, cb, 1);
    let v2 = terms_value(start, terms, o, a, b, scale, false, ca, cb, 2);
    reveal_with_fuel(terms_value, 4);
    lemma_kinetic_term(v0, o, a, b, scale, ca, cb, 0);
    lemma_kinetic_term(v1, o, a, b, scale, ca, cb, 1);
    lemma_kinetic_term(v2, o, a, b, scale, ca, cb, 2);
    let s0 = axis_overlap(axis_of(a, b, 0), ca.0, cb.0);
    let s1 = axis_overlap(axis_of(a, b, 1), ca.1, cb.1);
    let s2 = axis_overlap(axis_of(a, b, 2), ca.2, cb.2);
    lemma_along_axis(axis_kinetic(axis_of(a, b, 0), b.exp, ca.0, cb.0), s1, s2);
    lemma_along_axis(axis_kinetic(axis_of(a, b, 1), b.exp, ca.1, cb.1), s0, s2);
    assert(kinetic_value(a, b, ca, cb) == T::sum(T::sum(t(0), t(1)), t(2)));
    lemma_ring_factors(scale, t(0), t(1));
    lemma_ring_factors(scale, T::sum(t(0), t(1)), t(2));
    lemma_ring_sums(start, T::prod(scale, t(0)), T::prod(scale, t(1)));
    lemma_ring_sums(start, T::prod(scale, T::sum(t(0), t(1))), T::prod(scale, t(2)));
}

/// What half the square of the momentum adds to a block is the kinetic energy, in any
/// commutative ring in which counts are exact and two can be halved.
pub proof fn law_squared_momentum_adds_kinetic_energies<T: Real>(
    old: Seq<T>,
    o: Vec3<T>,
    a: Prim<T>,
    b: Prim<T>,
    scale: T,
)
    requires
        is_ring::<T>(),
        counts_exactly::<T>(),
        halves_exactly::<T>(),
        a.l <= MAX_L,
        b.l <= MAX_L,
        old.len() == block_size(a.l as int, b.l as int),
    ensures
        operated(old, kinetic_terms::<T>(), o, a, b, scale, false, 3) == added(
            old,
            block_size(a.l as int, b.l as int),
            kinetic_entries(a, b, scale),
        ),
{
    let (la, lb) = (a.l as int, b.l as int);
    let left = operated(old, kinetic_terms::<T>(), o, a, b, scale, false, 3);
    let right = added(old, block_size(la, lb), kinetic_entries(a, b, scale));
    let nb = cart_count(lb);
    lemma_block_bounds(la, lb);
    assert forall|e: int| 0 <= e < old.len() implies left[e] == right[e] by {
        lemma_index_parts(e, cart_count(la), nb);
        lemma_component_powers(la, e / nb);
        lemma_component_powers(lb, e % nb);
        lemma_kinetic_entry(
            old[e],
            o,
            a,
            b,
            scale,
            component_at(la, e / nb),
            component_at(lb, e % nb),
        );
    }
    assert(left =~= right);
}

/// The matrix of half the square of the momentum is the kinetic energy, in any
/// commutative ring in which counts are exact and two can be halved.
pub proof fn law_squared_momentum_is_the_kinetic_energy<T: Real>(
    o: Vec3<T>,
    shells: Seq<Shell<T>>,
    x: At,
    y: At,
)
    requires
        is_ring::<T>(),
        counts_exactly::<T>(),
        halves_exactly::<T>(),
        0 <= x.0 < shells.len(),
        0 <= y.0 < shells.len(),
        shells[x.0].valid(),
        shells[y.0].valid(),
    ensures
        pair_entries(operator_step(kinetic_terms::<T>(), o, false), shells)(x, y) == pair_entries(
            kinetic_step(),
            shells,
        )(x, y),
{
    let s = operator_step(kinetic_terms::<T>(), o, false);
    let u = kinetic_step::<T>();
    assert forall|old: Seq<T>, a: Prim<T>, b: Prim<T>, scale: T|
        a.l <= MAX_L && b.l <= MAX_L && old.len() == block_size(
            a.l as int,
            b.l as int,
        ) implies #[trigger] s(old, a, b, scale) == u(old, a, b, scale) && s(
        old,
        a,
        b,
        scale,
    ).len() == old.len() by {
        law_squared_momentum_adds_kinetic_energies(old, o, a, b, scale);
    }
    let (a, b) = (shells[x.0], shells[y.0]);
    lemma_same_contraction(s, u, a, b, a.exponents@.len() as int, 0);
}

} // verus!
