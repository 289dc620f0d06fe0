//! Antisymmetry of the momentum and of the angular momentum.
//!
//! Their matrices are imaginary: the real parts vanish, and without rounding the imaginary
//! parts change their sign with the order of the functions.
use vstd::prelude::*;

use crate::engine::invariance::{has_product, lemma_axis_exchanged, lemma_exchanged, lemma_no_count};
use crate::engine::kinetic_invariance::beside;
use crate::engine::operator::{
    applied, crossed, expansion, ket_overlap, law_axes_are_cyclic, momenta, others,
    overlaps_added, term_value, terms_value, Factor, TermView,
};
use crate::engine::os::{
    axis_moment, axis_of, axis_overlap, block_size, lemma_block_bounds, overlap_value,
    product_of, Prim,
};
use crate::engine::os_eri::MAX_L;
use crate::engine::pairs::{difference, Vec3};
use crate::engine::triples::{power, shifted};
use crate::exact::{
    counts_exactly, is_ring, lemma_negative_factor, lemma_ring_commute, lemma_ring_factors,
    lemma_ring_negatives, lemma_ring_sums,
};
use crate::flat::lemma_index_parts;
use crate::grad::invariance::have_products;
use crate::math::am::{cart_count, component_at, is_component, Powers};
use crate::one_electron::pair_entries;
use crate::operator::operator_step;
use crate::operator_laws::{
    lemma_axis_moment, lemma_component_powers, lemma_ket_overlap, lemma_same_contraction,
    lemma_value_along,
};
use crate::operator_symmetry::{lemma_moment_exchanged, lemma_slope, slope_second};
use crate::pair_values::{value_step, PairValue};
use crate::scalar::{Real, Scalar};
use crate::shell::{function_counts, Shell};
use crate::tensor::{is_function, At};
use crate::transposition::lemma_entries_transposed;

verus! {

/// The terms of the momentum along an axis.
pub open spec fn momentum_terms<T: Scalar>(axis: int) -> Seq<TermView<T>> {
    seq![(T::count(1), seq![Factor::P(axis as usize)])]
}

/// The derivative of the overlap along an axis with respect to the ket.
spec fn momentum_of<T: Real>(k: int) -> PairValue<T> {
    |a: Prim<T>, b: Prim<T>, ca: Powers, cb: Powers|
        T::prod(
            beside(a, b, ca, cb, k),
            slope_second(
                axis_of(a, b, k),
                T::prod(T::count(2), b.exp),
                power(ca, k),
                power(cb, k),
            ),
        )
}

/// A weighted product.
proof fn lemma_weighted<T: Scalar>(w: T, c: T, m: T, s: T)
    requires
        is_ring::<T>(),
    ensures
        T::prod(T::prod(w, c), T::prod(m, s)) == T::prod(w, T::prod(m, T::prod(c, s))),
{
    lemma_ring_factors(w, c, T::prod(m, s));
    lemma_ring_factors(m, c, s);
}

/// Two weighted summands.
proof fn lemma_two_weighted<T: Scalar>(start: T, w: T, m: T, p: T, q: T)
    requires
        is_ring::<T>(),
    ensures
        T::sum(
            T::sum(start, T::prod(w, T::prod(m, p))),
            T::prod(w, T::prod(m, T::neg(q))),
        ) == T::sum(start, T::prod(w, T::prod(m, T::diff(p, q)))),
{
    lemma_ring_negatives(p, q);
    lemma_ring_factors(m, p, T::neg(q));
    lemma_ring_factors(w, T::prod(m, p), T::prod(m, T::neg(q)));
    lemma_ring_sums(start, T::prod(w, T::prod(m, p)), T::prod(w, T::prod(m, T::neg(q))));
}

/// What one momentum makes of a Gaussian: the coefficients of its list.
proof fn lemma_momentum_coefficients<T: Scalar>(beta: T, c: T)
    requires
        is_ring::<T>(),
    ensures
        T::prod(T::prod(T::count(1), T::count(2)), beta) == T::prod(T::count(2), beta),
        T::prod(T::neg(T::count(1)), c) == T::neg(c),
{
    let two = T::count(2);
    lemma_ring_sums(two, two, two);
    lemma_negative_factor(T::count(1), c);
    lemma_ring_sums(c, c, c);
}

proof fn lemma_momentum_entry<T: Real>(
    start: T,
    o: Vec3<T>,
    a: Prim<T>,
    b: Prim<T>,
    scale: T,
    ca: Powers,
    cb: Powers,
    k: int,
)
    requires
        is_ring::<T>(),
        0 <= k < 3,
        0 <= power(cb, k),
    ensures
        terms_value(start, momentum_terms::<T>(k), o, a, b, scale, true, ca, cb, 1) == T::sum(
            start,
            T::prod(scale, momentum_of(k)(a, b, ca, cb)),
        ),
{
    let factors = seq![Factor::P(k as usize)];
    let (beta, bo) = (b.exp, difference(b.center, o));
    let one = T::count(1);
    let (i, j) = (power(ca, k), power(cb, k));
    let x = axis_of(a, b, k);
    let m = beside(a, b, ca, cb, k);
    let cj = T::count(j as u64);
    reveal_with_fuel(terms_value, 2);
    reveal_with_fuel(momenta, 2);
    reveal_with_fuel(applied, 2);
    reveal_with_fuel(overlaps_added, 3);
    assert(momenta(factors, 1) == 1);
    let list = expansion(factors, beta, bo, cb, 0);
    assert(expansion(factors, beta, bo, cb, 1) == seq![(cb, one)]);
    let up = T::prod(T::prod(one, T::count(2)), beta);
    let down = T::prod(T::neg(one), cj);
    let b2 = T::prod(T::count(2), beta);
    lemma_momentum_coefficients(beta, cj);
    lemma_ring_commute(scale, one);
    lemma_ring_sums(scale, scale, scale);
    lemma_value_along(a, b, ca, cb, k, 1);
    lemma_value_along(a, b, ca, cb, k, -1);
    let (su, sl) = (axis_overlap(x, i, j + 1), axis_overlap(x, i, j - 1));
    lemma_weighted(scale, b2, m, su);
    lemma_weighted(scale, T::neg(cj), m, sl);
    lemma_negative_factor(cj, sl);
    lemma_two_weighted(start, scale, m, T::prod(b2, su), T::prod(cj, sl));
    if j >= 1 {
        assert(list =~= seq![(shifted(cb, k, 1), up), (shifted(cb, k, -1), down)]);
    } else {
        assert(list =~= seq![(shifted(cb, k, 1), up)]);
        lemma_no_count(sl);
        lemma_ring_negatives(m, T::count(0));
        lemma_ring_sums(m, m, m);
        lemma_ring_sums(scale, scale, scale);
        let sum = T::sum(start, T::prod(scale, T::prod(m, T::prod(b2, su))));
        lemma_ring_sums(sum, sum, sum);
    }
}

/// Minus one times a value.
proof fn lemma_minus_one<T: Scalar>(v: T)
    requires
        is_ring::<T>(),
    ensures
        T::prod(T::neg(T::count(1)), v) == T::neg(v),
{
    lemma_negative_factor(T::count(1), v);
    lemma_ring_sums(v, v, v);
}

/// The derivative along an axis in the other order.
proof fn lemma_slope_exchanged<T: Real>(a: Prim<T>, b: Prim<T>, k: int, i: int, j: int)
    requires
        is_ring::<T>(),
        counts_exactly::<T>(),
        has_product(a.exp, b.exp),
        0 <= k < 3,
        0 <= i <= MAX_L,
        0 <= j <= MAX_L,
    ensures
        slope_second(axis_of(a, b, k), T::prod(T::count(2), b.exp), i, j) == T::neg(
            slope_second(axis_of(b, a, k), T::prod(T::count(2), a.exp), j, i),
        ),
{
    let x = axis_of(a, b, k);
    let y = axis_of(b, a, k);
    lemma_axis_exchanged(a, b, k);
    lemma_slope(a, b, k, i, j);
    lemma_exchanged(x, i + 1, j);
    if i >= 1 {
        lemma_exchanged(x, i - 1, j);
    } else {
        lemma_no_count(axis_overlap(x, i - 1, j));
        lemma_no_count(axis_overlap(y, j, i - 1));
    }
    let u = T::prod(T::prod(T::count(2), a.exp), axis_overlap(x, i + 1, j));
    let v = T::prod(T::count(i as u64), axis_overlap(x, i - 1, j));
    lemma_ring_negatives(u, v);
    lemma_ring_negatives(v, u);
    lemma_ring_negatives(u, T::neg(v));
    lemma_ring_negatives(v, v);
    lemma_ring_sums(T::neg(u), v, v);
}

/// The overlaps along an axis in the other order.
proof fn lemma_overlap_exchanged<T: Real>(a: Prim<T>, b: Prim<T>, k: int, i: int, j: int)
    requires
        is_ring::<T>(),
        counts_exactly::<T>(),
        0 <= k < 3,
        0 <= i <= MAX_L,
        0 <= j <= MAX_L,
    ensures
        axis_overlap(axis_of(a, b, k), i, j) == axis_overlap(axis_of(b, a, k), j, i),
{
    lemma_axis_exchanged(a, b, k);
    lemma_exchanged(axis_of(a, b, k), i, j);
}

/// Operators whose terms add integrals have the matrix of these integrals.
pub proof fn lemma_operator_adds<T: Real>(
    terms: Seq<TermView<T>>,
    o: Vec3<T>,
    imag: bool,
    value: PairValue<T>,
    shells: Seq<Shell<T>>,
    x: At,
    y: At,
)
    requires
        0 <= x.0 < shells.len(),
        0 <= y.0 < shells.len(),
        shells[x.0].valid(),
        shells[y.0].valid(),
        forall|start: T, a: Prim<T>, b: Prim<T>, scale: T, ca: Powers, cb: Powers|
            0 <= ca.0 <= MAX_L && 0 <= ca.1 <= MAX_L && 0 <= ca.2 <= MAX_L && 0 <= cb.0 <= MAX_L
                && 0 <= cb.1 <= MAX_L && 0 <= cb.2 <= MAX_L ==> #[trigger] terms_value(
                start,
                terms,
                o,
                a,
                b,
                scale,
                imag,
                ca,
                cb,
                terms.len() as int,
            ) == T::sum(start, T::prod(scale, value(a, b, ca, cb))),
    ensures
        pair_entries(operator_step(terms, o, imag), shells)(x, y) == pair_entries(
            value_step(value),
            shells,
        )(x, y),
{
    let s = operator_step(terms, o, imag);
    let u = value_step(value);
    assert forall|old: Seq<T>, a: Prim<T>, b: Prim<T>, scale: T|
        a.l <= MAX_L && b.l <= MAX_L && old.len() == block_size(
            a.l as int,
            b.l as int,
        ) implies #[trigger] s(old, a, b, scale) == u(old, a, b, scale) && s(
        old,
        a,
        b,
        scale,
    ).len() == old.len() by {
        let (la, lb) = (a.l as int, b.l as int);
        let (left, right) = (s(old, a, b, scale), u(old, a, b, scale));
        let nb = cart_count(lb);
        lemma_block_bounds(la, lb);
        assert forall|e: int| 0 <= e < old.len() implies left[e] == right[e] by {
            lemma_index_parts(e, cart_count(la), nb);
            lemma_component_powers(la, e / nb);
            lemma_component_powers(lb, e % nb);
            let (ca, cb) = (component_at(la, e / nb), component_at(lb, e % nb));
            assert(terms_value(old[e], terms, o, a, b, scale, imag, ca, cb, terms.len() as int)
                == T::sum(old[e], T::prod(scale, value(a, b, ca, cb))));
        }
        assert(left =~= right);
    }
    let (a, b) = (shells[x.0], shells[y.0]);
    lemma_same_contraction(s, u, a, b, a.exponents@.len() as int, 0);
}

/// The matrix of the momentum is antisymmetric, in any commutative ring in which counts
/// add up and the sums of exponents can be divided by.
pub proof fn law_momentum_is_antisymmetric<T: Real>(
    o: Vec3<T>,
    k: int,
    shells: Seq<Shell<T>>,
    x: At,
    y: At,
)
    requires
        is_ring::<T>(),
        counts_exactly::<T>(),
        0 <= k < 3,
        is_function(function_counts(shells), x),
        is_function(function_counts(shells), y),
        shells[x.0].valid(),
        shells[y.0].valid(),
        have_products(shells[x.0], shells[y.0]),
    ensures
        pair_entries(operator_step(momentum_terms::<T>(k), o, true), shells)(x, y) == T::neg(
            pair_entries(operator_step(momentum_terms::<T>(k), o, true), shells)(y, x),
        ),
{
    let (a, b) = (shells[x.0], shells[y.0]);
    let value = momentum_of(k);
    let minus = T::neg(T::count(1));
    let terms = momentum_terms::<T>(k);
    assert forall|start: T, a: Prim<T>, b: Prim<T>, scale: T, ca: Powers, cb: Powers|
        0 <= ca.0 <= MAX_L && 0 <= ca.1 <= MAX_L && 0 <= ca.2 <= MAX_L && 0 <= cb.0 <= MAX_L && 0
            <= cb.1 <= MAX_L && 0 <= cb.2 <= MAX_L implies #[trigger] terms_value(
        start,
        terms,
        o,
        a,
        b,
        scale,
        true,
        ca,
        cb,
        terms.len() as int,
    ) == T::sum(start, T::prod(scale, value(a, b, ca, cb))) by {
        lemma_momentum_entry(start, o, a, b, scale, ca, cb, k);
    }
    lemma_operator_adds(terms, o, true, value, shells, x, y);
    lemma_operator_adds(terms, o, true, value, shells, y, x);
    assert forall|i: int, j: int, ca: Powers, cb: Powers|
        0 <= i < a.exponents@.len() && 0 <= j < b.exponents@.len() && is_component(
            ca,
            a.l as int,
        ) && is_component(cb, b.l as int) implies #[trigger] value(
        a.primitive(i),
        b.primitive(j),
        ca,
        cb,
    ) == T::prod(minus, value(b.primitive(j), a.primitive(i), cb, ca)) by {
        let (pa, pb) = (a.primitive(i), b.primitive(j));
        assert(has_product(a.exponents@[i], b.exponents@[j]));
        lemma_overlap_exchanged(pa, pb, 0, ca.0, cb.0);
        lemma_overlap_exchanged(pa, pb, 1, ca.1, cb.1);
        lemma_overlap_exchanged(pa, pb, 2, ca.2, cb.2);
        lemma_slope_exchanged(pa, pb, k, power(ca, k), power(cb, k));
        let m = beside(pb, pa, cb, ca, k);
        let d = slope_second(
            axis_of(pb, pa, k),
            T::prod(T::count(2), pa.exp),
            power(cb, k),
            power(ca, k),
        );
        lemma_ring_negatives(m, d);
        lemma_minus_one(T::prod(m, d));
    }
    lemma_entries_transposed(value_step(value), value, minus, shells, x, y);
    lemma_minus_one(pair_entries(value_step(value), shells)(y, x));
}

/// The terms of the angular momentum along an axis.
pub open spec fn angular_terms<T: Scalar>(axis: int) -> Seq<TermView<T>> {
    let (p, q) = others(axis as usize);
    seq![
        (T::count(1), seq![Factor::R(p), Factor::P(q)]),
        (T::neg(T::count(1)), seq![Factor::R(q), Factor::P(p)]),
    ]
}

/// The angular momentum is the cross product of position and momentum.
pub proof fn law_angular_momentum_is_a_cross_product<T: Scalar>(axis: int)
    requires
        0 <= axis < 3,
    ensures
        angular_terms::<T>(axis) == crossed::<T>(axis),
{
    law_axes_are_cyclic(axis);
}

/// The first moment along an axis.
spec fn moment_along<T: Real>(a: Prim<T>, b: Prim<T>, o: Vec3<T>, k: int, i: int, j: int) -> T {
    let pr = product_of(a.exp, a.center, b.exp, b.center);
    axis_moment(axis_of(a, b, k), T::diff(pr.p_center[k], o[k]), i, j)
}

/// The position along axis `p` times the derivative along axis `q`; `l` is the third axis.
spec fn turn<T: Real>(
    o: Vec3<T>,
    l: int,
    p: int,
    q: int,
    a: Prim<T>,
    b: Prim<T>,
    ca: Powers,
    cb: Powers,
) -> T {
    T::prod(
        T::prod(
            axis_overlap(axis_of(a, b, l), power(ca, l), power(cb, l)),
            moment_along(a, b, o, p, power(ca, p), power(cb, p)),
        ),
        slope_second(
            axis_of(a, b, q),
            T::prod(T::count(2), b.exp),
            power(ca, q),
            power(cb, q),
        ),
    )
}

/// The angular momentum of two primitives along an axis.
spec fn angular_of<T: Real>(o: Vec3<T>, k: int) -> PairValue<T> {
    |a: Prim<T>, b: Prim<T>, ca: Powers, cb: Powers|
        {
            let (p, q) = others(k as usize);
            T::diff(
                turn(o, k, p as int, q as int, a, b, ca, cb),
                turn(o, k, q as int, p as int, a, b, ca, cb),
            )
        }
}

/// Whether three numbers are the three axes.
spec fn are_axes(l: int, p: int, q: int) -> bool {
    0 <= l < 3 && 0 <= p < 3 && 0 <= q < 3 && l != p && l != q && p != q
}

/// Three factors in any order.
proof fn lemma_permuted<T: Scalar>(u: T, v: T, w: T)
    requires
        is_ring::<T>(),
    ensures
        T::prod(T::prod(u, v), w) == T::prod(T::prod(v, u), w),
        T::prod(T::prod(u, v), w) == T::prod(T::prod(u, w), v),
        T::prod(T::prod(u, v), w) == T::prod(T::prod(w, u), v),
        T::prod(T::prod(u, v), w) == T::prod(T::prod(v, w), u),
        T::prod(T::prod(u, v), w) == T::prod(T::prod(w, v), u),
{
    lemma_ring_commute(u, v);
    lemma_ring_commute(u, w);
    lemma_ring_commute(v, w);
    lemma_ring_factors(u, v, w);
    lemma_ring_factors(u, w, v);
    lemma_ring_commute(u, T::prod(v, w));
}

/// The overlap with a Gaussian shifted along two axes.
proof fn lemma_shifted_overlap<T: Real>(
    a: Prim<T>,
    b: Prim<T>,
    ca: Powers,
    cb: Powers,
    l: int,
    p: int,
    q: int,
    dp: int,
    dq: int,
)
    requires
        is_ring::<T>(),
        are_axes(l, p, q),
    ensures
        ket_overlap(a, b, ca, shifted(shifted(cb, q, dq), p, dp)) == T::prod(
            T::prod(
                axis_overlap(axis_of(a, b, l), power(ca, l), power(cb, l)),
                axis_overlap(axis_of(a, b, p), power(ca, p), power(cb, p) + dp),
            ),
            axis_overlap(axis_of(a, b, q), power(ca, q), power(cb, q) + dq),
        ),
{
    let m = shifted(shifted(cb, q, dq), p, dp);
    lemma_ket_overlap(a, b, ca, m);
    let s = |k: int| axis_overlap(axis_of(a, b, k), power(ca, k), power(m, k));
    assert(overlap_value(a, b, ca, m) == T::prod(T::prod(s(0), s(1)), s(2)));
    lemma_permuted(s(0), s(1), s(2));
    assert(power(m, l) == power(cb, l) && power(m, p) == power(cb, p) + dp && power(m, q) == power(
        cb,
        q,
    ) + dq);
    assert(T::prod(T::prod(s(0), s(1)), s(2)) == T::prod(T::prod(s(l), s(p)), s(q)));
}

/// A raised and a shifted overlap, weighted.
proof fn lemma_position_pair<T: Scalar>(w: T, e: T, d: T, sl: T, sp: T, up: T, sq: T)
    requires
        is_ring::<T>(),
    ensures
        T::sum(
            T::prod(T::prod(w, e), T::prod(T::prod(sl, up), sq)),
            T::prod(T::prod(w, T::prod(e, d)), T::prod(T::prod(sl, sp), sq)),
        ) == T::prod(w, T::prod(T::prod(sl, T::sum(up, T::prod(d, sp))), T::prod(e, sq))),
{
    let (x, y) = (T::prod(sl, up), T::prod(sl, sp));
    let dy = T::prod(sl, T::prod(d, sp));
    lemma_weighted(w, e, x, sq);
    lemma_weighted(w, T::prod(e, d), y, sq);
    // y * ((e * d) * sq) is (sl * (d * sp)) * (e * sq).
    lemma_ring_commute(e, d);
    lemma_ring_factors(d, e, sq);
    lemma_ring_factors(d, y, T::prod(e, sq));
    lemma_ring_factors(sl, d, sp);
    lemma_ring_factors(d, sl, sp);
    assert(T::prod(d, y) == dy);
    assert(T::prod(y, T::prod(T::prod(e, d), sq)) == T::prod(dy, T::prod(e, sq)));
    let es = T::prod(e, sq);
    lemma_ring_factors(sl, up, T::prod(d, sp));
    lemma_ring_commute(x, es);
    lemma_ring_commute(dy, es);
    lemma_ring_commute(T::sum(x, dy), es);
    lemma_ring_factors(es, x, dy);
    lemma_ring_factors(w, T::prod(x, es), T::prod(dy, es));
}

/// What a position times a momentum makes of an entry.
proof fn lemma_turn_entry<T: Real>(
    start: T,
    c: T,
    o: Vec3<T>,
    a: Prim<T>,
    b: Prim<T>,
    scale: T,
    ca: Powers,
    cb: Powers,
    l: int,
    p: int,
    q: int,
)
    requires
        is_ring::<T>(),
        are_axes(l, p, q),
        0 <= power(ca, p) < u64::MAX,
        0 <= power(cb, p) < u64::MAX,
        0 <= power(cb, q),
    ensures
        term_value(
            start,
            (c, seq![Factor::R(p as usize), Factor::P(q as usize)]),
            o,
            a,
            b,
            scale,
            true,
            ca,
            cb,
        ) == T::sum(start, T::prod(T::prod(scale, c), turn(o, l, p, q, a, b, ca, cb))),
{
    let factors = seq![Factor::R(p as usize), Factor::P(q as usize)];
    let (beta, bo) = (b.exp, difference(b.center, o));
    let one = T::count(1);
    let j = power(cb, q);
    let cj = T::count(j as u64);
    let s = |k: int, n: int| axis_overlap(axis_of(a, b, k), power(ca, k), power(cb, k) + n);
    reveal_with_fuel(momenta, 3);
    reveal_with_fuel(applied, 3);
    reveal_with_fuel(overlaps_added, 5);
    assert(momenta(factors, 2) == 1);
    let up = T::prod(T::prod(one, T::count(2)), beta);
    let down = T::prod(T::neg(one), cj);
    let b2 = T::prod(T::count(2), beta);
    lemma_momentum_coefficients(beta, cj);
    let (cu, cd) = (shifted(cb, q, 1), shifted(cb, q, -1));
    let src = expansion(factors, beta, bo, cb, 2);
    assert(src == seq![(cb, one)]);
    let first = expansion(factors, beta, bo, cb, 1);
    assert(first == applied(factors[1], beta, bo, src, 1));
    let list = expansion(factors, beta, bo, cb, 0);
    assert(list == applied(factors[0], beta, bo, first, first.len() as int));
    lemma_ring_commute(scale, one);
    lemma_ring_sums(scale, scale, scale);
    let w = T::prod(scale, c);
    assert(T::prod(T::prod(scale, one), c) == w);
    let d = bo[p];
    assert(shifted(cu, p, 0) == cu && shifted(cd, p, 0) == cd);
    lemma_shifted_overlap(a, b, ca, cb, l, p, q, 1, 1);
    lemma_shifted_overlap(a, b, ca, cb, l, p, q, 0, 1);
    lemma_shifted_overlap(a, b, ca, cb, l, p, q, 1, -1);
    lemma_shifted_overlap(a, b, ca, cb, l, p, q, 0, -1);
    lemma_position_pair(w, b2, d, s(l, 0), s(p, 0), s(p, 1), s(q, 1));
    lemma_position_pair(w, T::neg(cj), d, s(l, 0), s(p, 0), s(p, 1), s(q, -1));
    lemma_axis_moment(a, b, o, p, power(ca, p), power(cb, p));
    let g = T::prod(s(l, 0), moment_along(a, b, o, p, power(ca, p), power(cb, p)));
    lemma_negative_factor(cj, s(q, -1));
    lemma_two_weighted(start, w, g, T::prod(b2, s(q, 1)), T::prod(cj, s(q, -1)));
    let (v1, v2) = (
        T::prod(T::prod(w, b2), T::prod(T::prod(s(l, 0), s(p, 1)), s(q, 1))),
        T::prod(T::prod(w, T::prod(b2, d)), T::prod(T::prod(s(l, 0), s(p, 0)), s(q, 1))),
    );
    lemma_ring_sums(start, v1, v2);
    if j >= 1 {
        assert(first =~= seq![(cu, up), (cd, down)]);
        assert(list =~= seq![
            (shifted(cu, p, 1), up),
            (cu, T::prod(up, d)),
            (shifted(cd, p, 1), down),
            (cd, T::prod(down, d)),
        ]);
        let (v3, v4) = (
            T::prod(T::prod(w, T::neg(cj)), T::prod(T::prod(s(l, 0), s(p, 1)), s(q, -1))),
            T::prod(
                T::prod(w, T::prod(T::neg(cj), d)),
                T::prod(T::prod(s(l, 0), s(p, 0)), s(q, -1)),
            ),
        );
        lemma_ring_sums(T::sum(start, T::sum(v1, v2)), v3, v4);
    } else {
        assert(first =~= seq![(cu, up)]);
        assert(list =~= seq![(shifted(cu, p, 1), up), (cu, T::prod(up, d))]);
        lemma_no_count(s(q, -1));
        lemma_ring_negatives(g, T::count(0));
        lemma_ring_sums(g, g, g);
        lemma_ring_sums(w, w, w);
        let sum = T::sum(start, T::prod(w, T::prod(g, T::prod(b2, s(q, 1)))));
        lemma_ring_sums(sum, sum, sum);
    }
}

proof fn lemma_angular_entry<T: Real>(
    start: T,
    o: Vec3<T>,
    a: Prim<T>,
    b: Prim<T>,
    scale: T,
    ca: Powers,
    cb: Powers,
    k: int,
)
    requires
        is_ring::<T>(),
        0 <= k < 3,
        0 <= ca.0 <= MAX_L,
        0 <= ca.1 <= MAX_L,
        0 <= ca.2 <= MAX_L,
        0 <= cb.0 <= MAX_L,
        0 <= cb.1 <= MAX_L,
        0 <= cb.2 <= MAX_L,
    ensures
        terms_value(start, angular_terms::<T>(k), o, a, b, scale, true, ca, cb, 2) == T::sum(
            start,
            T::prod(scale, angular_of(o, k)(a, b, ca, cb)),
        ),
{
    let (p, q) = (others(k as usize).0 as int, others(k as usize).1 as int);
    let terms = angular_terms::<T>(k);
    let one = T::count(1);
    reveal_with_fuel(terms_value, 3);
    let t1 = turn(o, k, p, q, a, b, ca, cb);
    let t2 = turn(o, k, q, p, a, b, ca, cb);
    lemma_turn_entry(start, one, o, a, b, scale, ca, cb, k, p, q);
    let first = term_value(start, terms[0], o, a, b, scale, true, ca, cb);
    lemma_turn_entry(first, T::neg(one), o, a, b, scale, ca, cb, k, q, p);
    lemma_ring_commute(scale, one);
    lemma_ring_sums(scale, scale, scale);
    lemma_ring_negatives(scale, one);
    lemma_negative_factor(scale, t2);
    lemma_ring_negatives(scale, t2);
    lemma_ring_negatives(t1, t2);
    lemma_ring_factors(scale, t1, T::neg(t2));
    lemma_ring_sums(start, T::prod(scale, t1), T::prod(scale, T::neg(t2)));
}

proof fn lemma_turn_exchanged<T: Real>(
    o: Vec3<T>,
    l: int,
    p: int,
    q: int,
    a: Prim<T>,
    b: Prim<T>,
    ca: Powers,
    cb: Powers,
)
    requires
        is_ring::<T>(),
        counts_exactly::<T>(),
        has_product(a.exp, b.exp),
        are_axes(l, p, q),
        0 <= ca.0 <= MAX_L,
        0 <= ca.1 <= MAX_L,
        0 <= ca.2 <= MAX_L,
        0 <= cb.0 <= MAX_L,
        0 <= cb.1 <= MAX_L,
        0 <= cb.2 <= MAX_L,
    ensures
        turn(o, l, p, q, a, b, ca, cb) == T::neg(turn(o, l, p, q, b, a, cb, ca)),
{
    lemma_overlap_exchanged(a, b, l, power(ca, l), power(cb, l));
    lemma_axis_exchanged(a, b, p);
    let pr = product_of(a.exp, a.center, b.exp, b.center);
    lemma_moment_exchanged(
        axis_of(a, b, p),
        T::diff(pr.p_center[p], o[p]),
        power(ca, p),
        power(cb, p),
    );
    lemma_slope_exchanged(a, b, q, power(ca, q), power(cb, q));
    let g = T::prod(
        axis_overlap(axis_of(b, a, l), power(cb, l), power(ca, l)),
        moment_along(b, a, o, p, power(cb, p), power(ca, p)),
    );
    let d = slope_second(
        axis_of(b, a, q),
        T::prod(T::count(2), a.exp),
        power(cb, q),
        power(ca, q),
    );
    lemma_ring_negatives(g, d);
}

/// The matrix of the angular momentum is antisymmetric, in any commutative ring in which
/// counts add up and the sums of exponents can be divided by.
pub proof fn law_angular_momentum_is_antisymmetric<T: Real>(
    o: Vec3<T>,
    k: int,
    shells: Seq<Shell<T>>,
    x: At,
    y: At,
)
    requires
        is_ring::<T>(),
        counts_exactly::<T>(),
        0 <= k < 3,
        is_function(function_counts(shells), x),
        is_function(function_counts(shells), y),
        shells[x.0].valid(),
        shells[y.0].valid(),
        have_products(shells[x.0], shells[y.0]),
    ensures
        pair_entries(operator_step(angular_terms::<T>(k), o, true), shells)(x, y) == T::neg(
            pair_entries(operator_step(angular_terms::<T>(k), o, true), shells)(y, x),
        ),
{
    let (a, b) = (shells[x.0], shells[y.0]);
    let value = angular_of(o, k);
    let minus = T::neg(T::count(1));
    let terms = angular_terms::<T>(k);
    let (p, q) = (others(k as usize).0 as int, others(k as usize).1 as int);
    assert forall|start: T, a: Prim<T>, b: Prim<T>, scale: T, ca: Powers, cb: Powers|
        0 <= ca.0 <= MAX_L && 0 <= ca.1 <= MAX_L && 0 <= ca.2 <= MAX_L && 0 <= cb.0 <= MAX_L && 0
            <= cb.1 <= MAX_L && 0 <= cb.2 <= MAX_L implies #[trigger] terms_value(
        start,
        terms,
        o,
        a,
        b,
        scale,
        true,
        ca,
        cb,
        terms.len() as int,
    ) == T::sum(start, T::prod(scale, value(a, b, ca, cb))) by {
        lemma_angular_entry(start, o, a, b, scale, ca, cb, k);
    }
    lemma_operator_adds(terms, o, true, value, shells, x, y);
    lemma_operator_adds(terms, o, true, value, shells, y, x);
    assert forall|i: int, j: int, ca: Powers, cb: Powers|
        0 <= i < a.exponents@.len() && 0 <= j < b.exponents@.len() && is_component(
            ca,
            a.l as int,
        ) && is_component(cb, b.l as int) implies #[trigger] value(
        a.primitive(i),
        b.primitive(j),
        ca,
        cb,
    ) == T::prod(minus, value(b.primitive(j), a.primitive(i), cb, ca)) by {
        let (pa, pb) = (a.primitive(i), b.primitive(j));
        assert(has_product(a.exponents@[i], b.exponents@[j]));
        lemma_turn_exchanged(o, k, p, q, pa, pb, ca, cb);
        lemma_turn_exchanged(o, k, q, p, pa, pb, ca, cb);
        let (u, v) = (turn(o, k, p, q, pb, pa, cb, ca), turn(o, k, q, p, pb, pa, cb, ca));
        lemma_ring_negatives(T::neg(u), T::neg(v));
        lemma_ring_negatives(u, v);
        lemma_ring_negatives(u, T::neg(v));
        lemma_minus_one(T::diff(u, v));
    }
    lemma_entries_transposed(value_step(value), value, minus, shells, x, y);
    lemma_minus_one(pair_entries(value_step(value), shells)(y, x));
}

} // verus!
