//! Translation invariance of the gradients of repulsion integrals.
use vstd::prelude::*;

use crate::engine::deriv::{center_derivative, derivative_entries};
use crate::engine::invariance::lemma_interchange;
use crate::engine::rys::{lemma_quartet_sizes, quadruple_at};
use crate::engine::tower_contracted::{lemma_four_more, sum_of_four, Components};
use crate::engine::triples::{power, shifted};
use crate::exact::{
    counts_exactly, is_ring, lemma_ring_commute, lemma_ring_negatives, lemma_ring_sums,
};
use crate::flat::{
    cell, lemma_cell_in_range, lemma_index_parts, lemma_pair_in_range, lemma_pair_parts,
    lemma_quad_in_range, lemma_quad_index, lemma_quad_parts, pair, quad, quad_parts,
};
use crate::grad::force::ForceJob;
use crate::grad::quadrature::{
    is_quadrable, lemma_quadrature_entry, lemma_quadrature_invariant, lowered_sums,
    quadrature_sum, raised_sums,
};
use crate::grad::quartet::{center_block, lowered_block, momenta_of, quartet_axis, shifted_block};
use crate::grad::repulsion::{
    are_components, at_step, is_complete, is_regular, lemma_repulsion_invariant, lowered_four,
    moved, raised_four, repulsion,
};
use crate::integrals::Engine;
use crate::math::am::{
    cart_count, cart_position, component_at, is_component, law_every_position_is_taken,
    law_positions_order_components, Powers,
};
use crate::math::rys::RysTables;
use crate::quartet::{cart_size, recurrence_entry, recurs, Four};
use crate::scalar::{Real, Scalar};
use crate::spherical::{contracted_axis, row_sum, shell_matrix};
use crate::tensor::nth;

verus! {

/// The outer coordinate of an index in a block of shape `(outer, n, inner)` whose middle
/// axis is that of the shell at `pos`.
pub open spec fn outer_at(p: (int, int, int, int), nb: int, nc: int, pos: int) -> int {
    if pos == 0 {
        0
    } else if pos == 1 {
        p.0
    } else if pos == 2 {
        pair(p.0, nb, p.1)
    } else {
        pair(pair(p.0, nb, p.1), nc, p.2)
    }
}

/// The inner coordinate of an index in a block of shape `(outer, n, inner)`.
pub open spec fn inner_at(p: (int, int, int, int), nc: int, nd: int, pos: int) -> int {
    if pos == 0 {
        pair(pair(p.1, nc, p.2), nd, p.3)
    } else if pos == 1 {
        pair(p.2, nd, p.3)
    } else if pos == 2 {
        p.3
    } else {
        0
    }
}

/// The extent of the inner axis of a block of shape `(outer, n, inner)`.
pub open spec fn width_at(nb: int, nc: int, nd: int, pos: int) -> int {
    if pos == 0 {
        nb * nc * nd
    } else if pos == 1 {
        nc * nd
    } else if pos == 2 {
        nd
    } else {
        1
    }
}

/// An index with one coordinate and its range replaced.
pub open spec fn quad_with(
    p: (int, int, int, int),
    nb: int,
    nc: int,
    nd: int,
    pos: int,
    m: int,
    r: int,
) -> int {
    if pos == 0 {
        quad(r, nb, p.1, nc, p.2, nd, p.3)
    } else if pos == 1 {
        quad(p.0, m, r, nc, p.2, nd, p.3)
    } else if pos == 2 {
        quad(p.0, nb, p.1, m, r, nd, p.3)
    } else {
        quad(p.0, nb, p.1, nc, p.2, m, r)
    }
}

/// The index at a place of a block of shape `(outer, n, inner)`.
pub proof fn lemma_cell_is_quad(
    p: (int, int, int, int),
    nb: int,
    nc: int,
    nd: int,
    pos: int,
    m: int,
    r: int,
)
    requires
        0 <= pos < 4,
    ensures
        cell(outer_at(p, nb, nc, pos), m, r, width_at(nb, nc, nd, pos), inner_at(p, nc, nd, pos))
            == quad_with(p, nb, nc, nd, pos, m, r),
{
    let (b, c, d) = (p.1, p.2, p.3);
    if pos == 0 {
        assert((0 * m + r) * (nb * nc * nd) + ((b * nc + c) * nd + d) == ((r * nb + b) * nc + c)
            * nd + d) by (nonlinear_arith);
    } else if pos == 1 {
        let a = p.0;
        assert((a * m + r) * (nc * nd) + (c * nd + d) == ((a * m + r) * nc + c) * nd + d)
            by (nonlinear_arith);
    } else if pos == 3 {
        let o = outer_at(p, nb, nc, pos);
        assert((o * m + r) * 1 + 0 == o * m + r);
    }
}

/// The coordinates of an index in a block of shape `(outer, n, inner)`.
proof fn lemma_middle(p: (int, int, int, int), na: int, nb: int, nc: int, nd: int, pos: int)
    requires
        0 <= pos < 4,
        0 <= p.0 < na,
        0 <= p.1 < nb,
        0 <= p.2 < nc,
        0 <= p.3 < nd,
    ensures
        ({
            let k = quad(p.0, nb, p.1, nc, p.2, nd, p.3);
            let w = width_at(nb, nc, nd, pos);
            let n = nth((na, nb, nc, nd), pos);
            &&& k / w / n == outer_at(p, nb, nc, pos)
            &&& k / w % n == nth(p, pos)
            &&& k % w == inner_at(p, nc, nd, pos)
        }),
{
    let w = width_at(nb, nc, nd, pos);
    let n = nth((na, nb, nc, nd), pos);
    let (o, r, s) = (outer_at(p, nb, nc, pos), nth(p, pos), inner_at(p, nc, nd, pos));
    lemma_cell_is_quad(p, nb, nc, nd, pos, n, r);
    lemma_pair_in_range(p.0, na, nb, p.1);
    lemma_pair_in_range(pair(p.0, nb, p.1), na * nb, nc, p.2);
    lemma_pair_in_range(p.1, nb, nc, p.2);
    lemma_pair_in_range(pair(p.1, nc, p.2), nb * nc, nd, p.3);
    lemma_pair_in_range(p.2, nc, nd, p.3);
    assert(0 <= o && 0 <= r < n && 0 <= s < w);
    lemma_pair_in_range(o, o + 1, n, r);
    lemma_pair_parts(o, n, r);
    lemma_pair_parts(pair(o, n, r), w, s);
}

/// A component of a shell at its position.
proof fn lemma_component_at(c: Powers, l: int)
    requires
        is_component(c, l),
        l >= 0,
    ensures
        0 <= cart_position(c) < cart_count(l),
        component_at(l, cart_position(c)) == c,
{
    law_positions_order_components(c, c, l);
    law_every_position_is_taken(l, cart_position(c));
    law_positions_order_components(c, component_at(l, cart_position(c)), l);
}

/// The integral of a quartet with the shell at `pos` raised and weighted, or lowered, by
/// the engine of the quartet.
pub open spec fn shifted_value<T: Real>(
    rys: RysTables<T>,
    engine: Engine,
    omega: Option<T>,
    q: Four<T>,
    pos: int,
    up: bool,
    n: Components,
) -> T {
    if omega is None && recurs(engine, q) {
        repulsion(moved(q, pos, up), n)
    } else {
        quadrature_sum(rys, omega, q, pos, up, n)
    }
}

/// Whether the engine of a quartet evaluates it exactly: by the recurrences nothing is
/// dropped and the ladders do not depend on how far they are built; by quadrature the
/// rules are exact. In both cases the sums of exponents can be divided by.
pub open spec fn is_exact<T: Real>(
    rys: RysTables<T>,
    engine: Engine,
    omega: Option<T>,
    q: Four<T>,
) -> bool {
    if omega is None && recurs(engine, q) {
        is_regular(q)
    } else {
        is_quadrable(rys, omega, q)
    }
}

/// The entry of a shifted block at the shifted components.
proof fn lemma_shifted_entry<T: Real>(
    rys: RysTables<T>,
    engine: Engine,
    omega: Option<T>,
    q: Four<T>,
    pos: int,
    up: bool,
    axis: int,
    k: int,
)
    requires
        is_ring::<T>(),
        is_complete(q.0) && is_complete(q.1) && is_complete(q.2) && is_complete(q.3),
        0 <= pos < 4,
        0 <= axis < 3,
        0 <= k < cart_size(q),
        !up ==> power(nth(quadruple_at(q.0.0, q.1.0, q.2.0, q.3.0, k), pos), axis) >= 1,
    ensures
        ({
            let n = quadruple_at(q.0.0, q.1.0, q.2.0, q.3.0, k);
            let by: int = if up {
                1
            } else {
                -1
            };
            let c = shifted(nth(n, pos), axis, by);
            let (na, nb) = (cart_count(q.0.0), cart_count(q.1.0));
            let (nc, nd) = (cart_count(q.2.0), cart_count(q.3.0));
            let p = quad_parts(k, nb, nc, nd);
            let l = nth(momenta_of(q), pos);
            &&& are_components(momenta_of(q), n)
            &&& shifted_block(rys, engine, omega, q, pos, up)[quad_with(
                p,
                nb,
                nc,
                nd,
                pos,
                cart_count(l + by),
                cart_position(c),
            )] == shifted_value(
                rys,
                engine,
                omega,
                q,
                pos,
                up,
                at_step(n, pos, axis, by),
            )
        }),
{
    let (la, lb, lc, ld) = momenta_of(q);
    let n = quadruple_at(la, lb, lc, ld, k);
    let by: int = if up {
        1
    } else {
        -1
    };
    let v = moved(q, pos, up);
    let (na, nb, nc, nd) = (cart_count(la), cart_count(lb), cart_count(lc), cart_count(ld));
    lemma_quartet_sizes(la, lb, lc, ld);
    lemma_quad_index(k, na, nb, nc, nd);
    let p = quad_parts(k, nb, nc, nd);
    law_every_position_is_taken(la, p.0);
    law_every_position_is_taken(lb, p.1);
    law_every_position_is_taken(lc, p.2);
    law_every_position_is_taken(ld, p.3);
    let l = nth(momenta_of(q), pos);
    let c = shifted(nth(n, pos), axis, by);
    assert(is_component(c, l + by));
    lemma_component_at(c, l + by);
    lemma_quartet_sizes(v.0.0, v.1.0, v.2.0, v.3.0);
    let (ma, mb) = (cart_count(v.0.0), cart_count(v.1.0));
    let (mc, md) = (cart_count(v.2.0), cart_count(v.3.0));
    let r = cart_position(c);
    let s = (
        if pos == 0 {
            r
        } else {
            p.0
        },
        if pos == 1 {
            r
        } else {
            p.1
        },
        if pos == 2 {
            r
        } else {
            p.2
        },
        if pos == 3 {
            r
        } else {
            p.3
        },
    );
    let at = quad(s.0, mb, s.1, mc, s.2, md, s.3);
    assert(at == quad_with(p, nb, nc, nd, pos, cart_count(l + by), r));
    lemma_quad_in_range(s.0, ma, s.1, mb, s.2, mc, s.3, md);
    lemma_quad_parts(s.0, mb, s.1, mc, s.2, md, s.3);
    assert(quadruple_at(v.0.0, v.1.0, v.2.0, v.3.0, at) == at_step(n, pos, axis, by));
    if omega is None && recurs(engine, q) {
        let w = recurrence_entry(v, at);
        lemma_ring_sums(w, w, w);
    } else {
        lemma_quadrature_entry(rys, q, pos, up, omega, at);
    }
}

/// An entry of the derivative of a Cartesian block: the raised integral less the power
/// times the lowered one.
pub proof fn lemma_center_entry<T: Real>(
    rys: RysTables<T>,
    engine: Engine,
    omega: Option<T>,
    q: Four<T>,
    pos: int,
    axis: int,
    k: int,
)
    requires
        is_ring::<T>(),
        is_complete(q.0) && is_complete(q.1) && is_complete(q.2) && is_complete(q.3),
        0 <= pos < 4,
        0 <= axis < 3,
        0 <= k < cart_size(q),
    ensures
        ({
            let n = quadruple_at(q.0.0, q.1.0, q.2.0, q.3.0, k);
            &&& are_components(momenta_of(q), n)
            &&& center_block(rys, engine, omega, q, pos, axis).len() == cart_size(q)
            &&& center_block(rys, engine, omega, q, pos, axis)[k] == T::diff(
                shifted_value(rys, engine, omega, q, pos, true, at_step(n, pos, axis, 1)),
                T::prod(
                    T::count(power(nth(n, pos), axis) as u64),
                    shifted_value(rys, engine, omega, q, pos, false, at_step(n, pos, axis, -1)),
                ),
            )
        }),
{
    let (la, lb, lc, ld) = momenta_of(q);
    let n = quadruple_at(la, lb, lc, ld, k);
    let (na, nb, nc, nd) = (cart_count(la), cart_count(lb), cart_count(lc), cart_count(ld));
    let p = quad_parts(k, nb, nc, nd);
    lemma_quartet_sizes(la, lb, lc, ld);
    lemma_quartet_sizes(lb, lc, ld, 0);
    lemma_quartet_sizes(lc, ld, 0, 0);
    lemma_quad_index(k, na, nb, nc, nd);
    lemma_middle(p, na, nb, nc, nd, pos);
    let d = quartet_axis(momenta_of(q), pos, axis);
    let l = nth(momenta_of(q), pos);
    let w = width_at(nb, nc, nd, pos);
    assert(d.l == l && d.cart_axis == axis && d.inner == w);
    let raised = shifted_block(rys, engine, omega, q, pos, true);
    let lowered = lowered_block(rys, engine, omega, q, pos);
    let a = nth(n, pos);
    let (o, s) = (outer_at(p, nb, nc, pos), inner_at(p, nc, nd, pos));
    assert(component_at(l, k / w % cart_count(l)) == a);
    lemma_shifted_entry(rys, engine, omega, q, pos, true, axis, k);
    let up = cart_position(shifted(a, axis, 1));
    lemma_cell_is_quad(p, nb, nc, nd, pos, cart_count(l + 1), up);
    let high = shifted_value(rys, engine, omega, q, pos, true, at_step(n, pos, axis, 1));
    let low = shifted_value(rys, engine, omega, q, pos, false, at_step(n, pos, axis, -1));
    let value = center_derivative(d, raised, lowered, a, o, s);
    if power(a, axis) >= 1 {
        lemma_shifted_entry(rys, engine, omega, q, pos, false, axis, k);
        let down = cart_position(shifted(a, axis, -1));
        lemma_cell_is_quad(p, nb, nc, nd, pos, cart_count(l - 1), down);
    } else {
        lemma_ring_commute(T::count(0), low);
        lemma_ring_sums(low, low, low);
        lemma_ring_negatives(high, T::count(0));
        lemma_ring_sums(high, high, high);
    }
    lemma_ring_sums(value, value, value);
    assert(derivative_entries(d, T::count(1), raised, lowered)(k) == T::prod(
        T::count(1),
        value,
    ));
}

/// Differences in turn, their first and second terms added up.
proof fn lemma_two_differences<T: Scalar>(u: T, x: T, v: T, y: T)
    requires
        is_ring::<T>(),
    ensures
        T::sum(T::diff(u, x), T::diff(v, y)) == T::diff(T::sum(u, v), T::sum(x, y)),
{
    lemma_ring_negatives(u, x);
    lemma_ring_negatives(v, y);
    lemma_ring_negatives(x, y);
    lemma_ring_negatives(T::sum(u, v), T::sum(x, y));
    lemma_interchange(u, T::neg(x), v, T::neg(y));
}

/// Four differences whose first and second terms have the same sum.
proof fn lemma_four_differences<T: Scalar>(u: (T, T, T, T), x: (T, T, T, T))
    requires
        is_ring::<T>(),
        sum_of_four(u) == sum_of_four(x),
    ensures
        sum_of_four(
            (T::diff(u.0, x.0), T::diff(u.1, x.1), T::diff(u.2, x.2), T::diff(u.3, x.3)),
        ) == T::count(0),
{
    lemma_two_differences(u.0, x.0, u.1, x.1);
    lemma_two_differences(u.2, x.2, u.3, x.3);
    lemma_two_differences(
        T::sum(u.0, u.1),
        T::sum(x.0, x.1),
        T::sum(u.2, u.3),
        T::sum(x.2, x.3),
    );
    lemma_ring_negatives(sum_of_four(u), sum_of_four(x));
}

/// Four blocks of the same length.
pub type Blocks<T> = (Seq<T>, Seq<T>, Seq<T>, Seq<T>);

/// Entry `k` of each of four blocks.
pub open spec fn entries_at<T>(b: Blocks<T>, k: int) -> (T, T, T, T) {
    (b.0[k], b.1[k], b.2[k], b.3[k])
}

/// Whether four blocks of `n` entries add up to zero.
pub open spec fn add_to_zero<T: Scalar>(b: Blocks<T>, n: int) -> bool {
    &&& b.0.len() == n && b.1.len() == n && b.2.len() == n && b.3.len() == n
    &&& forall|k: int| 0 <= k < n ==> sum_of_four(#[trigger] entries_at(b, k)) == T::count(0)
}

/// The four Cartesian derivatives of a quartet.
spec fn center_blocks<T: Real>(
    rys: RysTables<T>,
    engine: Engine,
    omega: Option<T>,
    q: Four<T>,
    axis: int,
) -> Blocks<T> {
    (
        center_block(rys, engine, omega, q, 0, axis),
        center_block(rys, engine, omega, q, 1, axis),
        center_block(rys, engine, omega, q, 2, axis),
        center_block(rys, engine, omega, q, 3, axis),
    )
}

/// The Cartesian derivatives with respect to the four centers add up to zero.
proof fn lemma_center_blocks<T: Real>(
    rys: RysTables<T>,
    engine: Engine,
    omega: Option<T>,
    q: Four<T>,
    axis: int,
)
    requires
        is_ring::<T>(),
        counts_exactly::<T>(),
        is_exact(rys, engine, omega, q),
        0 <= axis < 3,
    ensures
        add_to_zero(center_blocks(rys, engine, omega, q, axis), cart_size(q)),
{
    let b = center_blocks(rys, engine, omega, q, axis);
    lemma_quartet_sizes(q.0.0, q.1.0, q.2.0, q.3.0);
    lemma_center_entry(rys, engine, omega, q, 0, axis, 0);
    lemma_center_entry(rys, engine, omega, q, 1, axis, 0);
    lemma_center_entry(rys, engine, omega, q, 2, axis, 0);
    lemma_center_entry(rys, engine, omega, q, 3, axis, 0);
    assert forall|k: int| 0 <= k < cart_size(q) implies sum_of_four(#[trigger] entries_at(b, k))
        == T::count(0) by {
        let n = quadruple_at(q.0.0, q.1.0, q.2.0, q.3.0, k);
        lemma_center_entry(rys, engine, omega, q, 0, axis, k);
        lemma_center_entry(rys, engine, omega, q, 1, axis, k);
        lemma_center_entry(rys, engine, omega, q, 2, axis, k);
        lemma_center_entry(rys, engine, omega, q, 3, axis, k);
        if omega is None && recurs(engine, q) {
            lemma_repulsion_invariant(q, n, axis);
            lemma_four_differences(raised_four(q, n, axis), lowered_four(q, n, axis));
        } else {
            lemma_quadrature_invariant(rys, omega, q, n, axis);
            lemma_four_differences(
                raised_sums(rys, omega, q, n, axis),
                lowered_sums(rys, omega, q, n, axis),
            );
        }
    }
}

/// The four sums along a row of blocks that add up to zero.
proof fn lemma_zero_rows<T: Scalar>(
    m: Seq<T>,
    b: Blocks<T>,
    n: int,
    inner: int,
    o: int,
    r: int,
    i: int,
    c: int,
)
    requires
        is_ring::<T>(),
        c <= n,
        forall|x: int|
            0 <= x < n ==> sum_of_four(#[trigger] entries_at(b, cell(o, n, x, inner, i)))
                == T::count(0),
    ensures
        sum_of_four(
            (
                row_sum(m, b.0, n, inner, o, r, i, c),
                row_sum(m, b.1, n, inner, o, r, i, c),
                row_sum(m, b.2, n, inner, o, r, i, c),
                row_sum(m, b.3, n, inner, o, r, i, c),
            ),
        ) == T::count(0),
    decreases c,
{
    lemma_ring_sums(T::count(0), T::count(0), T::count(0));
    if c > 0 {
        lemma_zero_rows(m, b, n, inner, o, r, i, c - 1);
        let s = m[pair(r, n, c - 1)];
        let x = entries_at(b, cell(o, n, c - 1, inner, i));
        lemma_four_more(
            (
                row_sum(m, b.0, n, inner, o, r, i, c - 1),
                row_sum(m, b.1, n, inner, o, r, i, c - 1),
                row_sum(m, b.2, n, inner, o, r, i, c - 1),
                row_sum(m, b.3, n, inner, o, r, i, c - 1),
            ),
            x,
            s,
        );
        lemma_ring_sums(s, s, s);
    }
}

/// Four blocks with an axis contracted.
spec fn contracted_blocks<T: Scalar>(
    m: Option<Seq<T>>,
    rows: int,
    b: Blocks<T>,
    outer: int,
    n: int,
    inner: int,
) -> Blocks<T> {
    (
        contracted_axis(m, rows, b.0, outer, n, inner),
        contracted_axis(m, rows, b.1, outer, n, inner),
        contracted_axis(m, rows, b.2, outer, n, inner),
        contracted_axis(m, rows, b.3, outer, n, inner),
    )
}

/// Contracting an axis keeps that four blocks add up to zero.
proof fn lemma_zero_axis<T: Scalar>(
    m: Option<Seq<T>>,
    rows: int,
    b: Blocks<T>,
    outer: int,
    n: int,
    inner: int,
)
    requires
        is_ring::<T>(),
        0 <= outer,
        1 <= rows,
        1 <= n,
        1 <= inner,
        m is None ==> rows == n,
        add_to_zero(b, outer * n * inner),
    ensures
        add_to_zero(contracted_blocks(m, rows, b, outer, n, inner), outer * rows * inner),
{
    if let Some(t) = m {
        assert(0 <= outer * rows && 0 <= outer * rows * inner) by (nonlinear_arith)
            requires
                0 <= outer,
                1 <= rows,
                1 <= inner,
        ;
        let g = contracted_blocks(m, rows, b, outer, n, inner);
        assert forall|k: int| 0 <= k < outer * rows * inner implies sum_of_four(
            #[trigger] entries_at(g, k),
        ) == T::count(0) by {
            lemma_index_parts(k, outer * rows, inner);
            lemma_index_parts(k / inner, outer, rows);
            let (o, r, i) = (k / inner / rows, k / inner % rows, k % inner);
            assert forall|x: int| 0 <= x < n implies sum_of_four(
                #[trigger] entries_at(b, cell(o, n, x, inner, i)),
            ) == T::count(0) by {
                lemma_cell_in_range(o, outer, n, x, inner, i);
            }
            lemma_zero_rows(t, b, n, inner, o, r, i, n);
        }
    }
}

/// The four derivatives of the block of a quartet.
pub open spec fn job_blocks<T: Real>(
    job: ForceJob<T>,
    rys: RysTables<T>,
    engine: Engine,
    omega: Option<T>,
    axis: int,
) -> Blocks<T> {
    (
        job.block(rys, engine, omega, 0, axis),
        job.block(rys, engine, omega, 1, axis),
        job.block(rys, engine, omega, 2, axis),
        job.block(rys, engine, omega, 3, axis),
    )
}

/// The derivatives of the block of a quartet with respect to its four centers add up to
/// zero where its engine is exact, in any commutative ring in which counts add up.
pub proof fn law_repulsion_derivatives_cancel<T: Real>(
    job: ForceJob<T>,
    rys: RysTables<T>,
    engine: Engine,
    omega: Option<T>,
    axis: int,
)
    requires
        is_ring::<T>(),
        counts_exactly::<T>(),
        is_exact(rys, engine, omega, job.four()),
        0 <= axis < 3,
    ensures
        add_to_zero(job_blocks(job, rys, engine, omega, axis), job.size()),
{
    let q = job.four();
    let (la, lb, lc, ld) = momenta_of(q);
    let (na, nb, nc, nd) = (cart_count(la), cart_count(lb), cart_count(lc), cart_count(ld));
    let (fa, fb, fc, fd) = (job.count(0), job.count(1), job.count(2), job.count(3));
    lemma_quartet_sizes(la, lb, lc, ld);
    let b0 = center_blocks(rys, engine, omega, q, axis);
    lemma_center_blocks(rys, engine, omega, q, axis);
    let ma = shell_matrix::<T>(job.shells.0.0, la);
    let mb = shell_matrix::<T>(job.shells.1.0, lb);
    let mc = shell_matrix::<T>(job.shells.2.0, lc);
    let md = shell_matrix::<T>(job.shells.3.0, ld);
    assert(1 <= nb * nc * nd && 1 <= nc * nd && 1 * na * (nb * nc * nd) == na * nb * nc * nd)
        by (nonlinear_arith)
        requires
            1 <= nb,
            1 <= nc,
            1 <= nd,
    ;
    lemma_zero_axis(ma, fa, b0, 1, na, nb * nc * nd);
    let b1 = contracted_blocks(ma, fa, b0, 1, na, nb * nc * nd);
    assert(1 * fa * (nb * nc * nd) == fa * nb * (nc * nd) && 0 <= fa * fb && 0 <= fa * fb * fc)
        by (nonlinear_arith)
        requires
            1 <= fa,
            1 <= fb,
            1 <= fc,
    ;
    lemma_zero_axis(mb, fb, b1, fa, nb, nc * nd);
    let b2 = contracted_blocks(mb, fb, b1, fa, nb, nc * nd);
    assert(fa * fb * (nc * nd) == fa * fb * nc * nd) by (nonlinear_arith);
    lemma_zero_axis(mc, fc, b2, fa * fb, nc, nd);
    let b3 = contracted_blocks(mc, fc, b2, fa * fb, nc, nd);
    assert(fa * fb * fc * nd == fa * fb * fc * nd * 1);
    lemma_zero_axis(md, fd, b3, fa * fb * fc, nd, 1);
    assert(fa * fb * fc * fd * 1 == job.size());
    assert(contracted_blocks(md, fd, b3, fa * fb * fc, nd, 1) == job_blocks(
        job,
        rys,
        engine,
        omega,
        axis,
    ));
}

} // verus!
