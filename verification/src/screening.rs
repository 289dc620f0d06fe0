//! How screening depends on its threshold.
//!
//! These laws ask of the order what rounded arithmetic keeps too, as long as every value
//! can be ordered.
use vstd::prelude::*;

use crate::dense::{
    blocks_of, diagonal_peak, is_screened, is_tensor, lists_pairs, schwarz_matrix, screened_count,
};
use crate::eri_batch::shell_block;
use crate::flat::{lemma_pair_in_range, lemma_pair_parts, pair, quad};
use crate::integrals::Engine;
use crate::math::am::lemma_triangle_step;
use crate::math::rys::RysTables;
use crate::scalar::Real;
use crate::shell::{function_counts, Shell};
use crate::tensor::{
    canonical, in_block, is_function, law_canonical_is_a_permutation, shells_of, slot4,
    tensor_entry, At,
};

verus! {

/// Whether comparisons order the scalars.
pub open spec fn orders_exactly<T: Real>() -> bool {
    &&& T::le(T::count(0), T::count(0))
    &&& forall|a: T, b: T| #[trigger] T::lt(a, b) ==> T::le(a, b) && !T::le(b, a)
    &&& forall|a: T, b: T| #[trigger] T::le(a, b) ==> T::le(a, a) && T::le(b, b)
    &&& forall|a: T, b: T, c: T| #[trigger]
        T::lt(a, b) && #[trigger] T::le(b, c) ==> T::lt(a, c)
    &&& forall|a: T, b: T, c: T| #[trigger]
        T::le(a, b) && #[trigger] T::le(b, c) ==> T::le(a, c)
}

/// Whether roots of values that are not negative are none, and no product of such values
/// is below zero.
pub open spec fn keeps_signs<T: Real>() -> bool {
    &&& forall|a: T| T::le(T::count(0), a) ==> T::le(T::count(0), #[trigger] T::root(a))
    &&& forall|a: T, b: T|
        T::le(T::count(0), a) && T::le(T::count(0), b) ==> !T::lt(
            #[trigger] T::prod(a, b),
            T::count(0),
        )
}

/// A higher threshold leaves out no fewer quartets, and every quartet that a lower one
/// does.
pub proof fn law_more_is_left_out_at_a_higher_threshold<T: Real>(
    q: Seq<T>,
    low: T,
    high: T,
    nsh: int,
    pairs: Seq<(usize, usize)>,
    bra: int,
    ket: int,
)
    requires
        orders_exactly::<T>(),
        T::le(low, high),
        0 <= bra,
        0 <= ket <= bra + 1,
    ensures
        screened_count(Some((q, low)), nsh, pairs, bra, ket) <= screened_count(
            Some((q, high)),
            nsh,
            pairs,
            bra,
            ket,
        ),
        forall|i: int, j: int, k: int, l: int| #[trigger]
            is_screened(Some((q, low)), nsh, i, j, k, l) ==> is_screened(
                Some((q, high)),
                nsh,
                i,
                j,
                k,
                l,
            ),
    decreases bra, ket,
{
    if ket > 0 {
        law_more_is_left_out_at_a_higher_threshold(q, low, high, nsh, pairs, bra, ket - 1);
    } else if bra > 0 {
        law_more_is_left_out_at_a_higher_threshold(q, low, high, nsh, pairs, bra - 1, bra);
    }
}

/// The largest magnitude is not negative.
proof fn lemma_peak_sign<T: Real>(block: Seq<T>, ni: int, nj: int, m: int, n: int)
    requires
        orders_exactly::<T>(),
        0 <= m,
        0 <= n,
        0 <= nj,
    ensures
        T::le(T::count(0), diagonal_peak(block, ni, nj, m, n)),
    decreases m, n,
{
    if n > 0 {
        lemma_peak_sign(block, ni, nj, m, n - 1);
    } else if m > 0 {
        lemma_peak_sign(block, ni, nj, m - 1, nj);
    }
}

/// No bound is negative.
proof fn lemma_bound_sign<T: Real>(
    rys: RysTables<T>,
    engine: Engine,
    shells: Seq<Shell<T>>,
    i: int,
    j: int,
)
    requires
        orders_exactly::<T>(),
        keeps_signs::<T>(),
        0 <= i < shells.len(),
        0 <= j < shells.len(),
    ensures
        T::le(
            T::count(0),
            schwarz_matrix(rys, engine, shells)[pair(i, shells.len() as int, j)],
        ),
{
    let n = shells.len() as int;
    lemma_pair_in_range(i, n, n, j);
    lemma_pair_parts(i, n, j);
    let (ni, nj) = (shells[i].functions(), shells[j].functions());
    let block = shell_block(rys, engine, None, shells, i, j, i, j);
    lemma_triangle_step(shells[i].l + 1);
    lemma_triangle_step(shells[j].l + 1);
    assert((shells[i].l + 1) * (shells[i].l + 2) >= 0 && (shells[j].l + 1) * (shells[j].l + 2)
        >= 0) by (nonlinear_arith);
    lemma_peak_sign(block, ni, nj, ni, 0);
    assert(T::le(T::count(0), T::root(diagonal_peak(block, ni, nj, ni, 0))));
}

/// A threshold that is not above zero leaves out nothing.
proof fn lemma_none_screened<T: Real>(
    rys: RysTables<T>,
    engine: Engine,
    shells: Seq<Shell<T>>,
    tau: T,
    c: (int, int, int, int),
)
    requires
        orders_exactly::<T>(),
        keeps_signs::<T>(),
        T::le(tau, T::count(0)),
        0 <= c.0 < shells.len(),
        0 <= c.1 < shells.len(),
        0 <= c.2 < shells.len(),
        0 <= c.3 < shells.len(),
    ensures
        !is_screened(
            Some((schwarz_matrix(rys, engine, shells), tau)),
            shells.len() as int,
            c.0,
            c.1,
            c.2,
            c.3,
        ),
{
    let n = shells.len() as int;
    let q = schwarz_matrix(rys, engine, shells);
    lemma_bound_sign(rys, engine, shells, c.0, c.1);
    lemma_bound_sign(rys, engine, shells, c.2, c.3);
    let v = T::prod(q[pair(c.0, n, c.1)], q[pair(c.2, n, c.3)]);
    assert(!T::lt(v, T::count(0)));
}

proof fn lemma_none_counted<T: Real>(
    rys: RysTables<T>,
    engine: Engine,
    shells: Seq<Shell<T>>,
    tau: T,
    pairs: Seq<(usize, usize)>,
    bra: int,
    ket: int,
)
    requires
        orders_exactly::<T>(),
        keeps_signs::<T>(),
        T::le(tau, T::count(0)),
        lists_pairs(pairs, shells.len() as int),
        0 <= bra,
        0 <= ket <= bra + 1,
        bra < pairs.len() || bra == pairs.len() && ket == 0,
    ensures
        screened_count(
            Some((schwarz_matrix(rys, engine, shells), tau)),
            shells.len() as int,
            pairs,
            bra,
            ket,
        ) == 0,
    decreases bra, ket,
{
    if ket > 0 {
        lemma_none_counted(rys, engine, shells, tau, pairs, bra, ket - 1);
        let (x, y) = (pairs[bra], pairs[ket - 1]);
        lemma_none_screened(
            rys,
            engine,
            shells,
            tau,
            (x.0 as int, x.1 as int, y.0 as int, y.1 as int),
        );
    } else if bra > 0 {
        lemma_none_counted(rys, engine, shells, tau, pairs, bra - 1, bra);
    }
}

/// A threshold that is not above zero leaves out nothing: no quartet is counted, and the
/// screened tensor is the tensor.
pub proof fn law_nothing_is_left_out_without_a_threshold<T: Real>(
    rys: RysTables<T>,
    engine: Engine,
    shells: Seq<Shell<T>>,
    tau: T,
    pairs: Seq<(usize, usize)>,
    out: Seq<T>,
    blocks: spec_fn(int, int, int, int) -> Seq<T>,
)
    requires
        orders_exactly::<T>(),
        keeps_signs::<T>(),
        T::le(tau, T::count(0)),
        lists_pairs(pairs, shells.len() as int),
        is_tensor(
            out,
            blocks,
            Some((schwarz_matrix(rys, engine, shells), tau)),
            function_counts(shells),
        ),
    ensures
        screened_count(
            Some((schwarz_matrix(rys, engine, shells), tau)),
            shells.len() as int,
            pairs,
            pairs.len() as int,
            0,
        ) == 0,
        is_tensor(out, blocks, None, function_counts(shells)),
{
    lemma_none_counted(rys, engine, shells, tau, pairs, pairs.len() as int, 0);
    let lens = function_counts(shells);
    assert forall|x: At, y: At, z: At, w: At|
        is_function(lens, x) && is_function(lens, y) && is_function(lens, z) && is_function(
            lens,
            w,
        ) implies #[trigger] out[slot4(lens, x, y, z, w)] == tensor_entry(
        blocks,
        lens,
        x,
        y,
        z,
        w,
    ) by {
        law_canonical_is_a_permutation(x, y, z, w);
        lemma_none_screened(rys, engine, shells, tau, shells_of(canonical(x, y, z, w)));
    }
}

/// Whether of two values one is at most the other, no magnitude is negative, and roots and
/// products of values that are not negative grow with them.
pub open spec fn grows_exactly<T: Real>() -> bool {
    &&& forall|a: T, b: T| T::lt(a, b) || #[trigger] T::le(b, a)
    &&& forall|a: T| T::le(T::count(0), #[trigger] T::magnitude(a))
    &&& forall|a: T, b: T|
        T::le(T::count(0), a) && T::le(a, b) ==> #[trigger] T::le(T::root(a), T::root(b))
    &&& forall|a: T, b: T, c: T, d: T|
        T::le(T::count(0), a) && T::le(a, b) && T::le(T::count(0), c) && T::le(c, d)
            ==> #[trigger] T::le(T::prod(a, c), T::prod(b, d))
}

/// The root of the magnitude of `(pq|pq)`.
pub open spec fn self_repulsion<T: Real>(
    blocks: spec_fn(int, int, int, int) -> Seq<T>,
    lens: Seq<int>,
    p: At,
    q: At,
) -> T {
    T::root(T::magnitude(in_block(blocks(p.0, q.0, p.0, q.0), lens, (p, q, p, q))))
}

/// The Schwarz inequality of four functions: `(pq|rs)` is in magnitude at most the product
/// of the roots of `(pq|pq)` and `(rs|rs)`.
pub open spec fn obeys_schwarz<T: Real>(
    blocks: spec_fn(int, int, int, int) -> Seq<T>,
    lens: Seq<int>,
    f: (At, At, At, At),
) -> bool {
    T::le(
        T::magnitude(in_block(blocks(f.0.0, f.1.0, f.2.0, f.3.0), lens, f)),
        T::prod(
            self_repulsion(blocks, lens, f.0, f.1),
            self_repulsion(blocks, lens, f.2, f.3),
        ),
    )
}

/// No entry `(mn|mn)` of a block exceeds the largest.
proof fn lemma_below_peak<T: Real>(
    block: Seq<T>,
    ni: int,
    nj: int,
    m: int,
    n: int,
    i: int,
    j: int,
)
    requires
        orders_exactly::<T>(),
        grows_exactly::<T>(),
        0 <= i,
        0 <= j < nj,
        0 <= m,
        0 <= n <= nj,
        i < m || i == m && j < n,
    ensures
        T::le(
            T::magnitude(block[quad(i, nj, j, ni, i, nj, j)]),
            diagonal_peak(block, ni, nj, m, n),
        ),
    decreases m, n,
{
    let v = T::magnitude(block[quad(i, nj, j, ni, i, nj, j)]);
    if n > 0 {
        let before = diagonal_peak(block, ni, nj, m, n - 1);
        let new = T::magnitude(block[quad(m, nj, n - 1, ni, m, nj, n - 1)]);
        lemma_peak_sign(block, ni, nj, m, n - 1);
        assert(T::lt(before, new) || T::le(new, before));
        assert(T::le(T::count(0), new));
        if !(i == m && j == n - 1) {
            lemma_below_peak(block, ni, nj, m, n - 1, i, j);
            assert(T::le(v, before));
        }
    } else {
        lemma_below_peak(block, ni, nj, m - 1, nj, i, j);
    }
}

/// The bound of a pair of shells holds of the functions in them.
pub proof fn lemma_pair_bound<T: Real>(
    rys: RysTables<T>,
    engine: Engine,
    shells: Seq<Shell<T>>,
    p: At,
    q: At,
)
    requires
        orders_exactly::<T>(),
        grows_exactly::<T>(),
        is_function(function_counts(shells), p),
        is_function(function_counts(shells), q),
    ensures
        T::le(
            self_repulsion(blocks_of(rys, engine, None, shells), function_counts(shells), p, q),
            schwarz_matrix(rys, engine, shells)[pair(p.0, shells.len() as int, q.0)],
        ),
{
    let n = shells.len() as int;
    lemma_pair_in_range(p.0, n, n, q.0);
    lemma_pair_parts(p.0, n, q.0);
    let (ni, nj) = (shells[p.0].functions(), shells[q.0].functions());
    let block = shell_block(rys, engine, None, shells, p.0, q.0, p.0, q.0);
    lemma_below_peak(block, ni, nj, ni, 0, p.1, q.1);
    let v = T::magnitude(block[quad(p.1, nj, q.1, ni, p.1, nj, q.1)]);
    assert(T::le(T::count(0), v));
    assert(T::le(T::root(v), T::root(diagonal_peak(block, ni, nj, ni, 0))));
}

/// Every entry of the screened tensor is that of the unscreened one, or is zero where that
/// one is in magnitude at most the threshold, given the Schwarz inequality for the quartet.
pub proof fn law_left_out_entries_are_at_most_the_threshold<T: Real>(
    rys: RysTables<T>,
    engine: Engine,
    shells: Seq<Shell<T>>,
    tau: T,
    screened: Seq<T>,
    full: Seq<T>,
    x: At,
    y: At,
    z: At,
    w: At,
)
    requires
        orders_exactly::<T>(),
        keeps_signs::<T>(),
        grows_exactly::<T>(),
        is_tensor(
            screened,
            blocks_of(rys, engine, None, shells),
            Some((schwarz_matrix(rys, engine, shells), tau)),
            function_counts(shells),
        ),
        is_tensor(
            full,
            blocks_of(rys, engine, None, shells),
            None,
            function_counts(shells),
        ),
        is_function(function_counts(shells), x),
        is_function(function_counts(shells), y),
        is_function(function_counts(shells), z),
        is_function(function_counts(shells), w),
        obeys_schwarz(
            blocks_of(rys, engine, None, shells),
            function_counts(shells),
            canonical(x, y, z, w),
        ),
    ensures
        ({
            let at = slot4(function_counts(shells), x, y, z, w);
            ||| screened[at] == full[at]
            ||| screened[at] == T::count(0) && T::le(T::magnitude(full[at]), tau)
        }),
{
    let lens = function_counts(shells);
    let blocks = blocks_of(rys, engine, None, shells);
    let q = schwarz_matrix(rys, engine, shells);
    let n = shells.len() as int;
    let f = canonical(x, y, z, w);
    let at = slot4(lens, x, y, z, w);
    law_canonical_is_a_permutation(x, y, z, w);
    assert(full[at] == tensor_entry(blocks, lens, x, y, z, w));
    let c = shells_of(f);
    if is_screened(Some((q, tau)), n, c.0, c.1, c.2, c.3) {
        lemma_pair_bound(rys, engine, shells, f.0, f.1);
        lemma_pair_bound(rys, engine, shells, f.2, f.3);
        let (a, b) = (
            self_repulsion(blocks, lens, f.0, f.1),
            self_repulsion(blocks, lens, f.2, f.3),
        );
        let (u, v) = (q[pair(c.0, n, c.1)], q[pair(c.2, n, c.3)]);
        assert(T::le(T::count(0), a) && T::le(T::count(0), b));
        assert(T::le(T::prod(a, b), T::prod(u, v)));
        assert(T::le(T::magnitude(full[at]), T::prod(a, b)));
        assert(T::lt(T::prod(u, v), tau));
        assert(T::le(T::magnitude(full[at]), T::prod(u, v)));
        assert(T::le(T::prod(u, v), tau));
    }
}

} // verus!
