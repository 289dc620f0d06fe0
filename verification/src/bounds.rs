//! Bounds on shells are those of their functions, and are attained by one of them.
use vstd::prelude::*;

use crate::dense::{blocks_of, diagonal_peak, is_tensor, schwarz_bound, schwarz_matrix};
use crate::df::{aux_bound, diagonal_of, fit_block, metric_block};
use crate::direct::{density_bounds_of, density_peak, Contraction};
use crate::eri_batch::shell_block;
use crate::flat::{lemma_index_parts, lemma_pair_in_range, lemma_pair_parts, pair, quad};
use crate::integrals::Engine;
use crate::math::rys::RysTables;
use crate::operator::peak;
use crate::scalar::Real;
use crate::screening::{grows_exactly, lemma_pair_bound, orders_exactly, self_repulsion};
use crate::shell::{function_counts, Shell};
use crate::tensor::{canonical, index_of, is_function, slot4, total, At};

verus! {

/// The largest of the magnitudes is one of them, or zero.
proof fn lemma_peak_is_attained<T: Real>(block: Seq<T>, ni: int, nj: int, m: int, n: int)
    requires
        0 <= m,
        0 <= n <= nj,
    ensures
        ({
            let peak = diagonal_peak(block, ni, nj, m, n);
            peak == T::count(0) || exists|i: int, j: int|
                0 <= i && 0 <= j < nj && (i < m || i == m && j < n) && peak == T::magnitude(
                    #[trigger] block[quad(i, nj, j, ni, i, nj, j)],
                )
        }),
    decreases m, n,
{
    if n > 0 {
        lemma_peak_is_attained(block, ni, nj, m, n - 1);
        let before = diagonal_peak(block, ni, nj, m, n - 1);
        let last = block[quad(m, nj, n - 1, ni, m, nj, n - 1)];
        if diagonal_peak(block, ni, nj, m, n) == before && before != T::count(0) {
            let (i, j) = choose|i: int, j: int|
                0 <= i && 0 <= j < nj && (i < m || i == m && j < n - 1) && before
                    == T::magnitude(#[trigger] block[quad(i, nj, j, ni, i, nj, j)]);
            assert(before == T::magnitude(block[quad(i, nj, j, ni, i, nj, j)]));
        } else if before != T::count(0) || T::magnitude(last) != T::count(0) {
            assert(diagonal_peak(block, ni, nj, m, n) == T::magnitude(last) || before
                == T::count(0));
        }
    } else if m > 0 {
        lemma_peak_is_attained(block, ni, nj, m - 1, nj);
        let peak = diagonal_peak(block, ni, nj, m - 1, nj);
        if peak != T::count(0) {
            let (i, j) = choose|i: int, j: int|
                0 <= i && 0 <= j < nj && (i < m - 1 || i == m - 1 && j < nj) && peak
                    == T::magnitude(#[trigger] block[quad(i, nj, j, ni, i, nj, j)]);
            assert(peak == T::magnitude(block[quad(i, nj, j, ni, i, nj, j)]));
        }
    }
}

/// The bound of a pair of shells is that of two functions in them, or the root of zero.
pub proof fn law_pair_bound_is_attained<T: Real>(
    rys: RysTables<T>,
    engine: Engine,
    shells: Seq<Shell<T>>,
    i: int,
    j: int,
)
    requires
        0 <= i < shells.len(),
        0 <= j < shells.len(),
        0 <= shells[i].functions(),
        0 <= shells[j].functions(),
    ensures
        ({
            let bound = schwarz_matrix(rys, engine, shells)[pair(i, shells.len() as int, j)];
            let lens = function_counts(shells);
            let blocks = blocks_of(rys, engine, None, shells);
            bound == T::root(T::count(0)) || exists|m: int, n: int|
                0 <= m < lens[i] && 0 <= n < lens[j] && bound == #[trigger] self_repulsion(
                    blocks,
                    lens,
                    (i, m),
                    (j, n),
                )
        }),
{
    let count = shells.len() as int;
    lemma_pair_in_range(i, count, count, j);
    lemma_pair_parts(i, count, j);
    let (ni, nj) = (shells[i].functions(), shells[j].functions());
    let block = shell_block(rys, engine, None, shells, i, j, i, j);
    let peak = diagonal_peak(block, ni, nj, ni, 0);
    lemma_peak_is_attained(block, ni, nj, ni, 0);
    let bound = schwarz_matrix(rys, engine, shells)[pair(i, count, j)];
    assert(bound == schwarz_bound(rys, engine, shells, i, j));
    if peak != T::count(0) {
        let (m, n) = choose|m: int, n: int|
            0 <= m && 0 <= n < nj && (m < ni || m == ni && n < 0) && peak == T::magnitude(
                #[trigger] block[quad(m, nj, n, ni, m, nj, n)],
            );
        let blocks = blocks_of(rys, engine, None, shells);
        assert(bound == self_repulsion(blocks, function_counts(shells), (i, m), (j, n)));
    }
}

/// An entry of the screened tensor is zero where the product of the bounds of its two pairs
/// of shells is below the threshold, and that of the unscreened tensor elsewhere.
pub proof fn law_screen_compares_the_bounds<T: Real>(
    rys: RysTables<T>,
    engine: Engine,
    shells: Seq<Shell<T>>,
    tau: T,
    screened: Seq<T>,
    full: Seq<T>,
    x: At,
    y: At,
    z: At,
    w: At,
)
    requires
        is_tensor(
            screened,
            blocks_of(rys, engine, None, shells),
            Some((schwarz_matrix(rys, engine, shells), tau)),
            function_counts(shells),
        ),
        is_tensor(full, blocks_of(rys, engine, None, shells), None, function_counts(shells)),
        is_function(function_counts(shells), x),
        is_function(function_counts(shells), y),
        is_function(function_counts(shells), z),
        is_function(function_counts(shells), w),
    ensures
        ({
            let at = slot4(function_counts(shells), x, y, z, w);
            let f = canonical(x, y, z, w);
            let bound = |p: At, q: At|
                schwarz_matrix(rys, engine, shells)[pair(p.0, shells.len() as int, q.0)];
            screened[at] == if T::lt(T::prod(bound(f.0, f.1), bound(f.2, f.3)), tau) {
                T::count(0)
            } else {
                full[at]
            }
        }),
{
    let lens = function_counts(shells);
    assert(lens.len() == shells.len());
    let at = slot4(lens, x, y, z, w);
    assert(screened[at] == screened[slot4(lens, x, y, z, w)]);
    assert(full[at] == full[slot4(lens, x, y, z, w)]);
}

/// The root of the magnitude of `(m|m)`.
pub open spec fn own_metric<T: Real>(
    rys: RysTables<T>,
    engine: Engine,
    p: Shell<T>,
    m: int,
) -> T {
    T::root(T::magnitude(metric_block(rys, engine, None, p, p)[pair(m, p.functions(), m)]))
}

/// The largest magnitude on a diagonal is one of them, or zero.
proof fn lemma_diagonal<T: Real>(block: Seq<T>, n: int, m: int)
    requires
        0 <= m,
    ensures
        ({
            let peak = diagonal_of(block, n, m);
            peak == T::count(0) || exists|k: int|
                0 <= k < m && peak == T::magnitude(#[trigger] block[pair(k, n, k)])
        }),
    decreases m,
{
    if m > 0 {
        lemma_diagonal(block, n, m - 1);
        let (peak, before) = (diagonal_of(block, n, m), diagonal_of(block, n, m - 1));
        if peak == before && peak != T::count(0) {
            let k = choose|k: int|
                0 <= k < m - 1 && before == T::magnitude(#[trigger] block[pair(k, n, k)]);
            assert(peak == T::magnitude(block[pair(k, n, k)]));
        } else if peak != T::count(0) {
            assert(peak == T::magnitude(block[pair(m - 1, n, m - 1)]));
        }
    }
}

/// No entry of a diagonal exceeds the largest.
proof fn lemma_below_diagonal<T: Real>(block: Seq<T>, n: int, m: int, k: int)
    requires
        orders_exactly::<T>(),
        grows_exactly::<T>(),
        0 <= k < m,
    ensures
        T::le(T::magnitude(block[pair(k, n, k)]), diagonal_of(block, n, m)),
    decreases m,
{
    let before = diagonal_of(block, n, m - 1);
    let last = T::magnitude(block[pair(m - 1, n, m - 1)]);
    assert(T::lt(before, last) || T::le(last, before));
    assert(T::le(T::count(0), last));
    if k < m - 1 {
        lemma_below_diagonal(block, n, m - 1, k);
    }
}

/// The bound of an auxiliary shell holds of the functions in it, and is that of one of them
/// or the root of zero.
pub proof fn law_aux_bound_is_the_largest<T: Real>(
    rys: RysTables<T>,
    engine: Engine,
    p: Shell<T>,
)
    requires
        orders_exactly::<T>(),
        grows_exactly::<T>(),
        0 <= p.functions(),
    ensures
        ({
            let bound = aux_bound(rys, engine, p);
            &&& forall|m: int|
                0 <= m < p.functions() ==> T::le(#[trigger] own_metric(rys, engine, p, m), bound)
            &&& bound == T::root(T::count(0)) || exists|m: int|
                0 <= m < p.functions() && bound == #[trigger] own_metric(rys, engine, p, m)
        }),
{
    let block = metric_block(rys, engine, None, p, p);
    let n = p.functions();
    let bound = aux_bound(rys, engine, p);
    assert forall|m: int| 0 <= m < n implies T::le(
        #[trigger] own_metric(rys, engine, p, m),
        bound,
    ) by {
        lemma_below_diagonal(block, n, n, m);
        let v = T::magnitude(block[pair(m, n, m)]);
        assert(T::le(T::count(0), v));
        assert(T::le(T::root(v), T::root(diagonal_of(block, n, n))));
    }
    lemma_diagonal(block, n, n);
    let peak = diagonal_of(block, n, n);
    if peak != T::count(0) {
        let m = choose|m: int|
            0 <= m < n && peak == T::magnitude(#[trigger] block[pair(m, n, m)]);
        assert(bound == own_metric(rys, engine, p, m));
    }
}

/// An integral `(xy|m)` is in magnitude at most the product of the bounds of the pair of
/// shells and of the auxiliary shell, given the Schwarz inequality for the functions.
pub proof fn law_fit_is_below_its_bounds<T: Real>(
    rys: RysTables<T>,
    engine: Engine,
    shells: Seq<Shell<T>>,
    p: Shell<T>,
    x: At,
    y: At,
    m: int,
)
    requires
        orders_exactly::<T>(),
        grows_exactly::<T>(),
        forall|a: T| T::le(T::count(0), a) ==> T::le(T::count(0), #[trigger] T::root(a)),
        is_function(function_counts(shells), x),
        is_function(function_counts(shells), y),
        0 <= m < p.functions(),
        ({
            let lens = function_counts(shells);
            T::le(
                T::magnitude(
                    fit_block(rys, engine, None, shells[x.0], shells[y.0], p)[quad(
                        x.1,
                        lens[y.0],
                        y.1,
                        p.functions(),
                        m,
                        1,
                        0,
                    )],
                ),
                T::prod(
                    self_repulsion(blocks_of(rys, engine, None, shells), lens, x, y),
                    own_metric(rys, engine, p, m),
                ),
            )
        }),
    ensures
        T::le(
            T::magnitude(
                fit_block(rys, engine, None, shells[x.0], shells[y.0], p)[quad(
                    x.1,
                    function_counts(shells)[y.0],
                    y.1,
                    p.functions(),
                    m,
                    1,
                    0,
                )],
            ),
            T::prod(
                schwarz_matrix(rys, engine, shells)[pair(x.0, shells.len() as int, y.0)],
                aux_bound(rys, engine, p),
            ),
        ),
{
    let lens = function_counts(shells);
    let own = self_repulsion(blocks_of(rys, engine, None, shells), lens, x, y);
    let other = own_metric(rys, engine, p, m);
    lemma_pair_bound(rys, engine, shells, x, y);
    law_aux_bound_is_the_largest(rys, engine, p);
    assert(T::le(other, aux_bound(rys, engine, p)));
    let block = shell_block(rys, engine, None, shells, x.0, y.0, x.0, y.0);
    let at = quad(x.1, lens[y.0], y.1, lens[x.0], x.1, lens[y.0], y.1);
    assert(T::le(T::count(0), T::magnitude(block[at])));
    assert(T::le(T::count(0), own));
    let metric = metric_block(rys, engine, None, p, p);
    assert(T::le(T::count(0), T::magnitude(metric[pair(m, p.functions(), m)])));
    assert(T::le(T::count(0), other));
    let q = schwarz_matrix(rys, engine, shells)[pair(x.0, shells.len() as int, y.0)];
    assert(T::le(T::prod(own, other), T::prod(q, aux_bound(rys, engine, p))));
}

/// The largest magnitude of a part of the matrix of an operator is that of one of its
/// entries, or zero, and no entry exceeds it.
pub proof fn law_peak_is_the_largest<T: Real>(s: Seq<T>, n: int)
    requires
        orders_exactly::<T>(),
        grows_exactly::<T>(),
        0 <= n <= s.len(),
    ensures
        forall|k: int| 0 <= k < n ==> T::le(T::magnitude(#[trigger] s[k]), peak(s, n)),
        peak(s, n) == T::count(0) || exists|k: int|
            0 <= k < n && peak(s, n) == T::magnitude(#[trigger] s[k]),
    decreases n,
{
    if n > 0 {
        law_peak_is_the_largest(s, n - 1);
        let (before, last) = (peak(s, n - 1), T::magnitude(s[n - 1]));
        assert(T::lt(before, last) || T::le(last, before));
        assert(T::le(T::count(0), last));
        if peak(s, n) == before && before != T::count(0) {
            let k = choose|k: int| 0 <= k < n - 1 && before == T::magnitude(#[trigger] s[k]);
            assert(peak(s, n) == T::magnitude(s[k]));
        }
    }
}

/// Whether a value is the magnitude of an entry of a density for functions of two shells,
/// or zero.
pub open spec fn is_entry_of<T: Real>(
    density: Seq<T>,
    lens: Seq<int>,
    v: T,
    i: int,
    j: int,
) -> bool {
    v == T::count(0) || exists|a: int, b: int|
        0 <= a < lens[i] && 0 <= b < lens[j] && v == T::magnitude(
            #[trigger] density[pair(index_of(lens, (i, a)), total(lens), index_of(lens, (j, b)))],
        )
}

proof fn lemma_density_peak<T: Real>(density: Seq<T>, lens: Seq<int>, i: int, j: int, k: int)
    requires
        0 <= lens[i],
        0 <= lens[j],
        k <= lens[i] * lens[j],
    ensures
        is_entry_of(density, lens, density_peak(density, lens, i, j, k), i, j),
    decreases k,
{
    if k > 0 {
        lemma_density_peak(density, lens, i, j, k - 1);
        lemma_index_parts(k - 1, lens[i], lens[j]);
        let (a, b) = ((k - 1) / lens[j], (k - 1) % lens[j]);
        let v = density[pair(index_of(lens, (i, a)), total(lens), index_of(lens, (j, b)))];
        assert(is_entry_of(density, lens, T::magnitude(v), i, j));
    }
}

/// The bound on a density for two of the shells.
proof fn lemma_bound_of<T: Real>(con: Contraction<T>, density: Seq<T>, e: int, i: int, j: int)
    requires
        con.bounds[e] == density_bounds_of(density, function_counts(con.list.shells)),
        0 <= i < con.list.shells.len(),
        0 <= j < con.list.shells.len(),
        0 <= con.list.shells[i].functions(),
        0 <= con.list.shells[j].functions(),
    ensures
        is_entry_of(
            density,
            function_counts(con.list.shells),
            con.entry(con.bounds[e], i, j),
            i,
            j,
        ),
{
    let lens = function_counts(con.list.shells);
    let n = lens.len() as int;
    lemma_pair_in_range(i, n, n, j);
    lemma_pair_parts(i, n, j);
    lemma_density_peak(density, lens, i, j, lens[i] * lens[j]);
}

/// The bound of a quartet on a density is the magnitude of an entry that the quartet meets,
/// or zero.
pub proof fn law_density_bound_is_attained<T: Real>(
    con: Contraction<T>,
    density: Seq<T>,
    e: int,
    ket: int,
)
    requires
        con.bounds[e] == density_bounds_of(density, function_counts(con.list.shells)),
        ({
            let (i, j, k, l) = con.shells_with(ket);
            let n = con.list.shells.len();
            0 <= i < n && 0 <= j < n && 0 <= k < n && 0 <= l < n
        }),
        forall|i: int|
            0 <= i < con.list.shells.len() ==> 0 <= #[trigger] con.list.shells[i].functions(),
    ensures
        ({
            let (i, j, k, l) = con.shells_with(ket);
            let lens = function_counts(con.list.shells);
            let v = con.density_bound(e, ket);
            ||| is_entry_of(density, lens, v, i, j)
            ||| is_entry_of(density, lens, v, k, l)
            ||| is_entry_of(density, lens, v, i, k)
            ||| is_entry_of(density, lens, v, i, l)
            ||| is_entry_of(density, lens, v, j, k)
            ||| is_entry_of(density, lens, v, j, l)
        }),
{
    let (i, j, k, l) = con.shells_with(ket);
    lemma_bound_of(con, density, e, i, j);
    lemma_bound_of(con, density, e, k, l);
    lemma_bound_of(con, density, e, i, k);
    lemma_bound_of(con, density, e, i, l);
    lemma_bound_of(con, density, e, j, k);
    lemma_bound_of(con, density, e, j, l);
}

} // verus!
