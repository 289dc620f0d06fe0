//! What a direct contraction leaves out is small.
//!
//! A contraction adds products of integrals with entries of a density. The integrals of a
//! quartet of shells are left out by a bound on them and on the entries of the density
//! that they meet: those of all pairs of its shells, since the second matrix meets
//! functions of the bra with functions of the ket.
use vstd::prelude::*;

use crate::dense::{blocks_of, larger, schwarz_matrix};
use crate::direct::{
    density_bounds_of, density_peak, later_first, lemma_no_bits, source_of, Contraction, Indices,
};
use crate::direct_sum::{
    bra_of, coulomb_indices, exchange_indices, functions_of, in_range, integral_of, ket_of,
    lemma_function_names, lemma_pairs_of, lemma_source_functions, name_functions, quartet_blocks,
    Functions,
};
use crate::flat::{lemma_index_parts, lemma_pair_in_range, lemma_pair_parts, pair};
use crate::integrals::Engine;
use crate::math::solid_harmonics::vanishes;
use crate::offsets::{are_lengths, start};
use crate::scalar::Real;
use crate::screening::{
    grows_exactly, keeps_signs, lemma_pair_bound, orders_exactly, self_repulsion,
};
use crate::shell::{function_counts, lemma_function_counts};
use crate::shell_pairs::{law_every_pair_is_listed, law_pair_numbers_order_pairs};
use crate::slabs::lists_canonical;
use crate::tensor::{index_of, is_function, lemma_function_of, lemma_index, shells_of, total, At};

verus! {

/// Whether the magnitude of a product is the product of the magnitudes, and zero
/// annihilates.
pub open spec fn measures_exactly<T: Real>() -> bool {
    &&& forall|a: T, b: T| #[trigger]
        T::magnitude(T::prod(a, b)) == T::prod(T::magnitude(a), T::magnitude(b))
    &&& forall|a: T| #[trigger] T::prod(T::count(0), a) == T::count(0)
}

/// Whether a matrix over `n` functions is symmetric.
pub open spec fn is_symmetric<T>(density: Seq<T>, n: int) -> bool {
    forall|p: int, q: int|
        0 <= p < n && 0 <= q < n ==> #[trigger] density[pair(p, n, q)] == density[pair(q, n, p)]
}

proof fn lemma_larger<T: Real>(a: T, b: T)
    requires
        orders_exactly::<T>(),
        grows_exactly::<T>(),
    ensures
        T::le(a, larger(a, b)),
        T::le(b, larger(a, b)),
{
    assert(T::lt(a, b) || T::le(b, a));
    assert(T::lt(a, a) || T::le(a, a));
    assert(T::lt(b, b) || T::le(b, b));
}

/// No entry of a density exceeds the bound of its block.
proof fn lemma_below_density_peak<T: Real>(
    density: Seq<T>,
    lens: Seq<int>,
    x: At,
    y: At,
    k: int,
)
    requires
        orders_exactly::<T>(),
        grows_exactly::<T>(),
        is_function(lens, x),
        is_function(lens, y),
        pair(x.1, lens[y.0], y.1) < k,
    ensures
        T::le(
            T::magnitude(density[pair(index_of(lens, x), total(lens), index_of(lens, y))]),
            density_peak(density, lens, x.0, y.0, k),
        ),
    decreases k,
{
    let at = pair(x.1, lens[y.0], y.1);
    lemma_pair_in_range(x.1, lens[x.0], lens[y.0], y.1);
    lemma_pair_parts(x.1, lens[y.0], y.1);
    let before = density_peak(density, lens, x.0, y.0, k - 1);
    let last = T::magnitude(
        density[pair(
            start(lens, x.0) + (k - 1) / lens[y.0],
            total(lens),
            start(lens, y.0) + (k - 1) % lens[y.0],
        )],
    );
    lemma_larger(before, last);
    if at < k - 1 {
        lemma_below_density_peak(density, lens, x, y, k - 1);
    }
}

/// Whether the bound of two shells holds of two functions in them.
spec fn is_below<T: Real>(con: Contraction<T>, density: Seq<T>, e: int, x: At, y: At) -> bool {
    let lens = function_counts(con.list.shells);
    T::le(
        T::magnitude(density[pair(index_of(lens, x), total(lens), index_of(lens, y))]),
        con.entry(con.bounds[e], x.0, y.0),
    )
}

proof fn lemma_is_below<T: Real>(con: Contraction<T>, density: Seq<T>, e: int, x: At, y: At)
    requires
        orders_exactly::<T>(),
        grows_exactly::<T>(),
        con.bounds[e] == density_bounds_of(density, function_counts(con.list.shells)),
        is_function(function_counts(con.list.shells), x),
        is_function(function_counts(con.list.shells), y),
    ensures
        is_below(con, density, e, x, y),
{
    let lens = function_counts(con.list.shells);
    let m = lens.len() as int;
    lemma_pair_in_range(x.0, m, m, y.0);
    lemma_pair_parts(x.0, m, y.0);
    lemma_pair_in_range(x.1, lens[x.0], lens[y.0], y.1);
    lemma_below_density_peak(density, lens, x, y, lens[x.0] * lens[y.0]);
}

/// Whether two functions are two of four, at different places.
spec fn are_among(s: Functions, x: At, y: At) -> bool {
    ||| x == s.0 && (y == s.1 || y == s.2 || y == s.3)
    ||| x == s.1 && (y == s.0 || y == s.2 || y == s.3)
    ||| x == s.2 && (y == s.0 || y == s.1 || y == s.3)
    ||| x == s.3 && (y == s.0 || y == s.1 || y == s.2)
}

/// The bound of a quartet on a symmetric density is that of every two of its functions.
pub proof fn law_density_bound_covers_all_pairs<T: Real>(
    con: Contraction<T>,
    density: Seq<T>,
    e: int,
    ket: int,
    s: Functions,
    x: At,
    y: At,
)
    requires
        orders_exactly::<T>(),
        grows_exactly::<T>(),
        are_lengths(function_counts(con.list.shells)),
        con.bounds[e] == density_bounds_of(density, function_counts(con.list.shells)),
        is_symmetric(density, total(function_counts(con.list.shells))),
        name_functions(function_counts(con.list.shells), s),
        shells_of(s) == con.shells_with(ket),
        exists|a: int, b: int|
            0 <= a < 4 && 0 <= b < 4 && a != b && x == #[trigger] function_at(s, a) && y
                == #[trigger] function_at(s, b),
    ensures
        ({
            let lens = function_counts(con.list.shells);
            T::le(
                T::magnitude(density[pair(index_of(lens, x), total(lens), index_of(lens, y))]),
                con.density_bound(e, ket),
            )
        }),
{
    let lens = function_counts(con.list.shells);
    let n = total(lens);
    let (i, j, k, l) = con.shells_with(ket);
    let m = con.bounds[e];
    let (a, b, c, d, f, g) = (
        con.entry(m, i, j),
        con.entry(m, k, l),
        con.entry(m, i, k),
        con.entry(m, i, l),
        con.entry(m, j, k),
        con.entry(m, j, l),
    );
    lemma_larger(a, b);
    let ab = larger(a, b);
    lemma_larger(ab, c);
    let abc = larger(ab, c);
    lemma_larger(abc, d);
    let abcd = larger(abc, d);
    lemma_larger(abcd, f);
    let abcdf = larger(abcd, f);
    lemma_larger(abcdf, g);
    let top = larger(abcdf, g);
    assert(T::le(abcd, top));
    assert(T::le(abc, top));
    assert(T::le(ab, top));
    assert(T::le(a, top) && T::le(b, top) && T::le(c, top) && T::le(d, top) && T::le(f, top)
        && T::le(g, top));
    lemma_is_below(con, density, e, s.0, s.1);
    lemma_is_below(con, density, e, s.2, s.3);
    lemma_is_below(con, density, e, s.0, s.2);
    lemma_is_below(con, density, e, s.0, s.3);
    lemma_is_below(con, density, e, s.1, s.2);
    lemma_is_below(con, density, e, s.1, s.3);
    lemma_index(lens, x, y);
    lemma_index(lens, y, x);
    let (p, q) = (index_of(lens, x), index_of(lens, y));
    assert(density[pair(p, n, q)] == density[pair(q, n, p)]);
    assert(are_among(s, x, y));
}

/// The function at a place of four.
pub open spec fn function_at(s: Functions, k: int) -> At {
    if k == 0 {
        s.0
    } else if k == 1 {
        s.1
    } else if k == 2 {
        s.2
    } else {
        s.3
    }
}

/// The place in the source of a place in another order.
proof fn lemma_source_places(f: Functions, a: int, b: int) -> (r: (int, int))
    requires
        0 <= a < 4,
        0 <= b < 4,
        a != b,
    ensures
        0 <= r.0 < 4,
        0 <= r.1 < 4,
        r.0 != r.1,
        function_at(f, a) == function_at(source_of(f), r.0),
        function_at(f, b) == function_at(source_of(f), r.1),
{
    let s = source_of(f);
    let bra = later_first(f.0, f.1);
    let ket = later_first(f.2, f.3);
    let kept = s == (bra.0, bra.1, ket.0, ket.1);
    let place = |k: int|
        {
            let own = if k < 2 {
                if bra == (f.0, f.1) {
                    k
                } else {
                    1 - k
                }
            } else {
                if ket == (f.2, f.3) {
                    k
                } else {
                    5 - k
                }
            };
            if kept {
                own
            } else if own < 2 {
                own + 2
            } else {
                own - 2
            }
        };
    (place(a), place(b))
}

/// The product that four functions add where they meet an entry of a density, without any
/// bound.
pub open spec fn full_share<T: Real>(
    con: Contraction<T>,
    density: Seq<T>,
    f: Indices,
    at: int,
) -> T {
    let lens = function_counts(con.list.shells);
    T::prod(integral_of(quartet_blocks(con), lens, functions_of(lens, f)), density[at])
}

/// Whether the integral of four functions obeys the Schwarz inequality.
pub open spec fn integral_is_bounded<T: Real>(con: Contraction<T>, f: Functions) -> bool {
    let lens = function_counts(con.list.shells);
    let blocks = blocks_of(con.rys, Engine::Auto, None, con.list.shells);
    let s = source_of(f);
    T::le(
        T::magnitude(integral_of(quartet_blocks(con), lens, f)),
        T::prod(self_repulsion(blocks, lens, s.0, s.1), self_repulsion(blocks, lens, s.2, s.3)),
    )
}

/// Whether a contraction has the bounds of its shells and of a symmetric density.
pub open spec fn has_bounds<T: Real>(con: Contraction<T>, density: Seq<T>, e: int) -> bool {
    &&& forall|k: int|
        0 <= k < con.list.shells.len() ==> (#[trigger] con.list.shells[k]).valid()
    &&& lists_canonical(con.list.pairs, con.list.shells.len() as int)
    &&& con.bounds.len() <= 64
    &&& 0 <= e < con.bounds.len()
    &&& con.schwarz == schwarz_matrix(con.rys, Engine::Auto, con.list.shells)
    &&& con.bounds[e] == density_bounds_of(density, function_counts(con.list.shells))
    &&& is_symmetric(density, total(function_counts(con.list.shells)))
}

/// Whether what is added is the full product, or nothing where the product, or the integral
/// alone, is in magnitude at most the threshold, or the integral is zero.
pub open spec fn is_little_lost<T: Real>(
    con: Contraction<T>,
    density: Seq<T>,
    e: int,
    f: Indices,
    at: int,
) -> bool {
    let lens = function_counts(con.list.shells);
    let g = T::magnitude(integral_of(quartet_blocks(con), lens, functions_of(lens, f)));
    ||| con.share(density, e, f, at) == full_share(con, density, f, at)
    ||| con.share(density, e, f, at) == T::count(0) && (T::le(
        T::magnitude(full_share(con, density, f, at)),
        con.threshold,
    ) || T::le(g, con.threshold) || T::le(g, T::count(0)))
}

#[verifier::spinoff_prover]
#[verifier::rlimit(30)]
proof fn lemma_little_lost<T: Real>(
    con: Contraction<T>,
    density: Seq<T>,
    e: int,
    f: Indices,
    at: int,
    a: int,
    b: int,
)
    requires
        orders_exactly::<T>(),
        keeps_signs::<T>(),
        grows_exactly::<T>(),
        measures_exactly::<T>(),
        has_bounds(con, density, e),
        in_range(f, total(function_counts(con.list.shells))),
        integral_is_bounded(con, functions_of(function_counts(con.list.shells), f)),
        0 <= a < 4,
        0 <= b < 4,
        a != b,
        ({
            let lens = function_counts(con.list.shells);
            let g = functions_of(lens, f);
            at == pair(
                index_of(lens, function_at(g, a)),
                total(lens),
                index_of(lens, function_at(g, b)),
            )
        }),
    ensures
        is_little_lost(con, density, e, f, at),
{
    let shells = con.list.shells;
    let lens = function_counts(shells);
    let n = shells.len() as int;
    lemma_function_counts(shells);
    lemma_function_names(lens, f);
    let h = functions_of(lens, f);
    let s = source_of(h);
    lemma_source_functions(lens, h);
    let own = con.of_bra(bra_of(h));
    let ket = ket_of(h);
    law_every_pair_is_listed(con.list.pairs, n, s.0.0, s.1.0);
    law_every_pair_is_listed(con.list.pairs, n, s.2.0, s.3.0);
    law_pair_numbers_order_pairs(s.2.0, s.3.0, s.0.0, s.1.0, n);
    lemma_pairs_of(own, h, 0);
    assert(own.shells_with(ket) == shells_of(s));
    let v = integral_of(quartet_blocks(con), lens, h);
    let g = T::magnitude(v);
    let blocks = blocks_of(con.rys, Engine::Auto, None, shells);
    lemma_pair_bound(con.rys, Engine::Auto, shells, s.0, s.1);
    lemma_pair_bound(con.rys, Engine::Auto, shells, s.2, s.3);
    let (u, w) = (self_repulsion(blocks, lens, s.0, s.1), self_repulsion(blocks, lens, s.2, s.3));
    let (qu, qw) = (con.entry(con.schwarz, s.0.0, s.1.0), con.entry(con.schwarz, s.2.0, s.3.0));
    assert(T::le(T::count(0), u) && T::le(T::count(0), w));
    assert(T::le(T::prod(u, w), T::prod(qu, qw)));
    let bound = own.pair_bound(ket);
    assert(bound == T::prod(qu, qw));
    assert(T::le(g, bound));
    let d = density[at];
    assert(T::le(T::count(0), g) && T::le(T::count(0), T::magnitude(d)));
    if !con.takes(e, h) {
        if vanishes(qu) {
            assert(T::le(T::count(0), qw));
            assert(T::le(T::count(0), qu));
            assert(T::le(T::prod(qu, qw), T::prod(T::count(0), qw)));
            assert(T::le(g, T::count(0)));
        } else if T::lt(bound, con.threshold) {
            assert(T::le(bound, con.threshold));
            assert(T::le(g, con.threshold));
        } else {
            own.lemma_mask(ket, con.bounds.len() as int, e);
            if own.meets(e, ket) {
                lemma_no_bits(e as u64);
                assert(false);
            }
            let (x, y) = (function_at(h, a), function_at(h, b));
            let (pa, pb) = lemma_source_places(h, a, b);
            assert(x == function_at(s, pa) && y == function_at(s, pb));
            law_density_bound_covers_all_pairs(own, density, e, ket, s, x, y);
            let most = own.density_bound(e, ket);
            assert(T::le(T::magnitude(d), most));
            assert(T::le(T::prod(g, T::magnitude(d)), T::prod(bound, most)));
            assert(T::magnitude(T::prod(v, d)) == T::prod(g, T::magnitude(d)));
            assert(T::lt(T::prod(bound, most), con.threshold) || T::le(
                con.threshold,
                T::prod(bound, most),
            ));
            assert(T::le(T::prod(bound, most), con.threshold));
        }
    }
}

/// The product of an integral with an entry of a density is left out where the bound on the
/// integrals of its quartet of shells, or this times the bound on the entries of the density
/// that the quartet meets, is below the threshold.
pub proof fn law_small_products_are_left_out<T: Real>(
    con: Contraction<T>,
    density: Seq<T>,
    e: int,
    f: Indices,
    at: int,
)
    requires
        ({
            let lens = function_counts(con.list.shells);
            let h = functions_of(lens, f);
            let own = con.of_bra(bra_of(h));
            let bound = own.pair_bound(ket_of(h));
            ||| T::lt(bound, con.threshold)
            ||| !T::le(con.threshold, T::prod(bound, own.density_bound(e, ket_of(h))))
        }),
    ensures
        con.share(density, e, f, at) == T::count(0),
{
}

/// Of what the two matrices of a contraction add up, each product of an integral with an
/// entry of a symmetric density is added in full, or left out where the product or the
/// integral itself is at most the threshold, or the integral is zero, given the Schwarz
/// inequality.
pub proof fn law_left_out_products_are_at_most_the_threshold<T: Real>(
    con: Contraction<T>,
    density: Seq<T>,
    e: int,
    p: int,
    q: int,
    w: int,
)
    requires
        orders_exactly::<T>(),
        keeps_signs::<T>(),
        grows_exactly::<T>(),
        measures_exactly::<T>(),
        has_bounds(con, density, e),
        ({
            let n = total(function_counts(con.list.shells));
            0 <= p < n && 0 <= q < n && 0 <= w < n * n
        }),
        ({
            let lens = function_counts(con.list.shells);
            let n = total(lens);
            integral_is_bounded(con, functions_of(lens, coulomb_indices(n, p, q, w)))
                && integral_is_bounded(con, functions_of(lens, exchange_indices(n, p, q, w)))
        }),
    ensures
        ({
            let n = total(function_counts(con.list.shells));
            is_little_lost(con, density, e, coulomb_indices(n, p, q, w), w) && is_little_lost(
                con,
                density,
                e,
                exchange_indices(n, p, q, w),
                w,
            )
        }),
{
    let lens = function_counts(con.list.shells);
    let n = total(lens);
    lemma_function_counts(con.list.shells);
    lemma_index_parts(w, n, n);
    let (f, g) = (coulomb_indices(n, p, q, w), exchange_indices(n, p, q, w));
    lemma_function_of(lens, w / n);
    lemma_function_of(lens, w % n);
    assert(w == pair(w / n, n, w % n));
    lemma_little_lost(con, density, e, f, w, 2, 3);
    lemma_little_lost(con, density, e, g, w, 1, 3);
}

} // verus!
