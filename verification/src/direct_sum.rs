//! What a direct contraction adds up.
//!
//! A contraction runs through integrals in an order that depends on their shapes, and
//! adds each in all orders of its functions. Without rounding the order does not matter:
//! every entry is the sum over the integrals that were not left out.
use vstd::prelude::*;

use crate::direct::{
    block_spread, contracted, has_bit, images, indices_in, indices_of, is_kept, is_source,
    law_every_order_has_one_source, law_images_are_distinct, law_images_are_those_of_functions,
    lemma_image_forms, source_of, spread, Contraction, Indices, Tally,
};
use crate::queue::{lemma_times_joined, place_of, times_in, Item, Waiting};
use crate::eri_batch::{function_size, shell_block, BatchKey};
use crate::exact::{
    adds_exactly, lemma_regrouped, lemma_sum_empty, lemma_sum_insert, sum_before, sum_over,
};
use crate::flat::{
    lemma_pair_in_range, lemma_pair_order, lemma_quad_index, lemma_quad_in_range, lemma_quad_parts,
    pair, quad, quad_parts,
};
use crate::math::solid_harmonics::vanishes;
use crate::offsets::are_lengths;
use crate::scalar::{Real, Scalar};
use crate::shell::{function_counts, lemma_function_counts};
use crate::shell_pairs::{law_every_pair_is_listed, law_pair_numbers_order_pairs, pair_number};
use crate::slabs::lists_canonical;
use crate::tensor::{
    function_of, in_block, index_of, is_canonical, is_function, lemma_function_of, lemma_index,
    shells_of, total, At,
};

verus! {

/// An integral and an order of its functions.
pub type Step<T> = (T, Indices);

/// The matrices with integrals contracted, one after the other.
pub open spec fn run<T: Scalar>(
    t: Tally<T>,
    density: Seq<T>,
    n: int,
    s: Seq<Step<T>>,
    want: bool,
) -> Tally<T>
    decreases s.len(),
{
    if s.len() == 0 {
        t
    } else {
        contracted(
            run(t, density, n, s.drop_last(), want),
            density,
            n,
            s.last().0,
            s.last().1,
            want,
        )
    }
}

proof fn lemma_run_joined<T: Scalar>(
    t: Tally<T>,
    density: Seq<T>,
    n: int,
    s: Seq<Step<T>>,
    u: Seq<Step<T>>,
    want: bool,
)
    ensures
        run(t, density, n, s + u, want) == run(run(t, density, n, s, want), density, n, u, want),
    decreases u.len(),
{
    if u.len() == 0 {
        assert(s + u =~= s);
    } else {
        lemma_run_joined(t, density, n, s, u.drop_last(), want);
        assert((s + u).drop_last() =~= s + u.drop_last());
    }
}

/// Whether four indices are below `n`.
pub open spec fn in_range(f: Indices, n: int) -> bool {
    0 <= f.0 < n && 0 <= f.1 < n && 0 <= f.2 < n && 0 <= f.3 < n
}

/// What a step adds to the entry `(p, q)` of the first matrix.
spec fn coulomb_share<T: Scalar>(density: Seq<T>, n: int, s: Step<T>, p: int, q: int) -> T {
    if s.1.0 == p && s.1.1 == q {
        T::prod(s.0, density[pair(s.1.2, n, s.1.3)])
    } else {
        T::count(0)
    }
}

/// What a step adds to the entry `(p, q)` of the second matrix.
spec fn exchange_share<T: Scalar>(density: Seq<T>, n: int, s: Step<T>, p: int, q: int) -> T {
    if s.1.0 == p && s.1.2 == q {
        T::prod(s.0, density[pair(s.1.1, n, s.1.3)])
    } else {
        T::count(0)
    }
}

proof fn lemma_plus_zero<T: Scalar>(a: T)
    requires
        adds_exactly::<T>(),
    ensures
        T::sum(a, T::count(0)) == a,
{
    lemma_regrouped(a, a, T::count(0));
}

/// An entry after a run is what it was plus the shares of the steps.
proof fn lemma_run_entries<T: Scalar>(
    t: Tally<T>,
    density: Seq<T>,
    n: int,
    s: Seq<Step<T>>,
    want: bool,
    p: int,
    q: int,
)
    requires
        adds_exactly::<T>(),
        0 <= p < n,
        0 <= q < n,
        t.coulomb.len() == n * n,
        want ==> t.exchange is Some && t.exchange->0.len() == n * n,
        forall|i: int| 0 <= i < s.len() ==> in_range((#[trigger] s[i]).1, n),
    ensures
        run(t, density, n, s, want).coulomb.len() == n * n,
        run(t, density, n, s, want).coulomb[pair(p, n, q)] == T::sum(
            t.coulomb[pair(p, n, q)],
            sum_before(|i: int| coulomb_share(density, n, s[i], p, q), s.len() as int),
        ),
        want ==> ({
            let x = run(t, density, n, s, want).exchange;
            &&& x is Some
            &&& x->0.len() == n * n
            &&& x->0[pair(p, n, q)] == T::sum(
                t.exchange->0[pair(p, n, q)],
                sum_before(|i: int| exchange_share(density, n, s[i], p, q), s.len() as int),
            )
        }),
    decreases s.len(),
{
    let at = pair(p, n, q);
    lemma_plus_zero(t.coulomb[at]);
    if want {
        lemma_plus_zero(t.exchange->0[at]);
    }
    if s.len() > 0 {
        let head = s.drop_last();
        let m = head.len() as int;
        assert forall|i: int| 0 <= i < head.len() implies in_range((#[trigger] head[i]).1, n) by {
            assert(head[i] == s[i]);
        }
        lemma_run_entries(t, density, n, head, want, p, q);
        let last = s.last();
        assert(in_range(s[m].1, n));
        let f = last.1;
        lemma_pair_in_range(p, n, n, q);
        lemma_pair_in_range(f.0, n, n, f.1);
        lemma_pair_in_range(f.0, n, n, f.2);
        lemma_pair_order(p, q, f.0, f.1, n);
        lemma_pair_order(p, q, f.0, f.2, n);
        let jh = |i: int| coulomb_share(density, n, head[i], p, q);
        let js = |i: int| coulomb_share(density, n, s[i], p, q);
        crate::exact::lemma_same_sum(jh, js, m);
        let base = t.coulomb[at];
        lemma_regrouped(base, sum_before(jh, m), js(m));
        lemma_plus_zero(sum_before(jh, m));
        if want {
            let kh = |i: int| exchange_share(density, n, head[i], p, q);
            let ks = |i: int| exchange_share(density, n, s[i], p, q);
            crate::exact::lemma_same_sum(kh, ks, m);
            lemma_regrouped(t.exchange->0[at], sum_before(kh, m), ks(m));
            lemma_plus_zero(sum_before(kh, m));
        }
    }
}

/// How often four indices stand in a list of steps.
spec fn times_run<T>(s: Seq<Step<T>>, f: Indices) -> int
    decreases s.len(),
{
    if s.len() == 0 {
        0
    } else {
        times_run(s.drop_last(), f) + if s.last().1 == f {
            1int
        } else {
            0int
        }
    }
}

proof fn lemma_times_run_joined<T>(s: Seq<Step<T>>, u: Seq<Step<T>>, f: Indices)
    ensures
        times_run(s + u, f) == times_run(s, f) + times_run(u, f),
    decreases u.len(),
{
    if u.len() == 0 {
        assert(s + u =~= s);
    } else {
        lemma_times_run_joined(s, u.drop_last(), f);
        assert((s + u).drop_last() =~= s + u.drop_last());
    }
}

proof fn lemma_times_run_positive<T>(s: Seq<Step<T>>, f: Indices)
    ensures
        0 <= times_run(s, f),
        times_run(s, f) > 0 <==> exists|i: int| 0 <= i < s.len() && (#[trigger] s[i]).1 == f,
    decreases s.len(),
{
    if s.len() > 0 {
        let head = s.drop_last();
        lemma_times_run_positive(head, f);
        if times_run(head, f) > 0 {
            let i = choose|i: int| 0 <= i < head.len() && (#[trigger] head[i]).1 == f;
            assert(s[i].1 == f);
        }
        if s.last().1 == f {
            assert(s[s.len() - 1].1 == f);
        }
        if exists|i: int| 0 <= i < s.len() && (#[trigger] s[i]).1 == f {
            let i = choose|i: int| 0 <= i < s.len() && (#[trigger] s[i]).1 == f;
            if i < head.len() {
                assert(head[i].1 == f);
            }
        }
    }
}

/// Four functions.
pub type Functions = (At, At, At, At);

/// Whether four numbers name functions.
pub open spec fn name_functions(lens: Seq<int>, f: Functions) -> bool {
    is_function(lens, f.0) && is_function(lens, f.1) && is_function(lens, f.2) && is_function(
        lens,
        f.3,
    )
}

/// The functions with four indices.
pub open spec fn functions_of(lens: Seq<int>, f: Indices) -> Functions {
    (function_of(lens, f.0), function_of(lens, f.1), function_of(lens, f.2), function_of(lens, f.3))
}

/// The integral that the contraction takes for four functions: that of the order that
/// stands for them.
pub open spec fn integral_of<T>(
    blocks: spec_fn(int, int, int, int) -> Seq<T>,
    lens: Seq<int>,
    f: Functions,
) -> T {
    let s = source_of(f);
    in_block(blocks(s.0.0, s.1.0, s.2.0, s.3.0), lens, s)
}

proof fn lemma_indices(lens: Seq<int>, f: Functions, g: Functions)
    requires
        are_lengths(lens),
        name_functions(lens, f),
        name_functions(lens, g),
    ensures
        in_range(indices_of(lens, f), total(lens)),
        functions_of(lens, indices_of(lens, f)) == f,
        indices_of(lens, f) == indices_of(lens, g) <==> f == g,
{
    lemma_index(lens, f.0, g.0);
    lemma_index(lens, f.1, g.1);
    lemma_index(lens, f.2, g.2);
    lemma_index(lens, f.3, g.3);
    let h = functions_of(lens, indices_of(lens, f));
    lemma_function_of(lens, index_of(lens, f.0));
    lemma_function_of(lens, index_of(lens, f.1));
    lemma_function_of(lens, index_of(lens, f.2));
    lemma_function_of(lens, index_of(lens, f.3));
    lemma_index(lens, f.0, h.0);
    lemma_index(lens, f.1, h.1);
    lemma_index(lens, f.2, h.2);
    lemma_index(lens, f.3, h.3);
}

/// One integral in several orders.
spec fn ordered_steps<T>(g: T, s: Seq<Indices>) -> Seq<Step<T>> {
    Seq::new(s.len(), |i: int| (g, s[i]))
}

proof fn lemma_spread_runs<T: Scalar>(
    t: Tally<T>,
    density: Seq<T>,
    n: int,
    g: T,
    s: Seq<Indices>,
    want: bool,
)
    ensures
        spread(t, density, n, g, s, want) == run(t, density, n, ordered_steps(g, s), want),
    decreases s.len(),
{
    if s.len() > 0 {
        lemma_spread_runs(t, density, n, g, s.drop_last(), want);
        assert(ordered_steps(g, s).drop_last() =~= ordered_steps(g, s.drop_last()));
    }
}

proof fn lemma_ordered_times<T>(g: T, s: Seq<Indices>, f: Indices)
    requires
        s.no_duplicates(),
    ensures
        times_run(ordered_steps(g, s), f) == (if s.contains(f) {
            1int
        } else {
            0int
        }),
    decreases s.len(),
{
    if s.len() > 0 {
        let head = s.drop_last();
        assert(head.no_duplicates());
        lemma_ordered_times(g, head, f);
        assert(ordered_steps(g, s).drop_last() =~= ordered_steps(g, head));
        if head.contains(f) {
            let i = choose|i: int| 0 <= i < head.len() && head[i] == f;
            assert(s[i] == f);
            assert(s[s.len() - 1] != f);
        }
        if s.last() == f {
            assert(s[s.len() - 1] == f);
        }
        if s.contains(f) {
            let i = choose|i: int| 0 <= i < s.len() && s[i] == f;
            if i < head.len() {
                assert(head[i] == f);
            }
        }
    }
}

/// Whether every step is in range and takes the integral of its functions.
spec fn takes_integrals<T>(
    s: Seq<Step<T>>,
    blocks: spec_fn(int, int, int, int) -> Seq<T>,
    lens: Seq<int>,
) -> bool {
    forall|i: int|
        0 <= i < s.len() ==> in_range((#[trigger] s[i]).1, total(lens)) && s[i].0 == integral_of(
            blocks,
            lens,
            functions_of(lens, s[i].1),
        )
}

/// The orders of the functions that stand for an integral.
proof fn lemma_image_steps<T>(
    blocks: spec_fn(int, int, int, int) -> Seq<T>,
    lens: Seq<int>,
    s: Functions,
    f: Functions,
)
    requires
        are_lengths(lens),
        name_functions(lens, s),
        name_functions(lens, f),
        is_source(s),
    ensures
        ({
            let g = in_block(blocks(s.0.0, s.1.0, s.2.0, s.3.0), lens, s);
            let steps = ordered_steps(g, images(indices_of(lens, s)));
            &&& takes_integrals(steps, blocks, lens)
            &&& times_run(steps, indices_of(lens, f)) == (if source_of(f) == s {
                1int
            } else {
                0int
            })
        }),
{
    let g = in_block(blocks(s.0.0, s.1.0, s.2.0, s.3.0), lens, s);
    let u = images(s);
    let v = images(indices_of(lens, s));
    law_images_are_those_of_functions(lens, s);
    law_images_are_distinct(s);
    assert(v.len() == u.len());
    assert forall|i: int| 0 <= i < u.len() implies name_functions(lens, #[trigger] u[i]) && v[i]
        == indices_of(lens, u[i]) by {
        lemma_image_forms(s, i);
    }
    assert forall|i: int, j: int| 0 <= i < v.len() && 0 <= j < v.len() && i != j implies v[i]
        != v[j] by {
        assert(u[i] != u[j]);
        lemma_indices(lens, u[i], u[j]);
    }
    lemma_ordered_times(g, v, indices_of(lens, f));
    law_every_order_has_one_source(f, s);
    if u.contains(f) {
        let i = choose|i: int| 0 <= i < u.len() && u[i] == f;
        assert(v[i] == indices_of(lens, f));
    }
    if v.contains(indices_of(lens, f)) {
        let i = choose|i: int| 0 <= i < v.len() && v[i] == indices_of(lens, f);
        assert(name_functions(lens, u[i]));
        lemma_indices(lens, u[i], f);
        assert(u[i] == f);
    }
    let steps = ordered_steps(g, v);
    assert forall|i: int| 0 <= i < steps.len() implies in_range(
        (#[trigger] steps[i]).1,
        total(lens),
    ) && steps[i].0 == integral_of(blocks, lens, functions_of(lens, steps[i].1)) by {
        assert(name_functions(lens, u[i]));
        lemma_indices(lens, u[i], u[i]);
        assert(u.contains(u[i]));
        law_every_order_has_one_source(u[i], s);
    }
}

/// The steps of the entries of a block before `k`.
spec fn block_steps<T>(lens: Seq<int>, block: Seq<T>, q: Indices, k: int) -> Seq<Step<T>>
    decreases k,
{
    if k <= 0 {
        Seq::empty()
    } else {
        let before = block_steps(lens, block, q, k - 1);
        let (a, b, c, d) = quad_parts(k - 1, lens[q.1], lens[q.2], lens[q.3]);
        if is_kept(q, a, b, c, d) {
            before + ordered_steps(block[k - 1], images(indices_in(lens, q, a, b, c, d)))
        } else {
            before
        }
    }
}

proof fn lemma_block_runs<T: Scalar>(
    t: Tally<T>,
    density: Seq<T>,
    lens: Seq<int>,
    block: Seq<T>,
    q: Indices,
    want: bool,
    k: int,
)
    ensures
        block_spread(t, density, lens, block, q, want, k) == run(
            t,
            density,
            total(lens),
            block_steps(lens, block, q, k),
            want,
        ),
    decreases k,
{
    if k > 0 {
        lemma_block_runs(t, density, lens, block, q, want, k - 1);
        let before = block_steps(lens, block, q, k - 1);
        let (a, b, c, d) = quad_parts(k - 1, lens[q.1], lens[q.2], lens[q.3]);
        if is_kept(q, a, b, c, d) {
            let s = images(indices_in(lens, q, a, b, c, d));
            let n = total(lens);
            lemma_run_joined(t, density, n, before, ordered_steps(block[k - 1], s), want);
            lemma_spread_runs(run(t, density, n, before, want), density, n, block[k - 1], s, want);
        }
    }
}

/// The place of four functions in the block of their shells.
spec fn entry_in(lens: Seq<int>, f: Functions) -> int {
    quad(f.0.1, lens[f.1.0], f.1.1, lens[f.2.0], f.2.1, lens[f.3.0], f.3.1)
}

proof fn lemma_joined_integrals<T>(
    s: Seq<Step<T>>,
    u: Seq<Step<T>>,
    blocks: spec_fn(int, int, int, int) -> Seq<T>,
    lens: Seq<int>,
)
    requires
        takes_integrals(s, blocks, lens),
        takes_integrals(u, blocks, lens),
    ensures
        takes_integrals(s + u, blocks, lens),
{
    let w = s + u;
    assert forall|i: int| 0 <= i < w.len() implies in_range((#[trigger] w[i]).1, total(lens))
        && w[i].0 == integral_of(blocks, lens, functions_of(lens, w[i].1)) by {
        if i < s.len() {
            assert(w[i] == s[i]);
        } else {
            assert(w[i] == u[i - s.len()]);
        }
    }
}

pub proof fn lemma_source_functions(lens: Seq<int>, f: Functions)
    requires
        name_functions(lens, f),
    ensures
        name_functions(lens, source_of(f)),
        is_source(source_of(f)),
{
}

#[verifier::spinoff_prover]
proof fn lemma_block_steps<T>(
    blocks: spec_fn(int, int, int, int) -> Seq<T>,
    lens: Seq<int>,
    q: Indices,
    k: int,
    f: Functions,
)
    requires
        are_lengths(lens),
        name_functions(lens, f),
        is_canonical(q),
        0 <= q.0 < lens.len(),
        0 <= q.1 < lens.len(),
        0 <= q.2 < lens.len(),
        0 <= q.3 < lens.len(),
        0 <= k <= lens[q.0] * lens[q.1] * lens[q.2] * lens[q.3],
    ensures
        ({
            let steps = block_steps(lens, blocks(q.0, q.1, q.2, q.3), q, k);
            let s = source_of(f);
            &&& takes_integrals(steps, blocks, lens)
            &&& times_run(steps, indices_of(lens, f)) == (if shells_of(s) == q && entry_in(lens, s)
                < k {
                1int
            } else {
                0int
            })
        }),
    decreases k,
{
    let block = blocks(q.0, q.1, q.2, q.3);
    let s = source_of(f);
    lemma_source_functions(lens, f);
    if k == 0 {
        if shells_of(s) == q {
            lemma_quad_in_range(
                s.0.1,
                lens[q.0],
                s.1.1,
                lens[q.1],
                s.2.1,
                lens[q.2],
                s.3.1,
                lens[q.3],
            );
        }
    } else {
        lemma_block_steps(blocks, lens, q, k - 1, f);
        lemma_quad_index(k - 1, lens[q.0], lens[q.1], lens[q.2], lens[q.3]);
        let (a, b, c, d) = quad_parts(k - 1, lens[q.1], lens[q.2], lens[q.3]);
        let g = ((q.0, a), (q.1, b), (q.2, c), (q.3, d));
        assert(entry_in(lens, g) == k - 1);
        if shells_of(s) == q {
            lemma_quad_parts(s.0.1, lens[q.1], s.1.1, lens[q.2], s.2.1, lens[q.3], s.3.1);
        }
        assert(s == g <==> shells_of(s) == q && entry_in(lens, s) == k - 1);
        if is_kept(q, a, b, c, d) {
            assert(is_source(g));
            lemma_image_steps(blocks, lens, g, f);
            assert(indices_of(lens, g) == indices_in(lens, q, a, b, c, d));
            let before = block_steps(lens, block, q, k - 1);
            let more = ordered_steps(block[k - 1], images(indices_of(lens, g)));
            lemma_joined_integrals(before, more, blocks, lens);
            lemma_times_run_joined(before, more, indices_of(lens, f));
        }
    }
}

/// The blocks of the shell quartets of a contraction.
pub open spec fn quartet_blocks<T: Real>(con: Contraction<T>) -> spec_fn(
    int,
    int,
    int,
    int,
) -> Seq<T> {
    |i: int, j: int, k: int, l: int|
        shell_block(con.rys, con.engine, None, con.list.shells, i, j, k, l)
}

/// The steps of a ket pair.
spec fn item_steps<T: Real>(con: Contraction<T>, e: int, item: Item) -> Seq<Step<T>> {
    if has_bit(item.1, e) {
        let q = con.shells_with(item.0 as int);
        block_steps(
            function_counts(con.list.shells),
            quartet_blocks(con)(q.0, q.1, q.2, q.3),
            q,
            function_size(con.list.shells, q.0, q.1, q.2, q.3),
        )
    } else {
        Seq::empty()
    }
}

/// The steps of ket pairs in turn.
spec fn items_steps<T: Real>(con: Contraction<T>, e: int, s: Seq<Item>) -> Seq<Step<T>>
    decreases s.len(),
{
    if s.len() == 0 {
        Seq::empty()
    } else {
        items_steps(con, e, s.drop_last()) + item_steps(con, e, s.last())
    }
}

proof fn lemma_items_run<T: Real>(
    con: Contraction<T>,
    t: Tally<T>,
    density: Seq<T>,
    e: int,
    s: Seq<Item>,
)
    ensures
        con.with_items(t, density, e, s) == run(
            t,
            density,
            total(function_counts(con.list.shells)),
            items_steps(con, e, s),
            con.want,
        ),
    decreases s.len(),
{
    if s.len() > 0 {
        let head = s.drop_last();
        let item = s.last();
        lemma_items_run(con, t, density, e, head);
        let n = total(function_counts(con.list.shells));
        let before = items_steps(con, e, head);
        lemma_run_joined(t, density, n, before, item_steps(con, e, item), con.want);
        let mid = run(t, density, n, before, con.want);
        if has_bit(item.1, e) {
            let q = con.shells_with(item.0 as int);
            lemma_block_runs(
                mid,
                density,
                function_counts(con.list.shells),
                quartet_blocks(con)(q.0, q.1, q.2, q.3),
                q,
                con.want,
                function_size(con.list.shells, q.0, q.1, q.2, q.3),
            );
        }
    }
}

/// Whether all items are those of ket pairs before `n`.
spec fn are_items<T: Real>(con: Contraction<T>, s: Seq<Item>, n: int) -> bool {
    forall|i: int|
        0 <= i < s.len() ==> (#[trigger] s[i]).0 < n && s[i] == con.item(s[i].0 as int)
}

/// Whether all items that wait are those of ket pairs before `n`.
spec fn are_waiting<T: Real>(con: Contraction<T>, w: Waiting<Item>, n: int) -> bool {
    forall|b: int| 0 <= b < w.lists.len() ==> are_items(con, #[trigger] w.lists[b], n)
}

proof fn lemma_joined_items<T: Real>(con: Contraction<T>, s: Seq<Item>, u: Seq<Item>, n: int)
    requires
        are_items(con, s, n),
        are_items(con, u, n),
    ensures
        are_items(con, s + u, n),
{
    let w = s + u;
    assert forall|i: int| 0 <= i < w.len() implies (#[trigger] w[i]).0 < n && w[i] == con.item(
        w[i].0 as int,
    ) by {
        if i < s.len() {
            assert(w[i] == s[i]);
        } else {
            assert(w[i] == u[i - s.len()]);
        }
    }
}

proof fn lemma_waiting_items<T: Real>(con: Contraction<T>, w: Waiting<Item>, n: int, m: int)
    requires
        are_waiting(con, w, n),
        0 <= m <= w.lists.len(),
    ensures
        are_items(con, w.listed(m), n),
    decreases m,
{
    if m > 0 {
        lemma_waiting_items(con, w, n, m - 1);
        lemma_joined_items(con, w.listed(m - 1), w.lists[m - 1], n);
    }
}

/// A queue of items of the ket pairs before `n - 1` that the next one joins.
proof fn lemma_joining_items<T: Real>(con: Contraction<T>, w: Waiting<Item>, key: BatchKey, n: int)
    requires
        1 <= n <= usize::MAX,
        w.valid(),
        are_waiting(con, w, n - 1),
    ensures
        are_waiting(con, w.joined_by(key, con.item(n - 1)), n),
        are_items(con, w.released_by(key, con.item(n - 1)), n),
{
    let item = con.item(n - 1);
    let at = place_of(w.keys, key, w.keys.len() as int);
    crate::queue::lemma_place(w.keys, key, w.keys.len() as int);
    assert forall|b: int| 0 <= b < w.lists.len() implies are_items(
        con,
        #[trigger] w.lists[b],
        n,
    ) by {
        assert(are_items(con, w.lists[b], n - 1));
        let s = w.lists[b];
        assert forall|i: int| 0 <= i < s.len() implies (#[trigger] s[i]).0 < n && s[i] == con.item(
            s[i].0 as int,
        ) by {}
    }
    assert(are_items(con, seq![item], n));
    let next = w.joined_by(key, item);
    if w.knows(key) {
        lemma_joined_items(con, w.lists[at], seq![item], n);
        assert(w.lists[at].push(item) =~= w.lists[at] + seq![item]);
        assert forall|b: int| 0 <= b < next.lists.len() implies are_items(
            con,
            #[trigger] next.lists[b],
            n,
        ) by {
            if b != at {
                assert(next.lists[b] == w.lists[b]);
            }
        }
    } else {
        assert forall|b: int| 0 <= b < next.lists.len() implies are_items(
            con,
            #[trigger] next.lists[b],
            n,
        ) by {
            if b < at {
                assert(next.lists[b] == w.lists[b]);
            } else if b > at {
                assert(next.lists[b] == w.lists[b - 1]);
            }
        }
    }
}

proof fn lemma_after_items<T: Real>(con: Contraction<T>, n: int)
    requires
        0 <= n <= usize::MAX,
    ensures
        con.after(n).0.valid(),
        are_waiting(con, con.after(n).0, n),
        are_items(con, con.after(n).1, n),
    decreases n,
{
    con.lemma_after_times(n, 0);
    if n > 0 {
        lemma_after_items(con, n - 1);
        let (w, done) = con.after(n - 1);
        let item = con.item(n - 1);
        assert(are_items(con, done, n)) by {
            assert forall|i: int| 0 <= i < done.len() implies (#[trigger] done[i]).0 < n && done[i]
                == con.item(done[i].0 as int) by {}
        }
        assert forall|b: int| 0 <= b < w.lists.len() implies are_items(
            con,
            #[trigger] w.lists[b],
            n,
        ) by {
            assert(are_items(con, w.lists[b], n - 1));
            let s = w.lists[b];
            assert forall|i: int| 0 <= i < s.len() implies (#[trigger] s[i]).0 < n && s[i]
                == con.item(s[i].0 as int) by {}
        }
        if con.accepts(n - 1) {
            match con.key(n - 1) {
                None => {
                    assert(are_items(con, seq![item], n));
                    lemma_joined_items(con, done, seq![item], n);
                    assert(done.push(item) =~= done + seq![item]);
                },
                Some(key) => {
                    lemma_joining_items(con, w, key, n);
                    lemma_joined_items(con, done, w.released_by(key, item), n);
                },
            }
        }
    }
}

proof fn lemma_order_items<T: Real>(con: Contraction<T>)
    requires
        0 <= con.bra < usize::MAX,
    ensures
        are_items(con, con.order(), con.bra + 1),
{
    lemma_after_items(con, con.bra + 1);
    let (w, done) = con.after(con.bra + 1);
    lemma_waiting_items(con, w, con.bra + 1, w.lists.len() as int);
    lemma_joined_items(con, done, w.listed(w.lists.len() as int), con.bra + 1);
}

/// The number of the bra pair under which four functions are contracted.
pub open spec fn bra_of(f: Functions) -> int {
    pair_number(source_of(f).0.0, source_of(f).1.0)
}

/// The number of the ket pair under which four functions are contracted.
pub open spec fn ket_of(f: Functions) -> int {
    pair_number(source_of(f).2.0, source_of(f).3.0)
}

pub proof fn lemma_pairs_of<T: Real>(con: Contraction<T>, f: Functions, ket: int)
    requires
        lists_canonical(con.list.pairs, con.list.shells.len() as int),
        name_functions(function_counts(con.list.shells), f),
        0 <= con.bra < con.list.pairs.len(),
        0 <= ket <= con.bra,
    ensures
        0 <= ket_of(f) <= bra_of(f) < con.list.pairs.len(),
        shells_of(source_of(f)) == con.shells_with(ket) <==> bra_of(f) == con.bra && ket_of(f)
            == ket,
        is_canonical(con.shells_with(ket)),
        0 <= con.shells_with(ket).0 < con.list.shells.len(),
        0 <= con.shells_with(ket).1 < con.list.shells.len(),
        0 <= con.shells_with(ket).2 < con.list.shells.len(),
        0 <= con.shells_with(ket).3 < con.list.shells.len(),
{
    let lens = function_counts(con.list.shells);
    let n = con.list.shells.len() as int;
    let s = source_of(f);
    lemma_source_functions(lens, f);
    let (bp, kp) = (con.list.pairs[con.bra], con.list.pairs[ket]);
    assert(bp.1 <= bp.0 < n && pair_number(bp.0 as int, bp.1 as int) == con.bra);
    assert(kp.1 <= kp.0 < n && pair_number(kp.0 as int, kp.1 as int) == ket);
    law_pair_numbers_order_pairs(s.2.0, s.3.0, s.0.0, s.1.0, n);
    law_pair_numbers_order_pairs(s.0.0, s.1.0, s.2.0, s.3.0, n);
    law_pair_numbers_order_pairs(s.0.0, s.1.0, bp.0 as int, bp.1 as int, n);
    law_pair_numbers_order_pairs(s.2.0, s.3.0, kp.0 as int, kp.1 as int, n);
    law_pair_numbers_order_pairs(bp.0 as int, bp.1 as int, kp.0 as int, kp.1 as int, n);
}

#[verifier::spinoff_prover]
proof fn lemma_items_steps<T: Real>(con: Contraction<T>, e: int, s: Seq<Item>, f: Functions)
    requires
        forall|k: int| 0 <= k < con.list.shells.len() ==> (#[trigger] con.list.shells[k]).valid(),
        lists_canonical(con.list.pairs, con.list.shells.len() as int),
        name_functions(function_counts(con.list.shells), f),
        0 <= con.bra < con.list.pairs.len(),
        con.list.pairs.len() < usize::MAX,
        con.bounds.len() <= 64,
        0 <= e < con.bounds.len(),
        are_items(con, s, con.bra + 1),
    ensures
        takes_integrals(
            items_steps(con, e, s),
            quartet_blocks(con),
            function_counts(con.list.shells),
        ),
        times_run(items_steps(con, e, s), indices_of(function_counts(con.list.shells), f)) == (
        if bra_of(f) == con.bra && con.meets(e, ket_of(f)) {
            times_in(s, s.len() as int, ket_of(f))
        } else {
            0
        }),
    decreases s.len(),
{
    let lens = function_counts(con.list.shells);
    lemma_function_counts(con.list.shells);
    if s.len() > 0 {
        let head = s.drop_last();
        let item = s.last();
        assert(are_items(con, head, con.bra + 1)) by {
            assert forall|i: int| 0 <= i < head.len() implies (#[trigger] head[i]).0 < con.bra + 1
                && head[i] == con.item(head[i].0 as int) by {
                assert(head[i] == s[i]);
            }
        }
        lemma_items_steps(con, e, head, f);
        let ket = item.0 as int;
        assert(s[s.len() - 1] == item);
        assert(item == con.item(ket));
        con.law_accepted_pairs_are_contracted_once(ket);
        assert(has_bit(item.1, e) <==> con.meets(e, ket));
        assert(s =~= head + seq![item]);
        lemma_times_joined(head, seq![item], ket_of(f));
        reveal_with_fuel(times_in, 2);
        lemma_pairs_of(con, f, ket);
        let q = con.shells_with(ket);
        let before = items_steps(con, e, head);
        let more = item_steps(con, e, item);
        if has_bit(item.1, e) {
            let size = function_size(con.list.shells, q.0, q.1, q.2, q.3);
            assert(size == lens[q.0] * lens[q.1] * lens[q.2] * lens[q.3]);
            assert(0 <= size) by (nonlinear_arith)
                requires
                    size == lens[q.0] * lens[q.1] * lens[q.2] * lens[q.3],
                    lens[q.0] >= 1,
                    lens[q.1] >= 1,
                    lens[q.2] >= 1,
                    lens[q.3] >= 1,
            ;
            lemma_block_steps(quartet_blocks(con), lens, q, size, f);
            let src = source_of(f);
            lemma_source_functions(lens, f);
            if shells_of(src) == q {
                lemma_quad_in_range(
                    src.0.1,
                    lens[q.0],
                    src.1.1,
                    lens[q.1],
                    src.2.1,
                    lens[q.2],
                    src.3.1,
                    lens[q.3],
                );
            }
        }
        lemma_joined_integrals(before, more, quartet_blocks(con), lens);
        lemma_times_run_joined(before, more, indices_of(lens, f));
    }
}

impl<T: Real> Contraction<T> {
    /// The same contraction of another bra pair.
    pub open spec fn of_bra(self, bra: int) -> Self {
        Contraction {
            rys: self.rys,
            engine: self.engine,
            list: self.list,
            schwarz: self.schwarz,
            threshold: self.threshold,
            want: self.want,
            bra,
            bounds: self.bounds,
        }
    }

    /// The matrices of a density after the contraction of bra pairs, one after the other.
    pub open spec fn results(self, t: Tally<T>, density: Seq<T>, e: int, bras: Seq<int>) -> Tally<T>
        decreases bras.len(),
    {
        if bras.len() == 0 {
            t
        } else {
            self.of_bra(bras.last()).result(
                self.results(t, density, e, bras.drop_last()),
                density,
                e,
            )
        }
    }

    /// Whether the integral of four functions is contracted with a density: the bounds do
    /// not leave out its shells.
    pub open spec fn takes(self, e: int, f: Functions) -> bool {
        let s = source_of(f);
        let con = self.of_bra(bra_of(f));
        &&& !vanishes(self.entry(self.schwarz, s.0.0, s.1.0))
        &&& con.accepts(ket_of(f))
        &&& con.meets(e, ket_of(f))
    }

    /// What the integral of four functions adds where it meets an entry of a density.
    pub open spec fn share(self, density: Seq<T>, e: int, f: Indices, at: int) -> T {
        let lens = function_counts(self.list.shells);
        let g = functions_of(lens, f);
        if self.takes(e, g) {
            T::prod(integral_of(quartet_blocks(self), lens, g), density[at])
        } else {
            T::count(0)
        }
    }
}

/// The steps of a bra pair.
spec fn bra_steps<T: Real>(con: Contraction<T>, e: int) -> Seq<Step<T>> {
    let (i, j) = (con.list.pairs[con.bra].0 as int, con.list.pairs[con.bra].1 as int);
    if vanishes(con.entry(con.schwarz, i, j)) {
        Seq::empty()
    } else {
        items_steps(con, e, con.order())
    }
}

/// The steps of bra pairs in turn.
spec fn all_steps<T: Real>(con: Contraction<T>, e: int, bras: Seq<int>) -> Seq<Step<T>>
    decreases bras.len(),
{
    if bras.len() == 0 {
        Seq::empty()
    } else {
        all_steps(con, e, bras.drop_last()) + bra_steps(con.of_bra(bras.last()), e)
    }
}

/// How often a number stands in a list.
pub open spec fn occurrences(s: Seq<int>, b: int) -> int
    decreases s.len(),
{
    if s.len() == 0 {
        0
    } else {
        occurrences(s.drop_last(), b) + if s.last() == b {
            1int
        } else {
            0int
        }
    }
}

proof fn lemma_results_run<T: Real>(
    con: Contraction<T>,
    t: Tally<T>,
    density: Seq<T>,
    e: int,
    bras: Seq<int>,
)
    ensures
        con.results(t, density, e, bras) == run(
            t,
            density,
            total(function_counts(con.list.shells)),
            all_steps(con, e, bras),
            con.want,
        ),
    decreases bras.len(),
{
    if bras.len() > 0 {
        let head = bras.drop_last();
        lemma_results_run(con, t, density, e, head);
        let n = total(function_counts(con.list.shells));
        let one = con.of_bra(bras.last());
        let before = all_steps(con, e, head);
        lemma_run_joined(t, density, n, before, bra_steps(one, e), con.want);
        lemma_items_run(one, run(t, density, n, before, con.want), density, e, one.order());
    }
}

proof fn lemma_all_steps<T: Real>(con: Contraction<T>, e: int, bras: Seq<int>, f: Functions)
    requires
        forall|k: int| 0 <= k < con.list.shells.len() ==> (#[trigger] con.list.shells[k]).valid(),
        lists_canonical(con.list.pairs, con.list.shells.len() as int),
        name_functions(function_counts(con.list.shells), f),
        con.list.pairs.len() < usize::MAX,
        con.bounds.len() <= 64,
        0 <= e < con.bounds.len(),
        forall|i: int| 0 <= i < bras.len() ==> 0 <= #[trigger] bras[i] < con.list.pairs.len(),
    ensures
        takes_integrals(
            all_steps(con, e, bras),
            quartet_blocks(con),
            function_counts(con.list.shells),
        ),
        times_run(all_steps(con, e, bras), indices_of(function_counts(con.list.shells), f)) == (
        if con.takes(e, f) {
            occurrences(bras, bra_of(f))
        } else {
            0
        }),
    decreases bras.len(),
{
    let lens = function_counts(con.list.shells);
    if bras.len() > 0 {
        let head = bras.drop_last();
        assert forall|i: int| 0 <= i < head.len() implies 0 <= #[trigger] head[i]
            < con.list.pairs.len() by {
            assert(head[i] == bras[i]);
        }
        lemma_all_steps(con, e, head, f);
        assert(bras[bras.len() - 1] == bras.last());
        let one = con.of_bra(bras.last());
        let before = all_steps(con, e, head);
        let more = bra_steps(one, e);
        lemma_order_items(one);
        lemma_items_steps(one, e, one.order(), f);
        assert(quartet_blocks(one) == quartet_blocks(con));
        lemma_pairs_of(one, f, 0);
        if bra_of(f) == one.bra {
            one.law_accepted_pairs_are_contracted_once(ket_of(f));
            lemma_pairs_of(one, f, ket_of(f));
            assert(one == con.of_bra(bra_of(f)));
        }
        lemma_joined_integrals(before, more, quartet_blocks(con), lens);
        lemma_times_run_joined(before, more, indices_of(lens, f));
    }
}

/// The numbers that the selected places before `m` hold.
spec fn selected(sel: spec_fn(int) -> bool, w: spec_fn(int) -> int, m: int) -> Set<int> {
    Set::new(|x: int| exists|i: int| 0 <= i < m && #[trigger] sel(i) && w(i) == x)
}

/// A sum over selected places that hold different numbers is one over these numbers.
proof fn lemma_selected_sum<T: Scalar>(
    sel: spec_fn(int) -> bool,
    w: spec_fn(int) -> int,
    h: spec_fn(int) -> T,
    g: spec_fn(int) -> T,
    m: int,
)
    requires
        adds_exactly::<T>(),
        0 <= m,
        forall|i: int, j: int|
            0 <= i < j < m && #[trigger] sel(i) && #[trigger] sel(j) ==> w(i) != w(j),
        forall|i: int|
            0 <= i < m ==> #[trigger] g(i) == (if sel(i) {
                h(w(i))
            } else {
                T::count(0)
            }),
    ensures
        selected(sel, w, m).finite(),
        sum_before(g, m) == sum_over(selected(sel, w, m), h),
    decreases m,
{
    let set = selected(sel, w, m);
    if m == 0 {
        assert(set =~= Set::empty());
        lemma_sum_empty(h);
    } else {
        lemma_selected_sum(sel, w, h, g, m - 1);
        let before = selected(sel, w, m - 1);
        assert(g(m - 1) == (if sel(m - 1) {
            h(w(m - 1))
        } else {
            T::count(0)
        }));
        assert forall|x: int| #[trigger] set.contains(x) == (before.contains(x) || sel(m - 1) && w(
            m - 1,
        ) == x) by {
            if set.contains(x) {
                let i = choose|i: int| 0 <= i < m && #[trigger] sel(i) && w(i) == x;
                if i < m - 1 {
                    assert(sel(i) && w(i) == x);
                }
            }
            if before.contains(x) {
                let i = choose|i: int| 0 <= i < m - 1 && #[trigger] sel(i) && w(i) == x;
                assert(sel(i) && w(i) == x);
            }
        }
        if sel(m - 1) {
            assert(set =~= before.insert(w(m - 1)));
            lemma_sum_insert(before, h, w(m - 1));
        } else {
            assert(set =~= before);
            lemma_plus_zero(sum_before(g, m - 1));
        }
    }
}

/// Steps with the same indices stand there more than once.
proof fn lemma_times_run_twice<T>(s: Seq<Step<T>>, i: int, j: int)
    requires
        0 <= i < j < s.len(),
        s[i].1 == s[j].1,
    ensures
        times_run(s, s[i].1) >= 2,
    decreases s.len(),
{
    let head = s.drop_last();
    if j == s.len() - 1 {
        lemma_times_run_positive(head, s[i].1);
        assert(head[i].1 == s[i].1);
    } else {
        lemma_times_run_twice(head, i, j);
    }
}

/// The four indices of an entry of the first matrix and of one of the density.
pub open spec fn coulomb_indices(n: int, p: int, q: int, w: int) -> Indices {
    (p, q, w / n, w % n)
}

/// The four indices of an entry of the second matrix and of one of the density.
pub open spec fn exchange_indices(n: int, p: int, q: int, w: int) -> Indices {
    (p, w / n, q, w % n)
}

/// The sum of the shares of the steps is that over the entries of the density.
#[verifier::spinoff_prover]
#[verifier::rlimit(40)]
proof fn lemma_shares<T: Real>(
    con: Contraction<T>,
    density: Seq<T>,
    e: int,
    bras: Seq<int>,
    p: int,
    q: int,
    exchange: bool,
)
    requires
        adds_exactly::<T>(),
        con.contracts_all(e, bras),
        0 <= p < total(function_counts(con.list.shells)),
        0 <= q < total(function_counts(con.list.shells)),
    ensures
        ({
            let n = total(function_counts(con.list.shells));
            let s = all_steps(con, e, bras);
            if exchange {
                sum_before(|i: int| exchange_share(density, n, s[i], p, q), s.len() as int)
                    == sum_before(
                    |w: int| con.share(density, e, exchange_indices(n, p, q, w), w),
                    n * n,
                )
            } else {
                sum_before(|i: int| coulomb_share(density, n, s[i], p, q), s.len() as int)
                    == sum_before(
                    |w: int| con.share(density, e, coulomb_indices(n, p, q, w), w),
                    n * n,
                )
            }
        }),
{
    let lens = function_counts(con.list.shells);
    lemma_function_counts(con.list.shells);
    let n = total(lens);
    let s = all_steps(con, e, bras);
    let blocks = quartet_blocks(con);
    let f_of = |w: int|
        if exchange {
            exchange_indices(n, p, q, w)
        } else {
            coulomb_indices(n, p, q, w)
        };
    let sel = |i: int|
        if exchange {
            s[i].1.0 == p && s[i].1.2 == q
        } else {
            s[i].1.0 == p && s[i].1.1 == q
        };
    let w = |i: int|
        if exchange {
            pair(s[i].1.1, n, s[i].1.3)
        } else {
            pair(s[i].1.2, n, s[i].1.3)
        };
    let h = |x: int| T::prod(integral_of(blocks, lens, functions_of(lens, f_of(x))), density[x]);
    let g = |i: int|
        if exchange {
            exchange_share(density, n, s[i], p, q)
        } else {
            coulomb_share(density, n, s[i], p, q)
        };
    let acc = |x: int| con.takes(e, functions_of(lens, f_of(x)));
    let id = |x: int| x;
    let r = |x: int| con.share(density, e, f_of(x), x);
    lemma_function_names(lens, (p, q, p, q));
    lemma_all_steps(con, e, bras, functions_of(lens, (p, q, p, q)));
    assert forall|i: int| 0 <= i < s.len() && #[trigger] sel(i) implies f_of(w(i)) == s[i].1 && 0
        <= w(i) < n * n by {
        let f = s[i].1;
        assert(in_range(f, n));
        if exchange {
            lemma_pair_in_range(f.1, n, n, f.3);
            crate::flat::lemma_pair_parts(f.1, n, f.3);
        } else {
            lemma_pair_in_range(f.2, n, n, f.3);
            crate::flat::lemma_pair_parts(f.2, n, f.3);
        }
    }
    assert forall|i: int, j: int|
        0 <= i < j < s.len() && #[trigger] sel(i) && #[trigger] sel(j) implies w(i) != w(j) by {
        if w(i) == w(j) {
            assert(s[i].1 == s[j].1);
            lemma_times_run_twice(s, i, j);
            assert(in_range(s[i].1, n));
            lemma_function_names(lens, s[i].1);
            let fs = functions_of(lens, s[i].1);
            lemma_all_steps(con, e, bras, fs);
            lemma_once(con, bras, fs);
        }
    }
    assert forall|i: int| 0 <= i < s.len() implies #[trigger] g(i) == (if sel(i) {
        h(w(i))
    } else {
        T::count(0)
    }) by {
        if sel(i) {
            assert(f_of(w(i)) == s[i].1);
            assert(s[i].0 == integral_of(blocks, lens, functions_of(lens, s[i].1)));
        }
    }
    lemma_selected_sum(sel, w, h, g, s.len() as int);
    assert(0 <= n * n) by (nonlinear_arith);
    lemma_selected_sum(acc, id, h, r, n * n);
    let left = selected(sel, w, s.len() as int);
    let right = selected(acc, id, n * n);
    assert forall|x: int| #[trigger] left.contains(x) == right.contains(x) by {
        if left.contains(x) {
            let i = choose|i: int| 0 <= i < s.len() && #[trigger] sel(i) && w(i) == x;
            assert(f_of(x) == s[i].1);
            assert(in_range(s[i].1, n));
            lemma_function_names(lens, s[i].1);
            let fs = functions_of(lens, s[i].1);
            lemma_all_steps(con, e, bras, fs);
            lemma_times_run_positive(s, s[i].1);
            assert(acc(x) && id(x) == x);
        }
        if right.contains(x) {
            let y = choose|y: int| 0 <= y < n * n && #[trigger] acc(y) && id(y) == x;
            crate::flat::lemma_index_parts(x, n, n);
            let f = f_of(x);
            assert(in_range(f, n));
            lemma_function_names(lens, f);
            let fs = functions_of(lens, f);
            lemma_all_steps(con, e, bras, fs);
            lemma_once(con, bras, fs);
            lemma_times_run_positive(s, f);
            let i = choose|i: int| 0 <= i < s.len() && (#[trigger] s[i]).1 == f;
            assert(sel(i));
            assert(f_of(w(i)) == f);
            crate::flat::lemma_index_parts(w(i), n, n);
            assert(w(i) == x);
        }
    }
    assert(left =~= right);
    if exchange {
        crate::exact::lemma_same_sum(
            g,
            |i: int| exchange_share(density, n, s[i], p, q),
            s.len() as int,
        );
        crate::exact::lemma_same_sum(
            r,
            |w: int| con.share(density, e, exchange_indices(n, p, q, w), w),
            n * n,
        );
    } else {
        crate::exact::lemma_same_sum(
            g,
            |i: int| coulomb_share(density, n, s[i], p, q),
            s.len() as int,
        );
        crate::exact::lemma_same_sum(
            r,
            |w: int| con.share(density, e, coulomb_indices(n, p, q, w), w),
            n * n,
        );
    }
}

pub proof fn lemma_function_names(lens: Seq<int>, f: Indices)
    requires
        are_lengths(lens),
        in_range(f, total(lens)),
    ensures
        name_functions(lens, functions_of(lens, f)),
        indices_of(lens, functions_of(lens, f)) == f,
{
    lemma_function_of(lens, f.0);
    lemma_function_of(lens, f.1);
    lemma_function_of(lens, f.2);
    lemma_function_of(lens, f.3);
}

proof fn lemma_once<T: Real>(con: Contraction<T>, bras: Seq<int>, f: Functions)
    requires
        lists_canonical(con.list.pairs, con.list.shells.len() as int),
        name_functions(function_counts(con.list.shells), f),
        forall|b: int| 0 <= b < con.list.pairs.len() ==> #[trigger] occurrences(bras, b) == 1,
    ensures
        occurrences(bras, bra_of(f)) == 1,
{
    let s = source_of(f);
    let n = con.list.shells.len() as int;
    lemma_source_functions(function_counts(con.list.shells), f);
    law_every_pair_is_listed(con.list.pairs, n, s.0.0, s.1.0);
}

impl<T: Real> Contraction<T> {
    /// Whether the bra pairs are all those of the shells, each once, in any order.
    pub open spec fn contracts_all(self, e: int, bras: Seq<int>) -> bool {
        &&& forall|k: int|
            0 <= k < self.list.shells.len() ==> (#[trigger] self.list.shells[k]).valid()
        &&& lists_canonical(self.list.pairs, self.list.shells.len() as int)
        &&& self.list.pairs.len() < usize::MAX
        &&& self.bounds.len() <= 64
        &&& 0 <= e < self.bounds.len()
        &&& forall|i: int|
            0 <= i < bras.len() ==> 0 <= #[trigger] bras[i] < self.list.pairs.len()
        &&& forall|b: int| 0 <= b < self.list.pairs.len() ==> #[trigger] occurrences(bras, b) == 1
    }

    /// Once every bra pair has been contracted, the entry `(p, q)` of the first matrix has
    /// grown by the sum over `r` and `s` of `(pq|rs)` times the entry `(r, s)` of the
    /// density, and that of the second by the sum of `(pr|qs)` times that entry, without
    /// the integrals that the bounds leave out. This holds in any arithmetic that adds
    /// exactly.
    pub proof fn law_contraction_is_a_sum_of_integrals(
        self,
        t: Tally<T>,
        density: Seq<T>,
        e: int,
        bras: Seq<int>,
        p: int,
        q: int,
    )
        requires
            adds_exactly::<T>(),
            self.contracts_all(e, bras),
            crate::direct::tally_fits(t, total(function_counts(self.list.shells)), self.want),
            0 <= p < total(function_counts(self.list.shells)),
            0 <= q < total(function_counts(self.list.shells)),
        ensures
            ({
                let n = total(function_counts(self.list.shells));
                self.results(t, density, e, bras).coulomb[pair(p, n, q)] == T::sum(
                    t.coulomb[pair(p, n, q)],
                    sum_before(
                        |w: int| self.share(density, e, coulomb_indices(n, p, q, w), w),
                        n * n,
                    ),
                )
            }),
            self.want ==> ({
                let n = total(function_counts(self.list.shells));
                self.results(t, density, e, bras).exchange->0[pair(p, n, q)] == T::sum(
                    t.exchange->0[pair(p, n, q)],
                    sum_before(
                        |w: int| self.share(density, e, exchange_indices(n, p, q, w), w),
                        n * n,
                    ),
                )
            }),
    {
        let lens = function_counts(self.list.shells);
        let n = total(lens);
        lemma_function_counts(self.list.shells);
        lemma_results_run(self, t, density, e, bras);
        lemma_function_names(lens, (p, q, p, q));
        lemma_all_steps(self, e, bras, functions_of(lens, (p, q, p, q)));
        lemma_run_entries(t, density, n, all_steps(self, e, bras), self.want, p, q);
        lemma_shares(self, density, e, bras, p, q, false);
        lemma_shares(self, density, e, bras, p, q, true);
    }
}

} // verus!
