//! The tensor `(ij|P)`, assembled pair of shells by pair of shells.
//!
//! The output has one row, over the auxiliary functions, for every ordered pair of
//! functions. A task holds the rows of one canonical pair of shells. No two tasks share
//! a row, so they can be filled in any order or at the same time.
use vstd::prelude::*;

use crate::df::{fit_block, fit_into, is_unit, unit_shells};
use crate::flat::{cell, lemma_pair_in_range, lemma_pair_order, pair};
use crate::integrals::Engine;
use crate::math::rys::RysTables;
use crate::offsets::{are_lengths, start};
use crate::one_electron::{lemma_in_range, lemma_ranges_fit};
use crate::quartet::{QuartetScratch, Tables};
use crate::scalar::{filled, Real};
use crate::shell::{function_counts, lemma_function_counts, Basis, Shell};
use crate::shell_pairs::{
    all_valid, canonical_shell_pairs, law_every_pair_is_listed, pair_number, Prepared,
};
use crate::slabs::{
    band_counts, law_every_row_has_one_owner, lists_canonical, owner, partition_rows, patched,
    put_range, row_in, rows_fit, Bands,
};
use crate::tensor::{index_of, is_function, lemma_index, lemma_slot2, ordered, slot2, total, At};

verus! {

/// The value `(xy|z)` of two functions and an auxiliary one: that of the block of the
/// shells of the functions, the later shell first.
pub open spec fn fit_value<T: Real>(
    rys: RysTables<T>,
    engine: Engine,
    shells: Seq<Shell<T>>,
    aux: Seq<Shell<T>>,
    x: At,
    y: At,
    z: At,
) -> T {
    let (p, q) = ordered(x, y);
    fit_block(rys, engine, None, shells[p.0], shells[q.0], aux[z.0])[cell(
        p.1,
        shells[q.0].functions(),
        q.1,
        aux[z.0].functions(),
        z.1,
    )]
}

/// `(xy|z)` and `(yx|z)` are the same value, if the functions are of different shells.
pub proof fn law_fit_is_symmetric<T: Real>(
    rys: RysTables<T>,
    engine: Engine,
    shells: Seq<Shell<T>>,
    aux: Seq<Shell<T>>,
    x: At,
    y: At,
    z: At,
)
    requires
        x.0 != y.0,
    ensures
        fit_value(rys, engine, shells, aux, x, y, z) == fit_value(
            rys,
            engine,
            shells,
            aux,
            y,
            x,
            z,
        ),
{
}

/// The rows of one canonical pair of shells.
pub struct Bra3cFill<'o, T> {
    pub rows: Bands<'o, T>,
}

impl<'o, T> Bra3cFill<'o, T> {
    /// The pair of shells, the later one first.
    #[must_use]
    pub fn bra(&self) -> (r: (usize, usize))
        ensures
            r == self.rows.bra,
    {
        self.rows.bra
    }
}

/// A plan for the tensor `(ij|P)`.
pub struct Eri3cBuilder<'b, T> {
    pub tables: &'b Tables<T>,
    pub main: Prepared<'b, T>,
    pub aux: Prepared<'b, T>,
    pub engine: Engine,
    pub offs: Vec<usize>,
    pub counts: Vec<usize>,
    pub nao: usize,
    pub aux_offs: Vec<usize>,
    pub naux: usize,
    pub dummies: Vec<Shell<T>>,
    pub pairs: Vec<(usize, usize)>,
}

/// The numbers of functions of a list of shells.
pub(crate) fn counts_of<T: Real>(shells: &Vec<Shell<T>>) -> (r: Vec<usize>)
    requires
        all_valid(shells@),
    ensures
        r@.len() == shells@.len(),
        forall|s: int| 0 <= s < r@.len() ==> #[trigger] r@[s] == function_counts(shells@)[s],
{
    let mut r: Vec<usize> = Vec::new();
    let mut s: usize = 0;
    while s < shells.len()
        invariant
            s <= shells@.len(),
            all_valid(shells@),
            r@.len() == s,
            forall|k: int| 0 <= k < s ==> #[trigger] r@[k] == function_counts(shells@)[k],
        decreases shells@.len() - s,
    {
        assert(shells@[s as int].valid());
        r.push(shells[s].n_func());
        s = s + 1;
    }
    r
}

/// Write the block of a pair of shells and one auxiliary shell into the rows of the
/// pair.
#[verifier::spinoff_prover]
#[verifier::rlimit(60)]
fn write_block<'o, T: Copy>(
    rows: &mut Bands<'o, T>,
    block: &Vec<T>,
    ni: usize,
    nj: usize,
    np: usize,
    op: usize,
    Ghost(width): Ghost<int>,
)
    requires
        ni <= 28,
        nj <= 28,
        np <= 28,
        block@.len() == ni * nj * np,
        old(rows).ij@.len() == ni * nj,
        old(rows).bra.0 != old(rows).bra.1 ==> old(rows).ji@.len() == nj * ni,
        rows_fit(old(rows).ij@, width),
        rows_fit(old(rows).ji@, width),
        op + np <= width,
    ensures
        final(rows).bra == old(rows).bra,
        final(rows).ij@.len() == old(rows).ij@.len(),
        final(rows).ji@.len() == old(rows).ji@.len(),
        forall|a: int, b: int|
            0 <= a < ni && 0 <= b < nj ==> #[trigger] final(rows).ij@[pair(a, nj as int, b)]@
                == patched(
                old(rows).ij@[pair(a, nj as int, b)]@,
                op as int,
                block@,
                pair(a, nj as int, b) * np,
                np as int,
            ),
        forall|a: int, b: int|
            0 <= a < ni && 0 <= b < nj && old(rows).bra.0 != old(rows).bra.1
                ==> #[trigger] final(rows).ji@[pair(b, ni as int, a)]@ == patched(
                old(rows).ji@[pair(b, ni as int, a)]@,
                op as int,
                block@,
                pair(a, nj as int, b) * np,
                np as int,
            ),
        forall|m: int|
            0 <= m < old(rows).ij@.len() ==> #[trigger] final(final(rows).ij@[m])@ == final(old(rows).ij@[m])@,
        forall|m: int|
            0 <= m < old(rows).ji@.len() ==> #[trigger] final(final(rows).ji@[m])@ == final(old(rows).ji@[m])@,
{
    let ghost (bij, bji) = (rows.ij@, rows.ji@);
    let ghost bra = rows.bra;
    let swap = rows.bra.0 != rows.bra.1;
    let ghost (pi, pj, pp) = (ni as int, nj as int, np as int);
    proof {
        assert(pi * pj <= 784) by (nonlinear_arith)
            requires
                0 <= pi <= 28,
                0 <= pj <= 28,
        ;
        assert(pi * pj * pp <= 21952) by (nonlinear_arith)
            requires
                0 <= pi * pj <= 784,
                0 <= pp <= 28,
        ;
    }
    let mut a: usize = 0;
    while a < ni
        invariant
            a <= ni,
            pi == ni,
            pj == nj,
            pp == np,
            pi <= 28,
            pj <= 28,
            pp <= 28,
            pi * pj <= 784,
            pi * pj * pp <= 21952,
            block@.len() == pi * pj * pp,
            rows.bra == bra,
            swap == (bra.0 != bra.1),
            bij.len() == pi * pj,
            swap ==> bji.len() == pj * pi,
            rows.ij@.len() == bij.len(),
            rows.ji@.len() == bji.len(),
            rows_fit(bij, width),
            rows_fit(bji, width),
            op + pp <= width,
            forall|r: int, c: int|
                0 <= r < pi && 0 <= c < pj ==> #[trigger] rows.ij@[pair(r, pj, c)]@ == (if r < a {
                    patched(bij[pair(r, pj, c)]@, op as int, block@, pair(r, pj, c) * pp, pp)
                } else {
                    bij[pair(r, pj, c)]@
                }),
            forall|r: int, c: int|
                0 <= r < pi && 0 <= c < pj && swap ==> #[trigger] rows.ji@[pair(c, pi, r)]@ == (
                if r < a {
                    patched(bji[pair(c, pi, r)]@, op as int, block@, pair(r, pj, c) * pp, pp)
                } else {
                    bji[pair(c, pi, r)]@
                }),
            forall|m: int|
                0 <= m < bij.len() ==> #[trigger] final(rows.ij@[m])@ == final(bij[m])@,
            forall|m: int|
                0 <= m < bji.len() ==> #[trigger] final(rows.ji@[m])@ == final(bji[m])@,
        decreases ni - a,
    {
        let mut b: usize = 0;
        while b < nj
            invariant
                a < ni,
                b <= nj,
                pi == ni,
                pj == nj,
                pp == np,
                pi <= 28,
                pj <= 28,
                pp <= 28,
                pi * pj <= 784,
                pi * pj * pp <= 21952,
                block@.len() == pi * pj * pp,
                rows.bra == bra,
                swap == (bra.0 != bra.1),
                bij.len() == pi * pj,
                swap ==> bji.len() == pj * pi,
                rows.ij@.len() == bij.len(),
                rows.ji@.len() == bji.len(),
                rows_fit(bij, width),
                rows_fit(bji, width),
                op + pp <= width,
                forall|r: int, c: int|
                    0 <= r < pi && 0 <= c < pj ==> #[trigger] rows.ij@[pair(r, pj, c)]@ == (if r < a
                        || (r == a && c < b) {
                        patched(bij[pair(r, pj, c)]@, op as int, block@, pair(r, pj, c) * pp, pp)
                    } else {
                        bij[pair(r, pj, c)]@
                    }),
                forall|r: int, c: int|
                    0 <= r < pi && 0 <= c < pj && swap ==> #[trigger] rows.ji@[pair(c, pi, r)]@ == (
                    if r < a || (r == a && c < b) {
                        patched(bji[pair(c, pi, r)]@, op as int, block@, pair(r, pj, c) * pp, pp)
                    } else {
                        bji[pair(c, pi, r)]@
                    }),
                forall|m: int|
                    0 <= m < bij.len() ==> #[trigger] final(rows.ij@[m])@ == final(bij[m])@,
                forall|m: int|
                    0 <= m < bji.len() ==> #[trigger] final(rows.ji@[m])@ == final(bji[m])@,
            decreases nj - b,
        {
            let ghost (ga, gb) = (a as int, b as int);
            proof {
                lemma_pair_in_range(ga, pi, pj, gb);
                lemma_pair_in_range(gb, pj, pi, ga);
                let k = pair(ga, pj, gb);
                assert(0 <= k * pp && k * pp + pp <= pi * pj * pp) by (nonlinear_arith)
                    requires
                        0 <= k,
                        k + 1 <= pi * pj,
                        pp >= 0,
                ;
                assert(pj * pi == pi * pj) by (nonlinear_arith);
                assert(rows.ij@[k]@ == bij[k]@);
                assert(bij[k]@.len() == width);
            }
            let ghost (rij, rji) = (rows.ij@, rows.ji@);
            let k: usize = a * nj + b;
            put_range(&mut rows.ij, k, op, block, k * np, np);
            if swap {
                proof {
                    let m = pair(gb, pi, ga);
                    assert(rows.ji@[m]@ == bji[m]@);
                    assert(bji[m]@.len() == width);
                }
                put_range(&mut rows.ji, b * ni + a, op, block, k * np, np);
            }
            proof {
                assert forall|r: int, c: int|
                    0 <= r < pi && 0 <= c < pj implies #[trigger] rows.ij@[pair(r, pj, c)]@ == (
                if r < a || (r == a && c < b + 1) {
                    patched(bij[pair(r, pj, c)]@, op as int, block@, pair(r, pj, c) * pp, pp)
                } else {
                    bij[pair(r, pj, c)]@
                }) by {
                    lemma_pair_in_range(r, pi, pj, c);
                    lemma_pair_order(r, c, ga, gb, pj);
                    assert(rij[pair(r, pj, c)]@ == (if r < a || (r == a && c < b) {
                        patched(bij[pair(r, pj, c)]@, op as int, block@, pair(r, pj, c) * pp, pp)
                    } else {
                        bij[pair(r, pj, c)]@
                    }));
                }
                if swap {
                    assert forall|r: int, c: int|
                        0 <= r < pi && 0 <= c < pj implies #[trigger] rows.ji@[pair(c, pi, r)]@ == (
                    if r < a || (r == a && c < b + 1) {
                        patched(bji[pair(c, pi, r)]@, op as int, block@, pair(r, pj, c) * pp, pp)
                    } else {
                        bji[pair(c, pi, r)]@
                    }) by {
                        lemma_pair_in_range(c, pj, pi, r);
                        lemma_pair_order(c, r, gb, ga, pi);
                        assert(rji[pair(c, pi, r)]@ == (if r < a || (r == a && c < b) {
                            patched(
                                bji[pair(c, pi, r)]@,
                                op as int,
                                block@,
                                pair(r, pj, c) * pp,
                                pp,
                            )
                        } else {
                            bji[pair(c, pi, r)]@
                        }));
                    }
                }
                assert forall|m: int| 0 <= m < bij.len() implies #[trigger] final(rows.ij@[m])@ == final(bij[m])@ by {
                    assert(final(rij[m])@ == final(bij[m])@);
                }
                assert forall|m: int| 0 <= m < bji.len() implies #[trigger] final(rows.ji@[m])@ == final(bji[m])@ by {
                    assert(final(rji[m])@ == final(bji[m])@);
                }
            }
            b = b + 1;
        }
        a = a + 1;
    }
}

/// The value that a row holds for an auxiliary function after the shells that `kept` names
/// have been evaluated.
pub open spec fn filled_value<T: Real>(
    b: Eri3cBuilder<T>,
    kept: Seq<bool>,
    old_row: Seq<T>,
    x: At,
    y: At,
    z: At,
) -> T {
    if kept[z.0] {
        b.value(x, y, z)
    } else {
        old_row[index_of(b.aux_lens(), z)]
    }
}

impl<'b, T: Real> Eri3cBuilder<'b, T> {
    /// The numbers of functions of the shells.
    pub open spec fn lens(self) -> Seq<int> {
        function_counts(self.main.shells@)
    }

    /// The numbers of functions of the auxiliary shells.
    pub open spec fn aux_lens(self) -> Seq<int> {
        function_counts(self.aux.shells@)
    }

    /// The value `(xy|z)`.
    pub open spec fn value(self, x: At, y: At, z: At) -> T {
        fit_value(self.tables.rys, self.engine, self.main.shells@, self.aux.shells@, x, y, z)
    }

    /// The plan is one for its two lists of shells.
    pub open spec fn valid(self) -> bool {
        &&& self.tables.valid()
        &&& self.main.valid()
        &&& self.aux.valid()
        &&& are_lengths(self.lens())
        &&& are_lengths(self.aux_lens())
        &&& self.nao == total(self.lens())
        &&& self.naux == total(self.aux_lens())
        &&& self.nao * self.nao <= usize::MAX
        &&& self.nao * self.nao * self.naux <= usize::MAX
        &&& self.offs@.len() == self.lens().len()
        &&& self.counts@.len() == self.lens().len()
        &&& self.aux_offs@.len() == self.aux_lens().len()
        &&& forall|s: int|
            0 <= s < self.lens().len() ==> #[trigger] self.offs@[s] == start(self.lens(), s)
        &&& forall|s: int|
            0 <= s < self.lens().len() ==> #[trigger] self.counts@[s] == self.lens()[s]
        &&& forall|s: int|
            0 <= s < self.aux_lens().len() ==> #[trigger] self.aux_offs@[s] == start(
                self.aux_lens(),
                s,
            )
        &&& self.dummies@.len() == self.aux.shells@.len()
        &&& forall|s: int|
            0 <= s < self.dummies@.len() ==> is_unit(
                #[trigger] self.dummies@[s],
                self.aux.shells@[s].center,
            )
        &&& lists_canonical(self.pairs@, self.lens().len() as int)
    }

    /// A plan for two bases.
    pub fn new(main: &'b Basis<T>, aux: &'b Basis<T>, tables: &'b Tables<T>) -> (r: Self)
        requires
            tables.valid(),
            main.valid(),
            aux.valid(),
            main.matrix_fits(),
            main.size() * main.size() * aux.size() <= usize::MAX,
            aux.size() <= usize::MAX,
        ensures
            r.valid(),
            r.main.shells@ == main.shells@,
            r.aux.shells@ == aux.shells@,
            r.tables == tables,
            r.engine == Engine::Auto,
    {
        Self::with_engine(main, aux, tables, Engine::Auto)
    }

    /// A plan for two bases with the engine given.
    pub fn with_engine(
        main: &'b Basis<T>,
        aux: &'b Basis<T>,
        tables: &'b Tables<T>,
        engine: Engine,
    ) -> (r: Self)
        requires
            tables.valid(),
            main.valid(),
            aux.valid(),
            main.matrix_fits(),
            main.size() * main.size() * aux.size() <= usize::MAX,
            aux.size() <= usize::MAX,
        ensures
            r.valid(),
            r.main.shells@ == main.shells@,
            r.aux.shells@ == aux.shells@,
            r.tables == tables,
            r.engine == engine,
    {
        proof {
            main.lemma_size_fits();
            lemma_function_counts(aux.shells@);
        }
        Eri3cBuilder {
            tables,
            main: Prepared::new(&main.shells),
            aux: Prepared::new(&aux.shells),
            engine,
            offs: main.offsets(),
            counts: counts_of(&main.shells),
            nao: main.nao(),
            aux_offs: aux.offsets(),
            naux: aux.nao(),
            dummies: unit_shells(&aux.shells),
            pairs: canonical_shell_pairs(main.shells.len()),
        }
    }

    /// The canonical pairs of shells, one for each task.
    #[must_use]
    pub fn bra_pairs(&self) -> (r: &[(usize, usize)])
        ensures
            r@ == self.pairs@,
    {
        self.pairs.as_slice()
    }

    /// The length of the output.
    #[must_use]
    pub fn output_len(&self) -> (n: usize)
        requires
            self.valid(),
        ensures
            n == self.nao * self.nao * self.naux,
    {
        self.nao * self.nao * self.naux
    }

    /// Split an output into the rows of the canonical pairs of shells.
    pub fn partition<'o>(&self, out: &'o mut [T]) -> (tasks: Vec<Bra3cFill<'o, T>>)
        requires
            self.valid(),
            old(out)@.len() == self.nao * self.nao * self.naux,
        ensures
            tasks@.len() == self.pairs@.len(),
            forall|t: int|
                0 <= t < tasks@.len() ==> (#[trigger] tasks@[t]).rows.bra == self.pairs@[t]
                    && self.is_task(tasks@[t]),
            forall|x: At, y: At|
                is_function(self.lens(), x) && is_function(self.lens(), y) ==> #[trigger] row_in(
                    tasks@[owner(x, y)].rows,
                    self.lens(),
                    x,
                    y,
                ) == old(out)@.subrange(
                    slot2(self.lens(), x, y) * self.naux,
                    slot2(self.lens(), x, y) * self.naux + self.naux,
                ),
            (forall|t: int, k: int|
                0 <= t < tasks@.len() && 0 <= k < tasks@[t].rows.ij@.len() ==> (#[trigger] final(tasks@[t].rows.ij@[k])@).len() == self.naux)
                && (forall|t: int, k: int|
                0 <= t < tasks@.len() && 0 <= k < tasks@[t].rows.ji@.len() ==> (#[trigger] final(tasks@[t].rows.ji@[k])@).len() == self.naux)
                ==> final(out)@.len() == self.nao * self.nao * self.naux && forall|x: At, y: At|
                is_function(self.lens(), x) && is_function(self.lens(), y)
                    ==> final(out)@.subrange(
                    #[trigger] slot2(self.lens(), x, y) * self.naux,
                    slot2(self.lens(), x, y) * self.naux + self.naux,
                ) == (if x.0 >= y.0 {
                    final(tasks@[owner(x, y)].rows.ij@[pair(x.1, self.lens()[y.0], y.1)])@
                } else {
                    final(tasks@[owner(x, y)].rows.ji@[pair(x.1, self.lens()[y.0], y.1)])@
                }),
    {
        let mut bands = partition_rows(
            out,
            self.naux,
            self.nao,
            &self.offs,
            &self.counts,
            &self.pairs,
            Ghost(self.lens()),
        );
        let ghost all = bands@;
        let mut turned: Vec<Bands<'o, T>> = Vec::new();
        let mut tasks: Vec<Bra3cFill<'o, T>> = Vec::new();
        while bands.len() > 0
            invariant
                bands@.len() + turned@.len() == all.len(),
                forall|t: int| 0 <= t < bands@.len() ==> #[trigger] bands@[t] == all[t],
                forall|t: int|
                    0 <= t < turned@.len() ==> #[trigger] turned@[t] == all[all.len() - 1 - t],
            decreases bands@.len(),
        {
            if let Some(rows) = bands.pop() {
                turned.push(rows);
            }
        }
        while turned.len() > 0
            invariant
                turned@.len() + tasks@.len() == all.len(),
                forall|t: int|
                    0 <= t < turned@.len() ==> #[trigger] turned@[t] == all[all.len() - 1 - t],
                forall|t: int| 0 <= t < tasks@.len() ==> (#[trigger] tasks@[t]).rows == all[t],
            decreases turned@.len(),
        {
            if let Some(rows) = turned.pop() {
                tasks.push(Bra3cFill { rows });
            }
        }
        proof {
            let lens = self.lens();
            assert forall|t: int| 0 <= t < tasks@.len() implies (#[trigger] tasks@[t]).rows.bra
                == self.pairs@[t] && self.is_task(tasks@[t]) by {
                assert(all[t].bra == self.pairs@[t]);
            }
            assert forall|x: At, y: At|
                is_function(lens, x) && is_function(lens, y) implies 0 <= #[trigger] owner(x, y)
                < tasks@.len() && tasks@[owner(x, y)].rows == all[owner(x, y)] by {
                let (p, q) = (ordered(x, y).0.0, ordered(x, y).1.0);
                law_every_row_has_one_owner(lens, x, y, p, q);
            }
            assert forall|u: int|
                (forall|t: int, k: int|
                    0 <= t < tasks@.len() && 0 <= k < tasks@[t].rows.ij@.len() ==> (#[trigger] final(tasks@[t].rows.ij@[k])@).len() == self.naux)
                    && (forall|t: int, k: int|
                    0 <= t < tasks@.len() && 0 <= k < tasks@[t].rows.ji@.len() ==> (#[trigger] final(tasks@[t].rows.ji@[k])@).len() == self.naux)
                    && #[trigger] start(lens, u) == start(lens, u) implies (forall|t: int, k: int|
                0 <= t < all.len() && 0 <= k < all[t].ij@.len() ==> (#[trigger] final(all[t].ij@[k])@).len() == self.naux)
                && (forall|t: int, k: int|
                0 <= t < all.len() && 0 <= k < all[t].ji@.len() ==> (#[trigger] final(all[t].ji@[k])@).len() == self.naux) by {
                assert forall|t: int, k: int|
                    0 <= t < all.len() && 0 <= k < all[t].ij@.len() implies (#[trigger] final(all[t].ij@[k])@).len() == self.naux by {
                    assert(tasks@[t].rows == all[t]);
                    assert((final(tasks@[t].rows.ij@[k])@).len() == self.naux);
                }
                assert forall|t: int, k: int|
                    0 <= t < all.len() && 0 <= k < all[t].ji@.len() implies (#[trigger] final(all[t].ji@[k])@).len() == self.naux by {
                    assert(tasks@[t].rows == all[t]);
                    assert((final(tasks@[t].rows.ji@[k])@).len() == self.naux);
                }
            }
            assert(start(lens, 0) == start(lens, 0));
        }
        tasks
    }

    /// Whether the rows are those of a canonical pair of shells.
    pub open spec fn is_task(self, task: Bra3cFill<T>) -> bool {
        &&& band_counts(task.rows, self.lens())
        &&& rows_fit(task.rows.ij@, self.naux as int)
        &&& rows_fit(task.rows.ji@, self.naux as int)
    }

    /// Whether the rows of `new` hold, for every two functions of its shells and every
    /// auxiliary function, the value if `kept` names the auxiliary shell, and else what
    /// the rows of `old` hold.
    pub open spec fn is_filled(
        self,
        old: Bands<T>,
        new: Bands<T>,
        kept: Seq<bool>,
    ) -> bool {
        &&& new.bra == old.bra
        &&& new.ij@.len() == old.ij@.len()
        &&& new.ji@.len() == old.ji@.len()
        &&& rows_fit(new.ij@, self.naux as int)
        &&& rows_fit(new.ji@, self.naux as int)
        &&& forall|x: At, y: At, z: At|
            is_function(self.lens(), x) && is_function(self.lens(), y) && is_function(
                self.aux_lens(),
                z,
            ) && owner(x, y) == pair_number(old.bra.0 as int, old.bra.1 as int)
                ==> #[trigger] row_in(new, self.lens(), x, y)[index_of(self.aux_lens(), z)]
                == filled_value(self, kept, row_in(old, self.lens(), x, y), x, y, z)
    }

    /// Evaluate the blocks of one pair of shells with every auxiliary shell that `keep`
    /// accepts, and write them into the rows of the pair. The rest of the rows is left as
    /// it is.
    #[verifier::spinoff_prover]
    #[verifier::rlimit(80)]
    pub fn fill_filtered<F: Fn(usize) -> bool>(&self, task: &mut Bra3cFill<'_, T>, keep: F)
        requires
            self.valid(),
            self.is_task(*old(task)),
            forall|p: usize| p < self.aux.shells@.len() ==> call_requires(keep, (p,)),
        ensures
            self.is_task(*final(task)),
            exists|kept: Seq<bool>|
                kept.len() == self.aux.shells@.len() && (forall|p: usize|
                    p < kept.len() ==> call_ensures(keep, (p,), #[trigger] kept[p as int]))
                    && self.is_filled(old(task).rows, final(task).rows, kept),
            forall|m: int|
                0 <= m < old(task).rows.ij@.len() ==> #[trigger] final(final(task).rows.ij@[m])@ == final(old(task).rows.ij@[m])@,
            forall|m: int|
                0 <= m < old(task).rows.ji@.len() ==> #[trigger] final(final(task).rows.ji@[m])@ == final(old(task).rows.ji@[m])@,
    {
        let ghost lens = self.lens();
        let ghost alens = self.aux_lens();
        let ghost was = task.rows;
        let (i, j) = task.rows.bra;
        let (si, sj) = (self.main.side(i), self.main.side(j));
        let (ni, nj) = (si.shell.n_func(), sj.shell.n_func());
        let mut scratch = QuartetScratch::new();
        let ghost mut kept: Seq<bool> = Seq::empty();
        let nax = self.aux.shells.len();
        let mut p: usize = 0;
        proof {
            lemma_function_counts(self.aux.shells@);
        }
        while p < nax
            invariant
                p <= nax,
                nax == self.aux.shells@.len(),
                self.valid(),
                lens == self.lens(),
                alens == self.aux_lens(),
                alens.len() == nax,
                forall|q: usize| q < self.aux.shells@.len() ==> call_requires(keep, (q,)),
                was.bra == (i, j),
                band_counts(was, lens),
                rows_fit(was.ij@, self.naux as int),
                rows_fit(was.ji@, self.naux as int),
                j <= i < lens.len(),
                si.valid(),
                sj.valid(),
                *si.shell == self.main.shells@[i as int],
                *sj.shell == self.main.shells@[j as int],
                si.shown() == crate::quartet::normalized(*si.shell),
                sj.shown() == crate::quartet::normalized(*sj.shell),
                ni == lens[i as int],
                nj == lens[j as int],
                1 <= ni <= 28,
                1 <= nj <= 28,
                kept.len() == p,
                forall|q: usize| q < p ==> call_ensures(keep, (q,), #[trigger] kept[q as int]),
                task.rows.bra == was.bra,
                task.rows.ij@.len() == was.ij@.len(),
                task.rows.ji@.len() == was.ji@.len(),
                rows_fit(task.rows.ij@, self.naux as int),
                rows_fit(task.rows.ji@, self.naux as int),
                forall|x: At, y: At, z: At|
                    is_function(lens, x) && is_function(lens, y) && is_function(alens, z) && owner(
                        x,
                        y,
                    ) == pair_number(i as int, j as int) ==> #[trigger] row_in(
                        task.rows,
                        lens,
                        x,
                        y,
                    )[index_of(alens, z)] == (if z.0 < p {
                        filled_value(*self, kept, row_in(was, lens, x, y), x, y, z)
                    } else {
                        row_in(was, lens, x, y)[index_of(alens, z)]
                    }),
                forall|m: int|
                    0 <= m < was.ij@.len() ==> #[trigger] final(task.rows.ij@[m])@ == final(was.ij@[m])@,
                forall|m: int|
                    0 <= m < was.ji@.len() ==> #[trigger] final(task.rows.ji@[m])@ == final(was.ji@[m])@,
            decreases nax - p,
        {
            let k = keep(p);
            let ghost before = task.rows;
            let ghost kept0 = kept;
            proof {
                kept = kept.push(k);
            }
            if k {
                let sp = self.aux.side(p);
                let np = sp.shell.n_func();
                let op = self.aux_offs[p];
                proof {
                    assert(is_unit(self.dummies@[p as int], self.aux.shells@[p as int].center));
                    lemma_ranges_fit(alens, p as int);
                }
                fit_into(
                    &mut scratch,
                    self.tables,
                    self.engine,
                    None,
                    si,
                    sj,
                    sp,
                    &self.dummies[p],
                );
                let ghost block = scratch.block@;
                write_block(
                    &mut task.rows,
                    &scratch.block,
                    ni,
                    nj,
                    np,
                    op,
                    Ghost(self.naux as int),
                );
                proof {
                    let (pi, pj) = (i as int, j as int);
                    assert forall|x: At, y: At, z: At|
                        is_function(lens, x) && is_function(lens, y) && is_function(alens, z)
                            && owner(x, y) == pair_number(pi, pj) implies #[trigger] row_in(
                        task.rows,
                        lens,
                        x,
                        y,
                    )[index_of(alens, z)] == (if z.0 < p + 1 {
                        filled_value(*self, kept, row_in(was, lens, x, y), x, y, z)
                    } else {
                        row_in(was, lens, x, y)[index_of(alens, z)]
                    }) by {
                        law_every_row_has_one_owner(lens, x, y, pi, pj);
                        lemma_in_range(alens, z, p as int);
                        lemma_index(alens, z, z);
                        assert(row_in(before, lens, x, y)[index_of(alens, z)] == (if z.0 < p {
                            filled_value(*self, kept0, row_in(was, lens, x, y), x, y, z)
                        } else {
                            row_in(was, lens, x, y)[index_of(alens, z)]
                        }));
                        let (hi, lo) = ordered(x, y);
                        let at = pair(hi.1, nj as int, lo.1);
                        lemma_pair_in_range(hi.1, ni as int, nj as int, lo.1);
                        let at2 = pair(lo.1, ni as int, hi.1);
                        lemma_pair_in_range(lo.1, nj as int, ni as int, hi.1);
                        if x.0 == pi && y.0 == pj {
                            assert(task.rows.ij@[pair(x.1, nj as int, y.1)]@ == patched(
                                before.ij@[pair(x.1, nj as int, y.1)]@,
                                op as int,
                                block,
                                at * np,
                                np as int,
                            ));
                            assert(before.ij@[at]@.len() == self.naux);
                        } else {
                            assert(task.rows.ji@[pair(x.1, ni as int, y.1)]@ == patched(
                                before.ji@[pair(x.1, ni as int, y.1)]@,
                                op as int,
                                block,
                                at * np,
                                np as int,
                            ));
                            assert(before.ji@[at2]@.len() == self.naux);
                        }
                        if z.0 == p {
                            assert(cell(hi.1, nj as int, lo.1, np as int, z.1) == at * np + z.1);
                        }
                    }
                    assert forall|m: int|
                        0 <= m < was.ij@.len() implies #[trigger] final(task.rows.ij@[m])@ == final(was.ij@[m])@ by {
                        assert(final(before.ij@[m])@ == final(was.ij@[m])@);
                    }
                    assert forall|m: int|
                        0 <= m < was.ji@.len() implies #[trigger] final(task.rows.ji@[m])@ == final(was.ji@[m])@ by {
                        assert(final(before.ji@[m])@ == final(was.ji@[m])@);
                    }
                    assert(rows_fit(task.rows.ij@, self.naux as int)) by {
                        assert forall|m: int| 0 <= m < task.rows.ij@.len() implies (
                        #[trigger] task.rows.ij@[m]@).len() == self.naux by {
                            crate::flat::lemma_index_parts(m, ni as int, nj as int);
                            assert(task.rows.ij@[pair(m / nj as int, nj as int, m % nj as int)]@.len()
                                == before.ij@[m]@.len());
                        }
                    }
                    assert(rows_fit(task.rows.ji@, self.naux as int)) by {
                        assert forall|m: int| 0 <= m < task.rows.ji@.len() implies (
                        #[trigger] task.rows.ji@[m]@).len() == self.naux by {
                            crate::flat::lemma_index_parts(m, nj as int, ni as int);
                            assert(task.rows.ji@[pair(m / ni as int, ni as int, m % ni as int)]@.len()
                                == before.ji@[m]@.len());
                        }
                    }
                }
            } else {
                proof {
                    assert forall|x: At, y: At, z: At|
                        is_function(lens, x) && is_function(lens, y) && is_function(alens, z)
                            && owner(x, y) == pair_number(i as int, j as int) implies #[trigger] row_in(
                        task.rows,
                        lens,
                        x,
                        y,
                    )[index_of(alens, z)] == (if z.0 < p + 1 {
                        filled_value(*self, kept, row_in(was, lens, x, y), x, y, z)
                    } else {
                        row_in(was, lens, x, y)[index_of(alens, z)]
                    }) by {
                        assert(row_in(before, lens, x, y)[index_of(alens, z)] == (if z.0 < p {
                            filled_value(*self, kept0, row_in(was, lens, x, y), x, y, z)
                        } else {
                            row_in(was, lens, x, y)[index_of(alens, z)]
                        }));
                    }
                }
            }
            p = p + 1;
        }
        assert(self.is_filled(was, task.rows, kept));
    }

    /// Evaluate the blocks of one pair of shells with every auxiliary shell, and write
    /// them into the rows of the pair.
    pub fn fill(&self, task: &mut Bra3cFill<'_, T>)
        requires
            self.valid(),
            self.is_task(*old(task)),
        ensures
            self.is_task(*final(task)),
            self.is_filled(
                old(task).rows,
                final(task).rows,
                Seq::new(self.aux.shells@.len(), |p: int| true),
            ),
            forall|m: int|
                0 <= m < old(task).rows.ij@.len() ==> #[trigger] final(final(task).rows.ij@[m])@ == final(old(task).rows.ij@[m])@,
            forall|m: int|
                0 <= m < old(task).rows.ji@.len() ==> #[trigger] final(final(task).rows.ji@[m])@ == final(old(task).rows.ji@[m])@,
    {
        let ghost was = task.rows;
        let count = self.aux.shells.len();
        let all = |p: usize| -> (r: bool)
            ensures
                r,
            { true };
        self.fill_filtered(task, all);
        proof {
            let every = Seq::new(self.aux.shells@.len(), |p: int| true);
            let kept = choose|kept: Seq<bool>|
                kept.len() == self.aux.shells@.len() && (forall|p: usize|
                    p < kept.len() ==> call_ensures(all, (p,), #[trigger] kept[p as int]))
                    && self.is_filled(was, task.rows, kept);
            assert forall|p: int| 0 <= p < kept.len() implies kept[p] by {
                assert(call_ensures(all, (p as usize,), kept[p as usize as int]));
            }
            assert(kept =~= every);
        }
    }

    /// Whether `out` holds the value `(xy|z)` of every two functions and auxiliary
    /// function.
    pub open spec fn is_fit_tensor(self, out: Seq<T>) -> bool {
        &&& out.len() == self.nao * self.nao * self.naux
        &&& forall|x: At, y: At, z: At|
            is_function(self.lens(), x) && is_function(self.lens(), y) && is_function(
                self.aux_lens(),
                z,
            ) ==> out[pair(
                #[trigger] slot2(self.lens(), x, y),
                self.naux as int,
                #[trigger] index_of(self.aux_lens(), z),
            )] == self.value(x, y, z)
    }

    /// The tensor `(ij|P)`.
    #[verifier::spinoff_prover]
    #[verifier::rlimit(60)]
    #[must_use]
    pub fn build(&self) -> (out: Vec<T>)
        requires
            self.valid(),
        ensures
            self.is_fit_tensor(out@),
    {
        let ghost lens = self.lens();
        let ghost alens = self.aux_lens();
        let ghost every = Seq::new(self.aux.shells@.len(), |p: int| true);
        let mut out = filled(self.output_len(), T::from_count(0));
        let mut tasks = self.partition(out.as_mut_slice());
        let ghost start_tasks = tasks@;
        let mut t: usize = 0;
        while t < tasks.len()
            invariant
                t <= tasks@.len(),
                self.valid(),
                lens == self.lens(),
                alens == self.aux_lens(),
                every == Seq::new(self.aux.shells@.len(), |p: int| true),
                tasks@.len() == start_tasks.len(),
                forall|k: int|
                    0 <= k < tasks@.len() ==> self.is_task(#[trigger] tasks@[k]) && tasks@[k].rows.bra
                        == start_tasks[k].rows.bra && tasks@[k].rows.ij@.len()
                        == start_tasks[k].rows.ij@.len() && tasks@[k].rows.ji@.len()
                        == start_tasks[k].rows.ji@.len(),
                forall|k: int|
                    0 <= k < t ==> self.is_filled(
                        start_tasks[k].rows,
                        (#[trigger] tasks@[k]).rows,
                        every,
                    ),
                forall|k: int| t <= k < tasks@.len() ==> #[trigger] tasks@[k] == start_tasks[k],
                forall|k: int, m: int|
                    0 <= k < tasks@.len() && 0 <= m < start_tasks[k].rows.ij@.len()
                        ==> #[trigger] final(tasks@[k].rows.ij@[m])@ == final(start_tasks[k].rows.ij@[m])@,
                forall|k: int, m: int|
                    0 <= k < tasks@.len() && 0 <= m < start_tasks[k].rows.ji@.len()
                        ==> #[trigger] final(tasks@[k].rows.ji@[m])@ == final(start_tasks[k].rows.ji@[m])@,
            decreases tasks@.len() - t,
        {
            let ghost before = tasks@;
            assert(self.is_task(tasks@[t as int]));
            self.fill(&mut tasks[t]);
            proof {
                assert forall|k: int, m: int|
                    0 <= k < tasks@.len() && 0 <= m < start_tasks[k].rows.ij@.len() implies #[trigger] final(tasks@[k].rows.ij@[m])@ == final(start_tasks[k].rows.ij@[m])@ by {
                    assert(final(before[k].rows.ij@[m])@ == final(start_tasks[k].rows.ij@[m])@);
                }
                assert forall|k: int, m: int|
                    0 <= k < tasks@.len() && 0 <= m < start_tasks[k].rows.ji@.len() implies #[trigger] final(tasks@[k].rows.ji@[m])@ == final(start_tasks[k].rows.ji@[m])@ by {
                    assert(final(before[k].rows.ji@[m])@ == final(start_tasks[k].rows.ji@[m])@);
                }
                assert forall|k: int| 0 <= k < t + 1 implies self.is_filled(
                    start_tasks[k].rows,
                    (#[trigger] tasks@[k]).rows,
                    every,
                ) by {
                    if k < t {
                        assert(tasks@[k] == before[k]);
                    }
                }
            }
            t = t + 1;
        }
        proof {
            assert(has_resolved(tasks));
            assert forall|k: int, m: int|
                0 <= k < tasks@.len() && 0 <= m < start_tasks[k].rows.ij@.len() implies #[trigger] final(start_tasks[k].rows.ij@[m])@ == tasks@[k].rows.ij@[m]@ by {
                assert(has_resolved(tasks@[k]));
                assert(has_resolved(tasks@[k].rows));
                assert(has_resolved(tasks@[k].rows.ij));
                assert(has_resolved(tasks@[k].rows.ij@[m]));
                assert(final(tasks@[k].rows.ij@[m])@ == final(start_tasks[k].rows.ij@[m])@);
            }
            assert forall|k: int, m: int|
                0 <= k < tasks@.len() && 0 <= m < start_tasks[k].rows.ji@.len() implies #[trigger] final(start_tasks[k].rows.ji@[m])@ == tasks@[k].rows.ji@[m]@ by {
                assert(has_resolved(tasks@[k]));
                assert(has_resolved(tasks@[k].rows));
                assert(has_resolved(tasks@[k].rows.ji));
                assert(has_resolved(tasks@[k].rows.ji@[m]));
                assert(final(tasks@[k].rows.ji@[m])@ == final(start_tasks[k].rows.ji@[m])@);
            }
            assert forall|k: int, m: int|
                0 <= k < tasks@.len() && 0 <= m < start_tasks[k].rows.ij@.len() implies (#[trigger] final(start_tasks[k].rows.ij@[m])@).len() == self.naux by {
                assert(self.is_task(tasks@[k]));
                assert((tasks@[k].rows.ij@[m]@).len() == self.naux);
            }
            assert forall|k: int, m: int|
                0 <= k < tasks@.len() && 0 <= m < start_tasks[k].rows.ji@.len() implies (#[trigger] final(start_tasks[k].rows.ji@[m])@).len() == self.naux by {
                assert(self.is_task(tasks@[k]));
                assert((tasks@[k].rows.ji@[m]@).len() == self.naux);
            }
            let n = self.naux as int;
            assert forall|x: At, y: At, z: At|
                is_function(lens, x) && is_function(lens, y) && is_function(alens, z) implies out@[pair(
                #[trigger] slot2(lens, x, y),
                n,
                #[trigger] index_of(alens, z),
            )] == self.value(x, y, z) by {
                let (hi, lo) = (ordered(x, y).0.0, ordered(x, y).1.0);
                law_every_row_has_one_owner(lens, x, y, hi, lo);
                law_every_pair_is_listed(self.pairs@, lens.len() as int, hi, lo);
                lemma_slot2(lens, x, y, x, y);
                lemma_index(alens, z, z);
                let k = owner(x, y);
                let task = tasks@[k];
                assert(start_tasks[k].rows.bra == self.pairs@[k]);
                assert(self.is_filled(start_tasks[k].rows, task.rows, every));
                lemma_pair_in_range(x.1, lens[x.0], lens[y.0], y.1);
                let row = slot2(lens, x, y);
                let part = out@.subrange(row * n, row * n + n);
                assert(0 <= row * n && row * n + n <= out@.len()) by (nonlinear_arith)
                    requires
                        0 <= row,
                        row + 1 <= self.nao * self.nao,
                        out@.len() == self.nao * self.nao * n,
                        n >= 0,
                ;
                assert(part == row_in(task.rows, lens, x, y));
                assert(row_in(task.rows, lens, x, y)[index_of(alens, z)] == filled_value(
                    *self,
                    every,
                    row_in(start_tasks[k].rows, lens, x, y),
                    x,
                    y,
                    z,
                ));
                assert(part[index_of(alens, z)] == out@[row * n + index_of(alens, z)]);
            }
        }
        out
    }
}

impl<T: Real> Basis<T> {
    /// A plan for the tensor `(ij|P)` of the basis with an auxiliary one.
    #[must_use]
    pub fn eri_3c_builder<'b>(
        &'b self,
        aux: &'b Basis<T>,
        tables: &'b Tables<T>,
    ) -> (r: Eri3cBuilder<'b, T>)
        requires
            tables.valid(),
            self.valid(),
            aux.valid(),
            self.matrix_fits(),
            self.size() * self.size() * aux.size() <= usize::MAX,
            aux.size() <= usize::MAX,
        ensures
            r.valid(),
            r.main.shells@ == self.shells@,
            r.aux.shells@ == aux.shells@,
            r.tables == tables,
            r.engine == Engine::Auto,
    {
        Eri3cBuilder::new(self, aux, tables)
    }
}

} // verus!
