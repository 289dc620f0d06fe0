//! The repulsion tensor, assembled pair of shells by pair of shells.
//!
//! The output has one row, over the ordered pairs of functions, for every ordered pair
//! of functions. A task holds the rows of one canonical bra pair of shells, and is
//! filled by evaluating that pair with every canonical ket pair. A block is written in
//! the orders that swap the functions of the bra or those of the ket, never in those
//! that swap bra and ket: those are in the rows of another task. No two tasks share a
//! row, so they can be filled in any order or at the same time.
use vstd::prelude::*;

use crate::dense::{attenuation_of, blocks_of, engine_of, is_kernel};
use crate::df_builder::counts_of;
use crate::engine::pairs::ShellPairData;
use crate::eri_batch::{
    are_pairs, evaluate_batch4, four_of, function_size, pair_data_of, shell_block, EriBatchScratch,
};
use crate::flat::{lemma_pair_in_range, lemma_pair_order, pair};
use crate::integrals::Engine;
use crate::math::am::triangle;
use crate::offsets::{are_lengths, start};
use crate::one_electron::{
    lemma_placed, lemma_ranges_fit, lemma_transposed, place_block, place_transpose, transposed,
};
use crate::quartet::{
    recurs, quartet_into_scratch_erf, quartet_into_scratch_pairs, EriKernel, QuartetScratch, Tables,
};
use crate::scalar::{filled, Real};
use crate::schedule::{is_group, key_at, EriBatchSchedule, PairList};
use crate::shell::{function_counts, lemma_function_counts, Basis, Shell};
use crate::shell_pairs::{
    canonical_shell_pairs, holds_pairs, law_every_pair_is_listed, law_pair_numbers_order_pairs,
    pair_number, shell_pair_datas, tri_idx, Prepared,
};
use crate::slabs::{
    band_counts, law_every_row_has_one_owner, lists_canonical, owner, partition_rows, row_in,
    rows_fit, Bands,
};
use crate::tensor::{
    comes_before, in_block, index_of, is_function, lemma_slot2, ordered, slot2, slot4, tensor_entry,
    total, At,
};

verus! {

/// The value `(xy|zw)`: that of the block of the shells of the functions, in bra and ket
/// the later shell first.
pub open spec fn fourfold_entry<T>(
    blocks: spec_fn(int, int, int, int) -> Seq<T>,
    lens: Seq<int>,
    x: At,
    y: At,
    z: At,
    w: At,
) -> T {
    let (p, q) = ordered(x, y);
    let (r, s) = ordered(z, w);
    in_block(blocks(p.0, q.0, r.0, s.0), lens, (p, q, r, s))
}

/// An entry whose bra pair of shells does not come before its ket pair is the same value
/// as that of the tensor with all symmetries.
pub proof fn law_late_bras_agree<T>(
    blocks: spec_fn(int, int, int, int) -> Seq<T>,
    lens: Seq<int>,
    x: At,
    y: At,
    z: At,
    w: At,
)
    requires
        !comes_before(
            ordered(x, y).0.0,
            ordered(x, y).1.0,
            ordered(z, w).0.0,
            ordered(z, w).1.0,
        ),
    ensures
        fourfold_entry(blocks, lens, x, y, z, w) == tensor_entry(blocks, lens, x, y, z, w),
{
}

/// An entry does not change when functions of different shells are swapped within the bra
/// or within the ket.
pub proof fn law_fourfold_symmetry<T>(
    blocks: spec_fn(int, int, int, int) -> Seq<T>,
    lens: Seq<int>,
    x: At,
    y: At,
    z: At,
    w: At,
)
    ensures
        x.0 != y.0 ==> fourfold_entry(blocks, lens, x, y, z, w) == fourfold_entry(
            blocks,
            lens,
            y,
            x,
            z,
            w,
        ),
        z.0 != w.0 ==> fourfold_entry(blocks, lens, x, y, z, w) == fourfold_entry(
            blocks,
            lens,
            x,
            y,
            w,
            z,
        ),
{
}

/// Whether `new` is the row `old` with the values of a ket pair of shells written to all
/// places of its functions.
spec fn ket_placed<T>(
    old: Seq<T>,
    new: Seq<T>,
    lens: Seq<int>,
    k: int,
    l: int,
    part: Seq<T>,
) -> bool {
    &&& new.len() == old.len()
    &&& forall|z: At, w: At|
        is_function(lens, z) && is_function(lens, w) ==> #[trigger] new[slot2(lens, z, w)] == (
        if owner(z, w) == pair_number(k, l) {
            part[pair(ordered(z, w).0.1, lens[l], ordered(z, w).1.1)]
        } else {
            old[slot2(lens, z, w)]
        })
}

/// Write the values of a ket pair of shells into one row.
#[verifier::spinoff_prover]
#[verifier::rlimit(40)]
fn place_ket<'o, T: Copy>(
    band: &mut Vec<&'o mut [T]>,
    m: usize,
    n: usize,
    offs: &Vec<usize>,
    k: usize,
    l: usize,
    part: &Vec<T>,
    nk: usize,
    nl: usize,
    Ghost(lens): Ghost<Seq<int>>,
)
    requires
        are_lengths(lens),
        n == total(lens),
        n * n <= usize::MAX,
        l <= k < lens.len(),
        offs@.len() == lens.len(),
        forall|s: int| 0 <= s < lens.len() ==> #[trigger] offs@[s] == start(lens, s),
        nk == lens[k as int],
        nl == lens[l as int],
        nk <= 28,
        nl <= 28,
        part@.len() == nk * nl,
        m < old(band)@.len(),
        old(band)@[m as int]@.len() == n * n,
    ensures
        final(band)@.len() == old(band)@.len(),
        ket_placed(
            old(band)@[m as int]@,
            final(band)@[m as int]@,
            lens,
            k as int,
            l as int,
            part@,
        ),
        forall|q: int|
            0 <= q < old(band)@.len() && q != m ==> #[trigger] final(band)@[q]@ == old(band)@[q]@,
        forall|q: int|
            0 <= q < old(band)@.len() ==> #[trigger] final(final(band)@[q])@ == final(old(band)@[q])@,
{
    let ghost was = band@[m as int]@;
    let ghost (pk, pl) = (k as int, l as int);
    proof {
        lemma_ranges_fit(lens, pk);
        lemma_ranges_fit(lens, pl);
        assert(offs@[pk] == start(lens, pk) && offs@[pl] == start(lens, pl));
        assert(nk * nl <= 784) by (nonlinear_arith)
            requires
                nk <= 28,
                nl <= 28,
        ;
    }
    let (ok, ol) = (offs[k], offs[l]);
    place_block(&mut *band[m], 0, n, ok, ol, part, nk, nl);
    let ghost mid = band@[m as int]@;
    if k != l {
        place_transpose(&mut *band[m], 0, n, ol, ok, part, nk, nl);
    }
    let ghost end = band@[m as int]@;
    proof {
        let t = transposed(part@, nk as int, nl as int);
        assert forall|z: At, w: At|
            is_function(lens, z) && is_function(lens, w) implies #[trigger] end[slot2(lens, z, w)]
            == (if owner(z, w) == pair_number(pk, pl) {
            part@[pair(ordered(z, w).0.1, lens[pl], ordered(z, w).1.1)]
        } else {
            was[slot2(lens, z, w)]
        }) by {
            law_every_row_has_one_owner(lens, z, w, pk, pl);
            lemma_placed(was, mid, lens, pk, pl, part@, 0, z, w);
            if k != l {
                lemma_placed(mid, end, lens, pl, pk, t, 0, z, w);
                if z.0 == pl && w.0 == pk {
                    lemma_transposed(part@, nk as int, nl as int, z.1, w.1);
                }
            }
        }
    }
}

/// Part `m` of a block, of the given length.
pub open spec fn part_of<T>(block: Seq<T>, m: int, len: int) -> Seq<T> {
    block.subrange(m * len, m * len + len)
}

/// Part of a block.
fn copy_part<T: Copy>(block: &Vec<T>, from: usize, len: usize) -> (r: Vec<T>)
    requires
        from + len <= block@.len(),
    ensures
        r@ == block@.subrange(from as int, from + len),
{
    let block_len = block.len();
    let mut r: Vec<T> = Vec::new();
    let mut i: usize = 0;
    while i < len
        invariant
            i <= len,
            from + len <= block@.len(),
            block@.len() <= usize::MAX,
            r@ == block@.subrange(from as int, from + i),
        decreases len - i,
    {
        r.push(block[from + i]);
        assert(r@ =~= block@.subrange(from as int, from + i + 1));
        i = i + 1;
    }
    r
}

/// Whether the rows of `new` hold, for every two functions of its shells, the values of
/// the ket pair `(k, l)` from `block`, and else what the rows of `old` hold.
spec fn bands_placed<T>(
    old: Bands<T>,
    new: Bands<T>,
    lens: Seq<int>,
    k: int,
    l: int,
    block: Seq<T>,
) -> bool {
    forall|x: At, y: At, z: At, w: At|
        is_function(lens, x) && is_function(lens, y) && is_function(lens, z) && is_function(lens, w)
            && owner(x, y) == pair_number(old.bra.0 as int, old.bra.1 as int) ==> #[trigger] row_in(
            new,
            lens,
            x,
            y,
        )[slot2(lens, z, w)] == (if owner(z, w) == pair_number(k, l) {
            in_block(
                block,
                lens,
                (ordered(x, y).0, ordered(x, y).1, ordered(z, w).0, ordered(z, w).1),
            )
        } else {
            row_in(old, lens, x, y)[slot2(lens, z, w)]
        })
}

/// Write the block of a bra and a ket pair of shells into the rows of the bra pair.
#[verifier::spinoff_prover]
#[verifier::rlimit(80)]
fn scatter_4fold<'o, T: Copy>(
    rows: &mut Bands<'o, T>,
    n: usize,
    offs: &Vec<usize>,
    k: usize,
    l: usize,
    block: &Vec<T>,
    dims: [usize; 4],
    Ghost(lens): Ghost<Seq<int>>,
)
    requires
        are_lengths(lens),
        n == total(lens),
        n * n <= usize::MAX,
        l <= k < lens.len(),
        offs@.len() == lens.len(),
        forall|s: int| 0 <= s < lens.len() ==> #[trigger] offs@[s] == start(lens, s),
        band_counts(*old(rows), lens),
        rows_fit(old(rows).ij@, n * n),
        rows_fit(old(rows).ji@, n * n),
        dims[0] == lens[old(rows).bra.0 as int],
        dims[1] == lens[old(rows).bra.1 as int],
        dims[2] == lens[k as int],
        dims[3] == lens[l as int],
        dims[0] <= 28,
        dims[1] <= 28,
        dims[2] <= 28,
        dims[3] <= 28,
        block@.len() == dims[0] * dims[1] * dims[2] * dims[3],
    ensures
        final(rows).bra == old(rows).bra,
        band_counts(*final(rows), lens),
        rows_fit(final(rows).ij@, n * n),
        rows_fit(final(rows).ji@, n * n),
        bands_placed(*old(rows), *final(rows), lens, k as int, l as int, block@),
        forall|q: int|
            0 <= q < old(rows).ij@.len() ==> #[trigger] final(final(rows).ij@[q])@ == final(old(rows).ij@[q])@,
        forall|q: int|
            0 <= q < old(rows).ji@.len() ==> #[trigger] final(final(rows).ji@[q])@ == final(old(rows).ji@[q])@,
{
    let ghost was = *rows;
    let ghost (bij, bji) = (rows.ij@, rows.ji@);
    let swap = rows.bra.0 != rows.bra.1;
    let (ni, nj, nk, nl) = (dims[0], dims[1], dims[2], dims[3]);
    let ghost (pi, pj) = (ni as int, nj as int);
    let ghost (pk, pl) = (k as int, l as int);
    proof {
        assert(nk * nl <= 784) by (nonlinear_arith)
            requires
                nk <= 28,
                nl <= 28,
        ;
        assert(pi * pj <= 784) by (nonlinear_arith)
            requires
                0 <= pi <= 28,
                0 <= pj <= 28,
        ;
        assert(pi * pj * nk * nl == pi * pj * (nk * nl)) by (nonlinear_arith);
        assert(pi * pj * (nk * nl) <= 614656) by (nonlinear_arith)
            requires
                0 <= pi * pj <= 784,
                0 <= nk * nl <= 784,
        ;
    }
    let size: usize = nk * nl;
    let mut a: usize = 0;
    while a < ni
        invariant
            a <= ni,
            pi == ni,
            pj == nj,
            pk == k,
            pl == l,
            pi * pj <= 784,
            nk <= 28,
            nl <= 28,
            nk == lens[pk],
            nl == lens[pl],
            size == nk * nl,
            block@.len() == pi * pj * size,
            pi * pj * size <= 614656,
            are_lengths(lens),
            n == total(lens),
            n * n <= usize::MAX,
            l <= k < lens.len(),
            offs@.len() == lens.len(),
            forall|s: int| 0 <= s < lens.len() ==> #[trigger] offs@[s] == start(lens, s),
            rows.bra == was.bra,
            swap == (was.bra.0 != was.bra.1),
            was.ij@ == bij,
            was.ji@ == bji,
            bij.len() == pi * pj,
            swap ==> bji.len() == pj * pi,
            rows.ij@.len() == bij.len(),
            rows.ji@.len() == bji.len(),
            rows_fit(bij, n * n),
            rows_fit(bji, n * n),
            forall|r: int, c: int|
                0 <= r < pi && 0 <= c < pj ==> (if r < a {
                    ket_placed(
                        bij[pair(r, pj, c)]@,
                        #[trigger] rows.ij@[pair(r, pj, c)]@,
                        lens,
                        pk,
                        pl,
                        part_of(block@, pair(r, pj, c), size as int),
                    )
                } else {
                    rows.ij@[pair(r, pj, c)]@ == bij[pair(r, pj, c)]@
                }),
            forall|r: int, c: int|
                0 <= r < pi && 0 <= c < pj && swap ==> (if r < a {
                    ket_placed(
                        bji[pair(c, pi, r)]@,
                        #[trigger] rows.ji@[pair(c, pi, r)]@,
                        lens,
                        pk,
                        pl,
                        part_of(block@, pair(r, pj, c), size as int),
                    )
                } else {
                    rows.ji@[pair(c, pi, r)]@ == bji[pair(c, pi, r)]@
                }),
            forall|q: int|
                0 <= q < bij.len() ==> #[trigger] final(rows.ij@[q])@ == final(bij[q])@,
            forall|q: int|
                0 <= q < bji.len() ==> #[trigger] final(rows.ji@[q])@ == final(bji[q])@,
        decreases ni - a,
    {
        let mut b: usize = 0;
        while b < nj
            invariant
                a < ni,
                b <= nj,
                pi == ni,
                pj == nj,
                pk == k,
                pl == l,
                pi * pj <= 784,
                nk <= 28,
                nl <= 28,
                nk == lens[pk],
                nl == lens[pl],
                size == nk * nl,
                block@.len() == pi * pj * size,
                pi * pj * size <= 614656,
                are_lengths(lens),
                n == total(lens),
                n * n <= usize::MAX,
                l <= k < lens.len(),
                offs@.len() == lens.len(),
                forall|s: int| 0 <= s < lens.len() ==> #[trigger] offs@[s] == start(lens, s),
                rows.bra == was.bra,
                swap == (was.bra.0 != was.bra.1),
                was.ij@ == bij,
                was.ji@ == bji,
                bij.len() == pi * pj,
                swap ==> bji.len() == pj * pi,
                rows.ij@.len() == bij.len(),
                rows.ji@.len() == bji.len(),
                rows_fit(bij, n * n),
                rows_fit(bji, n * n),
                forall|r: int, c: int|
                    0 <= r < pi && 0 <= c < pj ==> (if r < a || (r == a && c < b) {
                        ket_placed(
                            bij[pair(r, pj, c)]@,
                            #[trigger] rows.ij@[pair(r, pj, c)]@,
                            lens,
                            pk,
                            pl,
                            part_of(block@, pair(r, pj, c), size as int),
                        )
                    } else {
                        rows.ij@[pair(r, pj, c)]@ == bij[pair(r, pj, c)]@
                    }),
                forall|r: int, c: int|
                    0 <= r < pi && 0 <= c < pj && swap ==> (if r < a || (r == a && c < b) {
                        ket_placed(
                            bji[pair(c, pi, r)]@,
                            #[trigger] rows.ji@[pair(c, pi, r)]@,
                            lens,
                            pk,
                            pl,
                            part_of(block@, pair(r, pj, c), size as int),
                        )
                    } else {
                        rows.ji@[pair(c, pi, r)]@ == bji[pair(c, pi, r)]@
                    }),
                forall|q: int|
                    0 <= q < bij.len() ==> #[trigger] final(rows.ij@[q])@ == final(bij[q])@,
                forall|q: int|
                    0 <= q < bji.len() ==> #[trigger] final(rows.ji@[q])@ == final(bji[q])@,
            decreases nj - b,
        {
            let ghost (ga, gb) = (a as int, b as int);
            proof {
                lemma_pair_in_range(ga, pi, pj, gb);
                lemma_pair_in_range(gb, pj, pi, ga);
                let q = pair(ga, pj, gb);
                assert(0 <= q * size && q * size + size <= pi * pj * size) by (nonlinear_arith)
                    requires
                        0 <= q,
                        q + 1 <= pi * pj,
                        size >= 0,
                ;
                assert(pj * pi == pi * pj) by (nonlinear_arith);
                assert(rows.ij@[q]@ == bij[q]@);
                assert(bij[q]@.len() == n * n);
            }
            let ghost (rij, rji) = (rows.ij@, rows.ji@);
            let m: usize = a * nj + b;
            let part = copy_part(block, m * size, size);
            assert(part@ == part_of(block@, pair(ga, pj, gb), size as int));
            place_ket(&mut rows.ij, m, n, offs, k, l, &part, nk, nl, Ghost(lens));
            if swap {
                proof {
                    let q = pair(gb, pi, ga);
                    assert(rows.ji@[q]@ == bji[q]@);
                    assert(bji[q]@.len() == n * n);
                }
                place_ket(&mut rows.ji, b * ni + a, n, offs, k, l, &part, nk, nl, Ghost(lens));
            }
            proof {
                assert forall|r: int, c: int|
                    0 <= r < pi && 0 <= c < pj implies (if r < a || (r == a && c < b + 1) {
                    ket_placed(
                        bij[pair(r, pj, c)]@,
                        #[trigger] rows.ij@[pair(r, pj, c)]@,
                        lens,
                        pk,
                        pl,
                        part_of(block@, pair(r, pj, c), size as int),
                    )
                } else {
                    rows.ij@[pair(r, pj, c)]@ == bij[pair(r, pj, c)]@
                }) by {
                    lemma_pair_in_range(r, pi, pj, c);
                    lemma_pair_order(r, c, ga, gb, pj);
                    let old_row = rij[pair(r, pj, c)]@;
                    assert(if r < a || (r == a && c < b) {
                        ket_placed(
                            bij[pair(r, pj, c)]@,
                            old_row,
                            lens,
                            pk,
                            pl,
                            part_of(block@, pair(r, pj, c), size as int),
                        )
                    } else {
                        old_row == bij[pair(r, pj, c)]@
                    });
                }
                if swap {
                    assert forall|r: int, c: int|
                        0 <= r < pi && 0 <= c < pj implies (if r < a || (r == a && c < b + 1) {
                        ket_placed(
                            bji[pair(c, pi, r)]@,
                            #[trigger] rows.ji@[pair(c, pi, r)]@,
                            lens,
                            pk,
                            pl,
                            part_of(block@, pair(r, pj, c), size as int),
                        )
                    } else {
                        rows.ji@[pair(c, pi, r)]@ == bji[pair(c, pi, r)]@
                    }) by {
                        lemma_pair_in_range(c, pj, pi, r);
                        lemma_pair_order(c, r, gb, ga, pi);
                        let old_row = rji[pair(c, pi, r)]@;
                        assert(if r < a || (r == a && c < b) {
                            ket_placed(
                                bji[pair(c, pi, r)]@,
                                old_row,
                                lens,
                                pk,
                                pl,
                                part_of(block@, pair(r, pj, c), size as int),
                            )
                        } else {
                            old_row == bji[pair(c, pi, r)]@
                        });
                    }
                }
                assert forall|q: int| 0 <= q < bij.len() implies #[trigger] final(rows.ij@[q])@ == final(bij[q])@ by {
                    assert(final(rij[q])@ == final(bij[q])@);
                }
                assert forall|q: int| 0 <= q < bji.len() implies #[trigger] final(rows.ji@[q])@ == final(bji[q])@ by {
                    assert(final(rji[q])@ == final(bji[q])@);
                }
            }
            b = b + 1;
        }
        a = a + 1;
    }
    proof {
        let nn = n * n;
        assert forall|x: At, y: At, z: At, w: At|
            is_function(lens, x) && is_function(lens, y) && is_function(lens, z) && is_function(
                lens,
                w,
            ) && owner(x, y) == pair_number(was.bra.0 as int, was.bra.1 as int) implies #[trigger] row_in(
            *rows,
            lens,
            x,
            y,
        )[slot2(lens, z, w)] == (if owner(z, w) == pair_number(pk, pl) {
            in_block(
                block@,
                lens,
                (ordered(x, y).0, ordered(x, y).1, ordered(z, w).0, ordered(z, w).1),
            )
        } else {
            row_in(was, lens, x, y)[slot2(lens, z, w)]
        }) by {
            law_every_row_has_one_owner(lens, x, y, was.bra.0 as int, was.bra.1 as int);
            law_every_row_has_one_owner(lens, z, w, pk, pl);
            let (hi, lo) = ordered(x, y);
            let (r, s) = ordered(z, w);
            let m = pair(hi.1, pj, lo.1);
            lemma_pair_in_range(hi.1, pi, pj, lo.1);
            let part = part_of(block@, m, size as int);
            if x.0 == was.bra.0 && y.0 == was.bra.1 {
                assert(ket_placed(
                    bij[pair(hi.1, pj, lo.1)]@,
                    rows.ij@[pair(hi.1, pj, lo.1)]@,
                    lens,
                    pk,
                    pl,
                    part,
                ));
            } else {
                assert(ket_placed(
                    bji[pair(lo.1, pi, hi.1)]@,
                    rows.ji@[pair(lo.1, pi, hi.1)]@,
                    lens,
                    pk,
                    pl,
                    part,
                ));
            }
            if owner(z, w) == pair_number(pk, pl) {
                lemma_pair_in_range(r.1, nk as int, nl as int, s.1);
                assert(0 <= m * size && m * size + size <= pi * pj * size) by (nonlinear_arith)
                    requires
                        0 <= m,
                        m + 1 <= pi * pj,
                        size >= 0,
                ;
                assert((m * nk + r.1) * nl + s.1 == m * size + (r.1 * nl + s.1)) by (nonlinear_arith)
                    requires
                        size == nk * nl,
                ;
                assert(part[pair(r.1, nl as int, s.1)] == block@[m * size + pair(
                    r.1,
                    nl as int,
                    s.1,
                )]);
            }
        }
        assert(rows_fit(rows.ij@, nn)) by {
            assert forall|q: int| 0 <= q < rows.ij@.len() implies (#[trigger] rows.ij@[q]@).len()
                == nn by {
                crate::flat::lemma_index_parts(q, pi, pj);
                assert(bij[q]@.len() == nn);
                assert(ket_placed(
                    bij[pair(q / pj, pj, q % pj)]@,
                    rows.ij@[pair(q / pj, pj, q % pj)]@,
                    lens,
                    pk,
                    pl,
                    part_of(block@, pair(q / pj, pj, q % pj), size as int),
                ));
            }
        }
        assert(rows_fit(rows.ji@, nn)) by {
            assert forall|q: int| 0 <= q < rows.ji@.len() implies (#[trigger] rows.ji@[q]@).len()
                == nn by {
                crate::flat::lemma_index_parts(q, pj, pi);
                assert(bji[q]@.len() == nn);
                assert(ket_placed(
                    bji[pair(q / pi, pi, q % pi)]@,
                    rows.ji@[pair(q / pi, pi, q % pi)]@,
                    lens,
                    pk,
                    pl,
                    part_of(block@, pair(q % pi, pj, q / pi), size as int),
                ));
            }
        }
    }
}

/// Whether two functions are of the shells of a pair, in either order.
pub open spec fn is_pair_of(p: (usize, usize), x: At, y: At) -> bool {
    (x.0 == p.0 && y.0 == p.1) || (x.0 == p.1 && y.0 == p.0)
}

/// The rows of one canonical bra pair of shells.
pub struct BraPairFill<'o, T> {
    pub rows: Bands<'o, T>,
}

impl<'o, T> BraPairFill<'o, T> {
    /// The pair of shells, the later one first.
    #[must_use]
    pub fn bra(&self) -> (r: (usize, usize))
        ensures
            r == self.rows.bra,
    {
        self.rows.bra
    }
}

/// A plan for the repulsion tensor.
pub struct EriBuilder<'b, T> {
    pub tables: &'b Tables<T>,
    pub prep: Prepared<'b, T>,
    pub engine: Engine,
    pub kernel: EriKernel<T>,
    pub offs: Vec<usize>,
    pub counts: Vec<usize>,
    pub nao: usize,
    pub pairs: Vec<(usize, usize)>,
    pub pair_data: Vec<ShellPairData<T>>,
    pub batch_schedule: EriBatchSchedule,
}

/// What a schedule reads of the pairs of shells.
pub open spec fn pair_list<T: Real>(
    shells: Seq<Shell<T>>,
    pairs: Seq<(usize, usize)>,
    data: Seq<ShellPairData<T>>,
) -> PairList<T> {
    PairList {
        shells,
        pairs,
        counts: Seq::new(data.len(), |k: int| data[k].pairs@.len() as int),
    }
}

impl<'b, T: Real> EriBuilder<'b, T> {
    /// The numbers of functions of the shells.
    pub open spec fn lens(self) -> Seq<int> {
        function_counts(self.prep.shells@)
    }

    /// The blocks that the tensor is made of.
    pub open spec fn blocks(self) -> spec_fn(int, int, int, int) -> Seq<T> {
        blocks_of(
            self.tables.rys,
            engine_of(self.kernel, self.engine),
            attenuation_of(self.kernel),
            self.prep.shells@,
        )
    }

    /// The value `(xy|zw)`.
    pub open spec fn value(self, x: At, y: At, z: At, w: At) -> T {
        fourfold_entry(self.blocks(), self.lens(), x, y, z, w)
    }

    /// The pairs of shells that the schedule is for.
    pub open spec fn list(self) -> PairList<T> {
        pair_list(self.prep.shells@, self.pairs@, self.pair_data@)
    }

    /// The plan is one for its shells.
    pub open spec fn valid(self) -> bool {
        &&& self.tables.valid()
        &&& self.prep.valid()
        &&& are_lengths(self.lens())
        &&& self.nao == total(self.lens())
        &&& self.nao * self.nao <= usize::MAX
        &&& self.nao * self.nao * (self.nao * self.nao) <= usize::MAX
        &&& self.offs@.len() == self.lens().len()
        &&& self.counts@.len() == self.lens().len()
        &&& forall|s: int|
            0 <= s < self.lens().len() ==> #[trigger] self.offs@[s] == start(self.lens(), s)
        &&& forall|s: int|
            0 <= s < self.lens().len() ==> #[trigger] self.counts@[s] == self.lens()[s]
        &&& lists_canonical(self.pairs@, self.lens().len() as int)
        &&& holds_pairs(self.pair_data@, self.prep.shells@)
        &&& self.batch_schedule.covers(self.engine, self.list(), self.pairs@.len() as int)
        &&& self.pairs@.len() <= u32::MAX
    }

    /// A plan for a basis.
    pub fn new(basis: &'b Basis<T>, tables: &'b Tables<T>) -> (r: Self)
        requires
            tables.valid(),
            basis.valid(),
            basis.tensor_fits(),
            triangle(basis.shells@.len() as int) <= u32::MAX,
        ensures
            r.valid(),
            r.prep.shells@ == basis.shells@,
            r.tables == tables,
            r.engine == Engine::Auto,
            r.kernel is Coulomb,
    {
        Self::with_engine(basis, tables, Engine::Auto)
    }

    /// A plan for a basis with the engine given.
    pub fn with_engine(basis: &'b Basis<T>, tables: &'b Tables<T>, engine: Engine) -> (r: Self)
        requires
            tables.valid(),
            basis.valid(),
            basis.tensor_fits(),
            triangle(basis.shells@.len() as int) <= u32::MAX,
        ensures
            r.valid(),
            r.prep.shells@ == basis.shells@,
            r.tables == tables,
            r.engine == engine,
            r.kernel is Coulomb,
    {
        proof {
            let n = basis.size();
            lemma_function_counts(basis.shells@);
            crate::offsets::lemma_start_grows(
                function_counts(basis.shells@),
                0,
                basis.shells@.len() as int,
            );
            crate::tensor::lemma_total_steps(n);
            assert(n * n * n * n == n * n * (n * n)) by (nonlinear_arith);
        }
        let prep = Prepared::new(&basis.shells);
        let pairs = canonical_shell_pairs(basis.shells.len());
        let pair_data = shell_pair_datas(&prep);
        let ghost p = pair_list(prep.shells@, pairs@, pair_data@);
        let batch_schedule = EriBatchSchedule::new(&prep, engine, &pairs, &pair_data, Ghost(p));
        EriBuilder {
            tables,
            prep,
            engine,
            kernel: EriKernel::Coulomb,
            offs: basis.offsets(),
            counts: counts_of(&basis.shells),
            nao: basis.nao(),
            pairs,
            pair_data,
            batch_schedule,
        }
    }

    /// The plan over the given kernel.
    #[must_use]
    pub fn kernel(self, k: EriKernel<T>) -> (r: Self)
        requires
            self.valid(),
            is_kernel(k),
        ensures
            r.valid(),
            r.kernel == k,
            r.prep.shells@ == self.prep.shells@,
            r.tables == self.tables,
            r.engine == self.engine,
    {
        let mut r = self;
        r.kernel = k;
        r
    }

    /// The canonical bra pairs of shells, one for each task.
    #[must_use]
    pub fn bra_pairs(&self) -> (r: &[(usize, usize)])
        ensures
            r@ == self.pairs@,
    {
        self.pairs.as_slice()
    }

    /// The length of the output.
    #[must_use]
    pub fn output_len(&self) -> (n: usize)
        requires
            self.valid(),
        ensures
            n == self.nao * self.nao * (self.nao * self.nao),
    {
        let plane: usize = self.nao * self.nao;
        plane * plane
    }

    /// Whether the rows are those of a canonical bra pair of shells.
    pub open spec fn is_task(self, task: BraPairFill<T>) -> bool {
        &&& band_counts(task.rows, self.lens())
        &&& rows_fit(task.rows.ij@, self.nao * self.nao)
        &&& rows_fit(task.rows.ji@, self.nao * self.nao)
    }

    /// Whether the rows of `new` hold the values of the ket pairs in `done`, and else what
    /// the rows of `old` hold.
    pub open spec fn is_filled(self, old: Bands<T>, new: Bands<T>, done: Set<int>) -> bool {
        &&& new.bra == old.bra
        &&& new.ij@.len() == old.ij@.len()
        &&& new.ji@.len() == old.ji@.len()
        &&& rows_fit(new.ij@, self.nao * self.nao)
        &&& rows_fit(new.ji@, self.nao * self.nao)
        &&& forall|x: At, y: At, z: At, w: At|
            is_function(self.lens(), x) && is_function(self.lens(), y) && is_function(
                self.lens(),
                z,
            ) && is_function(self.lens(), w) && owner(x, y) == pair_number(
                old.bra.0 as int,
                old.bra.1 as int,
            ) ==> #[trigger] row_in(new, self.lens(), x, y)[slot2(self.lens(), z, w)] == (
            if done.contains(owner(z, w)) {
                self.value(x, y, z, w)
            } else {
                row_in(old, self.lens(), x, y)[slot2(self.lens(), z, w)]
            })
    }

    /// Writing the block of one more ket pair.
    proof fn lemma_filled_step(
        self,
        old: Bands<T>,
        mid: Bands<T>,
        new: Bands<T>,
        done: Set<int>,
        i: int,
        j: int,
        k: int,
        l: int,
    )
        requires
            0 <= j <= i < self.lens().len(),
            0 <= l <= k < self.lens().len(),
            old.bra.0 == i,
            old.bra.1 == j,
            mid.bra == old.bra,
            new.bra == mid.bra,
            new.ij@.len() == mid.ij@.len(),
            new.ji@.len() == mid.ji@.len(),
            rows_fit(new.ij@, self.nao * self.nao),
            rows_fit(new.ji@, self.nao * self.nao),
            self.is_filled(old, mid, done),
            bands_placed(mid, new, self.lens(), k, l, self.blocks()(i, j, k, l)),
        ensures
            self.is_filled(old, new, done.insert(pair_number(k, l))),
    {
        let lens = self.lens();
        assert forall|x: At, y: At, z: At, w: At|
            is_function(lens, x) && is_function(lens, y) && is_function(lens, z) && is_function(
                lens,
                w,
            ) && owner(x, y) == pair_number(old.bra.0 as int, old.bra.1 as int) implies #[trigger] row_in(
            new,
            lens,
            x,
            y,
        )[slot2(lens, z, w)] == (if done.insert(pair_number(k, l)).contains(owner(z, w)) {
            self.value(x, y, z, w)
        } else {
            row_in(old, lens, x, y)[slot2(lens, z, w)]
        }) by {
            law_every_row_has_one_owner(lens, x, y, i, j);
            law_every_row_has_one_owner(lens, z, w, k, l);
            assert(row_in(mid, lens, x, y)[slot2(lens, z, w)] == (if done.contains(owner(z, w)) {
                self.value(x, y, z, w)
            } else {
                row_in(old, lens, x, y)[slot2(lens, z, w)]
            }));
        }
    }

    /// Evaluate one quartet and write its block.
    #[verifier::spinoff_prover]
    #[verifier::rlimit(40)]
    fn evaluate_scalar(
        &self,
        rows: &mut Bands<'_, T>,
        ket: usize,
        scratch: &mut QuartetScratch<T>,
        Ghost(was): Ghost<Bands<'_, T>>,
        Ghost(done): Ghost<Set<int>>,
    )
        requires
            self.valid(),
            band_counts(*old(rows), self.lens()),
            ket < self.pairs@.len(),
            self.is_filled(was, *old(rows), done),
        ensures
            band_counts(*final(rows), self.lens()),
            self.is_filled(was, *final(rows), done.insert(ket as int)),
            forall|q: int|
                0 <= q < old(rows).ij@.len() ==> #[trigger] final(final(rows).ij@[q])@ == final(old(rows).ij@[q])@,
            forall|q: int|
                0 <= q < old(rows).ji@.len() ==> #[trigger] final(final(rows).ji@[q])@ == final(old(rows).ji@[q])@,
    {
        let (i, j) = rows.bra;
        let (k, l) = self.pairs[ket];
        assert(self.pairs@[ket as int].1 <= self.pairs@[ket as int].0 < self.lens().len());
        let s = [self.prep.side(i), self.prep.side(j), self.prep.side(k), self.prep.side(l)];
        match self.kernel {
            EriKernel::Coulomb => {
                let bra = pair_data_of(&self.pair_data, &self.prep, i, j);
                let kets = pair_data_of(&self.pair_data, &self.prep, k, l);
                quartet_into_scratch_pairs(scratch, self.tables, self.engine, s, bra, kets);
            },
            EriKernel::Erf { omega } => {
                quartet_into_scratch_erf(scratch, self.tables, s, omega);
            },
        }
        let ghost mid = *rows;
        let dims = [
            s[0].shell.n_func(),
            s[1].shell.n_func(),
            s[2].shell.n_func(),
            s[3].shell.n_func(),
        ];
        assert(scratch.block@ == self.blocks()(i as int, j as int, k as int, l as int));
        scatter_4fold(
            rows,
            self.nao,
            &self.offs,
            k,
            l,
            &scratch.block,
            dims,
            Ghost(self.lens()),
        );
        proof {
            self.lemma_filled_step(
                was,
                mid,
                *rows,
                done,
                i as int,
                j as int,
                k as int,
                l as int,
            );
        }
    }

    /// Split an output into the rows of the canonical bra pairs of shells.
    pub fn partition<'o>(&self, out: &'o mut [T]) -> (tasks: Vec<BraPairFill<'o, T>>)
        requires
            self.valid(),
            old(out)@.len() == self.nao * self.nao * (self.nao * self.nao),
        ensures
            tasks@.len() == self.pairs@.len(),
            forall|t: int|
                0 <= t < tasks@.len() ==> (#[trigger] tasks@[t]).rows.bra == self.pairs@[t]
                    && self.is_task(tasks@[t]),
            forall|x: At, y: At|
                is_function(self.lens(), x) && is_function(self.lens(), y) ==> #[trigger] row_in(
                    tasks@[owner(x, y)].rows,
                    self.lens(),
                    x,
                    y,
                ) == old(out)@.subrange(
                    slot2(self.lens(), x, y) * (self.nao * self.nao),
                    slot2(self.lens(), x, y) * (self.nao * self.nao) + (self.nao * self.nao),
                ),
            (forall|t: int, k: int|
                0 <= t < tasks@.len() && 0 <= k < tasks@[t].rows.ij@.len() ==> (#[trigger] final(tasks@[t].rows.ij@[k])@).len() == self.nao * self.nao)
                && (forall|t: int, k: int|
                0 <= t < tasks@.len() && 0 <= k < tasks@[t].rows.ji@.len() ==> (#[trigger] final(tasks@[t].rows.ji@[k])@).len() == self.nao * self.nao)
                ==> final(out)@.len() == self.nao * self.nao * (self.nao * self.nao) && forall|x: At, y: At|
                is_function(self.lens(), x) && is_function(self.lens(), y)
                    ==> final(out)@.subrange(
                    #[trigger] slot2(self.lens(), x, y) * (self.nao * self.nao),
                    slot2(self.lens(), x, y) * (self.nao * self.nao) + (self.nao * self.nao),
                ) == (if x.0 >= y.0 {
                    final(tasks@[owner(x, y)].rows.ij@[pair(x.1, self.lens()[y.0], y.1)])@
                } else {
                    final(tasks@[owner(x, y)].rows.ji@[pair(x.1, self.lens()[y.0], y.1)])@
                }),
    {
        let mut bands = partition_rows(
            out,
            self.nao * self.nao,
            self.nao,
            &self.offs,
            &self.counts,
            &self.pairs,
            Ghost(self.lens()),
        );
        let ghost all = bands@;
        let mut turned: Vec<Bands<'o, T>> = Vec::new();
        let mut tasks: Vec<BraPairFill<'o, T>> = Vec::new();
        while bands.len() > 0
            invariant
                bands@.len() + turned@.len() == all.len(),
                forall|t: int| 0 <= t < bands@.len() ==> #[trigger] bands@[t] == all[t],
                forall|t: int|
                    0 <= t < turned@.len() ==> #[trigger] turned@[t] == all[all.len() - 1 - t],
            decreases bands@.len(),
        {
            if let Some(rows) = bands.pop() {
                turned.push(rows);
            }
        }
        while turned.len() > 0
            invariant
                turned@.len() + tasks@.len() == all.len(),
                forall|t: int|
                    0 <= t < turned@.len() ==> #[trigger] turned@[t] == all[all.len() - 1 - t],
                forall|t: int| 0 <= t < tasks@.len() ==> (#[trigger] tasks@[t]).rows == all[t],
            decreases turned@.len(),
        {
            if let Some(rows) = turned.pop() {
                tasks.push(BraPairFill { rows });
            }
        }
        proof {
            let lens = self.lens();
            assert forall|t: int| 0 <= t < tasks@.len() implies (#[trigger] tasks@[t]).rows.bra
                == self.pairs@[t] && self.is_task(tasks@[t]) by {
                assert(all[t].bra == self.pairs@[t]);
            }
            assert forall|x: At, y: At|
                is_function(lens, x) && is_function(lens, y) implies 0 <= #[trigger] owner(x, y)
                < tasks@.len() && tasks@[owner(x, y)].rows == all[owner(x, y)] by {
                let (p, q) = (ordered(x, y).0.0, ordered(x, y).1.0);
                law_every_row_has_one_owner(lens, x, y, p, q);
            }
            assert forall|u: int|
                (forall|t: int, k: int|
                    0 <= t < tasks@.len() && 0 <= k < tasks@[t].rows.ij@.len() ==> (#[trigger] final(tasks@[t].rows.ij@[k])@).len() == self.nao * self.nao)
                    && (forall|t: int, k: int|
                    0 <= t < tasks@.len() && 0 <= k < tasks@[t].rows.ji@.len() ==> (#[trigger] final(tasks@[t].rows.ji@[k])@).len() == self.nao * self.nao)
                    && #[trigger] start(lens, u) == start(lens, u) implies (forall|t: int, k: int|
                0 <= t < all.len() && 0 <= k < all[t].ij@.len() ==> (#[trigger] final(all[t].ij@[k])@).len() == self.nao * self.nao)
                && (forall|t: int, k: int|
                0 <= t < all.len() && 0 <= k < all[t].ji@.len() ==> (#[trigger] final(all[t].ji@[k])@).len() == self.nao * self.nao) by {
                assert forall|t: int, k: int|
                    0 <= t < all.len() && 0 <= k < all[t].ij@.len() implies (#[trigger] final(all[t].ij@[k])@).len() == self.nao * self.nao by {
                    assert(tasks@[t].rows == all[t]);
                    assert((final(tasks@[t].rows.ij@[k])@).len() == self.nao * self.nao);
                }
                assert forall|t: int, k: int|
                    0 <= t < all.len() && 0 <= k < all[t].ji@.len() implies (#[trigger] final(all[t].ji@[k])@).len() == self.nao * self.nao by {
                    assert(tasks@[t].rows == all[t]);
                    assert((final(tasks@[t].rows.ji@[k])@).len() == self.nao * self.nao);
                }
            }
            assert(start(lens, 0) == start(lens, 0));
        }
        tasks
    }

    /// Evaluate a group of quartets and write their blocks.
    #[verifier::spinoff_prover]
    #[verifier::rlimit(60)]
    fn evaluate_group(
        &self,
        rows: &mut Bands<'_, T>,
        kets: [u32; 4],
        scratch: &mut EriBatchScratch<T>,
        Ghost(was): Ghost<Bands<'_, T>>,
        Ghost(done): Ghost<Set<int>>,
    )
        requires
            self.valid(),
            self.kernel is Coulomb,
            band_counts(*old(rows), self.lens()),
            old(scratch).valid(),
            is_group(
                self.engine,
                self.list(),
                pair_number(old(rows).bra.0 as int, old(rows).bra.1 as int),
                kets,
            ),
            self.is_filled(was, *old(rows), done),
        ensures
            final(scratch).valid(),
            band_counts(*final(rows), self.lens()),
            self.is_filled(
                was,
                *final(rows),
                done.insert(kets[0] as int).insert(kets[1] as int).insert(kets[2] as int).insert(
                    kets[3] as int,
                ),
            ),
            forall|q: int|
                0 <= q < old(rows).ij@.len() ==> #[trigger] final(final(rows).ij@[q])@ == final(old(rows).ij@[q])@,
            forall|q: int|
                0 <= q < old(rows).ji@.len() ==> #[trigger] final(final(rows).ji@[q])@ == final(old(rows).ji@[q])@,
    {
        let (i, j) = rows.bra;
        let ghost lens = self.lens();
        let ghost b = pair_number(i as int, j as int);
        proof {
            law_every_pair_is_listed(self.pairs@, lens.len() as int, i as int, j as int);
            assert(kets[0] < self.pairs@.len());
            assert(kets[1] < self.pairs@.len());
            assert(kets[2] < self.pairs@.len());
            assert(kets[3] < self.pairs@.len());
            assert(self.pairs@[kets[0] as int].1 <= self.pairs@[kets[0] as int].0 < lens.len());
            assert(self.pairs@[kets[1] as int].1 <= self.pairs@[kets[1] as int].0 < lens.len());
            assert(self.pairs@[kets[2] as int].1 <= self.pairs@[kets[2] as int].0 < lens.len());
            assert(self.pairs@[kets[3] as int].1 <= self.pairs@[kets[3] as int].0 < lens.len());
        }
        let p0 = self.pairs[kets[0] as usize];
        let p1 = self.pairs[kets[1] as usize];
        let p2 = self.pairs[kets[2] as usize];
        let p3 = self.pairs[kets[3] as usize];
        let group = [
            [i, j, p0.0, p0.1],
            [i, j, p1.0, p1.1],
            [i, j, p2.0, p2.1],
            [i, j, p3.0, p3.1],
        ];
        proof {
            assert forall|lane: int| 0 <= lane < 4 implies are_pairs(
                self.prep.shells@,
                #[trigger] group[lane],
            ) && recurs(
                self.engine,
                four_of(
                    self.prep.shells@,
                    group[lane][0] as int,
                    group[lane][1] as int,
                    group[lane][2] as int,
                    group[lane][3] as int,
                ),
            ) && group[lane] == [
                i,
                j,
                self.pairs@[kets[lane] as int].0,
                self.pairs@[kets[lane] as int].1,
            ] by {
                assert(lane == 0 || lane == 1 || lane == 2 || lane == 3);
                assert(key_at(self.engine, self.list(), b, kets[lane] as int) == key_at(
                    self.engine,
                    self.list(),
                    b,
                    kets[0] as int,
                ));
            }
        }
        evaluate_batch4(
            scratch,
            self.tables,
            &self.prep,
            &self.pair_data,
            Ghost(self.engine),
            group,
        );
        assert(self.prep.shells@[i as int].valid());
        assert(self.prep.shells@[j as int].valid());
        let (ni, nj) = (self.prep.shells[i].n_func(), self.prep.shells[j].n_func());
        let ghost mut now = done;
        let ghost start_rows = *rows;
        let mut lane: usize = 0;
        while lane < 4
            invariant
                lane <= 4,
                self.valid(),
                self.kernel is Coulomb,
                scratch.valid(),
                lens == self.lens(),
                j <= i < lens.len(),
                was.bra == (i, j),
                rows.bra == (i, j),
                ni == lens[i as int],
                nj == lens[j as int],
                ni <= 28,
                nj <= 28,
                band_counts(*rows, lens),
                forall|q: int| 0 <= q < 4 ==> (#[trigger] kets[q]) < self.pairs@.len(),
                forall|q: int|
                    0 <= q < 4 ==> #[trigger] group[q] == [
                        i,
                        j,
                        self.pairs@[kets[q] as int].0,
                        self.pairs@[kets[q] as int].1,
                    ],
                forall|q: int|
                    0 <= q < 4 ==> (#[trigger] scratch.blocks@[q])@ == shell_block(
                        self.tables.rys,
                        self.engine,
                        None,
                        self.prep.shells@,
                        group[q][0] as int,
                        group[q][1] as int,
                        group[q][2] as int,
                        group[q][3] as int,
                    ) && scratch.blocks@[q]@.len() == function_size(
                        self.prep.shells@,
                        group[q][0] as int,
                        group[q][1] as int,
                        group[q][2] as int,
                        group[q][3] as int,
                    ),
                self.is_filled(was, *rows, now),
                now == (if lane == 0 {
                    done
                } else if lane == 1 {
                    done.insert(kets[0] as int)
                } else if lane == 2 {
                    done.insert(kets[0] as int).insert(kets[1] as int)
                } else if lane == 3 {
                    done.insert(kets[0] as int).insert(kets[1] as int).insert(kets[2] as int)
                } else {
                    done.insert(kets[0] as int).insert(kets[1] as int).insert(
                        kets[2] as int,
                    ).insert(kets[3] as int)
                }),
                start_rows.ij@.len() == rows.ij@.len(),
                start_rows.ji@.len() == rows.ji@.len(),
                forall|q: int|
                    0 <= q < start_rows.ij@.len() ==> #[trigger] final(rows.ij@[q])@ == final(start_rows.ij@[q])@,
                forall|q: int|
                    0 <= q < start_rows.ji@.len() ==> #[trigger] final(rows.ji@[q])@ == final(start_rows.ji@[q])@,
            decreases 4 - lane,
        {
            assert(group[lane as int] == [
                i,
                j,
                self.pairs@[kets[lane as int] as int].0,
                self.pairs@[kets[lane as int] as int].1,
            ]);
            let (k, l) = (group[lane][2], group[lane][3]);
            proof {
                let ket = kets[lane as int] as int;
                assert(self.pairs@[ket].1 <= self.pairs@[ket].0 < lens.len());
                assert(self.prep.shells@[k as int].valid());
                assert(self.prep.shells@[l as int].valid());
                assert(scratch.blocks@[lane as int]@ == self.blocks()(
                    i as int,
                    j as int,
                    k as int,
                    l as int,
                ));
            }
            let dims = [
                ni,
                nj,
                self.prep.shells[k].n_func(),
                self.prep.shells[l].n_func(),
            ];
            let ghost mid = *rows;
            scatter_4fold(
                rows,
                self.nao,
                &self.offs,
                k,
                l,
                &scratch.blocks[lane],
                dims,
                Ghost(lens),
            );
            proof {
                self.lemma_filled_step(
                    was,
                    mid,
                    *rows,
                    now,
                    i as int,
                    j as int,
                    k as int,
                    l as int,
                );
                now = now.insert(pair_number(k as int, l as int));
                assert forall|q: int|
                    0 <= q < start_rows.ij@.len() implies #[trigger] final(rows.ij@[q])@ == final(start_rows.ij@[q])@ by {
                    assert(final(mid.ij@[q])@ == final(start_rows.ij@[q])@);
                }
                assert forall|q: int|
                    0 <= q < start_rows.ji@.len() implies #[trigger] final(rows.ji@[q])@ == final(start_rows.ji@[q])@ by {
                    assert(final(mid.ji@[q])@ == final(start_rows.ji@[q])@);
                }
            }
            lane = lane + 1;
        }
    }

    /// Of the quartets of a plan one holds the element `(xy|zw)`. One bra pair is that of the
    /// shells of `x` and `y`, one ket pair that of `z` and `w`, and the ket pair stands once
    /// in the schedule of the bra pair.
    pub proof fn law_one_quartet_holds_an_element(self, x: At, y: At, z: At, w: At)
        requires
            self.valid(),
            is_function(self.lens(), x),
            is_function(self.lens(), y),
            is_function(self.lens(), z),
            is_function(self.lens(), w),
        ensures
            0 <= owner(x, y) < self.pairs@.len(),
            0 <= owner(z, w) < self.pairs@.len(),
            forall|b: int|
                0 <= b < self.pairs@.len() ==> (#[trigger] is_pair_of(self.pairs@[b], x, y)
                    <==> b == owner(x, y)),
            forall|k: int|
                0 <= k < self.pairs@.len() ==> (#[trigger] is_pair_of(self.pairs@[k], z, w)
                    <==> k == owner(z, w)),
            self.batch_schedule.times(owner(x, y), owner(z, w)) == 1,
    {
        self.lemma_owner(x, y);
        self.lemma_owner(z, w);
        self.batch_schedule.law_every_ket_pair_is_scheduled(
            self.engine,
            self.list(),
            owner(x, y),
            owner(z, w),
        );
    }

    /// One pair is that of the shells of two functions.
    proof fn lemma_owner(self, x: At, y: At)
        requires
            self.valid(),
            is_function(self.lens(), x),
            is_function(self.lens(), y),
        ensures
            0 <= owner(x, y) < self.pairs@.len(),
            forall|b: int|
                0 <= b < self.pairs@.len() ==> (#[trigger] is_pair_of(self.pairs@[b], x, y)
                    <==> b == owner(x, y)),
    {
        let lens = self.lens();
        let (hi, lo) = (ordered(x, y).0.0, ordered(x, y).1.0);
        law_every_pair_is_listed(self.pairs@, lens.len() as int, hi, lo);
        assert forall|b: int| 0 <= b < self.pairs@.len() implies (#[trigger] is_pair_of(
            self.pairs@[b],
            x,
            y,
        ) <==> b == owner(x, y)) by {
            let p = self.pairs@[b];
            law_every_row_has_one_owner(lens, x, y, p.0 as int, p.1 as int);
        }
    }

    /// The numbers of the ket pairs.
    pub open spec fn all_kets(self) -> Set<int> {
        Set::new(|k: int| 0 <= k < self.pairs@.len())
    }

    /// Evaluate one bra pair of shells with every ket pair, and write the blocks into its
    /// rows.
    #[verifier::spinoff_prover]
    #[verifier::rlimit(60)]
    pub fn fill(&self, task: &mut BraPairFill<'_, T>)
        requires
            self.valid(),
            self.is_task(*old(task)),
        ensures
            self.is_task(*final(task)),
            self.is_filled(old(task).rows, final(task).rows, self.all_kets()),
            forall|m: int|
                0 <= m < old(task).rows.ij@.len() ==> #[trigger] final(final(task).rows.ij@[m])@ == final(old(task).rows.ij@[m])@,
            forall|m: int|
                0 <= m < old(task).rows.ji@.len() ==> #[trigger] final(final(task).rows.ji@[m])@ == final(old(task).rows.ji@[m])@,
    {
        let ghost lens = self.lens();
        let ghost was = task.rows;
        let (i, j) = task.rows.bra;
        let ghost b = pair_number(i as int, j as int);
        let ghost n = self.pairs@.len() as int;
        proof {
            law_every_pair_is_listed(self.pairs@, lens.len() as int, i as int, j as int);
        }
        let mut scratch = QuartetScratch::new();
        let ghost mut done: Set<int> = Set::empty();
        let plain = match self.kernel {
            EriKernel::Coulomb => true,
            EriKernel::Erf { omega } => false,
        };
        if !plain {
            let mut ket: usize = 0;
            while ket < self.pairs.len()
                invariant
                    ket <= self.pairs@.len(),
                    self.valid(),
                    lens == self.lens(),
                    band_counts(task.rows, lens),
                    was.ij@.len() == task.rows.ij@.len(),
                    was.ji@.len() == task.rows.ji@.len(),
                    self.is_filled(was, task.rows, done),
                    forall|k: int| #[trigger] done.contains(k) <==> 0 <= k < ket,
                    forall|m: int|
                        0 <= m < was.ij@.len() ==> #[trigger] final(task.rows.ij@[m])@ == final(was.ij@[m])@,
                    forall|m: int|
                        0 <= m < was.ji@.len() ==> #[trigger] final(task.rows.ji@[m])@ == final(was.ji@[m])@,
                decreases self.pairs@.len() - ket,
            {
                let ghost mid = task.rows;
                self.evaluate_scalar(&mut task.rows, ket, &mut scratch, Ghost(was), Ghost(done));
                proof {
                    done = done.insert(ket as int);
                    assert forall|m: int|
                        0 <= m < was.ij@.len() implies #[trigger] final(task.rows.ij@[m])@ == final(was.ij@[m])@ by {
                        assert(final(mid.ij@[m])@ == final(was.ij@[m])@);
                    }
                    assert forall|m: int|
                        0 <= m < was.ji@.len() implies #[trigger] final(task.rows.ji@[m])@ == final(was.ji@[m])@ by {
                        assert(final(mid.ji@[m])@ == final(was.ji@[m])@);
                    }
                }
                ket = ket + 1;
            }
            assert(done =~= self.all_kets());
            return ;
        }
        let data_len = self.pair_data.len();
        let nsh = self.prep.shells.len();
        proof {
            law_pair_numbers_order_pairs(i as int, j as int, i as int, j as int, nsh as int);
        }
        let bra = tri_idx(i, j);
        let ghost list = self.list();
        let groups = self.batch_schedule.batches::<T>(bra, Ghost(self.engine), Ghost(list));
        let singles = self.batch_schedule.scalars::<T>(bra, Ghost(self.engine), Ghost(list));
        proof {
            self.batch_schedule.law_every_ket_pair_is_scheduled(self.engine, list, b, 0);
        }
        let mut batch_scratch = EriBatchScratch::new();
        let mut g: usize = 0;
        while g < groups.len()
            invariant
                g <= groups@.len(),
                self.valid(),
                self.kernel is Coulomb,
                lens == self.lens(),
                list == self.list(),
                n == self.pairs@.len(),
                batch_scratch.valid(),
                groups@ == self.batch_schedule.groups(b),
                b == pair_number(i as int, j as int),
                forall|q: int|
                    0 <= q < groups@.len() ==> is_group(
                        self.engine,
                        list,
                        b,
                        #[trigger] groups@[q],
                    ),
                was.bra == (i, j),
                band_counts(task.rows, lens),
                was.ij@.len() == task.rows.ij@.len(),
                was.ji@.len() == task.rows.ji@.len(),
                self.is_filled(was, task.rows, done),
                forall|k: int| #[trigger] done.contains(k) ==> 0 <= k < n,
                forall|q: int, lane: int|
                    0 <= q < g && 0 <= lane < 4 ==> done.contains(
                        #[trigger] groups@[q][lane] as int,
                    ),
                forall|m: int|
                    0 <= m < was.ij@.len() ==> #[trigger] final(task.rows.ij@[m])@ == final(was.ij@[m])@,
                forall|m: int|
                    0 <= m < was.ji@.len() ==> #[trigger] final(task.rows.ji@[m])@ == final(was.ji@[m])@,
            decreases groups@.len() - g,
        {
            let ghost mid = task.rows;
            let kets = groups[g];
            assert(is_group(self.engine, list, b, groups@[g as int]));
            self.evaluate_group(
                &mut task.rows,
                kets,
                &mut batch_scratch,
                Ghost(was),
                Ghost(done),
            );
            proof {
                let before = done;
                assert(kets[0] < n && kets[1] < n && kets[2] < n && kets[3] < n);
                done = done.insert(kets[0] as int).insert(kets[1] as int).insert(
                    kets[2] as int,
                ).insert(kets[3] as int);
                assert forall|q: int, lane: int|
                    0 <= q < g + 1 && 0 <= lane < 4 implies done.contains(
                    #[trigger] groups@[q][lane] as int,
                ) by {
                    if q < g {
                        assert(before.contains(groups@[q][lane] as int));
                    } else {
                        assert(lane == 0 || lane == 1 || lane == 2 || lane == 3);
                    }
                }
                assert forall|m: int|
                    0 <= m < was.ij@.len() implies #[trigger] final(task.rows.ij@[m])@ == final(was.ij@[m])@ by {
                    assert(final(mid.ij@[m])@ == final(was.ij@[m])@);
                }
                assert forall|m: int|
                    0 <= m < was.ji@.len() implies #[trigger] final(task.rows.ji@[m])@ == final(was.ji@[m])@ by {
                    assert(final(mid.ji@[m])@ == final(was.ji@[m])@);
                }
            }
            g = g + 1;
        }
        let mut q: usize = 0;
        while q < singles.len()
            invariant
                q <= singles@.len(),
                self.valid(),
                lens == self.lens(),
                n == self.pairs@.len(),
                forall|m: int| 0 <= m < singles@.len() ==> (#[trigger] singles@[m]) < n,
                was.bra == (i, j),
                band_counts(task.rows, lens),
                was.ij@.len() == task.rows.ij@.len(),
                was.ji@.len() == task.rows.ji@.len(),
                self.is_filled(was, task.rows, done),
                forall|k: int| #[trigger] done.contains(k) ==> 0 <= k < n,
                forall|m: int, lane: int|
                    0 <= m < groups@.len() && 0 <= lane < 4 ==> done.contains(
                        #[trigger] groups@[m][lane] as int,
                    ),
                forall|m: int| 0 <= m < q ==> done.contains(#[trigger] singles@[m] as int),
                forall|m: int|
                    0 <= m < was.ij@.len() ==> #[trigger] final(task.rows.ij@[m])@ == final(was.ij@[m])@,
                forall|m: int|
                    0 <= m < was.ji@.len() ==> #[trigger] final(task.rows.ji@[m])@ == final(was.ji@[m])@,
            decreases singles@.len() - q,
        {
            let ghost mid = task.rows;
            let ket: usize = singles[q] as usize;
            assert(singles@[q as int] < n);
            self.evaluate_scalar(&mut task.rows, ket, &mut scratch, Ghost(was), Ghost(done));
            proof {
                done = done.insert(ket as int);
                assert forall|m: int|
                    0 <= m < was.ij@.len() implies #[trigger] final(task.rows.ij@[m])@ == final(was.ij@[m])@ by {
                    assert(final(mid.ij@[m])@ == final(was.ij@[m])@);
                }
                assert forall|m: int|
                    0 <= m < was.ji@.len() implies #[trigger] final(task.rows.ji@[m])@ == final(was.ji@[m])@ by {
                    assert(final(mid.ji@[m])@ == final(was.ji@[m])@);
                }
            }
            q = q + 1;
        }
        proof {
            assert forall|k: int| 0 <= k < n implies #[trigger] done.contains(k) by {
                self.batch_schedule.law_every_ket_pair_is_scheduled(self.engine, list, b, k);
                if exists|m: int|
                    0 <= m < self.batch_schedule.singles(b).len()
                        && #[trigger] self.batch_schedule.singles(b)[m] == k {
                    let m = choose|m: int|
                        0 <= m < self.batch_schedule.singles(b).len()
                            && #[trigger] self.batch_schedule.singles(b)[m] == k;
                    assert(done.contains(singles@[m] as int));
                } else {
                    let (m, lane) = choose|m: int, lane: int|
                        0 <= m < self.batch_schedule.groups(b).len() && 0 <= lane < 4
                            && #[trigger] self.batch_schedule.groups(b)[m][lane] == k;
                    assert(done.contains(groups@[m][lane] as int));
                }
            }
            assert(done =~= self.all_kets());
        }
    }

    /// Whether `out` holds the value `(xy|zw)` of every four functions.
    pub open spec fn is_fourfold_tensor(self, out: Seq<T>) -> bool {
        &&& out.len() == self.nao * self.nao * (self.nao * self.nao)
        &&& forall|x: At, y: At, z: At, w: At|
            is_function(self.lens(), x) && is_function(self.lens(), y) && is_function(
                self.lens(),
                z,
            ) && is_function(self.lens(), w) ==> #[trigger] out[slot4(self.lens(), x, y, z, w)]
                == self.value(x, y, z, w)
    }

    /// The tensor, filled task after task.
    #[verifier::spinoff_prover]
    #[verifier::rlimit(60)]
    #[must_use]
    pub fn build(&self) -> (out: Vec<T>)
        requires
            self.valid(),
        ensures
            self.is_fourfold_tensor(out@),
    {
        let ghost lens = self.lens();
        let ghost every = self.all_kets();
        let mut out = filled(self.output_len(), T::from_count(0));
        let mut tasks = self.partition(out.as_mut_slice());
        let ghost start_tasks = tasks@;
        let mut t: usize = 0;
        while t < tasks.len()
            invariant
                t <= tasks@.len(),
                self.valid(),
                lens == self.lens(),
                every == self.all_kets(),
                tasks@.len() == start_tasks.len(),
                forall|k: int|
                    0 <= k < tasks@.len() ==> self.is_task(#[trigger] tasks@[k]) && tasks@[k].rows.bra
                        == start_tasks[k].rows.bra && tasks@[k].rows.ij@.len()
                        == start_tasks[k].rows.ij@.len() && tasks@[k].rows.ji@.len()
                        == start_tasks[k].rows.ji@.len(),
                forall|k: int|
                    0 <= k < t ==> self.is_filled(
                        start_tasks[k].rows,
                        (#[trigger] tasks@[k]).rows,
                        every,
                    ),
                forall|k: int| t <= k < tasks@.len() ==> #[trigger] tasks@[k] == start_tasks[k],
                forall|k: int, m: int|
                    0 <= k < tasks@.len() && 0 <= m < start_tasks[k].rows.ij@.len()
                        ==> #[trigger] final(tasks@[k].rows.ij@[m])@ == final(start_tasks[k].rows.ij@[m])@,
                forall|k: int, m: int|
                    0 <= k < tasks@.len() && 0 <= m < start_tasks[k].rows.ji@.len()
                        ==> #[trigger] final(tasks@[k].rows.ji@[m])@ == final(start_tasks[k].rows.ji@[m])@,
            decreases tasks@.len() - t,
        {
            let ghost before = tasks@;
            assert(self.is_task(tasks@[t as int]));
            self.fill(&mut tasks[t]);
            proof {
                assert forall|k: int, m: int|
                    0 <= k < tasks@.len() && 0 <= m < start_tasks[k].rows.ij@.len() implies #[trigger] final(tasks@[k].rows.ij@[m])@ == final(start_tasks[k].rows.ij@[m])@ by {
                    assert(final(before[k].rows.ij@[m])@ == final(start_tasks[k].rows.ij@[m])@);
                }
                assert forall|k: int, m: int|
                    0 <= k < tasks@.len() && 0 <= m < start_tasks[k].rows.ji@.len() implies #[trigger] final(tasks@[k].rows.ji@[m])@ == final(start_tasks[k].rows.ji@[m])@ by {
                    assert(final(before[k].rows.ji@[m])@ == final(start_tasks[k].rows.ji@[m])@);
                }
                assert forall|k: int| 0 <= k < t + 1 implies self.is_filled(
                    start_tasks[k].rows,
                    (#[trigger] tasks@[k]).rows,
                    every,
                ) by {
                    if k < t {
                        assert(tasks@[k] == before[k]);
                    }
                }
            }
            t = t + 1;
        }
        proof {
            assert(has_resolved(tasks));
            assert forall|k: int, m: int|
                0 <= k < tasks@.len() && 0 <= m < start_tasks[k].rows.ij@.len() implies #[trigger] final(start_tasks[k].rows.ij@[m])@ == tasks@[k].rows.ij@[m]@ by {
                assert(has_resolved(tasks@[k]));
                assert(has_resolved(tasks@[k].rows));
                assert(has_resolved(tasks@[k].rows.ij));
                assert(has_resolved(tasks@[k].rows.ij@[m]));
                assert(final(tasks@[k].rows.ij@[m])@ == final(start_tasks[k].rows.ij@[m])@);
            }
            assert forall|k: int, m: int|
                0 <= k < tasks@.len() && 0 <= m < start_tasks[k].rows.ji@.len() implies #[trigger] final(start_tasks[k].rows.ji@[m])@ == tasks@[k].rows.ji@[m]@ by {
                assert(has_resolved(tasks@[k]));
                assert(has_resolved(tasks@[k].rows));
                assert(has_resolved(tasks@[k].rows.ji));
                assert(has_resolved(tasks@[k].rows.ji@[m]));
                assert(final(tasks@[k].rows.ji@[m])@ == final(start_tasks[k].rows.ji@[m])@);
            }
            assert forall|k: int, m: int|
                0 <= k < tasks@.len() && 0 <= m < start_tasks[k].rows.ij@.len() implies (#[trigger] final(start_tasks[k].rows.ij@[m])@).len() == self.nao * self.nao by {
                assert(self.is_task(tasks@[k]));
                assert((tasks@[k].rows.ij@[m]@).len() == self.nao * self.nao);
            }
            assert forall|k: int, m: int|
                0 <= k < tasks@.len() && 0 <= m < start_tasks[k].rows.ji@.len() implies (#[trigger] final(start_tasks[k].rows.ji@[m])@).len() == self.nao * self.nao by {
                assert(self.is_task(tasks@[k]));
                assert((tasks@[k].rows.ji@[m]@).len() == self.nao * self.nao);
            }
            let n = self.nao * self.nao;
            assert forall|x: At, y: At, z: At, w: At|
                is_function(lens, x) && is_function(lens, y) && is_function(lens, z) && is_function(
                    lens,
                    w,
                ) implies #[trigger] out@[slot4(lens, x, y, z, w)] == self.value(x, y, z, w) by {
                let (hi, lo) = (ordered(x, y).0.0, ordered(x, y).1.0);
                law_every_row_has_one_owner(lens, x, y, hi, lo);
                law_every_pair_is_listed(self.pairs@, lens.len() as int, hi, lo);
                law_every_row_has_one_owner(lens, z, w, ordered(z, w).0.0, ordered(z, w).1.0);
                lemma_slot2(lens, x, y, x, y);
                lemma_slot2(lens, z, w, z, w);
                let k = owner(x, y);
                let task = tasks@[k];
                assert(start_tasks[k].rows.bra == self.pairs@[k]);
                assert(self.is_filled(start_tasks[k].rows, task.rows, every));
                lemma_pair_in_range(x.1, lens[x.0], lens[y.0], y.1);
                let row = slot2(lens, x, y);
                let col = slot2(lens, z, w);
                let part = out@.subrange(row * n, row * n + n);
                assert(0 <= row * n && row * n + n <= out@.len()) by (nonlinear_arith)
                    requires
                        0 <= row,
                        row + 1 <= self.nao * self.nao,
                        out@.len() == self.nao * self.nao * n,
                        n >= 0,
                ;
                assert(part == row_in(task.rows, lens, x, y));
                assert(every.contains(owner(z, w)));
                assert(row_in(task.rows, lens, x, y)[col] == self.value(x, y, z, w));
                assert(part[col] == out@[row * n + col]);
                lemma_slot4_row(lens, x, y, z, w);
            }
        }
        out
    }
}

/// The place of four functions is that of the last two in the row of the first two.
proof fn lemma_slot4_row(lens: Seq<int>, x: At, y: At, z: At, w: At)
    ensures
        slot4(lens, x, y, z, w) == slot2(lens, x, y) * (total(lens) * total(lens)) + slot2(
            lens,
            z,
            w,
        ),
{
    let n = total(lens);
    let (i, j) = (index_of(lens, x), index_of(lens, y));
    let (k, l) = (index_of(lens, z), index_of(lens, w));
    assert(((i * n + j) * n + k) * n + l == (i * n + j) * (n * n) + (k * n + l)) by (nonlinear_arith);
}

impl<T: Real> Basis<T> {
    /// A plan for the repulsion tensor of the basis.
    #[must_use]
    pub fn eri_builder<'b>(&'b self, tables: &'b Tables<T>) -> (r: EriBuilder<'b, T>)
        requires
            tables.valid(),
            self.valid(),
            self.tensor_fits(),
            triangle(self.shells@.len() as int) <= u32::MAX,
        ensures
            r.valid(),
            r.prep.shells@ == self.shells@,
            r.tables == tables,
            r.engine == Engine::Auto,
            r.kernel is Coulomb,
    {
        EriBuilder::new(self, tables)
    }
}

} // verus!
