//! A buffer split into rows that can be written independently of one another.
//!
//! The buffer holds one row for every ordered pair of functions of a basis. The rows are
//! handed out by pairs of shells: the rows of the canonical pair `(i, j)` are those of
//! the functions of `i` with the functions of `j` and, where the shells differ, of the
//! functions of `j` with the functions of `i`. Every row is handed out once.
use vstd::prelude::*;

use crate::flat::{lemma_pair_in_range, lemma_pair_order, pair};
use crate::math::am::triangle;
use crate::offsets::{are_lengths, law_every_position_lies_in_a_range, range_of, start};
use crate::one_electron::{lemma_in_range, lemma_ranges_fit};
use crate::shell_pairs::{law_every_pair_is_listed, law_pair_numbers_order_pairs, pair_number};
use crate::tensor::{index_of, is_function, lemma_index, lemma_slot2, ordered, slot2, total, At};

verus! {

/// The first `n` rows, one after the other.
pub open spec fn joined<T>(rows: Seq<Seq<T>>, n: int) -> Seq<T>
    decreases n,
{
    if n <= 0 {
        Seq::empty()
    } else {
        joined(rows, n - 1) + rows[n - 1]
    }
}

/// Rows of the same width lie one width apart.
pub proof fn lemma_joined<T>(rows: Seq<Seq<T>>, n: int, w: int)
    requires
        0 <= n <= rows.len(),
        0 <= w,
        forall|k: int| 0 <= k < n ==> (#[trigger] rows[k]).len() == w,
    ensures
        joined(rows, n).len() == n * w,
        forall|k: int, p: int|
            0 <= k < n && 0 <= p < w ==> #[trigger] joined(rows, n)[pair(k, w, p)] == rows[k][p],
    decreases n,
{
    if n > 0 {
        lemma_joined(rows, n - 1, w);
        assert((n - 1) * w + w == n * w) by (nonlinear_arith);
        assert forall|k: int, p: int| 0 <= k < n && 0 <= p < w implies #[trigger] joined(
            rows,
            n,
        )[pair(k, w, p)] == rows[k][p] by {
            if k < n - 1 {
                lemma_pair_in_range(k, n - 1, w, p);
                assert(joined(rows, n - 1)[pair(k, w, p)] == rows[k][p]);
            }
        }
    } else {
        assert(0 * w == 0) by (nonlinear_arith);
    }
}

/// Split a buffer into rows of the given width.
fn split_rows<'o, T>(out: &'o mut [T], width: usize, rows: usize) -> (r: Vec<Option<&'o mut [T]>>)
    requires
        old(out)@.len() == rows * width,
    ensures
        r@.len() == rows,
        forall|k: int|
            0 <= k < rows ==> (#[trigger] r@[k]) is Some && r@[k]->0@ == old(out)@.subrange(
                k * width,
                k * width + width,
            ),
        final(out)@ == joined(Seq::new(rows as nat, |k: int| final(r@[k]->0)@), rows as int),
{
    let mut v: Vec<Option<&'o mut [T]>> = Vec::new();
    let ghost was = out@;
    let ghost end = final(out)@;
    let mut rest = out;
    let mut k: usize = 0;
    proof {
        assert(0 * width == 0) by (nonlinear_arith);
        assert(end =~= joined(Seq::new(0, |j: int| final(v@[j]->0)@), 0) + final(rest)@);
    }
    while k < rows
        invariant
            k <= rows,
            v@.len() == k,
            was.len() == rows * width,
            rest@.len() == (rows - k) * width,
            rest@ == was.subrange(k * width, was.len() as int),
            forall|j: int|
                0 <= j < k ==> (#[trigger] v@[j]) is Some && v@[j]->0@ == was.subrange(
                    j * width,
                    j * width + width,
                ),
            end == joined(Seq::new(k as nat, |j: int| final(v@[j]->0)@), k as int) + final(rest)@,
        decreases rows - k,
    {
        proof {
            assert((rows - k) * width >= width) by (nonlinear_arith)
                requires
                    rows - k >= 1,
            ;
            assert((rows - k) * width - width == (rows - (k + 1)) * width) by (nonlinear_arith);
            assert(k * width + width == (k + 1) * width) by (nonlinear_arith);
            assert((k + 1) * width <= rows * width) by (nonlinear_arith)
                requires
                    k + 1 <= rows,
            ;
            assert(0 <= k * width) by (nonlinear_arith);
        }
        let ghost before = v@;
        let ghost left = final(rest)@;
        let ghost sofar = Seq::new(k as nat, |j: int| final(v@[j]->0)@);
        let (head, tail) = rest.split_at_mut(width);
        let ghost (h, t) = (final(head)@, final(tail)@);
        v.push(Some(head));
        rest = tail;
        proof {
            let now = Seq::new((k + 1) as nat, |j: int| final(v@[j]->0)@);
            assert(left == h + t);
            assert(now =~= sofar.push(h));
            lemma_joined_prefix(sofar, now, k as int);
            assert(end =~= joined(now, k + 1) + t);
            assert(rest@ =~= was.subrange((k + 1) * width, was.len() as int));
            assert forall|j: int| 0 <= j < k + 1 implies (#[trigger] v@[j]) is Some && v@[j]->0@
                == was.subrange(j * width, j * width + width) by {
                if j < k {
                    assert(v@[j] == before[j]);
                } else {
                    assert(v@[j]->0@ =~= was.subrange(j * width, j * width + width));
                }
            }
        }
        k = k + 1;
    }
    proof {
        assert((rows - rows) * width == 0) by (nonlinear_arith);
    }
    v
}

/// The first rows do not depend on what follows.
proof fn lemma_joined_prefix<T>(a: Seq<Seq<T>>, b: Seq<Seq<T>>, n: int)
    requires
        0 <= n <= a.len() <= b.len(),
        forall|k: int| 0 <= k < n ==> #[trigger] a[k] == b[k],
    ensures
        joined(a, n) == joined(b, n),
    decreases n,
{
    if n > 0 {
        lemma_joined_prefix(a, b, n - 1);
        assert(a[n - 1] == b[n - 1]);
    }
}

/// Take a row that has not been taken.
fn claim_row<'o, T>(slabs: &mut Vec<Option<&'o mut [T]>>, row: usize) -> (r: &'o mut [T])
    requires
        row < old(slabs)@.len(),
        old(slabs)@[row as int] is Some,
    ensures
        r == old(slabs)@[row as int]->0,
        final(slabs)@ == old(slabs)@.update(row as int, None),
{
    let mut x: Option<&'o mut [T]> = None;
    std::mem::swap(&mut slabs[row], &mut x);
    x.unwrap()
}

/// Take the rows of `na` by `nb` functions from row `ro` and column `co` on.
#[verifier::spinoff_prover]
#[verifier::rlimit(40)]
fn claim_band<'o, T>(
    slabs: &mut Vec<Option<&'o mut [T]>>,
    n: usize,
    ro: usize,
    co: usize,
    na: usize,
    nb: usize,
) -> (band: Vec<&'o mut [T]>)
    requires
        ro + na <= n,
        co + nb <= n,
        old(slabs)@.len() == n * n,
        forall|r: int, c: int|
            ro <= r < ro + na && co <= c < co + nb ==> (#[trigger] old(slabs)@[pair(
                r,
                n as int,
                c,
            )]) is Some,
    ensures
        final(slabs)@.len() == old(slabs)@.len(),
        forall|r: int, c: int|
            0 <= r < n && 0 <= c < n ==> #[trigger] final(slabs)@[pair(r, n as int, c)] == (if ro
                <= r < ro + na && co <= c < co + nb {
                None
            } else {
                old(slabs)@[pair(r, n as int, c)]
            }),
        band@.len() == na * nb,
        forall|a: int, b: int|
            0 <= a < na && 0 <= b < nb ==> #[trigger] band@[pair(a, nb as int, b)] == old(
                slabs,
            )@[pair(ro + a, n as int, co + b)]->0,
{
    let ghost was = slabs@;
    let ghost (nn, rr, cc, aa, bw) = (n as int, ro as int, co as int, na as int, nb as int);
    let mut band: Vec<&'o mut [T]> = Vec::new();
    let len = slabs.len();
    let mut a: usize = 0;
    while a < na
        invariant
            a <= na,
            nn == n,
            rr == ro,
            cc == co,
            aa == na,
            bw == nb,
            rr + aa <= nn,
            cc + bw <= nn,
            was.len() == nn * nn,
            nn * nn <= usize::MAX,
            slabs@.len() == was.len(),
            forall|r: int, c: int|
                rr <= r < rr + aa && cc <= c < cc + bw ==> (#[trigger] was[pair(r, nn, c)]) is Some,
            forall|r: int, c: int|
                0 <= r < nn && 0 <= c < nn ==> #[trigger] slabs@[pair(r, nn, c)] == (if rr <= r < rr
                    + a && cc <= c < cc + bw {
                    None
                } else {
                    was[pair(r, nn, c)]
                }),
            band@.len() == a * bw,
            forall|p: int, q: int|
                0 <= p < a && 0 <= q < bw ==> #[trigger] band@[pair(p, bw, q)] == was[pair(
                    rr + p,
                    nn,
                    cc + q,
                )]->0,
        decreases na - a,
    {
        let mut b: usize = 0;
        while b < nb
            invariant
                a < na,
                b <= nb,
                nn == n,
                rr == ro,
                cc == co,
                aa == na,
                bw == nb,
                rr + aa <= nn,
                cc + bw <= nn,
                was.len() == nn * nn,
                nn * nn <= usize::MAX,
                slabs@.len() == was.len(),
                forall|r: int, c: int|
                    rr <= r < rr + aa && cc <= c < cc + bw ==> (#[trigger] was[pair(
                        r,
                        nn,
                        c,
                    )]) is Some,
                forall|r: int, c: int|
                    0 <= r < nn && 0 <= c < nn ==> #[trigger] slabs@[pair(r, nn, c)] == (if rr <= r
                        && cc <= c < cc + bw && (r < rr + a || (r == rr + a && c < cc + b)) {
                        None
                    } else {
                        was[pair(r, nn, c)]
                    }),
                band@.len() == pair(a as int, bw, b as int),
                forall|p: int, q: int|
                    0 <= p <= a && 0 <= q < bw && (p < a || q < b) ==> #[trigger] band@[pair(
                        p,
                        bw,
                        q,
                    )] == was[pair(rr + p, nn, cc + q)]->0,
            decreases nb - b,
        {
            let ghost (r0, c0) = (rr + a, cc + b);
            proof {
                lemma_pair_in_range(r0, nn, nn, c0);
                assert(slabs@[pair(r0, nn, c0)] == was[pair(r0, nn, c0)]);
            }
            let ghost before = slabs@;
            let ghost old_band = band@;
            let row: usize = (ro + a) * n + (co + b);
            let ghost taken = was[pair(r0, nn, c0)]->0;
            band.push(claim_row(slabs, row));
            proof {
                assert(band@ == old_band.push(taken));
                assert forall|r: int, c: int|
                    0 <= r < nn && 0 <= c < nn implies #[trigger] slabs@[pair(r, nn, c)] == (if rr
                    <= r && cc <= c < cc + bw && (r < rr + a || (r == rr + a && c < cc + b + 1)) {
                    None
                } else {
                    was[pair(r, nn, c)]
                }) by {
                    lemma_pair_in_range(r, nn, nn, c);
                    lemma_pair_order(r, c, r0, c0, nn);
                    assert(before[pair(r, nn, c)] == slabs@[pair(r, nn, c)] || (r == r0 && c
                        == c0));
                }
                assert forall|p: int, q: int|
                    0 <= p <= a && 0 <= q < bw && (p < a || q < b + 1) implies #[trigger] band@[pair(
                    p,
                    bw,
                    q,
                )] == was[pair(rr + p, nn, cc + q)]->0 by {
                    lemma_pair_order(p, q, a as int, b as int, bw);
                    if p < a || q < b {
                        lemma_pair_in_range(p, aa, bw, q);
                        assert(band@[pair(p, bw, q)] == old_band[pair(p, bw, q)]);
                        assert(old_band[pair(p, bw, q)] == was[pair(rr + p, nn, cc + q)]->0);
                    } else {
                        assert(band@[pair(p, bw, q)] == taken);
                    }
                }
            }
            b = b + 1;
        }
        proof {
            assert(a * bw + bw == (a + 1) * bw) by (nonlinear_arith);
        }
        a = a + 1;
    }
    band
}

/// The rows of one canonical pair of shells.
pub struct Bands<'o, T> {
    /// The pair of shells, the later one first.
    pub bra: (usize, usize),
    /// The rows of the functions of the first with the functions of the second shell.
    pub ij: Vec<&'o mut [T]>,
    /// The rows of the functions of the second with the functions of the first shell;
    /// none if the shells are the same.
    pub ji: Vec<&'o mut [T]>,
}

/// Whether `pairs` lists the canonical pairs of `nsh` shells in order.
pub open spec fn lists_canonical(pairs: Seq<(usize, usize)>, nsh: int) -> bool {
    &&& pairs.len() == triangle(nsh)
    &&& forall|k: int|
        0 <= k < pairs.len() ==> (#[trigger] pairs[k]).1 <= pairs[k].0 < nsh && pair_number(
            pairs[k].0 as int,
            pairs[k].1 as int,
        ) == k
}

/// The number of the pair of shells to which the row of two functions belongs.
pub open spec fn owner(x: At, y: At) -> int {
    pair_number(ordered(x, y).0.0, ordered(x, y).1.0)
}

/// The row of every two functions belongs to one pair of shells, which is one of the
/// canonical pairs; it is the pair of the shells of the two functions.
pub proof fn law_every_row_has_one_owner(lens: Seq<int>, x: At, y: At, i: int, j: int)
    requires
        is_function(lens, x),
        is_function(lens, y),
        0 <= j <= i < lens.len(),
    ensures
        0 <= owner(x, y) < triangle(lens.len() as int),
        owner(x, y) == pair_number(i, j) <==> (x.0 == i && y.0 == j) || (x.0 == j && y.0 == i),
{
    let (p, q) = (ordered(x, y).0.0, ordered(x, y).1.0);
    law_pair_numbers_order_pairs(p, q, i, j, lens.len() as int);
}

/// Whether the bands have one row for each two functions of their shells.
pub open spec fn band_counts<T>(b: Bands<T>, lens: Seq<int>) -> bool {
    &&& b.bra.1 <= b.bra.0 < lens.len()
    &&& b.ij@.len() == lens[b.bra.0 as int] * lens[b.bra.1 as int]
    &&& b.ji@.len() == (if b.bra.0 == b.bra.1 {
        0
    } else {
        lens[b.bra.1 as int] * lens[b.bra.0 as int]
    })
}

/// Whether every row has the given width.
pub open spec fn rows_fit<T>(band: Seq<&mut [T]>, w: int) -> bool {
    forall|k: int| 0 <= k < band.len() ==> (#[trigger] band[k]@).len() == w
}

/// The row of two functions in the bands of their shells.
pub open spec fn row_in<T>(b: Bands<T>, lens: Seq<int>, x: At, y: At) -> Seq<T> {
    if x.0 == b.bra.0 && y.0 == b.bra.1 {
        b.ij@[pair(x.1, lens[y.0], y.1)]@
    } else {
        b.ji@[pair(x.1, lens[y.0], y.1)]@
    }
}

/// Split a buffer of one row per ordered pair of functions into the rows of the
/// canonical pairs of shells.
#[verifier::spinoff_prover]
#[verifier::rlimit(80)]
pub(crate) fn partition_rows<'o, T>(
    out: &'o mut [T],
    width: usize,
    n: usize,
    offs: &Vec<usize>,
    counts: &Vec<usize>,
    pairs: &Vec<(usize, usize)>,
    Ghost(lens): Ghost<Seq<int>>,
) -> (tasks: Vec<Bands<'o, T>>)
    requires
        are_lengths(lens),
        n == total(lens),
        old(out)@.len() == n * n * width,
        n * n <= usize::MAX,
        offs@.len() == lens.len(),
        counts@.len() == lens.len(),
        forall|s: int| 0 <= s < lens.len() ==> #[trigger] offs@[s] == start(lens, s),
        forall|s: int| 0 <= s < lens.len() ==> #[trigger] counts@[s] == lens[s],
        lists_canonical(pairs@, lens.len() as int),
    ensures
        tasks@.len() == pairs@.len(),
        forall|t: int|
            0 <= t < tasks@.len() ==> (#[trigger] tasks@[t]).bra == pairs@[t] && band_counts(
                tasks@[t],
                lens,
            ) && rows_fit(tasks@[t].ij@, width as int) && rows_fit(tasks@[t].ji@, width as int),
        forall|x: At, y: At|
            is_function(lens, x) && is_function(lens, y) ==> #[trigger] row_in(
                tasks@[owner(x, y)],
                lens,
                x,
                y,
            ) == old(out)@.subrange(
                slot2(lens, x, y) * width,
                slot2(lens, x, y) * width + width,
            ),
        (forall|t: int, k: int|
            0 <= t < tasks@.len() && 0 <= k < tasks@[t].ij@.len() ==> (#[trigger] final(tasks@[t].ij@[k])@).len() == width) && (forall|t: int, k: int|
            0 <= t < tasks@.len() && 0 <= k < tasks@[t].ji@.len() ==> (#[trigger] final(tasks@[t].ji@[k])@).len() == width) ==> final(out)@.len() == n * n * width && forall|x: At, y: At|
            is_function(lens, x) && is_function(lens, y) ==> final(out)@.subrange(
                #[trigger] slot2(lens, x, y) * width,
                slot2(lens, x, y) * width + width,
            ) == (if x.0 >= y.0 {
                final(tasks@[owner(x, y)].ij@[pair(x.1, lens[y.0], y.1)])@
            } else {
                final(tasks@[owner(x, y)].ji@[pair(x.1, lens[y.0], y.1)])@
            }),
{
    let ghost was = out@;
    let ghost end = final(out)@;
    let mut slabs = split_rows(out, width, n * n);
    let ghost all = slabs@;
    proof {
        assert forall|k: int| 0 <= k < n * n implies (#[trigger] all[k]) is Some && (
        all[k]->0@).len() == width by {
            assert(0 <= k * width && k * width + width <= n * n * width) by (nonlinear_arith)
                requires
                    0 <= k,
                    k + 1 <= n * n,
            ;
        }
    }
    let mut tasks: Vec<Bands<'o, T>> = Vec::new();
    let ghost nsh = lens.len() as int;
    let mut t: usize = 0;
    while t < pairs.len()
        invariant
            t <= pairs@.len(),
            nsh == lens.len(),
            are_lengths(lens),
            n == total(lens),
            n * n <= usize::MAX,
            offs@.len() == lens.len(),
            counts@.len() == lens.len(),
            forall|s: int| 0 <= s < lens.len() ==> #[trigger] offs@[s] == start(lens, s),
            forall|s: int| 0 <= s < lens.len() ==> #[trigger] counts@[s] == lens[s],
            lists_canonical(pairs@, nsh),
            all.len() == n * n,
            forall|k: int|
                0 <= k < n * n ==> (#[trigger] all[k]) is Some && (all[k]->0@).len() == width,
            slabs@.len() == n * n,
            forall|x: At, y: At|
                is_function(lens, x) && is_function(lens, y) ==> #[trigger] slabs@[slot2(
                    lens,
                    x,
                    y,
                )] == (if owner(x, y) < t {
                    None
                } else {
                    all[slot2(lens, x, y)]
                }),
            tasks@.len() == t,
            forall|k: int|
                0 <= k < t ==> (#[trigger] tasks@[k]).bra == pairs@[k] && band_counts(
                    tasks@[k],
                    lens,
                ) && rows_fit(tasks@[k].ij@, width as int) && rows_fit(tasks@[k].ji@, width as int),
            forall|x: At, y: At|
                is_function(lens, x) && is_function(lens, y) && owner(x, y) < t ==> (if x.0 >= y.0 {
                    tasks@[owner(x, y)].ij@[pair(x.1, lens[y.0], y.1)]
                } else {
                    tasks@[owner(x, y)].ji@[pair(x.1, lens[y.0], y.1)]
                }) == all[#[trigger] slot2(lens, x, y)]->0,
        decreases pairs@.len() - t,
    {
        let (i, j) = pairs[t];
        let ghost (pi, pj) = (i as int, j as int);
        proof {
            assert(pairs@[t as int].1 <= pairs@[t as int].0 < nsh);
            lemma_ranges_fit(lens, pi);
            lemma_ranges_fit(lens, pj);
            assert(offs@[pi] == start(lens, pi) && offs@[pj] == start(lens, pj));
            assert(counts@[pi] == lens[pi] && counts@[pj] == lens[pj]);
        }
        let (ni, nj) = (counts[i], counts[j]);
        let (oi, oj) = (offs[i], offs[j]);
        let ghost s0 = slabs@;
        proof {
            assert forall|r: int, c: int| oi <= r < oi + ni && oj <= c < oj + nj implies (
            #[trigger] slabs@[pair(r, n as int, c)]) is Some && slabs@[pair(r, n as int, c)]
                == all[pair(r, n as int, c)] by {
                let (x, y): (At, At) = ((pi, r - oi), (pj, c - oj));
                law_every_row_has_one_owner(lens, x, y, pi, pj);
                lemma_slot2(lens, x, y, x, y);
                assert(slot2(lens, x, y) == pair(r, n as int, c));
                assert(slabs@[slot2(lens, x, y)] == all[slot2(lens, x, y)]);
            }
        }
        let ij = claim_band(&mut slabs, n, oi, oj, ni, nj);
        let ghost s1 = slabs@;
        proof {
            assert forall|r: int, c: int|
                oj <= r < oj + nj && oi <= c < oi + ni && i != j implies (#[trigger] slabs@[pair(
                r,
                n as int,
                c,
            )]) is Some && slabs@[pair(r, n as int, c)] == all[pair(r, n as int, c)] by {
                let (x, y): (At, At) = ((pj, r - oj), (pi, c - oi));
                law_every_row_has_one_owner(lens, x, y, pi, pj);
                lemma_slot2(lens, x, y, x, y);
                lemma_index(lens, x, y);
                lemma_index(lens, y, x);
                lemma_in_range(lens, x, pi);
                lemma_in_range(lens, y, pj);
                assert(slot2(lens, x, y) == pair(r, n as int, c));
                assert(s0[slot2(lens, x, y)] == all[slot2(lens, x, y)]);
            }
        }
        let ji: Vec<&'o mut [T]> = if i != j {
            claim_band(&mut slabs, n, oj, oi, nj, ni)
        } else {
            Vec::new()
        };
        let ghost (gij, gji) = (ij@, ji@);
        let ghost before = tasks@;
        proof {
            assert forall|a: int, b: int| 0 <= a < ni && 0 <= b < nj implies #[trigger] gij[pair(
                a,
                nj as int,
                b,
            )] == all[pair(oi + a, n as int, oj + b)]->0 by {
                assert(s0[pair(oi + a, n as int, oj + b)] == all[pair(oi + a, n as int, oj + b)]);
            }
            assert forall|a: int, b: int|
                0 <= a < nj && 0 <= b < ni && i != j implies #[trigger] gji[pair(a, ni as int, b)]
                == all[pair(oj + a, n as int, oi + b)]->0 by {
                assert(s1[pair(oj + a, n as int, oi + b)] == all[pair(oj + a, n as int, oi + b)]);
            }
            assert(rows_fit(gij, width as int)) by {
                assert forall|k: int| 0 <= k < gij.len() implies (#[trigger] gij[k]@).len()
                    == width by {
                    crate::flat::lemma_index_parts(k, ni as int, nj as int);
                    let (a, b) = (k / nj as int, k % nj as int);
                    assert(gij[pair(a, nj as int, b)] == all[pair(oi + a, n as int, oj + b)]->0);
                    lemma_pair_in_range(oi + a, n as int, n as int, oj + b);
                }
            }
            assert(rows_fit(gji, width as int)) by {
                assert forall|k: int| 0 <= k < gji.len() implies (#[trigger] gji[k]@).len()
                    == width by {
                    crate::flat::lemma_index_parts(k, nj as int, ni as int);
                    let (a, b) = (k / ni as int, k % ni as int);
                    assert(gji[pair(a, ni as int, b)] == all[pair(oj + a, n as int, oi + b)]->0);
                    lemma_pair_in_range(oj + a, n as int, n as int, oi + b);
                }
            }
        }
        tasks.push(Bands { bra: (i, j), ij, ji });
        proof {
            let new = tasks@[t as int];
            assert(new.ij@ == gij && new.ji@ == gji);
            assert forall|k: int| 0 <= k < t + 1 implies (#[trigger] tasks@[k]).bra == pairs@[k]
                && band_counts(tasks@[k], lens) && rows_fit(tasks@[k].ij@, width as int)
                && rows_fit(tasks@[k].ji@, width as int) by {
                if k < t {
                    assert(tasks@[k] == before[k]);
                }
            }
            assert forall|x: At, y: At|
                is_function(lens, x) && is_function(lens, y) implies #[trigger] slabs@[slot2(
                lens,
                x,
                y,
            )] == (if owner(x, y) < t + 1 {
                None
            } else {
                all[slot2(lens, x, y)]
            }) by {
                law_every_row_has_one_owner(lens, x, y, pi, pj);
                lemma_slot2(lens, x, y, x, y);
                lemma_index(lens, x, y);
                lemma_index(lens, y, x);
                lemma_in_range(lens, x, pi);
                lemma_in_range(lens, y, pj);
                lemma_in_range(lens, x, pj);
                lemma_in_range(lens, y, pi);
                assert(s0[slot2(lens, x, y)] == (if owner(x, y) < t {
                    None
                } else {
                    all[slot2(lens, x, y)]
                }));
                let (r, c) = (index_of(lens, x), index_of(lens, y));
                assert(s1[pair(r, n as int, c)] == (if x.0 == pi && y.0 == pj {
                    None
                } else {
                    s0[pair(r, n as int, c)]
                }));
                assert(slabs@[pair(r, n as int, c)] == (if x.0 == pj && y.0 == pi && i != j {
                    None
                } else {
                    s1[pair(r, n as int, c)]
                }));
            }
            assert forall|x: At, y: At|
                is_function(lens, x) && is_function(lens, y) && owner(x, y) < t + 1 implies (
            if x.0 >= y.0 {
                tasks@[owner(x, y)].ij@[pair(x.1, lens[y.0], y.1)]
            } else {
                tasks@[owner(x, y)].ji@[pair(x.1, lens[y.0], y.1)]
            }) == all[#[trigger] slot2(lens, x, y)]->0 by {
                law_every_row_has_one_owner(lens, x, y, pi, pj);
                if owner(x, y) < t {
                    assert(tasks@[owner(x, y)] == before[owner(x, y)]);
                    assert((if x.0 >= y.0 {
                        before[owner(x, y)].ij@[pair(x.1, lens[y.0], y.1)]
                    } else {
                        before[owner(x, y)].ji@[pair(x.1, lens[y.0], y.1)]
                    }) == all[slot2(lens, x, y)]->0);
                } else {
                    if x.0 >= y.0 {
                        assert(gij[pair(x.1, nj as int, y.1)] == all[pair(
                            oi + x.1,
                            n as int,
                            oj + y.1,
                        )]->0);
                    } else {
                        assert(gji[pair(x.1, ni as int, y.1)] == all[pair(
                            oj + x.1,
                            n as int,
                            oi + y.1,
                        )]->0);
                    }
                }
            }
        }
        t = t + 1;
    }
    proof {
        assert forall|x: At, y: At|
            is_function(lens, x) && is_function(lens, y) implies #[trigger] row_in(
            tasks@[owner(x, y)],
            lens,
            x,
            y,
        ) == was.subrange(slot2(lens, x, y) * width, slot2(lens, x, y) * width + width) by {
            let (p, q) = (ordered(x, y).0.0, ordered(x, y).1.0);
            law_every_row_has_one_owner(lens, x, y, p, q);
            law_every_pair_is_listed(pairs@, nsh, p, q);
            lemma_slot2(lens, x, y, x, y);
            assert(all[slot2(lens, x, y)]->0@ == was.subrange(
                slot2(lens, x, y) * width,
                slot2(lens, x, y) * width + width,
            ));
            assert(tasks@[owner(x, y)].bra == pairs@[owner(x, y)]);
        }
        assert forall|u: int|
            (forall|t: int, k: int|
                0 <= t < tasks@.len() && 0 <= k < tasks@[t].ij@.len() ==> (#[trigger] final(tasks@[t].ij@[k])@).len() == width)
                && (forall|t: int, k: int|
                0 <= t < tasks@.len() && 0 <= k < tasks@[t].ji@.len() ==> (#[trigger] final(tasks@[t].ji@[k])@).len() == width)
                && #[trigger] start(lens, u) == start(lens, u) implies end.len() == n * n * width
            && forall|x: At, y: At|
            is_function(lens, x) && is_function(lens, y) ==> end.subrange(
                #[trigger] slot2(lens, x, y) * width,
                slot2(lens, x, y) * width + width,
            ) == (if x.0 >= y.0 {
                final(tasks@[owner(x, y)].ij@[pair(x.1, lens[y.0], y.1)])@
            } else {
                final(tasks@[owner(x, y)].ji@[pair(x.1, lens[y.0], y.1)])@
            }) by {
            let ends = Seq::new((n * n) as nat, |k: int| final(all[k]->0)@);
            let w = width as int;
            let nn = n as int;
            assert forall|k: int| 0 <= k < n * n implies (#[trigger] ends[k]).len() == width by {
                crate::flat::lemma_index_parts(k, nn, nn);
                let (r, c) = (k / nn, k % nn);
                law_every_position_lies_in_a_range(lens, r, nsh);
                law_every_position_lies_in_a_range(lens, c, nsh);
                let (p, q) = (range_of(lens, r, nsh), range_of(lens, c, nsh));
                let x: At = (p, r - start(lens, p));
                let y: At = (q, c - start(lens, q));
                assert(slot2(lens, x, y) == k);
                let (hi, lo) = (ordered(x, y).0.0, ordered(x, y).1.0);
                law_every_row_has_one_owner(lens, x, y, hi, lo);
                law_every_pair_is_listed(pairs@, nsh, hi, lo);
                let task = tasks@[owner(x, y)];
                assert(task.bra == pairs@[owner(x, y)] && band_counts(task, lens));
                lemma_pair_in_range(x.1, lens[x.0], lens[y.0], y.1);
                let at = pair(x.1, lens[y.0], y.1);
                if x.0 >= y.0 {
                    assert(task.ij@[at] == all[slot2(lens, x, y)]->0);
                    assert((final(tasks@[owner(x, y)].ij@[at])@).len() == width);
                } else {
                    assert(task.ji@[at] == all[slot2(lens, x, y)]->0);
                    assert((final(tasks@[owner(x, y)].ji@[at])@).len() == width);
                }
            }
            lemma_joined(ends, nn * nn, w);
            assert forall|x: At, y: At|
                is_function(lens, x) && is_function(lens, y) implies end.subrange(
                #[trigger] slot2(lens, x, y) * width,
                slot2(lens, x, y) * width + width,
            ) == (if x.0 >= y.0 {
                final(tasks@[owner(x, y)].ij@[pair(x.1, lens[y.0], y.1)])@
            } else {
                final(tasks@[owner(x, y)].ji@[pair(x.1, lens[y.0], y.1)])@
            }) by {
                lemma_slot2(lens, x, y, x, y);
                let (hi, lo) = (ordered(x, y).0.0, ordered(x, y).1.0);
                law_every_row_has_one_owner(lens, x, y, hi, lo);
                let k = slot2(lens, x, y);
                assert(ends[k].len() == width);
                assert(0 <= k * width && k * width + width <= n * n * width) by (nonlinear_arith)
                    requires
                        0 <= k,
                        k + 1 <= n * n,
                ;
                let part = end.subrange(k * width, k * width + width);
                assert(part =~= ends[k]) by {
                    assert forall|p: int| 0 <= p < width implies #[trigger] part[p] == ends[k][p] by {
                        assert(joined(ends, nn * nn)[pair(k, w, p)] == ends[k][p]);
                    }
                }
            }
        }
        assert(start(lens, 0) == start(lens, 0));
    }
    tasks
}

/// Write one entry of one row.
pub(crate) fn put<'o, T: Copy>(band: &mut Vec<&'o mut [T]>, k: usize, p: usize, v: T)
    requires
        k < old(band)@.len(),
        p < old(band)@[k as int]@.len(),
    ensures
        final(band)@.len() == old(band)@.len(),
        forall|m: int|
            0 <= m < old(band)@.len() ==> #[trigger] final(band)@[m]@ == (if m == k {
                old(band)@[m]@.update(p as int, v)
            } else {
                old(band)@[m]@
            }),
        forall|m: int|
            0 <= m < old(band)@.len() ==> #[trigger] final(final(band)@[m])@ == final(old(band)@[m])@,
{
    band[k][p] = v;
}

/// A row with `len` entries from `at` on replaced by those of `src` from `from` on.
pub open spec fn patched<T>(row: Seq<T>, at: int, src: Seq<T>, from: int, len: int) -> Seq<T> {
    Seq::new(
        row.len(),
        |q: int|
            if at <= q < at + len {
                src[from + q - at]
            } else {
                row[q]
            },
    )
}

/// Replace `len` entries of one row from `at` on by those of `src` from `from` on.
pub(crate) fn put_range<'o, T: Copy>(
    band: &mut Vec<&'o mut [T]>,
    k: usize,
    at: usize,
    src: &Vec<T>,
    from: usize,
    len: usize,
)
    requires
        k < old(band)@.len(),
        at + len <= old(band)@[k as int]@.len(),
        from + len <= src@.len(),
    ensures
        final(band)@.len() == old(band)@.len(),
        forall|m: int|
            0 <= m < old(band)@.len() ==> #[trigger] final(band)@[m]@ == (if m == k {
                patched(old(band)@[m]@, at as int, src@, from as int, len as int)
            } else {
                old(band)@[m]@
            }),
        forall|m: int|
            0 <= m < old(band)@.len() ==> #[trigger] final(final(band)@[m])@ == final(old(band)@[m])@,
{
    let ghost was = band@;
    let src_len = src.len();
    let row_len = band[k].len();
    let mut c: usize = 0;
    assert(was[k as int]@ =~= patched(was[k as int]@, at as int, src@, from as int, 0));
    while c < len
        invariant
            c <= len,
            k < was.len(),
            at + len <= was[k as int]@.len(),
            was[k as int]@.len() <= usize::MAX,
            from + len <= src@.len(),
            src@.len() <= usize::MAX,
            band@.len() == was.len(),
            forall|m: int|
                0 <= m < was.len() ==> #[trigger] band@[m]@ == (if m == k {
                    patched(was[m]@, at as int, src@, from as int, c as int)
                } else {
                    was[m]@
                }),
            forall|m: int| 0 <= m < was.len() ==> #[trigger] final(band@[m])@ == final(was[m])@,
        decreases len - c,
    {
        let ghost before = band@;
        assert(band@[k as int]@ == patched(was[k as int]@, at as int, src@, from as int, c as int));
        put(band, k, at + c, src[from + c]);
        proof {
            assert forall|m: int| 0 <= m < was.len() implies #[trigger] band@[m]@ == (if m == k {
                patched(was[m]@, at as int, src@, from as int, c + 1)
            } else {
                was[m]@
            }) by {
                assert(before[m]@ == (if m == k {
                    patched(was[m]@, at as int, src@, from as int, c as int)
                } else {
                    was[m]@
                }));
                if m == k {
                    assert(band@[m]@ =~= patched(was[m]@, at as int, src@, from as int, c + 1));
                }
            }
            assert forall|m: int| 0 <= m < was.len() implies #[trigger] final(band@[m])@ == final(was[m])@ by {
                assert(final(before[m])@ == final(was[m])@);
            }
        }
        c = c + 1;
    }
}

} // verus!
