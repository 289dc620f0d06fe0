//! The dense tensor of four-index integrals and its permutational symmetry.
//!
//! Of the shell quartets that are permutations of one another only the canonical one
//! `(ij|kl)` is evaluated, with `i >= j`, `k >= l` and the pair `ij` not below `kl`.
//! Every entry of the tensor is read from the block of its canonical quartet.
use vstd::prelude::*;

use crate::flat::{lemma_quad_in_range, lemma_quad_order, pair, quad};
use crate::offsets::{
    are_lengths, law_every_position_lies_in_a_range, law_ranges_are_disjoint, range_of, start,
};

verus! {

/// A function of the basis: its shell and its component there.
pub type At = (int, int);

/// Two functions, the one of the later shell first; as they stand within one shell.
pub open spec fn ordered(x: At, y: At) -> (At, At) {
    if x.0 >= y.0 {
        (x, y)
    } else {
        (y, x)
    }
}

/// Whether the shell pair `(i, j)` comes before `(k, l)`.
pub open spec fn comes_before(i: int, j: int, k: int, l: int) -> bool {
    i < k || (i == k && j < l)
}

/// The canonical quadruple that four functions are a permutation of.
pub open spec fn canonical(x: At, y: At, z: At, w: At) -> (At, At, At, At) {
    let (p, q) = ordered(x, y);
    let (r, s) = ordered(z, w);
    if comes_before(p.0, q.0, r.0, s.0) {
        (r, s, p, q)
    } else {
        (p, q, r, s)
    }
}

/// The shells of four functions.
pub open spec fn shells_of(f: (At, At, At, At)) -> (int, int, int, int) {
    (f.0.0, f.1.0, f.2.0, f.3.0)
}

/// Whether a shell quartet is canonical.
pub open spec fn is_canonical(q: (int, int, int, int)) -> bool {
    q.0 >= q.1 && q.2 >= q.3 && !comes_before(q.0, q.1, q.2, q.3)
}

/// The entry for four functions in the block of their shells.
pub open spec fn in_block<T>(block: Seq<T>, lens: Seq<int>, f: (At, At, At, At)) -> T {
    block[quad(f.0.1, lens[f.1.0], f.1.1, lens[f.2.0], f.2.1, lens[f.3.0], f.3.1)]
}

/// The entry of the tensor for four functions, given the blocks of the shell
/// quartets.
pub open spec fn tensor_entry<T>(
    blocks: spec_fn(int, int, int, int) -> Seq<T>,
    lens: Seq<int>,
    x: At,
    y: At,
    z: At,
    w: At,
) -> T {
    let f = canonical(x, y, z, w);
    in_block(blocks(f.0.0, f.1.0, f.2.0, f.3.0), lens, f)
}

/// Whether `x` is a function of a basis whose shells have the given numbers of
/// components.
pub open spec fn is_function(lens: Seq<int>, x: At) -> bool {
    0 <= x.0 < lens.len() && 0 <= x.1 < lens[x.0]
}

/// Index of a function in the basis.
pub open spec fn index_of(lens: Seq<int>, x: At) -> int {
    start(lens, x.0) + x.1
}

/// Number of functions.
pub open spec fn total(lens: Seq<int>) -> int {
    start(lens, lens.len() as int)
}

/// Place of four functions in the tensor.
pub open spec fn slot4(lens: Seq<int>, x: At, y: At, z: At, w: At) -> int {
    let n = total(lens);
    quad(index_of(lens, x), n, index_of(lens, y), n, index_of(lens, z), n, index_of(lens, w))
}

/// Place of two functions in a matrix.
pub open spec fn slot2(lens: Seq<int>, x: At, y: At) -> int {
    pair(index_of(lens, x), total(lens), index_of(lens, y))
}

/// Functions have different indices, below their number.
pub proof fn lemma_index(lens: Seq<int>, x: At, y: At)
    requires
        are_lengths(lens),
        is_function(lens, x),
        is_function(lens, y),
    ensures
        0 <= index_of(lens, x) < total(lens),
        index_of(lens, x) == index_of(lens, y) <==> x == y,
{
    law_ranges_are_disjoint(lens, x.0, x.1, y.0, y.1);
}

/// The function with index `p`.
pub open spec fn function_of(lens: Seq<int>, p: int) -> At {
    let r = range_of(lens, p, lens.len() as int);
    (r, p - start(lens, r))
}

/// Every index below the number of functions has a function.
pub proof fn lemma_function_of(lens: Seq<int>, p: int)
    requires
        are_lengths(lens),
        0 <= p < total(lens),
    ensures
        is_function(lens, function_of(lens, p)),
        index_of(lens, function_of(lens, p)) == p,
{
    law_every_position_lies_in_a_range(lens, p, lens.len() as int);
}

/// Quadruples of functions have different places in the tensor.
pub proof fn lemma_slot4(
    lens: Seq<int>,
    x: At,
    y: At,
    z: At,
    w: At,
    x1: At,
    y1: At,
    z1: At,
    w1: At,
)
    requires
        are_lengths(lens),
        is_function(lens, x),
        is_function(lens, y),
        is_function(lens, z),
        is_function(lens, w),
        is_function(lens, x1),
        is_function(lens, y1),
        is_function(lens, z1),
        is_function(lens, w1),
    ensures
        0 <= slot4(lens, x, y, z, w) < total(lens) * total(lens) * total(lens) * total(lens),
        slot4(lens, x, y, z, w) == slot4(lens, x1, y1, z1, w1) <==> x == x1 && y == y1 && z == z1
            && w == w1,
{
    lemma_index(lens, x, x1);
    lemma_index(lens, y, y1);
    lemma_index(lens, z, z1);
    lemma_index(lens, w, w1);
    lemma_index(lens, x1, x);
    lemma_index(lens, y1, y);
    lemma_index(lens, z1, z);
    lemma_index(lens, w1, w);
    let n = total(lens);
    lemma_quad_in_range(
        index_of(lens, x),
        n,
        index_of(lens, y),
        n,
        index_of(lens, z),
        n,
        index_of(lens, w),
        n,
    );
    lemma_quad_order(
        index_of(lens, x),
        index_of(lens, y),
        index_of(lens, z),
        index_of(lens, w),
        index_of(lens, x1),
        index_of(lens, y1),
        index_of(lens, z1),
        index_of(lens, w1),
        n,
        n,
        n,
    );
}

/// Pairs of functions have different places in a matrix.
pub proof fn lemma_slot2(lens: Seq<int>, x: At, y: At, x1: At, y1: At)
    requires
        are_lengths(lens),
        is_function(lens, x),
        is_function(lens, y),
        is_function(lens, x1),
        is_function(lens, y1),
    ensures
        0 <= slot2(lens, x, y) < total(lens) * total(lens),
        slot2(lens, x, y) == slot2(lens, x1, y1) <==> x == x1 && y == y1,
{
    lemma_index(lens, x, x1);
    lemma_index(lens, y, y1);
    lemma_index(lens, x1, x);
    lemma_index(lens, y1, y);
    let n = total(lens);
    crate::flat::lemma_pair_in_range(index_of(lens, x), n, n, index_of(lens, y));
    crate::flat::lemma_pair_order(
        index_of(lens, x),
        index_of(lens, y),
        index_of(lens, x1),
        index_of(lens, y1),
        n,
    );
}

/// The canonical quadruple of four functions is canonical, and it is one of their
/// eight permutations.
pub proof fn law_canonical_is_a_permutation(x: At, y: At, z: At, w: At)
    ensures
        is_canonical(shells_of(canonical(x, y, z, w))),
        ({
            let f = canonical(x, y, z, w);
            ||| f == (x, y, z, w)
            ||| f == (y, x, z, w)
            ||| f == (x, y, w, z)
            ||| f == (y, x, w, z)
            ||| f == (z, w, x, y)
            ||| f == (w, z, x, y)
            ||| f == (z, w, y, x)
            ||| f == (w, z, y, x)
        }),
{
}

/// Eight-fold symmetry: functions of different shells may change places within bra or
/// ket, and bra and ket of different shell pairs may change places, without changing
/// the entry.
pub proof fn law_tensor_is_symmetric<T>(
    blocks: spec_fn(int, int, int, int) -> Seq<T>,
    lens: Seq<int>,
    x: At,
    y: At,
    z: At,
    w: At,
)
    ensures
        x.0 != y.0 ==> tensor_entry(blocks, lens, x, y, z, w) == tensor_entry(
            blocks,
            lens,
            y,
            x,
            z,
            w,
        ),
        z.0 != w.0 ==> tensor_entry(blocks, lens, x, y, z, w) == tensor_entry(
            blocks,
            lens,
            x,
            y,
            w,
            z,
        ),
        (ordered(x, y).0.0, ordered(x, y).1.0) != (ordered(z, w).0.0, ordered(z, w).1.0)
            ==> tensor_entry(blocks, lens, x, y, z, w) == tensor_entry(blocks, lens, z, w, x, y),
{
}

/// A canonical quartet is its own canonical form: its entries are those of its block.
pub proof fn law_canonical_entries_are_read_directly<T>(
    blocks: spec_fn(int, int, int, int) -> Seq<T>,
    lens: Seq<int>,
    x: At,
    y: At,
    z: At,
    w: At,
)
    requires
        is_canonical((x.0, y.0, z.0, w.0)),
    ensures
        canonical(x, y, z, w) == (x, y, z, w),
        tensor_entry(blocks, lens, x, y, z, w) == in_block(
            blocks(x.0, y.0, z.0, w.0),
            lens,
            (x, y, z, w),
        ),
{
}

/// The functions that permutation `p` brings to the places of `x`, `y`, `z` and `w`,
/// in the order of the quartet they come from.
pub open spec fn unpermuted(p: int, x: At, y: At, z: At, w: At) -> (At, At, At, At) {
    if p == 0 {
        (x, y, z, w)
    } else if p == 1 {
        (y, x, z, w)
    } else if p == 2 {
        (x, y, w, z)
    } else if p == 3 {
        (y, x, w, z)
    } else if p == 4 {
        (z, w, x, y)
    } else if p == 5 {
        (w, z, x, y)
    } else if p == 6 {
        (z, w, y, x)
    } else {
        (w, z, y, x)
    }
}

/// The axis of a quartet that permutation `p` brings to place `q`.
pub open spec fn source_axis(p: int, q: int) -> int {
    if p == 0 {
        q
    } else if p == 1 {
        if q == 0 {
            1
        } else if q == 1 {
            0
        } else {
            q
        }
    } else if p == 2 {
        if q == 2 {
            3
        } else if q == 3 {
            2
        } else {
            q
        }
    } else if p == 3 {
        if q == 0 {
            1
        } else if q == 1 {
            0
        } else if q == 2 {
            3
        } else {
            2
        }
    } else if p == 4 {
        if q <= 1 {
            q + 2
        } else {
            q - 2
        }
    } else if p == 5 {
        if q <= 1 {
            q + 2
        } else if q == 2 {
            1
        } else {
            0
        }
    } else if p == 6 {
        if q == 0 {
            3
        } else if q == 1 {
            2
        } else {
            q - 2
        }
    } else {
        3 - q
    }
}

/// The eight permutations of bra swap, ket swap and exchange of bra and ket: which
/// axis of a quartet comes to each place.
pub fn perm8(p: usize) -> (r: [usize; 4])
    requires
        p < 8,
    ensures
        forall|q: int| 0 <= q < 4 ==> #[trigger] r[q] == source_axis(p as int, q),
{
    if p == 0 {
        [0, 1, 2, 3]
    } else if p == 1 {
        [1, 0, 2, 3]
    } else if p == 2 {
        [0, 1, 3, 2]
    } else if p == 3 {
        [1, 0, 3, 2]
    } else if p == 4 {
        [2, 3, 0, 1]
    } else if p == 5 {
        [2, 3, 1, 0]
    } else if p == 6 {
        [3, 2, 0, 1]
    } else {
        [3, 2, 1, 0]
    }
}

/// Element `k` of a quadruple.
pub open spec fn nth<A>(f: (A, A, A, A), k: int) -> A {
    if k == 0 {
        f.0
    } else if k == 1 {
        f.1
    } else if k == 2 {
        f.2
    } else {
        f.3
    }
}

/// Permuting and undoing the permutation gives the quartet back, in both orders.
proof fn lemma_unpermuted(p: int, f: (At, At, At, At), x: At, y: At, z: At, w: At)
    requires
        0 <= p < 8,
    ensures
        ({
            let (a, b, c, d) = (
                nth(f, source_axis(p, 0)),
                nth(f, source_axis(p, 1)),
                nth(f, source_axis(p, 2)),
                nth(f, source_axis(p, 3)),
            );
            &&& unpermuted(p, a, b, c, d) == f
            &&& unpermuted(p, x, y, z, w) == f <==> (x, y, z, w) == (a, b, c, d)
        }),
        is_permutation4(p),
{
}

/// Whether the four source axes of permutation `p` are axes.
spec fn is_permutation4(p: int) -> bool {
    &&& 0 <= source_axis(p, 0) < 4
    &&& 0 <= source_axis(p, 1) < 4
    &&& 0 <= source_axis(p, 2) < 4
    &&& 0 <= source_axis(p, 3) < 4
}

/// The shells and the numbers of components of one quartet in a basis.
pub open spec fn quartet_fits(lens: Seq<int>, sidx: [usize; 4], offs: Seq<usize>) -> bool {
    &&& are_lengths(lens)
    &&& offs.len() == lens.len()
    &&& forall|s: int| 0 <= s < lens.len() ==> #[trigger] offs[s] == start(lens, s)
    &&& forall|q: int| 0 <= q < 4 ==> (#[trigger] sidx[q]) < lens.len()
}

/// The shells of a quartet.
pub open spec fn quartet_of(sidx: [usize; 4]) -> (int, int, int, int) {
    (sidx[0] as int, sidx[1] as int, sidx[2] as int, sidx[3] as int)
}

/// What permutation `p` of a quartet leaves at the place of four functions.
pub open spec fn permuted_entry<T>(
    old: Seq<T>,
    block: Seq<T>,
    lens: Seq<int>,
    sidx: [usize; 4],
    p: int,
    x: At,
    y: At,
    z: At,
    w: At,
) -> T {
    let f = unpermuted(p, x, y, z, w);
    if shells_of(f) == quartet_of(sidx) {
        in_block(block, lens, f)
    } else {
        old[slot4(lens, x, y, z, w)]
    }
}

/// Write one permutation of a quartet's block to its places in the tensor.
#[verifier::spinoff_prover]
#[verifier::rlimit(60)]
fn scatter_permutation<T: Copy>(
    out: &mut Vec<T>,
    nao: usize,
    p: usize,
    sidx: [usize; 4],
    offs: &Vec<usize>,
    n: [usize; 4],
    block: &Vec<T>,
    Ghost(lens): Ghost<Seq<int>>,
)
    requires
        p < 8,
        quartet_fits(lens, sidx, offs@),
        nao == total(lens),
        nao * nao * nao * nao <= usize::MAX,
        old(out)@.len() == nao * nao * nao * nao,
        forall|q: int| 0 <= q < 4 ==> #[trigger] n[q] == lens[sidx[q] as int],
        block@.len() == n[0] * n[1] * n[2] * n[3],
    ensures
        final(out)@.len() == old(out)@.len(),
        forall|x: At, y: At, z: At, w: At|
            is_function(lens, x) && is_function(lens, y) && is_function(lens, z) && is_function(
                lens,
                w,
            ) ==> #[trigger] final(out)@[slot4(lens, x, y, z, w)] == permuted_entry(
                old(out)@,
                block@,
                lens,
                sidx,
                p as int,
                x,
                y,
                z,
                w,
            ),
{
    let perm = perm8(p);
    let ghost old_out = out@;
    let ghost pp = p as int;
    let ghost (n0, n1, n2, n3) = (n[0] as int, n[1] as int, n[2] as int, n[3] as int);
    assert(n0 == lens[sidx[0] as int] && n1 == lens[sidx[1] as int] && n2 == lens[sidx[2] as int]
        && n3 == lens[sidx[3] as int]);
    assert(sidx[0] < lens.len() && sidx[1] < lens.len() && sidx[2] < lens.len() && sidx[3]
        < lens.len());
    let mut c: [usize; 4] = [0, 0, 0, 0];
    let mut src: usize = 0;
    proof {
        assert(0 * n1 == 0 && 0 * n2 == 0 && 0 * n3 == 0) by (nonlinear_arith);
        lemma_total_bound(nao as int);
        if block@.len() > 0 {
            lemma_all_positive(n0, n1, n2, n3);
        }
    }
    while src < block.len()
        invariant
            src <= block@.len(),
            p < 8,
            pp == p,
            quartet_fits(lens, sidx, offs@),
            nao == total(lens),
            nao * nao * nao * nao <= usize::MAX,
            nao <= nao * nao * nao * nao || nao == 0,
            old_out.len() == nao * nao * nao * nao,
            out@.len() == old_out.len(),
            n0 == n[0],
            n1 == n[1],
            n2 == n[2],
            n3 == n[3],
            n0 == lens[sidx[0] as int],
            n1 == lens[sidx[1] as int],
            n2 == lens[sidx[2] as int],
            n3 == lens[sidx[3] as int],
            sidx[0] < lens.len(),
            sidx[1] < lens.len(),
            sidx[2] < lens.len(),
            sidx[3] < lens.len(),
            block@.len() == n0 * n1 * n2 * n3,
            forall|q: int| 0 <= q < 4 ==> #[trigger] perm[q] == source_axis(pp, q),
            src < block@.len() ==> c[0] < n0,
            block@.len() > 0 ==> c[1] < n1 && c[2] < n2 && c[3] < n3,
            block@.len() > 0 ==> n0 > 0 && n1 > 0 && n2 > 0 && n3 > 0,
            src == quad(
                c[0] as int,
                n1,
                c[1] as int,
                n2,
                c[2] as int,
                n3,
                c[3] as int,
            ),
            forall|x: At, y: At, z: At, w: At|
                is_function(lens, x) && is_function(lens, y) && is_function(lens, z)
                    && is_function(lens, w) ==> #[trigger] out@[slot4(lens, x, y, z, w)] == ({
                    let f = unpermuted(pp, x, y, z, w);
                    if shells_of(f) == quartet_of(sidx) && quad(
                        f.0.1,
                        n1,
                        f.1.1,
                        n2,
                        f.2.1,
                        n3,
                        f.3.1,
                    ) < src {
                        in_block(block@, lens, f)
                    } else {
                        old_out[slot4(lens, x, y, z, w)]
                    }
                }),
        decreases block@.len() - src,
    {
        let ghost f: (At, At, At, At) = (
            (sidx[0] as int, c[0] as int),
            (sidx[1] as int, c[1] as int),
            (sidx[2] as int, c[2] as int),
            (sidx[3] as int, c[3] as int),
        );
        let ghost (x0, y0, z0, w0) = (
            nth(f, source_axis(pp, 0)),
            nth(f, source_axis(pp, 1)),
            nth(f, source_axis(pp, 2)),
            nth(f, source_axis(pp, 3)),
        );
        proof {
            lemma_unpermuted(pp, f, x0, y0, z0, w0);
            assert(perm[0] == source_axis(pp, 0));
            assert(perm[1] == source_axis(pp, 1));
            assert(perm[2] == source_axis(pp, 2));
            assert(perm[3] == source_axis(pp, 3));
            lemma_slot4(lens, x0, y0, z0, w0, x0, y0, z0, w0);
            lemma_index(lens, x0, y0);
            lemma_index(lens, y0, x0);
            lemma_index(lens, z0, x0);
            lemma_index(lens, w0, x0);
            lemma_quad_in_range(
                index_of(lens, x0),
                nao as int,
                index_of(lens, y0),
                nao as int,
                index_of(lens, z0),
                nao as int,
                index_of(lens, w0),
                nao as int,
            );
            assert(offs@[x0.0] == start(lens, x0.0));
            assert(offs@[y0.0] == start(lens, y0.0));
            assert(offs@[z0.0] == start(lens, z0.0));
            assert(offs@[w0.0] == start(lens, w0.0));
            lemma_total_steps(nao as int);
        }
        let i0: usize = offs[sidx[perm[0]]] + c[perm[0]];
        let i1: usize = offs[sidx[perm[1]]] + c[perm[1]];
        let i2: usize = offs[sidx[perm[2]]] + c[perm[2]];
        let i3: usize = offs[sidx[perm[3]]] + c[perm[3]];
        let at: usize = ((i0 * nao + i1) * nao + i2) * nao + i3;
        assert(at == slot4(lens, x0, y0, z0, w0));
        let ghost before = out@;
        out[at] = block[src];
        proof {
            assert forall|x: At, y: At, z: At, w: At|
                is_function(lens, x) && is_function(lens, y) && is_function(lens, z)
                    && is_function(lens, w) implies #[trigger] out@[slot4(lens, x, y, z, w)] == ({
                let g = unpermuted(pp, x, y, z, w);
                if shells_of(g) == quartet_of(sidx) && quad(
                    g.0.1,
                    n1,
                    g.1.1,
                    n2,
                    g.2.1,
                    n3,
                    g.3.1,
                ) < src + 1 {
                    in_block(block@, lens, g)
                } else {
                    old_out[slot4(lens, x, y, z, w)]
                }
            }) by {
                let g = unpermuted(pp, x, y, z, w);
                lemma_slot4(lens, x, y, z, w, x0, y0, z0, w0);
                lemma_unpermuted(pp, f, x, y, z, w);
                if shells_of(g) == quartet_of(sidx) {
                    lemma_quad_order(
                        g.0.1,
                        g.1.1,
                        g.2.1,
                        g.3.1,
                        f.0.1,
                        f.1.1,
                        f.2.1,
                        f.3.1,
                        n1,
                        n2,
                        n3,
                    );
                }
                assert(before[slot4(lens, x, y, z, w)] == out@[slot4(lens, x, y, z, w)] || g == f);
            }
            lemma_next(
                c[0] as int,
                n0,
                c[1] as int,
                n1,
                c[2] as int,
                n2,
                c[3] as int,
                n3,
                src as int,
            );
        }
        if c[3] + 1 < n[3] {
            c = [c[0], c[1], c[2], c[3] + 1];
        } else if c[2] + 1 < n[2] {
            c = [c[0], c[1], c[2] + 1, 0];
        } else if c[1] + 1 < n[1] {
            c = [c[0], c[1] + 1, 0, 0];
        } else {
            c = [c[0] + 1, 0, 0, 0];
        }
        src = src + 1;
    }
    proof {
        assert forall|x: At, y: At, z: At, w: At|
            is_function(lens, x) && is_function(lens, y) && is_function(lens, z) && is_function(
                lens,
                w,
            ) implies #[trigger] out@[slot4(lens, x, y, z, w)] == permuted_entry(
            old_out,
            block@,
            lens,
            sidx,
            pp,
            x,
            y,
            z,
            w,
        ) by {
            let g = unpermuted(pp, x, y, z, w);
            if shells_of(g) == quartet_of(sidx) {
                lemma_quad_in_range(g.0.1, n0, g.1.1, n1, g.2.1, n2, g.3.1, n3);
            }
        }
    }
}

/// A product of lengths is above zero only if all of them are.
proof fn lemma_all_positive(a: int, b: int, c: int, d: int)
    requires
        a >= 0,
        b >= 0,
        c >= 0,
        d >= 0,
        a * b * c * d > 0,
    ensures
        a > 0,
        b > 0,
        c > 0,
        d > 0,
{
    assert(a > 0 && b > 0 && c > 0 && d > 0) by (nonlinear_arith)
        requires
            a >= 0,
            b >= 0,
            c >= 0,
            d >= 0,
            a * b * c * d > 0,
    ;
}

/// A number is at most its fourth power.
proof fn lemma_total_bound(n: int)
    requires
        n >= 0,
    ensures
        n <= n * n * n * n || n == 0,
{
    lemma_total_steps(n);
}

/// Powers of a number, one after another.
pub proof fn lemma_total_steps(n: int)
    requires
        n >= 0,
    ensures
        n >= 1 ==> n <= n * n && n * n <= n * n * n && n * n * n <= n * n * n * n,
{
    if n >= 1 {
        let (a, b) = (n * n, n * n * n);
        assert(n <= n * n) by (nonlinear_arith)
            requires
                n >= 1,
        ;
        assert(a <= a * n) by (nonlinear_arith)
            requires
                n >= 1,
                a >= 1,
        ;
        assert(b <= b * n) by (nonlinear_arith)
            requires
                n >= 1,
                b >= 1,
        ;
    }
}

/// The index after that of `(a, b, c, d)`, and when it is the last.
pub proof fn lemma_next(
    a: int,
    na: int,
    b: int,
    nb: int,
    c: int,
    nc: int,
    d: int,
    nd: int,
    k: int,
)
    requires
        0 <= a < na,
        0 <= b < nb,
        0 <= c < nc,
        0 <= d < nd,
        k == quad(a, nb, b, nc, c, nd, d),
    ensures
        k + 1 == (if d + 1 < nd {
            quad(a, nb, b, nc, c, nd, d + 1)
        } else if c + 1 < nc {
            quad(a, nb, b, nc, c + 1, nd, 0)
        } else if b + 1 < nb {
            quad(a, nb, b + 1, nc, 0, nd, 0)
        } else {
            quad(a + 1, nb, 0, nc, 0, nd, 0)
        }),
        d + 1 >= nd && c + 1 >= nc && b + 1 >= nb && a + 1 >= na ==> k + 1 == na * nb * nc * nd,
{
    let r = pair(a, nb, b);
    let q = pair(r, nc, c);
    assert(q * nd + nd == (q + 1) * nd) by (nonlinear_arith);
    assert(r * nc + nc == (r + 1) * nc) by (nonlinear_arith);
    assert(a * nb + nb == (a + 1) * nb) by (nonlinear_arith);
    assert(quad(na, nb, 0, nc, 0, nd, 0) == na * nb * nc * nd);
}

/// The shells of a quartet in the order of permutation `p`.
pub open spec fn permuted_shells(p: int, sidx: [usize; 4]) -> (int, int, int, int) {
    (
        nth(quartet_of(sidx), source_axis(p, 0)),
        nth(quartet_of(sidx), source_axis(p, 1)),
        nth(quartet_of(sidx), source_axis(p, 2)),
        nth(quartet_of(sidx), source_axis(p, 3)),
    )
}

/// Whether permutation `p` orders the shells as an earlier one does.
pub open spec fn repeats(p: int, sidx: [usize; 4]) -> bool {
    exists|q: int|
        0 <= q < p && #[trigger] permuted_shells(q, sidx) == permuted_shells(p, sidx)
}

/// Whether permutation `p` orders the shells as an earlier one does.
fn is_repeat(p: usize, sidx: [usize; 4]) -> (r: bool)
    requires
        p < 8,
    ensures
        r == repeats(p as int, sidx),
{
    let b = perm8(p);
    assert(b[0] == source_axis(p as int, 0) && b[1] == source_axis(p as int, 1) && b[2]
        == source_axis(p as int, 2) && b[3] == source_axis(p as int, 3));
    let mut q: usize = 0;
    while q < p
        invariant
            q <= p < 8,
            b[0] == source_axis(p as int, 0),
            b[1] == source_axis(p as int, 1),
            b[2] == source_axis(p as int, 2),
            b[3] == source_axis(p as int, 3),
            forall|k: int|
                0 <= k < q ==> #[trigger] permuted_shells(k, sidx) != permuted_shells(
                    p as int,
                    sidx,
                ),
        decreases p - q,
    {
        let a = perm8(q);
        assert(a[0] == source_axis(q as int, 0) && a[1] == source_axis(q as int, 1) && a[2]
            == source_axis(q as int, 2) && a[3] == source_axis(q as int, 3));
        if sidx[a[0]] == sidx[b[0]] && sidx[a[1]] == sidx[b[1]] && sidx[a[2]] == sidx[b[2]]
            && sidx[a[3]] == sidx[b[3]] {
            assert(permuted_shells(q as int, sidx) == permuted_shells(p as int, sidx));
            return true;
        }
        q = q + 1;
    }
    false
}

/// Four functions are brought to their shells' places by permutation `p` of a quartet
/// exactly if their shells are those of the quartet in that order.
proof fn lemma_brought(p: int, sidx: [usize; 4], x: At, y: At, z: At, w: At)
    requires
        0 <= p < 8,
    ensures
        shells_of(unpermuted(p, x, y, z, w)) == quartet_of(sidx) <==> (x.0, y.0, z.0, w.0)
            == permuted_shells(p, sidx),
{
}

/// What the first `p` permutations of a quartet leave at the place of four functions.
pub open spec fn scattered_entry<T>(
    old: Seq<T>,
    block: Seq<T>,
    lens: Seq<int>,
    sidx: [usize; 4],
    p: int,
    x: At,
    y: At,
    z: At,
    w: At,
) -> T
    decreases p,
{
    if p <= 0 {
        old[slot4(lens, x, y, z, w)]
    } else if exists|q: int|
        0 <= q < p - 1 && #[trigger] permuted_shells(q, sidx) == (x.0, y.0, z.0, w.0) {
        scattered_entry(old, block, lens, sidx, p - 1, x, y, z, w)
    } else {
        permuted_entry(old, block, lens, sidx, p - 1, x, y, z, w)
    }
}

/// For a canonical quartet the first permutation that reaches four functions is the
/// one that makes them canonical; and those whose canonical quartet is another one are
/// not reached.
proof fn lemma_scattered<T>(
    old: Seq<T>,
    block: Seq<T>,
    lens: Seq<int>,
    sidx: [usize; 4],
    x: At,
    y: At,
    z: At,
    w: At,
)
    requires
        is_canonical(quartet_of(sidx)),
    ensures
        scattered_entry(old, block, lens, sidx, 8, x, y, z, w) == (if shells_of(
            canonical(x, y, z, w),
        ) == quartet_of(sidx) {
            in_block(block, lens, canonical(x, y, z, w))
        } else {
            old[slot4(lens, x, y, z, w)]
        }),
{
    let t = (x.0, y.0, z.0, w.0);
    let p = first_reaching(sidx, t, 0);
    lemma_first_reaching(sidx, t, 0);
    if p < 8 {
        lemma_scattered_from(old, block, lens, sidx, 8, p, x, y, z, w);
        lemma_brought(p, sidx, x, y, z, w);
        assert(p > 0 ==> permuted_shells(0, sidx) != t);
        assert(p > 1 ==> permuted_shells(1, sidx) != t);
        assert(p > 2 ==> permuted_shells(2, sidx) != t);
        assert(p > 3 ==> permuted_shells(3, sidx) != t);
        assert(p > 4 ==> permuted_shells(4, sidx) != t);
        assert(p > 5 ==> permuted_shells(5, sidx) != t);
        assert(p > 6 ==> permuted_shells(6, sidx) != t);
        assert(unpermuted(p, x, y, z, w) == canonical(x, y, z, w));
    } else {
        lemma_not_reached(old, block, lens, sidx, 8, x, y, z, w);
        assert(permuted_shells(0, sidx) != t);
        assert(permuted_shells(1, sidx) != t);
        assert(permuted_shells(2, sidx) != t);
        assert(permuted_shells(3, sidx) != t);
        assert(permuted_shells(4, sidx) != t);
        assert(permuted_shells(5, sidx) != t);
        assert(permuted_shells(6, sidx) != t);
        assert(permuted_shells(7, sidx) != t);
    }
}

/// The first permutation from `from` on that gives the shells `t`; eight if there is
/// none.
spec fn first_reaching(sidx: [usize; 4], t: (int, int, int, int), from: int) -> int
    decreases 8 - from,
{
    if from >= 8 || permuted_shells(from, sidx) == t {
        from
    } else {
        first_reaching(sidx, t, from + 1)
    }
}

proof fn lemma_first_reaching(sidx: [usize; 4], t: (int, int, int, int), from: int)
    requires
        0 <= from <= 8,
    ensures
        from <= first_reaching(sidx, t, from) <= 8,
        first_reaching(sidx, t, from) < 8 ==> permuted_shells(
            first_reaching(sidx, t, from),
            sidx,
        ) == t,
        forall|q: int|
            from <= q < first_reaching(sidx, t, from) ==> #[trigger] permuted_shells(q, sidx) != t,
    decreases 8 - from,
{
    if from < 8 && permuted_shells(from, sidx) != t {
        lemma_first_reaching(sidx, t, from + 1);
    }
}

/// Functions that no permutation reaches keep their entry.
proof fn lemma_not_reached<T>(
    old: Seq<T>,
    block: Seq<T>,
    lens: Seq<int>,
    sidx: [usize; 4],
    p: int,
    x: At,
    y: At,
    z: At,
    w: At,
)
    requires
        0 <= p <= 8,
        forall|q: int|
            0 <= q < p ==> #[trigger] permuted_shells(q, sidx) != (x.0, y.0, z.0, w.0),
    ensures
        scattered_entry(old, block, lens, sidx, p, x, y, z, w) == old[slot4(lens, x, y, z, w)],
    decreases p,
{
    if p > 0 {
        lemma_not_reached(old, block, lens, sidx, p - 1, x, y, z, w);
        lemma_brought(p - 1, sidx, x, y, z, w);
        assert(permuted_shells(p - 1, sidx) != (x.0, y.0, z.0, w.0));
    }
}

/// The first permutation that reaches four functions decides their entry.
proof fn lemma_scattered_from<T>(
    old: Seq<T>,
    block: Seq<T>,
    lens: Seq<int>,
    sidx: [usize; 4],
    p: int,
    first: int,
    x: At,
    y: At,
    z: At,
    w: At,
)
    requires
        0 <= first < p <= 8,
        permuted_shells(first, sidx) == (x.0, y.0, z.0, w.0),
        forall|q: int|
            0 <= q < first ==> #[trigger] permuted_shells(q, sidx) != (x.0, y.0, z.0, w.0),
    ensures
        scattered_entry(old, block, lens, sidx, p, x, y, z, w) == in_block(
            block,
            lens,
            unpermuted(first, x, y, z, w),
        ),
    decreases p,
{
    lemma_brought(first, sidx, x, y, z, w);
    if first < p - 1 {
        lemma_scattered_from(old, block, lens, sidx, p - 1, first, x, y, z, w);
        assert(permuted_shells(first, sidx) == (x.0, y.0, z.0, w.0));
    }
}

/// Write the block of a canonical quartet to the places of all functions whose
/// canonical quartet it is. A permutation that orders the shells as an earlier one is
/// left out, so that every place is written once.
#[verifier::spinoff_prover]
#[verifier::rlimit(40)]
pub(crate) fn scatter_eri_block_s8<T: Copy>(
    out: &mut Vec<T>,
    nao: usize,
    sidx: [usize; 4],
    offs: &Vec<usize>,
    n: [usize; 4],
    block: &Vec<T>,
    Ghost(lens): Ghost<Seq<int>>,
)
    requires
        quartet_fits(lens, sidx, offs@),
        is_canonical(quartet_of(sidx)),
        nao == total(lens),
        nao * nao * nao * nao <= usize::MAX,
        old(out)@.len() == nao * nao * nao * nao,
        forall|q: int| 0 <= q < 4 ==> #[trigger] n[q] == lens[sidx[q] as int],
        block@.len() == n[0] * n[1] * n[2] * n[3],
    ensures
        final(out)@.len() == old(out)@.len(),
        forall|x: At, y: At, z: At, w: At|
            is_function(lens, x) && is_function(lens, y) && is_function(lens, z) && is_function(
                lens,
                w,
            ) ==> #[trigger] final(out)@[slot4(lens, x, y, z, w)] == (if shells_of(
                canonical(x, y, z, w),
            ) == quartet_of(sidx) {
                in_block(block@, lens, canonical(x, y, z, w))
            } else {
                old(out)@[slot4(lens, x, y, z, w)]
            }),
{
    let ghost old_out = out@;
    let mut p: usize = 0;
    while p < 8
        invariant
            p <= 8,
            quartet_fits(lens, sidx, offs@),
            nao == total(lens),
            nao * nao * nao * nao <= usize::MAX,
            old_out.len() == nao * nao * nao * nao,
            out@.len() == old_out.len(),
            forall|q: int| 0 <= q < 4 ==> #[trigger] n[q] == lens[sidx[q] as int],
            block@.len() == n[0] * n[1] * n[2] * n[3],
            forall|x: At, y: At, z: At, w: At|
                is_function(lens, x) && is_function(lens, y) && is_function(lens, z)
                    && is_function(lens, w) ==> #[trigger] out@[slot4(lens, x, y, z, w)]
                    == scattered_entry(old_out, block@, lens, sidx, p as int, x, y, z, w),
        decreases 8 - p,
    {
        let ghost before = out@;
        let repeat = is_repeat(p, sidx);
        if !repeat {
            scatter_permutation(out, nao, p, sidx, offs, n, block, Ghost(lens));
        }
        proof {
            assert forall|x: At, y: At, z: At, w: At|
                is_function(lens, x) && is_function(lens, y) && is_function(lens, z)
                    && is_function(lens, w) implies #[trigger] out@[slot4(lens, x, y, z, w)]
                == scattered_entry(old_out, block@, lens, sidx, p + 1, x, y, z, w) by {
                let t = (x.0, y.0, z.0, w.0);
                lemma_brought(p as int, sidx, x, y, z, w);
                assert(before[slot4(lens, x, y, z, w)] == scattered_entry(
                    old_out,
                    block@,
                    lens,
                    sidx,
                    p as int,
                    x,
                    y,
                    z,
                    w,
                ));
                let reached = exists|q: int|
                    0 <= q < p && #[trigger] permuted_shells(q, sidx) == t;
                if !reached {
                    lemma_not_reached(old_out, block@, lens, sidx, p as int, x, y, z, w);
                }
                if repeat {
                    let q = choose|q: int|
                        0 <= q < p && #[trigger] permuted_shells(q, sidx) == permuted_shells(
                            p as int,
                            sidx,
                        );
                    assert(permuted_shells(q, sidx) == permuted_shells(p as int, sidx));
                    assert(permuted_shells(p as int, sidx) == t ==> reached);
                } else {
                    assert(reached ==> permuted_shells(p as int, sidx) != t);
                }
            }
        }
        p = p + 1;
    }
    proof {
        assert forall|x: At, y: At, z: At, w: At|
            is_function(lens, x) && is_function(lens, y) && is_function(lens, z) && is_function(
                lens,
                w,
            ) implies #[trigger] out@[slot4(lens, x, y, z, w)] == (if shells_of(
            canonical(x, y, z, w),
        ) == quartet_of(sidx) {
            in_block(block@, lens, canonical(x, y, z, w))
        } else {
            old_out[slot4(lens, x, y, z, w)]
        }) by {
            lemma_scattered(old_out, block@, lens, sidx, x, y, z, w);
        }
    }
}

} // verus!
