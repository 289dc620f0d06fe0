//! Contraction of the vertical recurrence over the primitive quartets of a shell
//! quartet.
use vstd::prelude::*;

use crate::engine::hrr::{ensure_len, grown};
use crate::engine::pairs::{input_of, ladder_of, quartet_input, PrimPair};
use crate::engine::triples::{lists_triples, tetrahedron};
use crate::engine::vrr::{
    accumulated, at, big_sizes, contribution, element, slab_size, vrr_big, vrr_small, VrrInput,
};
use crate::engine::vrr_window::{packed, vrr_primitive};
use crate::flat::pair;
use crate::math::am::Powers;
use crate::math::boys::{boys_array, boys_array2, BoysTable};
use crate::scalar::{filled, Real};

verus! {

/// What the primitive quartet `(bra, ket)` contributes to the element `[e0|f0]`.
pub open spec fn quartet_term<T: Real>(
    bra: PrimPair<T>,
    ket: PrimPair<T>,
    lt: int,
    e: Powers,
    f: Powers,
) -> T {
    T::prod(
        input_of(bra, ket).hdr.scale,
        element(input_of(bra, ket), ladder_of(bra, ket, lt), e, f, 0),
    )
}

/// The element `[e0|f0]` contracted over the bra pairs before `ib`, and over the ket
/// pairs before `ik` with bra pair `ib`, added one after another to `start`.
pub open spec fn contracted<T: Real>(
    bras: Seq<PrimPair<T>>,
    kets: Seq<PrimPair<T>>,
    lt: int,
    e: Powers,
    f: Powers,
    start: T,
    ib: int,
    ik: int,
) -> T
    decreases ib, ik,
{
    if ik > 0 {
        T::sum(
            contracted(bras, kets, lt, e, f, start, ib, ik - 1),
            quartet_term(bras[ib], kets[ik - 1], lt, e, f),
        )
    } else if ib > 0 {
        contracted(bras, kets, lt, e, f, start, ib - 1, kets.len() as int)
    } else {
        start
    }
}

/// Whether `new` is `old` with every element contracted over the primitive quartets
/// before `(ib, ik)`, as tables of shape `(n_e, n_f)`.
pub open spec fn contracted_to<T: Real>(
    bras: Seq<PrimPair<T>>,
    kets: Seq<PrimPair<T>>,
    tri: Seq<[usize; 3]>,
    lt: int,
    old: Seq<T>,
    new: Seq<T>,
    n_e: int,
    n_f: int,
    ib: int,
    ik: int,
) -> bool {
    &&& new.len() == old.len()
    &&& forall|a: int, f: int|
        0 <= a < n_e && 0 <= f < n_f ==> #[trigger] new[pair(a, n_f, f)] == contracted(
            bras,
            kets,
            lt,
            at(tri, a),
            at(tri, f),
            old[pair(a, n_f, f)],
            ib,
            ik,
        )
}

/// One more primitive quartet.
pub proof fn lemma_contracted_step<T: Real>(
    bras: Seq<PrimPair<T>>,
    kets: Seq<PrimPair<T>>,
    tri: Seq<[usize; 3]>,
    lt: int,
    old: Seq<T>,
    before: Seq<T>,
    new: Seq<T>,
    n_e: int,
    n_f: int,
    ib: int,
    ik: int,
)
    requires
        0 <= ik,
        contracted_to(bras, kets, tri, lt, old, before, n_e, n_f, ib, ik),
        accumulated(
            input_of(bras[ib], kets[ik]),
            ladder_of(bras[ib], kets[ik], lt),
            tri,
            before,
            new,
            n_e,
            n_f,
            n_f,
        ),
    ensures
        contracted_to(bras, kets, tri, lt, old, new, n_e, n_f, ib, ik + 1),
{
    assert forall|a: int, f: int| 0 <= a < n_e && 0 <= f < n_f implies #[trigger] new[pair(
        a,
        n_f,
        f,
    )] == contracted(
        bras,
        kets,
        lt,
        at(tri, a),
        at(tri, f),
        old[pair(a, n_f, f)],
        ib,
        ik + 1,
    ) by {
        assert(new[pair(a, n_f, f)] == T::sum(
            before[pair(a, n_f, f)],
            contribution(
                input_of(bras[ib], kets[ik]),
                ladder_of(bras[ib], kets[ik], lt),
                tri,
                a,
                f,
            ),
        ));
    }
}

/// Width of the strips that the ket pairs are taken in.
pub const STRIP: usize = 4;

/// The inputs and base ladders of a strip of at most [`STRIP`] ket pairs from
/// `start` on, the ladders two at a time.
fn strip_inputs<T: Real>(
    table: &BoysTable<T>,
    bra: &PrimPair<T>,
    kets: &[PrimPair<T>],
    start: usize,
    len: usize,
    lt: usize,
) -> (r: (Vec<VrrInput<T>>, Vec<Vec<T>>))
    requires
        table.valid(),
        start + len <= kets@.len(),
        lt <= 24,
    ensures
        r.0@.len() == len,
        r.1@.len() == len,
        forall|k: int| 0 <= k < len ==> #[trigger] r.0@[k] == input_of(*bra, kets@[start + k]),
        forall|k: int|
            0 <= k < len ==> #[trigger] r.1@[k]@ == ladder_of(*bra, kets@[start + k], lt as int),
{
    let zero = T::from_count(0);
    let mut inputs: Vec<VrrInput<T>> = Vec::new();
    let mut rows: Vec<Vec<T>> = Vec::new();
    let total: usize = kets.len();
    let mut k: usize = 0;
    while len - k >= 2
        invariant
            table.valid(),
            k <= len,
            start + len <= total,
            total == kets@.len(),
            lt <= 24,
            inputs@.len() == k,
            rows@.len() == k,
            forall|c: int|
                0 <= c < k ==> #[trigger] inputs@[c] == input_of(*bra, kets@[start + c]),
            forall|c: int|
                0 <= c < k ==> #[trigger] rows@[c]@ == ladder_of(
                    *bra,
                    kets@[start + c],
                    lt as int,
                ),
        decreases len - k,
    {
        let x0 = quartet_input(bra, &kets[start + k]);
        let x1 = quartet_input(bra, &kets[start + k + 1]);
        let mut f0: Vec<T> = filled(lt + 1, zero);
        let mut f1: Vec<T> = filled(lt + 1, zero);
        boys_array2(table, lt, x0.hdr.t, x1.hdr.t, &mut f0, &mut f1);
        assert(f0@ =~= ladder_of(*bra, kets@[start + k], lt as int));
        assert(f1@ =~= ladder_of(*bra, kets@[start + k + 1], lt as int));
        inputs.push(x0);
        inputs.push(x1);
        rows.push(f0);
        rows.push(f1);
        k = k + 2;
    }
    if k < len {
        let x0 = quartet_input(bra, &kets[start + k]);
        let mut f0: Vec<T> = filled(lt + 1, zero);
        boys_array(table, lt, x0.hdr.t, &mut f0);
        assert(f0@ =~= ladder_of(*bra, kets@[start + k], lt as int));
        inputs.push(x0);
        rows.push(f0);
    }
    (inputs, rows)
}

/// Contract a shell quartet of the class `NE, NF <= 3` into `c_ef`: bra pairs
/// outer, ket pairs inner, the ket pairs in strips.
pub fn contract_class<T: Real, const NE: usize, const NF: usize>(
    table: &BoysTable<T>,
    bra_pairs: &[PrimPair<T>],
    ket_pairs: &[PrimPair<T>],
    tri: &[[usize; 3]],
    lmax: usize,
    c_ef: &mut [T],
)
    requires
        table.valid(),
        NE <= 3,
        NF <= 3,
        lists_triples(tri@, lmax as int),
        NE <= lmax <= 12,
        NF <= lmax,
        old(c_ef)@.len() >= tetrahedron(NE + 1) * tetrahedron(NF + 1),
    ensures
        contracted_to(
            bra_pairs@,
            ket_pairs@,
            tri@,
            NE + NF,
            old(c_ef)@,
            final(c_ef)@,
            tetrahedron(NE + 1),
            tetrahedron(NF + 1),
            bra_pairs@.len() as int,
            0,
        ),
{
    let zero = T::from_count(0);
    let mut ea: [T; 140] = [zero; 140];
    let mut eb1: [T; 360] = [zero; 360];
    let mut eb2: [T; 600] = [zero; 600];
    let mut eb3: [T; 800] = [zero; 800];
    let lt: usize = NE + NF;
    let ghost n_e = tetrahedron(NE + 1);
    let ghost n_f = tetrahedron(NF + 1);
    let mut ib: usize = 0;
    while ib < bra_pairs.len()
        invariant
            ib <= bra_pairs@.len(),
            table.valid(),
            NE <= 3,
            NF <= 3,
            lt == NE + NF,
            lists_triples(tri@, lmax as int),
            NE <= lmax <= 12,
            NF <= lmax,
            n_e == tetrahedron(NE + 1),
            n_f == tetrahedron(NF + 1),
            c_ef@.len() >= n_e * n_f,
            contracted_to(
                bra_pairs@,
                ket_pairs@,
                tri@,
                lt as int,
                old(c_ef)@,
                c_ef@,
                n_e,
                n_f,
                ib as int,
                0,
            ),
        decreases bra_pairs@.len() - ib,
    {
        let bra = bra_pairs[ib];
        let mut start: usize = 0;
        while start < ket_pairs.len()
            invariant
                start <= ket_pairs@.len(),
                ib < bra_pairs@.len(),
                bra == bra_pairs@[ib as int],
                table.valid(),
                NE <= 3,
                NF <= 3,
                lt == NE + NF,
                lists_triples(tri@, lmax as int),
                NE <= lmax <= 12,
                NF <= lmax,
                n_e == tetrahedron(NE + 1),
                n_f == tetrahedron(NF + 1),
                c_ef@.len() >= n_e * n_f,
                contracted_to(
                    bra_pairs@,
                    ket_pairs@,
                    tri@,
                    lt as int,
                    old(c_ef)@,
                    c_ef@,
                    n_e,
                    n_f,
                    ib as int,
                    start as int,
                ),
            decreases ket_pairs@.len() - start,
        {
            let left: usize = ket_pairs.len() - start;
            let len: usize = if left < STRIP {
                left
            } else {
                STRIP
            };
            let (inputs, rows) = strip_inputs(table, &bra, ket_pairs, start, len, lt);
            let mut k: usize = 0;
            while k < len
                invariant
                    k <= len,
                    start + len <= ket_pairs@.len(),
                    inputs@.len() == len,
                    rows@.len() == len,
                    ib < bra_pairs@.len(),
                    bra == bra_pairs@[ib as int],
                    forall|c: int|
                        0 <= c < len ==> #[trigger] inputs@[c] == input_of(
                            bra,
                            ket_pairs@[start + c],
                        ),
                    forall|c: int|
                        0 <= c < len ==> #[trigger] rows@[c]@ == ladder_of(
                            bra,
                            ket_pairs@[start + c],
                            lt as int,
                        ),
                    NE <= 3,
                    NF <= 3,
                    lt == NE + NF,
                    lists_triples(tri@, lmax as int),
                    NE <= lmax <= 12,
                    NF <= lmax,
                    n_e == tetrahedron(NE + 1),
                    n_f == tetrahedron(NF + 1),
                    c_ef@.len() >= n_e * n_f,
                    contracted_to(
                        bra_pairs@,
                        ket_pairs@,
                        tri@,
                        lt as int,
                        old(c_ef)@,
                        c_ef@,
                        n_e,
                        n_f,
                        ib as int,
                        start + k,
                    ),
                decreases len - k,
            {
                let ghost before = c_ef@;
                assert(inputs@[k as int] == input_of(bra, ket_pairs@[start + k]));
                assert(rows@[k as int]@ == ladder_of(bra, ket_pairs@[start + k], lt as int));
                vrr_small::<T, NE, NF>(
                    &inputs[k],
                    &rows[k],
                    tri,
                    lmax,
                    &mut ea,
                    &mut eb1,
                    &mut eb2,
                    &mut eb3,
                    c_ef,
                );
                proof {
                    lemma_contracted_step(
                        bra_pairs@,
                        ket_pairs@,
                        tri@,
                        lt as int,
                        old(c_ef)@,
                        before,
                        c_ef@,
                        n_e,
                        n_f,
                        ib as int,
                        start + k,
                    );
                }
                k = k + 1;
            }
            start = start + len;
        }
        ib = ib + 1;
    }
}

/// Contract a shell quartet of the class `NE, NF <= 6` into `c_ef`, with the
/// tables in the slab `big`.
pub fn contract_class_big<T: Real, const NE: usize, const NF: usize>(
    table: &BoysTable<T>,
    bra_pairs: &[PrimPair<T>],
    ket_pairs: &[PrimPair<T>],
    tri: &[[usize; 3]],
    lmax: usize,
    c_ef: &mut [T],
    big: &mut Vec<T>,
)
    requires
        table.valid(),
        NE <= 6,
        NF <= 6,
        lists_triples(tri@, lmax as int),
        NE <= lmax <= 12,
        NF <= lmax,
        old(c_ef)@.len() >= tetrahedron(NE + 1) * tetrahedron(NF + 1),
    ensures
        final(big)@.len() == grown(
            old(big)@.len() as int,
            slab_size(NE as int, NF as int, 7),
        ),
        contracted_to(
            bra_pairs@,
            ket_pairs@,
            tri@,
            NE + NF,
            old(c_ef)@,
            final(c_ef)@,
            tetrahedron(NE + 1),
            tetrahedron(NF + 1),
            bra_pairs@.len() as int,
            0,
        ),
{
    let lt: usize = NE + NF;
    let ghost n_e = tetrahedron(NE + 1);
    let ghost n_f = tetrahedron(NF + 1);
    let (sizes, total) = big_sizes::<NE, NF>();
    ensure_len(big, total);
    let ghost room = big@.len();
    let mut ib: usize = 0;
    while ib < bra_pairs.len()
        invariant
            ib <= bra_pairs@.len(),
            table.valid(),
            NE <= 6,
            NF <= 6,
            lt == NE + NF,
            lists_triples(tri@, lmax as int),
            NE <= lmax <= 12,
            NF <= lmax,
            n_e == tetrahedron(NE + 1),
            n_f == tetrahedron(NF + 1),
            c_ef@.len() >= n_e * n_f,
            big@.len() >= slab_size(NE as int, NF as int, 7),
            big@.len() == room,
            contracted_to(
                bra_pairs@,
                ket_pairs@,
                tri@,
                lt as int,
                old(c_ef)@,
                c_ef@,
                n_e,
                n_f,
                ib as int,
                0,
            ),
        decreases bra_pairs@.len() - ib,
    {
        let bra = bra_pairs[ib];
        let mut start: usize = 0;
        while start < ket_pairs.len()
            invariant
                start <= ket_pairs@.len(),
                ib < bra_pairs@.len(),
                bra == bra_pairs@[ib as int],
                table.valid(),
                NE <= 6,
                NF <= 6,
                lt == NE + NF,
                lists_triples(tri@, lmax as int),
                NE <= lmax <= 12,
                NF <= lmax,
                n_e == tetrahedron(NE + 1),
                n_f == tetrahedron(NF + 1),
                c_ef@.len() >= n_e * n_f,
                big@.len() >= slab_size(NE as int, NF as int, 7),
                big@.len() == room,
                contracted_to(
                    bra_pairs@,
                    ket_pairs@,
                    tri@,
                    lt as int,
                    old(c_ef)@,
                    c_ef@,
                    n_e,
                    n_f,
                    ib as int,
                    start as int,
                ),
            decreases ket_pairs@.len() - start,
        {
            let left: usize = ket_pairs.len() - start;
            let len: usize = if left < STRIP {
                left
            } else {
                STRIP
            };
            let (inputs, rows) = strip_inputs(table, &bra, ket_pairs, start, len, lt);
            let mut k: usize = 0;
            while k < len
                invariant
                    k <= len,
                    start + len <= ket_pairs@.len(),
                    inputs@.len() == len,
                    rows@.len() == len,
                    ib < bra_pairs@.len(),
                    bra == bra_pairs@[ib as int],
                    forall|c: int|
                        0 <= c < len ==> #[trigger] inputs@[c] == input_of(
                            bra,
                            ket_pairs@[start + c],
                        ),
                    forall|c: int|
                        0 <= c < len ==> #[trigger] rows@[c]@ == ladder_of(
                            bra,
                            ket_pairs@[start + c],
                            lt as int,
                        ),
                    NE <= 6,
                    NF <= 6,
                    lt == NE + NF,
                    lists_triples(tri@, lmax as int),
                    NE <= lmax <= 12,
                    NF <= lmax,
                    n_e == tetrahedron(NE + 1),
                    n_f == tetrahedron(NF + 1),
                    c_ef@.len() >= n_e * n_f,
                    big@.len() >= slab_size(NE as int, NF as int, 7),
                    big@.len() == room,
                    contracted_to(
                        bra_pairs@,
                        ket_pairs@,
                        tri@,
                        lt as int,
                        old(c_ef)@,
                        c_ef@,
                        n_e,
                        n_f,
                        ib as int,
                        start + k,
                    ),
                decreases len - k,
            {
                let ghost before = c_ef@;
                assert(inputs@[k as int] == input_of(bra, ket_pairs@[start + k]));
                assert(rows@[k as int]@ == ladder_of(bra, ket_pairs@[start + k], lt as int));
                vrr_big::<T, NE, NF>(&inputs[k], &rows[k], tri, lmax, big, c_ef);
                proof {
                    lemma_contracted_step(
                        bra_pairs@,
                        ket_pairs@,
                        tri@,
                        lt as int,
                        old(c_ef)@,
                        before,
                        c_ef@,
                        n_e,
                        n_f,
                        ib as int,
                        start + k,
                    );
                }
                k = k + 1;
            }
            start = start + len;
        }
        ib = ib + 1;
    }
}

/// Contract a shell quartet of any class into `c_ef`, in the rolling window.
pub fn contract_window<T: Real>(
    table: &BoysTable<T>,
    bra_pairs: &[PrimPair<T>],
    ket_pairs: &[PrimPair<T>],
    tri: &[[usize; 3]],
    lmax: usize,
    ne: usize,
    nf: usize,
    maxlevel: usize,
    eoff: &[usize],
    slab: &[usize],
    levels: &mut [T],
    c_ef: &mut [T],
)
    requires
        table.valid(),
        lists_triples(tri@, lmax as int),
        ne <= lmax <= 12,
        nf <= lmax,
        maxlevel <= 1_100_000,
        packed(tri@, ne as int, nf as int, eoff@, slab@, maxlevel as int),
        old(levels)@.len() >= 3 * maxlevel,
        old(c_ef)@.len() >= tetrahedron(ne + 1) * tetrahedron(nf + 1),
    ensures
        final(levels)@.len() == old(levels)@.len(),
        contracted_to(
            bra_pairs@,
            ket_pairs@,
            tri@,
            ne + nf,
            old(c_ef)@,
            final(c_ef)@,
            tetrahedron(ne + 1),
            tetrahedron(nf + 1),
            bra_pairs@.len() as int,
            0,
        ),
{
    let lt: usize = ne + nf;
    let ghost n_e = tetrahedron(ne + 1);
    let ghost n_f = tetrahedron(nf + 1);
    let mut fm: Vec<T> = filled(lt + 1, T::from_count(0));
    let mut ib: usize = 0;
    while ib < bra_pairs.len()
        invariant
            ib <= bra_pairs@.len(),
            table.valid(),
            lt == ne + nf,
            lists_triples(tri@, lmax as int),
            ne <= lmax <= 12,
            nf <= lmax,
            maxlevel <= 1_100_000,
            packed(tri@, ne as int, nf as int, eoff@, slab@, maxlevel as int),
            levels@.len() == old(levels)@.len(),
            levels@.len() >= 3 * maxlevel,
            fm@.len() == lt + 1,
            n_e == tetrahedron(ne + 1),
            n_f == tetrahedron(nf + 1),
            c_ef@.len() >= n_e * n_f,
            contracted_to(
                bra_pairs@,
                ket_pairs@,
                tri@,
                lt as int,
                old(c_ef)@,
                c_ef@,
                n_e,
                n_f,
                ib as int,
                0,
            ),
        decreases bra_pairs@.len() - ib,
    {
        let bra = bra_pairs[ib];
        let mut ik: usize = 0;
        while ik < ket_pairs.len()
            invariant
                ik <= ket_pairs@.len(),
                ib < bra_pairs@.len(),
                bra == bra_pairs@[ib as int],
                table.valid(),
                lt == ne + nf,
                lists_triples(tri@, lmax as int),
                ne <= lmax <= 12,
                nf <= lmax,
                maxlevel <= 1_100_000,
                packed(tri@, ne as int, nf as int, eoff@, slab@, maxlevel as int),
                levels@.len() == old(levels)@.len(),
                levels@.len() >= 3 * maxlevel,
                fm@.len() == lt + 1,
                n_e == tetrahedron(ne + 1),
                n_f == tetrahedron(nf + 1),
                c_ef@.len() >= n_e * n_f,
                contracted_to(
                    bra_pairs@,
                    ket_pairs@,
                    tri@,
                    lt as int,
                    old(c_ef)@,
                    c_ef@,
                    n_e,
                    n_f,
                    ib as int,
                    ik as int,
                ),
            decreases ket_pairs@.len() - ik,
        {
            let x = quartet_input(&bra, &ket_pairs[ik]);
            boys_array(table, lt, x.hdr.t, &mut fm);
            assert(fm@ =~= ladder_of(bra, ket_pairs@[ik as int], lt as int));
            let ghost before = c_ef@;
            vrr_primitive(&x, &fm, tri, lmax, ne, nf, maxlevel, eoff, slab, levels, c_ef);
            proof {
                lemma_contracted_step(
                    bra_pairs@,
                    ket_pairs@,
                    tri@,
                    lt as int,
                    old(c_ef)@,
                    before,
                    c_ef@,
                    n_e,
                    n_f,
                    ib as int,
                    ik as int,
                );
            }
            ik = ik + 1;
        }
        ib = ib + 1;
    }
}

/// The `(ss|ss)` quartet: the element `[00|00]` contracted over all primitive
/// quartets, from zero, the ladders two at a time.
pub fn contract_ssss<T: Real>(
    table: &BoysTable<T>,
    bra_pairs: &[PrimPair<T>],
    ket_pairs: &[PrimPair<T>],
) -> (acc: T)
    requires
        table.valid(),
    ensures
        acc == contracted(
            bra_pairs@,
            ket_pairs@,
            0,
            (0, 0, 0),
            (0, 0, 0),
            T::count(0),
            bra_pairs@.len() as int,
            0,
        ),
{
    let zero = T::from_count(0);
    let mut acc = zero;
    let mut ib: usize = 0;
    while ib < bra_pairs.len()
        invariant
            ib <= bra_pairs@.len(),
            table.valid(),
            acc == contracted(
                bra_pairs@,
                ket_pairs@,
                0,
                (0, 0, 0),
                (0, 0, 0),
                T::count(0),
                ib as int,
                0,
            ),
        decreases bra_pairs@.len() - ib,
    {
        let bra = bra_pairs[ib];
        let mut start: usize = 0;
        while start < ket_pairs.len()
            invariant
                start <= ket_pairs@.len(),
                ib < bra_pairs@.len(),
                bra == bra_pairs@[ib as int],
                table.valid(),
                acc == contracted(
                    bra_pairs@,
                    ket_pairs@,
                    0,
                    (0, 0, 0),
                    (0, 0, 0),
                    T::count(0),
                    ib as int,
                    start as int,
                ),
            decreases ket_pairs@.len() - start,
        {
            let left: usize = ket_pairs.len() - start;
            let len: usize = if left < 2 {
                left
            } else {
                2
            };
            let (inputs, rows) = strip_inputs(table, &bra, ket_pairs, start, len, 0);
            let mut k: usize = 0;
            while k < len
                invariant
                    k <= len,
                    start + len <= ket_pairs@.len(),
                    inputs@.len() == len,
                    rows@.len() == len,
                    ib < bra_pairs@.len(),
                    bra == bra_pairs@[ib as int],
                    forall|c: int|
                        0 <= c < len ==> #[trigger] inputs@[c] == input_of(
                            bra,
                            ket_pairs@[start + c],
                        ),
                    forall|c: int|
                        0 <= c < len ==> #[trigger] rows@[c]@ == ladder_of(
                            bra,
                            ket_pairs@[start + c],
                            0,
                        ),
                    acc == contracted(
                        bra_pairs@,
                        ket_pairs@,
                        0,
                        (0, 0, 0),
                        (0, 0, 0),
                        T::count(0),
                        ib as int,
                        start + k,
                    ),
                decreases len - k,
            {
                let x = inputs[k];
                assert(x == input_of(bra, ket_pairs@[start + k]));
                assert(rows@[k as int]@ == ladder_of(bra, ket_pairs@[start + k], 0));
                let term = x.hdr.scale.times(x.hdr.pref.times(rows[k][0]));
                assert(term == quartet_term(
                    bra,
                    ket_pairs@[start + k],
                    0,
                    (0, 0, 0),
                    (0, 0, 0),
                ));
                acc = acc.plus(term);
                k = k + 1;
            }
            start = start + len;
        }
        ib = ib + 1;
    }
    acc
}

} // verus!
