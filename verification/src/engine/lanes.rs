//! Four shell quartets of the same class in lockstep, one per lane.
//!
//! The kernels are those of a single quartet, run in the arithmetic of
//! [`Lanes`]. Since its operations never mix lanes, each lane computes what a
//! single quartet would.
use vstd::prelude::*;

use crate::engine::contract::{contracted, contracted_to, lemma_contracted_step, quartet_term};
use crate::engine::pairs::{input_of, ladder_of, quartet_input, PrimPair};
use crate::engine::triples::{
    first_axis, lemma_listed_degree_bound, lists_triples, shifted, tetrahedron,
};
use crate::engine::vrr::{
    accumulated, at, big_sizes, contribution, element, slab_size, vrr_big, vrr_small, QuartetHeader,
    VrrInput,
};
use crate::flat::{lemma_pair_in_range, pair};
use crate::math::am::{degree, Powers};
use crate::math::boys::{boys_array4, ladder, BoysTable};
use crate::scalar::{filled, Lanes, Real, Scalar};

verus! {

/// The vector in lane `lane`.
pub open spec fn lane_vec<T: Scalar>(v: [Lanes<T>; 3], lane: int) -> [T; 3] {
    [v[0].at(lane), v[1].at(lane), v[2].at(lane)]
}

/// The header in lane `lane`.
pub open spec fn lane_header<T: Scalar>(
    h: QuartetHeader<Lanes<T>>,
    lane: int,
) -> QuartetHeader<T> {
    QuartetHeader {
        wp: lane_vec(h.wp, lane),
        wq: lane_vec(h.wq, lane),
        pref: h.pref.at(lane),
        inv_2pq: h.inv_2pq.at(lane),
        q_over_pq: h.q_over_pq.at(lane),
        p_over_pq: h.p_over_pq.at(lane),
        scale: h.scale.at(lane),
        t: h.t.at(lane),
    }
}

/// The input in lane `lane`.
pub open spec fn lane_input<T: Scalar>(x: VrrInput<Lanes<T>>, lane: int) -> VrrInput<T> {
    VrrInput {
        pa: lane_vec(x.pa, lane),
        qc: lane_vec(x.qc, lane),
        inv_2p: x.inv_2p.at(lane),
        inv_2q: x.inv_2q.at(lane),
        hdr: lane_header(x.hdr, lane),
    }
}

/// The row or table in lane `lane`.
pub open spec fn lane_row<T: Scalar>(r: Seq<Lanes<T>>, lane: int) -> Seq<T> {
    Seq::new(r.len(), |i: int| r[i].at(lane))
}

/// The recurrence keeps lanes apart: what stands in a lane of an element is the
/// element of what stands in that lane of its input and base ladder.
pub proof fn law_lanes_do_not_mix<T: Scalar>(
    x: VrrInput<Lanes<T>>,
    fm: Seq<Lanes<T>>,
    e: Powers,
    f: Powers,
    m: int,
    lane: int,
)
    requires
        0 <= lane < 4,
        0 <= m,
        m + degree(e) + degree(f) < fm.len(),
    ensures
        element(x, fm, e, f, m).at(lane) == element(
            lane_input(x, lane),
            lane_row(fm, lane),
            e,
            f,
            m,
        ),
    decreases degree(f) + 2, degree(e) + 2,
{
    let y = lane_input(x, lane);
    let g = lane_row(fm, lane);
    if e.0 < 0 || e.1 < 0 || e.2 < 0 || f.0 < 0 || f.1 < 0 || f.2 < 0 {
    } else if degree(f) > 0 {
        let j = first_axis(f);
        let f1 = shifted(f, j, -1);
        let f2 = shifted(f, j, -2);
        let e1 = shifted(e, j, -1);
        law_lanes_do_not_mix(x, fm, e, f1, m, lane);
        law_lanes_do_not_mix(x, fm, e, f1, m + 1, lane);
        law_lanes_do_not_mix(x, fm, e, f2, m, lane);
        law_lanes_do_not_mix(x, fm, e, f2, m + 1, lane);
        law_lanes_do_not_mix(x, fm, e1, f1, m + 1, lane);
        assert(y.qc[j] == x.qc[j].at(lane));
        assert(y.hdr.wq[j] == x.hdr.wq[j].at(lane));
    } else if degree(e) > 0 {
        let i = first_axis(e);
        let e1 = shifted(e, i, -1);
        let e2 = shifted(e, i, -2);
        law_lanes_do_not_mix(x, fm, e1, f, m, lane);
        law_lanes_do_not_mix(x, fm, e1, f, m + 1, lane);
        law_lanes_do_not_mix(x, fm, e2, f, m, lane);
        law_lanes_do_not_mix(x, fm, e2, f, m + 1, lane);
        assert(y.pa[i] == x.pa[i].at(lane));
        assert(y.hdr.wp[i] == x.hdr.wp[i].at(lane));
    }
}

/// What is accumulated in four lanes is accumulated in each.
proof fn lemma_lane_accumulated<T: Scalar>(
    x: VrrInput<Lanes<T>>,
    fm: Seq<Lanes<T>>,
    tri: Seq<[usize; 3]>,
    lmax: int,
    old: Seq<Lanes<T>>,
    new: Seq<Lanes<T>>,
    ne: int,
    nf: int,
    lane: int,
)
    requires
        0 <= lane < 4,
        lists_triples(tri, lmax),
        0 <= ne <= lmax,
        0 <= nf <= lmax,
        fm.len() > ne + nf,
        old.len() >= tetrahedron(ne + 1) * tetrahedron(nf + 1),
        accumulated(
            x,
            fm,
            tri,
            old,
            new,
            tetrahedron(ne + 1),
            tetrahedron(nf + 1),
            tetrahedron(nf + 1),
        ),
    ensures
        accumulated(
            lane_input(x, lane),
            lane_row(fm, lane),
            tri,
            lane_row(old, lane),
            lane_row(new, lane),
            tetrahedron(ne + 1),
            tetrahedron(nf + 1),
            tetrahedron(nf + 1),
        ),
{
    let (n_e, n_f) = (tetrahedron(ne + 1), tetrahedron(nf + 1));
    let (o, n) = (lane_row(old, lane), lane_row(new, lane));
    assert forall|a: int, f: int| 0 <= a < n_e && 0 <= f < n_f implies #[trigger] n[pair(a, n_f, f)]
        == T::sum(
        o[pair(a, n_f, f)],
        contribution(lane_input(x, lane), lane_row(fm, lane), tri, a, f),
    ) by {
        lemma_pair_in_range(a, n_e, n_f, f);
        assert(new[pair(a, n_f, f)] == <Lanes<T> as Scalar>::sum(
            old[pair(a, n_f, f)],
            contribution(x, fm, tri, a, f),
        ));
        crate::engine::triples::lemma_tetrahedron_grows(ne + 1, lmax + 1);
        crate::engine::triples::lemma_tetrahedron_grows(nf + 1, lmax + 1);
        lemma_listed_degree_bound(tri, lmax, ne, a);
        lemma_listed_degree_bound(tri, lmax, nf, f);
        law_lanes_do_not_mix(x, fm, at(tri, a), at(tri, f), 0, lane);
    }
}

/// Four primitive quartets of the small classes in lockstep: per lane, what
/// [`vrr_small`] adds.
pub fn vrr_small4<T: Scalar, const NE: usize, const NF: usize>(
    x: &VrrInput<Lanes<T>>,
    fm: &[Lanes<T>],
    tri: &[[usize; 3]],
    lmax: usize,
    ea: &mut [Lanes<T>; 140],
    eb1: &mut [Lanes<T>; 360],
    eb2: &mut [Lanes<T>; 600],
    eb3: &mut [Lanes<T>; 800],
    c_ef: &mut [Lanes<T>],
)
    requires
        NE <= 3,
        NF <= 3,
        lists_triples(tri@, lmax as int),
        NE <= lmax <= 12,
        NF <= lmax,
        fm@.len() > NE + NF,
        old(c_ef)@.len() >= tetrahedron(NE + 1) * tetrahedron(NF + 1),
    ensures
        final(c_ef)@.len() == old(c_ef)@.len(),
        forall|lane: int|
            0 <= lane < 4 ==> #[trigger] accumulated(
                lane_input(*x, lane),
                lane_row(fm@, lane),
                tri@,
                lane_row(old(c_ef)@, lane),
                lane_row(final(c_ef)@, lane),
                tetrahedron(NE + 1),
                tetrahedron(NF + 1),
                tetrahedron(NF + 1),
            ),
{
    let ghost before = c_ef@;
    vrr_small::<Lanes<T>, NE, NF>(x, fm, tri, lmax, ea, eb1, eb2, eb3, c_ef);
    proof {
        assert forall|lane: int| 0 <= lane < 4 implies #[trigger] accumulated(
            lane_input(*x, lane),
            lane_row(fm@, lane),
            tri@,
            lane_row(before, lane),
            lane_row(c_ef@, lane),
            tetrahedron(NE + 1),
            tetrahedron(NF + 1),
            tetrahedron(NF + 1),
        ) by {
            lemma_lane_accumulated(
                *x,
                fm@,
                tri@,
                lmax as int,
                before,
                c_ef@,
                NE as int,
                NF as int,
                lane,
            );
        }
    }
}

/// Four primitive quartets of the classes `NE, NF <= 6` in lockstep: per lane, what
/// [`vrr_big`] adds.
pub fn vrr_big4<T: Scalar, const NE: usize, const NF: usize>(
    x: &VrrInput<Lanes<T>>,
    fm: &[Lanes<T>],
    tri: &[[usize; 3]],
    lmax: usize,
    buf: &mut [Lanes<T>],
    c_ef: &mut [Lanes<T>],
)
    requires
        NE <= 6,
        NF <= 6,
        lists_triples(tri@, lmax as int),
        NE <= lmax <= 12,
        NF <= lmax,
        fm@.len() > NE + NF,
        old(buf)@.len() >= slab_size(NE as int, NF as int, 7),
        old(c_ef)@.len() >= tetrahedron(NE + 1) * tetrahedron(NF + 1),
    ensures
        final(buf)@.len() == old(buf)@.len(),
        final(c_ef)@.len() == old(c_ef)@.len(),
        forall|lane: int|
            0 <= lane < 4 ==> #[trigger] accumulated(
                lane_input(*x, lane),
                lane_row(fm@, lane),
                tri@,
                lane_row(old(c_ef)@, lane),
                lane_row(final(c_ef)@, lane),
                tetrahedron(NE + 1),
                tetrahedron(NF + 1),
                tetrahedron(NF + 1),
            ),
{
    let ghost before = c_ef@;
    vrr_big::<Lanes<T>, NE, NF>(x, fm, tri, lmax, buf, c_ef);
    proof {
        assert forall|lane: int| 0 <= lane < 4 implies #[trigger] accumulated(
            lane_input(*x, lane),
            lane_row(fm@, lane),
            tri@,
            lane_row(before, lane),
            lane_row(c_ef@, lane),
            tetrahedron(NE + 1),
            tetrahedron(NF + 1),
            tetrahedron(NF + 1),
        ) by {
            lemma_lane_accumulated(
                *x,
                fm@,
                tri@,
                lmax as int,
                before,
                c_ef@,
                NE as int,
                NF as int,
                lane,
            );
        }
    }
}

/// Four scalars side by side.
fn four<T: Scalar>(x0: T, x1: T, x2: T, x3: T) -> (r: Lanes<T>)
    ensures
        r.at(0) == x0,
        r.at(1) == x1,
        r.at(2) == x2,
        r.at(3) == x3,
{
    Lanes { x0, x1, x2, x3 }
}

/// Four vectors side by side.
fn four_vec<T: Scalar>(x0: [T; 3], x1: [T; 3], x2: [T; 3], x3: [T; 3]) -> (r: [Lanes<T>; 3])
    ensures
        lane_vec(r, 0) == x0,
        lane_vec(r, 1) == x1,
        lane_vec(r, 2) == x2,
        lane_vec(r, 3) == x3,
{
    let r = [
        four(x0[0], x1[0], x2[0], x3[0]),
        four(x0[1], x1[1], x2[1], x3[1]),
        four(x0[2], x1[2], x2[2], x3[2]),
    ];
    proof {
        assert(lane_vec(r, 0) =~= x0);
        assert(lane_vec(r, 1) =~= x1);
        assert(lane_vec(r, 2) =~= x2);
        assert(lane_vec(r, 3) =~= x3);
    }
    r
}

/// Four inputs side by side.
fn four_inputs<T: Scalar>(
    a: &VrrInput<T>,
    b: &VrrInput<T>,
    c: &VrrInput<T>,
    d: &VrrInput<T>,
) -> (r: VrrInput<Lanes<T>>)
    ensures
        lane_input(r, 0) == *a,
        lane_input(r, 1) == *b,
        lane_input(r, 2) == *c,
        lane_input(r, 3) == *d,
{
    let hdr = QuartetHeader {
        wp: four_vec(a.hdr.wp, b.hdr.wp, c.hdr.wp, d.hdr.wp),
        wq: four_vec(a.hdr.wq, b.hdr.wq, c.hdr.wq, d.hdr.wq),
        pref: four(a.hdr.pref, b.hdr.pref, c.hdr.pref, d.hdr.pref),
        inv_2pq: four(a.hdr.inv_2pq, b.hdr.inv_2pq, c.hdr.inv_2pq, d.hdr.inv_2pq),
        q_over_pq: four(a.hdr.q_over_pq, b.hdr.q_over_pq, c.hdr.q_over_pq, d.hdr.q_over_pq),
        p_over_pq: four(a.hdr.p_over_pq, b.hdr.p_over_pq, c.hdr.p_over_pq, d.hdr.p_over_pq),
        scale: four(a.hdr.scale, b.hdr.scale, c.hdr.scale, d.hdr.scale),
        t: four(a.hdr.t, b.hdr.t, c.hdr.t, d.hdr.t),
    };
    VrrInput {
        pa: four_vec(a.pa, b.pa, c.pa, d.pa),
        qc: four_vec(a.qc, b.qc, c.qc, d.qc),
        inv_2p: four(a.inv_2p, b.inv_2p, c.inv_2p, d.inv_2p),
        inv_2q: four(a.inv_2q, b.inv_2q, c.inv_2q, d.inv_2q),
        hdr,
    }
}

/// The four inputs and base ladders of the primitive quartets `(ib, ik)`.
fn lane_quartets<T: Real>(
    table: &BoysTable<T>,
    bra: [&[PrimPair<T>]; 4],
    ket: [&[PrimPair<T>]; 4],
    ib: usize,
    ik: usize,
    lt: usize,
    fm: &mut Vec<Lanes<T>>,
) -> (x: VrrInput<Lanes<T>>)
    requires
        table.valid(),
        lt <= 24,
        old(fm)@.len() == lt + 1,
        forall|lane: int| 0 <= lane < 4 ==> ib < (#[trigger] bra[lane])@.len(),
        forall|lane: int| 0 <= lane < 4 ==> ik < (#[trigger] ket[lane])@.len(),
    ensures
        final(fm)@.len() == lt + 1,
        forall|lane: int|
            0 <= lane < 4 ==> #[trigger] lane_input(x, lane) == input_of(
                bra[lane]@[ib as int],
                ket[lane]@[ik as int],
            ),
        forall|lane: int|
            0 <= lane < 4 ==> #[trigger] lane_row(final(fm)@, lane) == ladder_of(
                bra[lane]@[ib as int],
                ket[lane]@[ik as int],
                lt as int,
            ),
{
    proof {
        assert(ib < bra[0]@.len() && ib < bra[1]@.len() && ib < bra[2]@.len() && ib
            < bra[3]@.len());
        assert(ik < ket[0]@.len() && ik < ket[1]@.len() && ik < ket[2]@.len() && ik
            < ket[3]@.len());
    }
    let x0 = quartet_input(&bra[0][ib], &ket[0][ik]);
    let x1 = quartet_input(&bra[1][ib], &ket[1][ik]);
    let x2 = quartet_input(&bra[2][ib], &ket[2][ik]);
    let x3 = quartet_input(&bra[3][ib], &ket[3][ik]);
    let x = four_inputs(&x0, &x1, &x2, &x3);
    boys_array4(table, lt, x.hdr.t, fm);
    proof {
        assert forall|lane: int| 0 <= lane < 4 implies #[trigger] lane_input(x, lane) == input_of(
            bra[lane]@[ib as int],
            ket[lane]@[ik as int],
        ) by {
            assert(lane == 0 || lane == 1 || lane == 2 || lane == 3);
        }
        assert forall|lane: int| 0 <= lane < 4 implies #[trigger] lane_row(fm@, lane) == ladder_of(
            bra[lane]@[ib as int],
            ket[lane]@[ik as int],
            lt as int,
        ) by {
            let want = ladder_of(bra[lane]@[ib as int], ket[lane]@[ik as int], lt as int);
            assert(lane_input(x, lane) == input_of(bra[lane]@[ib as int], ket[lane]@[ik as int]));
            assert forall|m: int| 0 <= m < lt + 1 implies lane_row(fm@, lane)[m] == want[m] by {
                assert(fm@[m].at(lane) == ladder(lt as int, x.hdr.t.at(lane), m));
            }
            assert(lane_row(fm@, lane) =~= want);
        }
    }
    x
}

/// Whether each lane of `new` is that lane of `old` with every element contracted
/// over the primitive quartets of the lane before `(ib, ik)`.
pub open spec fn lanes_contracted<T: Real>(
    bra: [&[PrimPair<T>]; 4],
    ket: [&[PrimPair<T>]; 4],
    tri: Seq<[usize; 3]>,
    lt: int,
    old: Seq<Lanes<T>>,
    new: Seq<Lanes<T>>,
    n_e: int,
    n_f: int,
    ib: int,
    ik: int,
) -> bool {
    forall|lane: int|
        0 <= lane < 4 ==> #[trigger] contracted_to(
            bra[lane]@,
            ket[lane]@,
            tri,
            lt,
            lane_row(old, lane),
            lane_row(new, lane),
            n_e,
            n_f,
            ib,
            ik,
        )
}

/// Whether the four lists have the same length.
pub open spec fn same_length<T>(pairs: [&[PrimPair<T>]; 4], n: int) -> bool {
    forall|lane: int| 0 <= lane < 4 ==> (#[trigger] pairs[lane])@.len() == n
}

/// One more primitive quartet in every lane.
proof fn lemma_lanes_step<T: Real>(
    bra: [&[PrimPair<T>]; 4],
    ket: [&[PrimPair<T>]; 4],
    tri: Seq<[usize; 3]>,
    lt: int,
    old: Seq<Lanes<T>>,
    before: Seq<Lanes<T>>,
    new: Seq<Lanes<T>>,
    n_e: int,
    n_f: int,
    ib: int,
    ik: int,
    x: VrrInput<Lanes<T>>,
    fm: Seq<Lanes<T>>,
)
    requires
        0 <= ik,
        lanes_contracted(bra, ket, tri, lt, old, before, n_e, n_f, ib, ik),
        forall|lane: int|
            0 <= lane < 4 ==> #[trigger] lane_input(x, lane) == input_of(
                bra[lane]@[ib],
                ket[lane]@[ik],
            ),
        forall|lane: int|
            0 <= lane < 4 ==> #[trigger] lane_row(fm, lane) == ladder_of(
                bra[lane]@[ib],
                ket[lane]@[ik],
                lt,
            ),
        forall|lane: int|
            0 <= lane < 4 ==> #[trigger] accumulated(
                lane_input(x, lane),
                lane_row(fm, lane),
                tri,
                lane_row(before, lane),
                lane_row(new, lane),
                n_e,
                n_f,
                n_f,
            ),
    ensures
        lanes_contracted(bra, ket, tri, lt, old, new, n_e, n_f, ib, ik + 1),
{
    assert forall|lane: int| 0 <= lane < 4 implies #[trigger] contracted_to(
        bra[lane]@,
        ket[lane]@,
        tri,
        lt,
        lane_row(old, lane),
        lane_row(new, lane),
        n_e,
        n_f,
        ib,
        ik + 1,
    ) by {
        assert(contracted_to(
            bra[lane]@,
            ket[lane]@,
            tri,
            lt,
            lane_row(old, lane),
            lane_row(before, lane),
            n_e,
            n_f,
            ib,
            ik,
        ));
        assert(accumulated(
            lane_input(x, lane),
            lane_row(fm, lane),
            tri,
            lane_row(before, lane),
            lane_row(new, lane),
            n_e,
            n_f,
            n_f,
        ));
        lemma_contracted_step(
            bra[lane]@,
            ket[lane]@,
            tri,
            lt,
            lane_row(old, lane),
            lane_row(before, lane),
            lane_row(new, lane),
            n_e,
            n_f,
            ib,
            ik,
        );
    }
}

/// Contract four shell quartets of the class `NE, NF <= 3` in lockstep. All lanes
/// have the same number of bra pairs and of ket pairs.
pub fn contract_class4<T: Real, const NE: usize, const NF: usize>(
    table: &BoysTable<T>,
    bra: [&[PrimPair<T>]; 4],
    ket: [&[PrimPair<T>]; 4],
    tri: &[[usize; 3]],
    lmax: usize,
    c_ef: &mut [Lanes<T>],
)
    requires
        table.valid(),
        NE <= 3,
        NF <= 3,
        lists_triples(tri@, lmax as int),
        NE <= lmax <= 12,
        NF <= lmax,
        same_length(bra, bra[0]@.len() as int),
        same_length(ket, ket[0]@.len() as int),
        old(c_ef)@.len() >= tetrahedron(NE + 1) * tetrahedron(NF + 1),
    ensures
        final(c_ef)@.len() == old(c_ef)@.len(),
        lanes_contracted(
            bra,
            ket,
            tri@,
            NE + NF,
            old(c_ef)@,
            final(c_ef)@,
            tetrahedron(NE + 1),
            tetrahedron(NF + 1),
            bra[0]@.len() as int,
            0,
        ),
{
    let lt: usize = NE + NF;
    let ghost n_e = tetrahedron(NE + 1);
    let ghost n_f = tetrahedron(NF + 1);
    let n_bra: usize = bra[0].len();
    let n_ket: usize = ket[0].len();
    let zero = <Lanes<T> as Scalar>::from_count(0);
    let mut ea: [Lanes<T>; 140] = [zero; 140];
    let mut eb1: [Lanes<T>; 360] = [zero; 360];
    let mut eb2: [Lanes<T>; 600] = [zero; 600];
    let mut eb3: [Lanes<T>; 800] = [zero; 800];
    let mut fm: Vec<Lanes<T>> = filled(lt + 1, zero);
    let mut ib: usize = 0;
    while ib < n_bra
        invariant
            ib <= n_bra,
            table.valid(),
            NE <= 3,
            NF <= 3,
            lt == NE + NF,
            lists_triples(tri@, lmax as int),
            NE <= lmax <= 12,
            NF <= lmax,
            same_length(bra, n_bra as int),
            same_length(ket, n_ket as int),
            fm@.len() == lt + 1,
            n_e == tetrahedron(NE + 1),
            n_f == tetrahedron(NF + 1),
            c_ef@.len() == old(c_ef)@.len(),
            c_ef@.len() >= n_e * n_f,
            lanes_contracted(bra, ket, tri@, lt as int, old(c_ef)@, c_ef@, n_e, n_f, ib as int, 0),
        decreases n_bra - ib,
    {
        let mut ik: usize = 0;
        while ik < n_ket
            invariant
                ik <= n_ket,
                ib < n_bra,
                table.valid(),
                NE <= 3,
                NF <= 3,
                lt == NE + NF,
                lists_triples(tri@, lmax as int),
                NE <= lmax <= 12,
                NF <= lmax,
                same_length(bra, n_bra as int),
                same_length(ket, n_ket as int),
                fm@.len() == lt + 1,
                n_e == tetrahedron(NE + 1),
                n_f == tetrahedron(NF + 1),
                c_ef@.len() == old(c_ef)@.len(),
                c_ef@.len() >= n_e * n_f,
                lanes_contracted(
                    bra,
                    ket,
                    tri@,
                    lt as int,
                    old(c_ef)@,
                    c_ef@,
                    n_e,
                    n_f,
                    ib as int,
                    ik as int,
                ),
            decreases n_ket - ik,
        {
            let x = lane_quartets(table, bra, ket, ib, ik, lt, &mut fm);
            let ghost before = c_ef@;
            vrr_small4::<T, NE, NF>(
                &x,
                &fm,
                tri,
                lmax,
                &mut ea,
                &mut eb1,
                &mut eb2,
                &mut eb3,
                c_ef,
            );
            proof {
                lemma_lanes_step(
                    bra,
                    ket,
                    tri@,
                    lt as int,
                    old(c_ef)@,
                    before,
                    c_ef@,
                    n_e,
                    n_f,
                    ib as int,
                    ik as int,
                    x,
                    fm@,
                );
            }
            ik = ik + 1;
        }
        proof {
            assert forall|lane: int| 0 <= lane < 4 implies #[trigger] contracted_to(
                bra[lane]@,
                ket[lane]@,
                tri@,
                lt as int,
                lane_row(old(c_ef)@, lane),
                lane_row(c_ef@, lane),
                n_e,
                n_f,
                ib + 1,
                0,
            ) by {
                assert(contracted_to(
                    bra[lane]@,
                    ket[lane]@,
                    tri@,
                    lt as int,
                    lane_row(old(c_ef)@, lane),
                    lane_row(c_ef@, lane),
                    n_e,
                    n_f,
                    ib as int,
                    n_ket as int,
                ));
                assert(ket[lane]@.len() == n_ket);
            }
        }
        ib = ib + 1;
    }
}

/// Contract four shell quartets of the class `NE, NF <= 6` in lockstep, with the
/// tables in the slab `big4`. All lanes have the same number of bra pairs and of
/// ket pairs.
pub fn contract_class_big4<T: Real, const NE: usize, const NF: usize>(
    table: &BoysTable<T>,
    bra: [&[PrimPair<T>]; 4],
    ket: [&[PrimPair<T>]; 4],
    tri: &[[usize; 3]],
    lmax: usize,
    c_ef: &mut [Lanes<T>],
    big4: &mut Vec<Lanes<T>>,
)
    requires
        table.valid(),
        NE <= 6,
        NF <= 6,
        lists_triples(tri@, lmax as int),
        NE <= lmax <= 12,
        NF <= lmax,
        same_length(bra, bra[0]@.len() as int),
        same_length(ket, ket[0]@.len() as int),
        old(c_ef)@.len() >= tetrahedron(NE + 1) * tetrahedron(NF + 1),
    ensures
        final(c_ef)@.len() == old(c_ef)@.len(),
        lanes_contracted(
            bra,
            ket,
            tri@,
            NE + NF,
            old(c_ef)@,
            final(c_ef)@,
            tetrahedron(NE + 1),
            tetrahedron(NF + 1),
            bra[0]@.len() as int,
            0,
        ),
{
    let lt: usize = NE + NF;
    let ghost n_e = tetrahedron(NE + 1);
    let ghost n_f = tetrahedron(NF + 1);
    let n_bra: usize = bra[0].len();
    let n_ket: usize = ket[0].len();
    let zero = <Lanes<T> as Scalar>::from_count(0);
    let (sizes, total) = big_sizes::<NE, NF>();
    crate::engine::hrr::ensure_len(big4, total);
    let mut fm: Vec<Lanes<T>> = filled(lt + 1, zero);
    let mut ib: usize = 0;
    while ib < n_bra
        invariant
            ib <= n_bra,
            table.valid(),
            NE <= 6,
            NF <= 6,
            lt == NE + NF,
            lists_triples(tri@, lmax as int),
            NE <= lmax <= 12,
            NF <= lmax,
            same_length(bra, n_bra as int),
            same_length(ket, n_ket as int),
            fm@.len() == lt + 1,
            n_e == tetrahedron(NE + 1),
            n_f == tetrahedron(NF + 1),
            c_ef@.len() == old(c_ef)@.len(),
            c_ef@.len() >= n_e * n_f,
            big4@.len() >= slab_size(NE as int, NF as int, 7),
            lanes_contracted(bra, ket, tri@, lt as int, old(c_ef)@, c_ef@, n_e, n_f, ib as int, 0),
        decreases n_bra - ib,
    {
        let mut ik: usize = 0;
        while ik < n_ket
            invariant
                ik <= n_ket,
                ib < n_bra,
                table.valid(),
                NE <= 6,
                NF <= 6,
                lt == NE + NF,
                lists_triples(tri@, lmax as int),
                NE <= lmax <= 12,
                NF <= lmax,
                same_length(bra, n_bra as int),
                same_length(ket, n_ket as int),
                fm@.len() == lt + 1,
                n_e == tetrahedron(NE + 1),
                n_f == tetrahedron(NF + 1),
                c_ef@.len() == old(c_ef)@.len(),
                c_ef@.len() >= n_e * n_f,
                big4@.len() >= slab_size(NE as int, NF as int, 7),
                lanes_contracted(
                    bra,
                    ket,
                    tri@,
                    lt as int,
                    old(c_ef)@,
                    c_ef@,
                    n_e,
                    n_f,
                    ib as int,
                    ik as int,
                ),
            decreases n_ket - ik,
        {
            let x = lane_quartets(table, bra, ket, ib, ik, lt, &mut fm);
            let ghost before = c_ef@;
            vrr_big4::<T, NE, NF>(&x, &fm, tri, lmax, big4, c_ef);
            proof {
                lemma_lanes_step(
                    bra,
                    ket,
                    tri@,
                    lt as int,
                    old(c_ef)@,
                    before,
                    c_ef@,
                    n_e,
                    n_f,
                    ib as int,
                    ik as int,
                    x,
                    fm@,
                );
            }
            ik = ik + 1;
        }
        proof {
            assert forall|lane: int| 0 <= lane < 4 implies #[trigger] contracted_to(
                bra[lane]@,
                ket[lane]@,
                tri@,
                lt as int,
                lane_row(old(c_ef)@, lane),
                lane_row(c_ef@, lane),
                n_e,
                n_f,
                ib + 1,
                0,
            ) by {
                assert(contracted_to(
                    bra[lane]@,
                    ket[lane]@,
                    tri@,
                    lt as int,
                    lane_row(old(c_ef)@, lane),
                    lane_row(c_ef@, lane),
                    n_e,
                    n_f,
                    ib as int,
                    n_ket as int,
                ));
                assert(ket[lane]@.len() == n_ket);
            }
        }
        ib = ib + 1;
    }
}

/// Four `(ss|ss)` quartets in lockstep: per lane, the contracted `[00|00]`.
pub fn contract_ssss4<T: Real>(
    table: &BoysTable<T>,
    bra: [&[PrimPair<T>]; 4],
    ket: [&[PrimPair<T>]; 4],
) -> (acc: Lanes<T>)
    requires
        table.valid(),
        same_length(bra, bra[0]@.len() as int),
        same_length(ket, ket[0]@.len() as int),
    ensures
        forall|lane: int|
            0 <= lane < 4 ==> #[trigger] acc.at(lane) == contracted(
                bra[lane]@,
                ket[lane]@,
                0,
                (0, 0, 0),
                (0, 0, 0),
                T::count(0),
                bra[0]@.len() as int,
                0,
            ),
{
    let n_bra: usize = bra[0].len();
    let n_ket: usize = ket[0].len();
    let zero = <Lanes<T> as Scalar>::from_count(0);
    let mut fm: Vec<Lanes<T>> = filled(1, zero);
    let mut acc = zero;
    let mut ib: usize = 0;
    while ib < n_bra
        invariant
            ib <= n_bra,
            table.valid(),
            same_length(bra, n_bra as int),
            same_length(ket, n_ket as int),
            fm@.len() == 1,
            forall|lane: int|
                0 <= lane < 4 ==> #[trigger] acc.at(lane) == contracted(
                    bra[lane]@,
                    ket[lane]@,
                    0,
                    (0, 0, 0),
                    (0, 0, 0),
                    T::count(0),
                    ib as int,
                    0,
                ),
        decreases n_bra - ib,
    {
        let mut ik: usize = 0;
        while ik < n_ket
            invariant
                ik <= n_ket,
                ib < n_bra,
                table.valid(),
                same_length(bra, n_bra as int),
                same_length(ket, n_ket as int),
                fm@.len() == 1,
                forall|lane: int|
                    0 <= lane < 4 ==> #[trigger] acc.at(lane) == contracted(
                        bra[lane]@,
                        ket[lane]@,
                        0,
                        (0, 0, 0),
                        (0, 0, 0),
                        T::count(0),
                        ib as int,
                        ik as int,
                    ),
            decreases n_ket - ik,
        {
            let x = lane_quartets(table, bra, ket, ib, ik, 0, &mut fm);
            let ghost before = acc;
            acc = acc.plus(x.hdr.scale.times(x.hdr.pref.times(fm[0])));
            proof {
                assert forall|lane: int| 0 <= lane < 4 implies #[trigger] acc.at(lane) == contracted(
                    bra[lane]@,
                    ket[lane]@,
                    0,
                    (0, 0, 0),
                    (0, 0, 0),
                    T::count(0),
                    ib as int,
                    ik + 1,
                ) by {
                    let y = input_of(bra[lane]@[ib as int], ket[lane]@[ik as int]);
                    assert(lane_input(x, lane) == y);
                    assert(lane_row(fm@, lane) == ladder_of(
                        bra[lane]@[ib as int],
                        ket[lane]@[ik as int],
                        0,
                    ));
                    assert(lane_row(fm@, lane)[0] == fm@[0].at(lane));
                    assert(before.at(lane) == contracted(
                        bra[lane]@,
                        ket[lane]@,
                        0,
                        (0, 0, 0),
                        (0, 0, 0),
                        T::count(0),
                        ib as int,
                        ik as int,
                    ));
                    assert(quartet_term(
                        bra[lane]@[ib as int],
                        ket[lane]@[ik as int],
                        0,
                        (0, 0, 0),
                        (0, 0, 0),
                    ) == T::prod(y.hdr.scale, T::prod(y.hdr.pref, fm@[0].at(lane))));
                }
            }
            ik = ik + 1;
        }
        proof {
            assert forall|lane: int| 0 <= lane < 4 implies #[trigger] acc.at(lane) == contracted(
                bra[lane]@,
                ket[lane]@,
                0,
                (0, 0, 0),
                (0, 0, 0),
                T::count(0),
                ib + 1,
                0,
            ) by {
                assert(ket[lane]@.len() == n_ket);
            }
        }
        ib = ib + 1;
    }
    acc
}

} // verus!
