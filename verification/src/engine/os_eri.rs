//! Two-electron repulsion integrals by the recurrence engine.
//!
//! A vertical recurrence builds `[e0|f0]` per primitive quartet, the primitives are
//! contracted, and a horizontal recurrence moves angular momentum to the second
//! centres in contracted space. Since the latter only depends on the geometry, it
//! runs once per shell quartet instead of once per primitive quartet.
use vstd::prelude::*;

pub use crate::engine::pairs::{
    build_pairs, shell_pair_data, surviving_pair_count, PrimPair, ShellPairData, ShellRef, Vec3,
};
pub use crate::engine::triples::{addr, n_addr, tri_below};

use crate::engine::contract::{
    contract_class, contract_class_big, contract_ssss, contract_window, contracted, contracted_to,
};
use crate::engine::hrr::{
    block_added, bra_done, column, ensure_len, grown, hrr_and_scatter, shell_value, transferred,
};
use crate::engine::lanes::{
    contract_class4, contract_class_big4, contract_ssss4, lane_row, lanes_contracted, same_length,
};
use crate::engine::pairs::{difference, shell_pairs};
use crate::engine::triples::{
    address, first_axis, is_triple, law_addresses_are_distinct, law_every_address_is_taken,
    lemma_listed_at_address, lemma_listed_by_degree, lemma_small_degree, lemma_tetrahedron_grows,
    lists_triples, shifted, tetrahedron, triple_at, triple_table,
};
use crate::engine::vrr::{at, at_degree, slab_size};
use crate::engine::vrr_window::{largest_level, pack_levels};
use crate::flat::{lemma_index_parts, lemma_pair_in_range, pair, quad};
use crate::exact::keeps_zero;
use crate::math::am::{
    cart_count, component_at, degree, law_every_position_is_taken, law_positions_order_components,
    Powers,
};
use crate::math::boys::BoysTable;
use crate::scalar::{Lanes, Real, Scalar};

verus! {

/// Highest angular momentum of a shell.
pub const MAX_L: usize = 6;

/// `[e0|f0]` of a shell quartet for every bra address `e`, with `f` at ket address
/// `f`: contracted over all primitive quartets, from zero.
pub open spec fn contracted_column<T: Real>(
    bras: Seq<PrimPair<T>>,
    kets: Seq<PrimPair<T>>,
    ne: int,
    nf: int,
    f: int,
) -> Seq<T> {
    Seq::new(
        tetrahedron(ne + 1) as nat,
        |e: int|
            contracted(
                bras,
                kets,
                ne + nf,
                triple_at(ne, e),
                triple_at(nf, f),
                T::count(0),
                bras.len() as int,
                0,
            ),
    )
}

/// `(ab|f0)` of a shell quartet for every ket address `f`.
pub open spec fn bra_transferred<T: Real>(
    bras: Seq<PrimPair<T>>,
    kets: Seq<PrimPair<T>>,
    ne: int,
    nf: int,
    ab: Vec3<T>,
    a: Powers,
    b: Powers,
) -> Seq<T> {
    Seq::new(
        tetrahedron(nf + 1) as nat,
        |f: int| transferred(contracted_column(bras, kets, ne, nf, f), ab, a, b),
    )
}

/// `(ab|cd)` of a shell quartet with primitive pairs `bras` and `kets`, bra momentum
/// `ne`, ket momentum `nf`, and displacements `ab` and `cd` of its centres.
pub open spec fn eri_value<T: Real>(
    bras: Seq<PrimPair<T>>,
    kets: Seq<PrimPair<T>>,
    ne: int,
    nf: int,
    ab: Vec3<T>,
    cd: Vec3<T>,
    a: Powers,
    b: Powers,
    c: Powers,
    d: Powers,
) -> T {
    transferred(bra_transferred(bras, kets, ne, nf, ab, a, b), cd, c, d)
}

/// The value of the shell quartet `(s0 s1|s2 s3)` at the components with positions
/// `ia`, `ib`, `ic`, `id`.
pub open spec fn quartet_value<T: Real>(
    s: Seq<ShellRef<T>>,
    bras: Seq<PrimPair<T>>,
    kets: Seq<PrimPair<T>>,
    ia: int,
    ib: int,
    ic: int,
    id: int,
) -> T {
    eri_value(
        bras,
        kets,
        s[0].l + s[1].l,
        s[2].l + s[3].l,
        difference(s[0].center, s[1].center),
        difference(s[2].center, s[3].center),
        component_at(s[0].l as int, ia),
        component_at(s[1].l as int, ib),
        component_at(s[2].l as int, ic),
        component_at(s[3].l as int, id),
    )
}

/// Number of Cartesian entries of the block of four shells.
pub open spec fn block_len<T>(s: Seq<ShellRef<T>>) -> int {
    cart_count(s[0].l as int) * cart_count(s[1].l as int) * cart_count(s[2].l as int) * cart_count(
        s[3].l as int,
    )
}

/// Whether `new` is `old` with the value of the shell quartet added at every entry
/// of its block, and nothing else changed.
pub open spec fn quartet_added<T: Real>(
    s: Seq<ShellRef<T>>,
    bras: Seq<PrimPair<T>>,
    kets: Seq<PrimPair<T>>,
    old: Seq<T>,
    new: Seq<T>,
) -> bool {
    let na = cart_count(s[0].l as int);
    let nb = cart_count(s[1].l as int);
    let nc = cart_count(s[2].l as int);
    let nd = cart_count(s[3].l as int);
    &&& new.len() == old.len()
    &&& forall|ia: int, ib: int, ic: int, id: int|
        0 <= ia < na && 0 <= ib < nb && 0 <= ic < nc && 0 <= id < nd ==> #[trigger] new[quad(
            ia,
            nb,
            ib,
            nc,
            ic,
            nd,
            id,
        )] == T::sum(
            old[quad(ia, nb, ib, nc, ic, nd, id)],
            quartet_value(s, bras, kets, ia, ib, ic, id),
        )
    &&& forall|i: int| block_len(s) <= i < old.len() ==> new[i] == old[i]
}

/// Working buffers of the engine, kept from one shell quartet to the next. What
/// they hold between calls has no bearing on a result.
pub struct EriScratch<T> {
    levels: Vec<T>,
    c_ef: Vec<T>,
    bra: Vec<T>,
    bra_prev: Vec<T>,
    bra_cur: Vec<T>,
    ket_prev: Vec<T>,
    ket_cur: Vec<T>,
    bra_pairs: Vec<PrimPair<T>>,
    ket_pairs: Vec<PrimPair<T>>,
    tri: Vec<[usize; 3]>,
    eoff: Vec<usize>,
    slab: Vec<usize>,
    big: Vec<T>,
}

impl<T: Real> EriScratch<T> {
    /// The list of triples is in place, and the rolling layers have one length.
    pub closed spec fn valid(&self) -> bool {
        &&& lists_triples(self.tri@, 12)
        &&& self.bra_cur@.len() == self.bra_prev@.len()
        &&& self.ket_cur@.len() == self.ket_prev@.len()
    }

    /// Lengths of the buffers of scalars: the rolling window, the contracted table, the
    /// bra and its two layers, the two ket layers, and the slab of tables.
    pub closed spec fn buffer_lengths(&self) -> Seq<int> {
        seq![
            self.levels@.len() as int,
            self.c_ef@.len() as int,
            self.bra@.len() as int,
            self.bra_prev@.len() as int,
            self.bra_cur@.len() as int,
            self.ket_prev@.len() as int,
            self.ket_cur@.len() as int,
            self.big@.len() as int,
        ]
    }

    /// Fresh buffers; they grow on first use.
    #[must_use]
    pub fn new() -> (s: Self)
        ensures
            s.valid(),
            s.buffer_lengths() == Seq::new(8, |i: int| 0int),
    {
        let s = EriScratch {
            levels: Vec::new(),
            c_ef: Vec::new(),
            bra: Vec::new(),
            bra_prev: Vec::new(),
            bra_cur: Vec::new(),
            ket_prev: Vec::new(),
            ket_cur: Vec::new(),
            bra_pairs: Vec::new(),
            ket_pairs: Vec::new(),
            tri: triple_table(12),
            eoff: Vec::new(),
            slab: Vec::new(),
            big: Vec::new(),
        };
        assert(s.buffer_lengths() =~= Seq::new(8, |i: int| 0int));
        s
    }

    /// Total number of scalars held.
    #[must_use]
    pub fn resident_f64(&self) -> (n: usize)
        requires
            self.buffer_lengths()[0] + self.buffer_lengths()[1] + self.buffer_lengths()[2]
                + self.buffer_lengths()[3] + self.buffer_lengths()[4] + self.buffer_lengths()[5]
                + self.buffer_lengths()[6] + self.buffer_lengths()[7] <= usize::MAX,
        ensures
            n == self.buffer_lengths()[0] + self.buffer_lengths()[1] + self.buffer_lengths()[2]
                + self.buffer_lengths()[3] + self.buffer_lengths()[4] + self.buffer_lengths()[5]
                + self.buffer_lengths()[6] + self.buffer_lengths()[7],
    {
        self.levels.len() + self.c_ef.len() + self.bra.len() + self.bra_prev.len()
            + self.bra_cur.len() + self.ket_prev.len() + self.ket_cur.len() + self.big.len()
    }

    /// Number of scalars in the largest buffer.
    #[must_use]
    pub fn largest_buffer_f64(&self) -> (n: usize)
        ensures
            forall|i: int| 0 <= i < 8 ==> #[trigger] self.buffer_lengths()[i] <= n,
            exists|i: int| 0 <= i < 8 && #[trigger] self.buffer_lengths()[i] == n,
    {
        let mut n: usize = self.levels.len();
        let ghost mut at: int = 0;
        if self.c_ef.len() > n {
            n = self.c_ef.len();
            proof {
                at = 1;
            }
        }
        if self.bra.len() > n {
            n = self.bra.len();
            proof {
                at = 2;
            }
        }
        if self.bra_prev.len() > n {
            n = self.bra_prev.len();
            proof {
                at = 3;
            }
        }
        if self.bra_cur.len() > n {
            n = self.bra_cur.len();
            proof {
                at = 4;
            }
        }
        if self.ket_prev.len() > n {
            n = self.ket_prev.len();
            proof {
                at = 5;
            }
        }
        if self.ket_cur.len() > n {
            n = self.ket_cur.len();
            proof {
                at = 6;
            }
        }
        if self.big.len() > n {
            n = self.big.len();
            proof {
                at = 7;
            }
        }
        assert(self.buffer_lengths()[at] == n);
        n
    }
}

/// What the slab of tables holds at least after a quartet of the class `(ne, nf)`.
pub open spec fn slab_need(ne: int, nf: int) -> int {
    if ne <= 6 && nf <= 6 && (ne > 3 || nf > 3) {
        slab_size(ne, nf, 7)
    } else {
        0
    }
}

/// What the rolling window holds at least after a quartet of the class `(ne, nf)`: three
/// levels.
pub open spec fn window_need(ne: int, nf: int) -> int {
    if ne > 6 || nf > 6 {
        3 * largest_level(ne, nf, nf + 1)
    } else {
        0
    }
}

/// The lengths of the buffers after the quartet of shells of momenta `la`, `lb`, `lc`
/// and `ld`. No buffer shrinks, and a quartet of s shells needs none.
pub open spec fn lengths_after(old: Seq<int>, la: int, lb: int, lc: int, ld: int) -> Seq<int> {
    let (ne, nf) = (la + lb, lc + ld);
    let (n_e, n_f) = (tetrahedron(ne + 1), tetrahedron(nf + 1));
    if ne + nf == 0 {
        old
    } else {
        seq![
            grown(old[0], window_need(ne, nf)),
            grown(old[1], n_e * n_f),
            grown(old[2], cart_count(la) * cart_count(lb) * (n_f - tetrahedron(lc))),
            grown(old[3], cart_count(lb) * n_e),
            grown(old[4], cart_count(lb) * n_e),
            grown(old[5], cart_count(ld) * n_f),
            grown(old[6], cart_count(ld) * n_f),
            grown(old[7], slab_need(ne, nf)),
        ]
    }
}

/// Set the first `n` entries of `v`, which it grows to, to zero.
fn zero_prefix<T: Scalar>(v: &mut Vec<T>, n: usize)
    ensures
        final(v)@.len() == grown(old(v)@.len() as int, n as int),
        forall|i: int| 0 <= i < n ==> #[trigger] final(v)@[i] == T::count(0),
{
    ensure_len(v, n);
    let ghost len = v@.len();
    let zero = T::from_count(0);
    let mut i: usize = 0;
    while i < n
        invariant
            i <= n <= v@.len(),
            v@.len() == len,
            zero == T::count(0),
            forall|k: int| 0 <= k < i ==> #[trigger] v@[k] == T::count(0),
        decreases n - i,
    {
        v[i] = zero;
        i = i + 1;
    }
}

/// The listed triples are those of the addresses.
proof fn lemma_triple_at(tri: Seq<[usize; 3]>, lmax: int, l: int, n: int)
    requires
        lists_triples(tri, lmax),
        0 <= l <= lmax,
        0 <= n < tetrahedron(l + 1),
    ensures
        at(tri, n) == triple_at(l, n),
        n < tri.len(),
{
    lemma_tetrahedron_grows(l + 1, lmax + 1);
    law_every_address_is_taken(l, n);
    lemma_listed_at_address(tri, lmax, triple_at(l, n));
}

/// The listed components are those of the positions.
proof fn lemma_component_at(tri: Seq<[usize; 3]>, lmax: int, l: int, i: int)
    requires
        lists_triples(tri, lmax),
        0 <= l <= lmax,
        0 <= i < cart_count(l),
    ensures
        at_degree(tri, l, i) == component_at(l, i),
{
    lemma_listed_by_degree(tri, lmax, l, i);
    law_every_position_is_taken(l, i);
    law_positions_order_components(at_degree(tri, l, i), component_at(l, i), l);
}

/// What the horizontal recurrence makes of a contracted table is the value of the
/// shell quartet.
proof fn lemma_value_from_table<T: Real>(
    tri: Seq<[usize; 3]>,
    bras: Seq<PrimPair<T>>,
    kets: Seq<PrimPair<T>>,
    zeros: Seq<T>,
    c_ef: Seq<T>,
    ne: int,
    nf: int,
    ab: Vec3<T>,
    cd: Vec3<T>,
    a: Powers,
    b: Powers,
    c: Powers,
    d: Powers,
)
    requires
        lists_triples(tri, 12),
        0 <= ne <= 12,
        0 <= nf <= 12,
        c_ef.len() >= tetrahedron(ne + 1) * tetrahedron(nf + 1),
        forall|i: int|
            0 <= i < tetrahedron(ne + 1) * tetrahedron(nf + 1) ==> #[trigger] zeros[i] == T::count(
                0,
            ),
        contracted_to(
            bras,
            kets,
            tri,
            ne + nf,
            zeros,
            c_ef,
            tetrahedron(ne + 1),
            tetrahedron(nf + 1),
            bras.len() as int,
            0,
        ),
    ensures
        shell_value(c_ef, tetrahedron(ne + 1), tetrahedron(nf + 1), ab, cd, a, b, c, d)
            == eri_value(bras, kets, ne, nf, ab, cd, a, b, c, d),
{
    let (n_e, n_f) = (tetrahedron(ne + 1), tetrahedron(nf + 1));
    let done = bra_done(c_ef, n_e, n_f, ab, a, b);
    let want = bra_transferred(bras, kets, ne, nf, ab, a, b);
    assert forall|f: int| 0 <= f < n_f implies #[trigger] done[f] == want[f] by {
        let col = column(c_ef, n_e, n_f, f);
        let cw = contracted_column(bras, kets, ne, nf, f);
        assert forall|e: int| 0 <= e < n_e implies #[trigger] col[e] == cw[e] by {
            lemma_triple_at(tri, 12, ne, e);
            lemma_triple_at(tri, 12, nf, f);
            lemma_pair_in_range(e, n_e, n_f, f);
            assert(c_ef[pair(e, n_f, f)] == contracted(
                bras,
                kets,
                ne + nf,
                at(tri, e),
                at(tri, f),
                zeros[pair(e, n_f, f)],
                bras.len() as int,
                0,
            ));
        }
        assert(col =~= cw);
    }
    assert(done =~= want);
}

/// What the horizontal recurrence adds from a contracted table is the shell
/// quartet.
proof fn lemma_quartet_from_table<T: Real>(
    s: Seq<ShellRef<T>>,
    tri: Seq<[usize; 3]>,
    bras: Seq<PrimPair<T>>,
    kets: Seq<PrimPair<T>>,
    zeros: Seq<T>,
    c_ef: Seq<T>,
    old: Seq<T>,
    new: Seq<T>,
)
    requires
        s.len() == 4,
        forall|i: int| 0 <= i < 4 ==> (#[trigger] s[i]).l <= MAX_L,
        lists_triples(tri, 12),
        c_ef.len() >= tetrahedron(s[0].l + s[1].l + 1) * tetrahedron(s[2].l + s[3].l + 1),
        forall|i: int|
            0 <= i < tetrahedron(s[0].l + s[1].l + 1) * tetrahedron(s[2].l + s[3].l + 1)
                ==> #[trigger] zeros[i] == T::count(0),
        contracted_to(
            bras,
            kets,
            tri,
            s[0].l + s[1].l + s[2].l + s[3].l,
            zeros,
            c_ef,
            tetrahedron(s[0].l + s[1].l + 1),
            tetrahedron(s[2].l + s[3].l + 1),
            bras.len() as int,
            0,
        ),
        block_added(
            tri,
            c_ef,
            s[0].l as int,
            s[1].l as int,
            s[2].l as int,
            s[3].l as int,
            difference(s[0].center, s[1].center),
            difference(s[2].center, s[3].center),
            old,
            new,
        ),
    ensures
        quartet_added(s, bras, kets, old, new),
{
    let na = cart_count(s[0].l as int);
    let nb = cart_count(s[1].l as int);
    let nc = cart_count(s[2].l as int);
    let nd = cart_count(s[3].l as int);
    assert(s[0].l <= MAX_L && s[1].l <= MAX_L && s[2].l <= MAX_L && s[3].l <= MAX_L);
    assert forall|ia: int, ib: int, ic: int, id: int|
        0 <= ia < na && 0 <= ib < nb && 0 <= ic < nc && 0 <= id < nd implies #[trigger] new[quad(
        ia,
        nb,
        ib,
        nc,
        ic,
        nd,
        id,
    )] == T::sum(
        old[quad(ia, nb, ib, nc, ic, nd, id)],
        quartet_value(s, bras, kets, ia, ib, ic, id),
    ) by {
        lemma_component_at(tri, 12, s[0].l as int, ia);
        lemma_component_at(tri, 12, s[1].l as int, ib);
        lemma_component_at(tri, 12, s[2].l as int, ic);
        lemma_component_at(tri, 12, s[3].l as int, id);
        lemma_value_from_table(
            tri,
            bras,
            kets,
            zeros,
            c_ef,
            s[0].l + s[1].l,
            s[2].l + s[3].l,
            difference(s[0].center, s[1].center),
            difference(s[2].center, s[3].center),
            at_degree(tri, s[0].l as int, ia),
            at_degree(tri, s[1].l as int, ib),
            at_degree(tri, s[2].l as int, ic),
            at_degree(tri, s[3].l as int, id),
        );
    }
}

/// The `(ss|ss)` quartet is its contracted `[00|00]`.
proof fn lemma_ssss<T: Real>(
    s: Seq<ShellRef<T>>,
    bras: Seq<PrimPair<T>>,
    kets: Seq<PrimPair<T>>,
)
    requires
        s.len() == 4,
        s[0].l == 0,
        s[1].l == 0,
        s[2].l == 0,
        s[3].l == 0,
    ensures
        quartet_value(s, bras, kets, 0, 0, 0, 0) == contracted(
            bras,
            kets,
            0,
            (0, 0, 0),
            (0, 0, 0),
            T::count(0),
            bras.len() as int,
            0,
        ),
        cart_count(0) == 1,
{
    lemma_small_degree(0);
    assert(tetrahedron(1) == 1 && cart_count(0) == 1 && tetrahedron(0) == 0);
    law_every_position_is_taken(0, 0);
    law_every_address_is_taken(0, 0);
    assert(component_at(0, 0) == (0int, 0int, 0int));
    assert(triple_at(0, 0) == (0int, 0int, 0int));
    assert(address((0int, 0int, 0int)) == 0) by {
        law_addresses_are_distinct((0, 0, 0), (0, 0, 0), 0);
    }
}

/// The contraction of a quartet of the class `(ne, nf)`, by the kernel of the
/// class.
fn contract_any<T: Real>(
    table: &BoysTable<T>,
    ne: usize,
    nf: usize,
    bra_pairs: &[PrimPair<T>],
    ket_pairs: &[PrimPair<T>],
    tri: &[[usize; 3]],
    c_ef: &mut [T],
    big: &mut Vec<T>,
    eoff: &mut Vec<usize>,
    slab: &mut Vec<usize>,
    levels: &mut Vec<T>,
)
    requires
        table.valid(),
        lists_triples(tri@, 12),
        ne <= 12,
        nf <= 12,
        ne + nf > 0,
        old(c_ef)@.len() >= tetrahedron(ne + 1) * tetrahedron(nf + 1),
    ensures
        final(big)@.len() == grown(old(big)@.len() as int, slab_need(ne as int, nf as int)),
        final(levels)@.len() == grown(old(levels)@.len() as int, window_need(ne as int, nf as int)),
        contracted_to(
            bra_pairs@,
            ket_pairs@,
            tri@,
            ne + nf,
            old(c_ef)@,
            final(c_ef)@,
            tetrahedron(ne + 1),
            tetrahedron(nf + 1),
            bra_pairs@.len() as int,
            0,
        ),
{
    match (ne, nf) {
        (0, 1) => contract_class::<T, 0, 1>(table, bra_pairs, ket_pairs, tri, 12, c_ef),
        (1, 0) => contract_class::<T, 1, 0>(table, bra_pairs, ket_pairs, tri, 12, c_ef),
        (1, 1) => contract_class::<T, 1, 1>(table, bra_pairs, ket_pairs, tri, 12, c_ef),
        (0, 2) => contract_class::<T, 0, 2>(table, bra_pairs, ket_pairs, tri, 12, c_ef),
        (2, 0) => contract_class::<T, 2, 0>(table, bra_pairs, ket_pairs, tri, 12, c_ef),
        (1, 2) => contract_class::<T, 1, 2>(table, bra_pairs, ket_pairs, tri, 12, c_ef),
        (2, 1) => contract_class::<T, 2, 1>(table, bra_pairs, ket_pairs, tri, 12, c_ef),
        (2, 2) => contract_class::<T, 2, 2>(table, bra_pairs, ket_pairs, tri, 12, c_ef),
        (0, 3) => contract_class::<T, 0, 3>(table, bra_pairs, ket_pairs, tri, 12, c_ef),
        (3, 0) => contract_class::<T, 3, 0>(table, bra_pairs, ket_pairs, tri, 12, c_ef),
        (1, 3) => contract_class::<T, 1, 3>(table, bra_pairs, ket_pairs, tri, 12, c_ef),
        (3, 1) => contract_class::<T, 3, 1>(table, bra_pairs, ket_pairs, tri, 12, c_ef),
        (2, 3) => contract_class::<T, 2, 3>(table, bra_pairs, ket_pairs, tri, 12, c_ef),
        (3, 2) => contract_class::<T, 3, 2>(table, bra_pairs, ket_pairs, tri, 12, c_ef),
        (3, 3) => contract_class::<T, 3, 3>(table, bra_pairs, ket_pairs, tri, 12, c_ef),
        (0, 4) => contract_class_big::<T, 0, 4>(
            table,
            bra_pairs,
            ket_pairs,
            tri,
            12,
            c_ef,
            big,
        ),
        (0, 5) => contract_class_big::<T, 0, 5>(
            table,
            bra_pairs,
            ket_pairs,
            tri,
            12,
            c_ef,
            big,
        ),
        (0, 6) => contract_class_big::<T, 0, 6>(
            table,
            bra_pairs,
            ket_pairs,
            tri,
            12,
            c_ef,
            big,
        ),
        (1, 4) => contract_class_big::<T, 1, 4>(
            table,
            bra_pairs,
            ket_pairs,
            tri,
            12,
            c_ef,
            big,
        ),
        (1, 5) => contract_class_big::<T, 1, 5>(
            table,
            bra_pairs,
            ket_pairs,
            tri,
            12,
            c_ef,
            big,
        ),
        (1, 6) => contract_class_big::<T, 1, 6>(
            table,
            bra_pairs,
            ket_pairs,
            tri,
            12,
            c_ef,
            big,
        ),
        (2, 4) => contract_class_big::<T, 2, 4>(
            table,
            bra_pairs,
            ket_pairs,
            tri,
            12,
            c_ef,
            big,
        ),
        (2, 5) => contract_class_big::<T, 2, 5>(
            table,
            bra_pairs,
            ket_pairs,
            tri,
            12,
            c_ef,
            big,
        ),
        (2, 6) => contract_class_big::<T, 2, 6>(
            table,
            bra_pairs,
            ket_pairs,
            tri,
            12,
            c_ef,
            big,
        ),
        (3, 4) => contract_class_big::<T, 3, 4>(
            table,
            bra_pairs,
            ket_pairs,
            tri,
            12,
            c_ef,
            big,
        ),
        (3, 5) => contract_class_big::<T, 3, 5>(
            table,
            bra_pairs,
            ket_pairs,
            tri,
            12,
            c_ef,
            big,
        ),
        (3, 6) => contract_class_big::<T, 3, 6>(
            table,
            bra_pairs,
            ket_pairs,
            tri,
            12,
            c_ef,
            big,
        ),
        (4, 0) => contract_class_big::<T, 4, 0>(
            table,
            bra_pairs,
            ket_pairs,
            tri,
            12,
            c_ef,
            big,
        ),
        (4, 1) => contract_class_big::<T, 4, 1>(
            table,
            bra_pairs,
            ket_pairs,
            tri,
            12,
            c_ef,
            big,
        ),
        (4, 2) => contract_class_big::<T, 4, 2>(
            table,
            bra_pairs,
            ket_pairs,
            tri,
            12,
            c_ef,
            big,
        ),
        (4, 3) => contract_class_big::<T, 4, 3>(
            table,
            bra_pairs,
            ket_pairs,
            tri,
            12,
            c_ef,
            big,
        ),
        (4, 4) => contract_class_big::<T, 4, 4>(
            table,
            bra_pairs,
            ket_pairs,
            tri,
            12,
            c_ef,
            big,
        ),
        (4, 5) => contract_class_big::<T, 4, 5>(
            table,
            bra_pairs,
            ket_pairs,
            tri,
            12,
            c_ef,
            big,
        ),
        (4, 6) => contract_class_big::<T, 4, 6>(
            table,
            bra_pairs,
            ket_pairs,
            tri,
            12,
            c_ef,
            big,
        ),
        (5, 0) => contract_class_big::<T, 5, 0>(
            table,
            bra_pairs,
            ket_pairs,
            tri,
            12,
            c_ef,
            big,
        ),
        (5, 1) => contract_class_big::<T, 5, 1>(
            table,
            bra_pairs,
            ket_pairs,
            tri,
            12,
            c_ef,
            big,
        ),
        (5, 2) => contract_class_big::<T, 5, 2>(
            table,
            bra_pairs,
            ket_pairs,
            tri,
            12,
            c_ef,
            big,
        ),
        (5, 3) => contract_class_big::<T, 5, 3>(
            table,
            bra_pairs,
            ket_pairs,
            tri,
            12,
            c_ef,
            big,
        ),
        (5, 4) => contract_class_big::<T, 5, 4>(
            table,
            bra_pairs,
            ket_pairs,
            tri,
            12,
            c_ef,
            big,
        ),
        (5, 5) => contract_class_big::<T, 5, 5>(
            table,
            bra_pairs,
            ket_pairs,
            tri,
            12,
            c_ef,
            big,
        ),
        (5, 6) => contract_class_big::<T, 5, 6>(
            table,
            bra_pairs,
            ket_pairs,
            tri,
            12,
            c_ef,
            big,
        ),
        (6, 0) => contract_class_big::<T, 6, 0>(
            table,
            bra_pairs,
            ket_pairs,
            tri,
            12,
            c_ef,
            big,
        ),
        (6, 1) => contract_class_big::<T, 6, 1>(
            table,
            bra_pairs,
            ket_pairs,
            tri,
            12,
            c_ef,
            big,
        ),
        (6, 2) => contract_class_big::<T, 6, 2>(
            table,
            bra_pairs,
            ket_pairs,
            tri,
            12,
            c_ef,
            big,
        ),
        (6, 3) => contract_class_big::<T, 6, 3>(
            table,
            bra_pairs,
            ket_pairs,
            tri,
            12,
            c_ef,
            big,
        ),
        (6, 4) => contract_class_big::<T, 6, 4>(
            table,
            bra_pairs,
            ket_pairs,
            tri,
            12,
            c_ef,
            big,
        ),
        (6, 5) => contract_class_big::<T, 6, 5>(
            table,
            bra_pairs,
            ket_pairs,
            tri,
            12,
            c_ef,
            big,
        ),
        (6, 6) => contract_class_big::<T, 6, 6>(
            table,
            bra_pairs,
            ket_pairs,
            tri,
            12,
            c_ef,
            big,
        ),
        _ => {
            let maxlevel: usize = pack_levels(tri, 12, ne, nf, eoff, slab);
            ensure_len(levels, 3 * maxlevel);
            contract_window(
                table,
                bra_pairs,
                ket_pairs,
                tri,
                12,
                ne,
                nf,
                maxlevel,
                eoff,
                slab,
                levels,
                c_ef,
            );
        },
    }
}

/// The quartet kernel: add the contracted block `(ab|cd)` to `out`, from the
/// primitive pairs of the bra and the ket.
fn coulomb_shell_core<T: Real>(
    scratch: &mut EriScratch<T>,
    table: &BoysTable<T>,
    s: [ShellRef<T>; 4],
    bra_pairs: &[PrimPair<T>],
    ket_pairs: &[PrimPair<T>],
    out: &mut [T],
)
    requires
        old(scratch).valid(),
        table.valid(),
        forall|i: int| 0 <= i < 4 ==> (#[trigger] s[i]).l <= MAX_L,
        old(out)@.len() >= block_len(s@),
    ensures
        final(scratch).valid(),
        final(scratch).buffer_lengths() == lengths_after(
            old(scratch).buffer_lengths(),
            s[0].l as int,
            s[1].l as int,
            s[2].l as int,
            s[3].l as int,
        ),
        quartet_added(s@, bra_pairs@, ket_pairs@, old(out)@, final(out)@),
{
    let la: usize = s[0].l;
    let lb: usize = s[1].l;
    let lc: usize = s[2].l;
    let ld: usize = s[3].l;
    proof {
        assert(s[0].l <= MAX_L && s[1].l <= MAX_L && s[2].l <= MAX_L && s[3].l <= MAX_L);
        lemma_small_degree(la + lb);
        lemma_small_degree(lc + ld);
    }
    let ne: usize = la + lb;
    let nf: usize = lc + ld;
    if ne + nf == 0 {
        proof {
            lemma_ssss(s@, bra_pairs@, ket_pairs@);
        }
        let acc = contract_ssss(table, bra_pairs, ket_pairs);
        let ghost before = out@;
        assert(1 * 1 * 1 * 1 == 1) by (nonlinear_arith);
        out[0] = out[0].plus(acc);
        proof {
            assert forall|ia: int, ib: int, ic: int, id: int|
                0 <= ia < 1 && 0 <= ib < 1 && 0 <= ic < 1 && 0 <= id < 1 implies #[trigger] out@[quad(
                ia,
                1,
                ib,
                1,
                ic,
                1,
                id,
            )] == T::sum(
                before[quad(ia, 1, ib, 1, ic, 1, id)],
                quartet_value(s@, bra_pairs@, ket_pairs@, ia, ib, ic, id),
            ) by {
                assert(quad(0, 1, 0, 1, 0, 1, 0) == 0) by (nonlinear_arith);
            }
        }
        return ;
    }
    let n_e: usize = n_addr(ne);
    let n_f: usize = n_addr(nf);
    proof {
        assert(n_e * n_f <= 10_732_176) by (nonlinear_arith)
            requires
                0 <= n_e <= 3276,
                0 <= n_f <= 3276,
        ;
    }
    zero_prefix(&mut scratch.c_ef, n_e * n_f);
    let ghost zeros = scratch.c_ef@;
    contract_any(
        table,
        ne,
        nf,
        bra_pairs,
        ket_pairs,
        &scratch.tri,
        &mut scratch.c_ef,
        &mut scratch.big,
        &mut scratch.eoff,
        &mut scratch.slab,
        &mut scratch.levels,
    );
    let ab = crate::engine::pairs::sub(s[0].center, s[1].center);
    let cd = crate::engine::pairs::sub(s[2].center, s[3].center);
    let ghost before = out@;
    hrr_and_scatter(
        la,
        lb,
        lc,
        ld,
        &scratch.c_ef,
        ab,
        cd,
        out,
        &mut scratch.bra,
        &mut scratch.bra_prev,
        &mut scratch.bra_cur,
        &mut scratch.ket_prev,
        &mut scratch.ket_cur,
        &scratch.tri,
        12,
    );
    assert(scratch.buffer_lengths() =~= lengths_after(
        old(scratch).buffer_lengths(),
        la as int,
        lb as int,
        lc as int,
        ld as int,
    ));
    proof {
        lemma_quartet_from_table(
            s@,
            scratch.tri@,
            bra_pairs@,
            ket_pairs@,
            zeros,
            scratch.c_ef@,
            before,
            out@,
        );
    }
}

/// Add the contracted block `(ab|cd)` of four shells to `out`, of shape
/// `(na, nb, nc, nd)`, in fresh buffers.
pub fn coulomb_shell_into<T: Real>(
    table: &BoysTable<T>,
    a: ShellRef<T>,
    b: ShellRef<T>,
    c: ShellRef<T>,
    d: ShellRef<T>,
    out: &mut [T],
)
    requires
        table.valid(),
        a.l <= MAX_L,
        b.l <= MAX_L,
        c.l <= MAX_L,
        d.l <= MAX_L,
        old(out)@.len() >= block_len(seq![a, b, c, d]),
    ensures
        quartet_added(
            seq![a, b, c, d],
            shell_pairs(a.contraction(), b.contraction()),
            shell_pairs(c.contraction(), d.contraction()),
            old(out)@,
            final(out)@,
        ),
{
    let mut scratch = EriScratch::new();
    coulomb_shell_into_scratch(&mut scratch, table, a, b, c, d, out);
}

/// [`coulomb_shell_into`] with the primitive pairs given.
pub fn coulomb_shell_pairs_into<T: Real>(
    table: &BoysTable<T>,
    a: ShellRef<T>,
    b: ShellRef<T>,
    c: ShellRef<T>,
    d: ShellRef<T>,
    bra_pairs: &ShellPairData<T>,
    ket_pairs: &ShellPairData<T>,
    out: &mut [T],
)
    requires
        table.valid(),
        a.l <= MAX_L,
        b.l <= MAX_L,
        c.l <= MAX_L,
        d.l <= MAX_L,
        old(out)@.len() >= block_len(seq![a, b, c, d]),
    ensures
        quartet_added(
            seq![a, b, c, d],
            bra_pairs.pairs@,
            ket_pairs.pairs@,
            old(out)@,
            final(out)@,
        ),
{
    let mut scratch = EriScratch::new();
    coulomb_shell_pairs_into_scratch(&mut scratch, table, a, b, c, d, bra_pairs, ket_pairs, out);
}

/// [`coulomb_shell_into`] in buffers that the caller keeps.
pub fn coulomb_shell_into_scratch<T: Real>(
    scratch: &mut EriScratch<T>,
    table: &BoysTable<T>,
    a: ShellRef<T>,
    b: ShellRef<T>,
    c: ShellRef<T>,
    d: ShellRef<T>,
    out: &mut [T],
)
    requires
        old(scratch).valid(),
        table.valid(),
        a.l <= MAX_L,
        b.l <= MAX_L,
        c.l <= MAX_L,
        d.l <= MAX_L,
        old(out)@.len() >= block_len(seq![a, b, c, d]),
    ensures
        final(scratch).valid(),
        final(scratch).buffer_lengths() == lengths_after(
            old(scratch).buffer_lengths(),
            a.l as int,
            b.l as int,
            c.l as int,
            d.l as int,
        ),
        quartet_added(
            seq![a, b, c, d],
            shell_pairs(a.contraction(), b.contraction()),
            shell_pairs(c.contraction(), d.contraction()),
            old(out)@,
            final(out)@,
        ),
{
    let mut bra_pairs: Vec<PrimPair<T>> = Vec::new();
    let mut ket_pairs: Vec<PrimPair<T>> = Vec::new();
    std::mem::swap(&mut bra_pairs, &mut scratch.bra_pairs);
    std::mem::swap(&mut ket_pairs, &mut scratch.ket_pairs);
    build_pairs(&mut bra_pairs, a, b);
    build_pairs(&mut ket_pairs, c, d);
    let s = [a, b, c, d];
    assert(s@ =~= seq![a, b, c, d]);
    coulomb_shell_core(scratch, table, s, &bra_pairs, &ket_pairs, out);
    scratch.bra_pairs = bra_pairs;
    scratch.ket_pairs = ket_pairs;
}

/// [`coulomb_shell_into_scratch`] with the primitive pairs given.
pub fn coulomb_shell_pairs_into_scratch<T: Real>(
    scratch: &mut EriScratch<T>,
    table: &BoysTable<T>,
    a: ShellRef<T>,
    b: ShellRef<T>,
    c: ShellRef<T>,
    d: ShellRef<T>,
    bra_pairs: &ShellPairData<T>,
    ket_pairs: &ShellPairData<T>,
    out: &mut [T],
)
    requires
        old(scratch).valid(),
        table.valid(),
        a.l <= MAX_L,
        b.l <= MAX_L,
        c.l <= MAX_L,
        d.l <= MAX_L,
        old(out)@.len() >= block_len(seq![a, b, c, d]),
    ensures
        final(scratch).valid(),
        final(scratch).buffer_lengths() == lengths_after(
            old(scratch).buffer_lengths(),
            a.l as int,
            b.l as int,
            c.l as int,
            d.l as int,
        ),
        quartet_added(
            seq![a, b, c, d],
            bra_pairs.pairs@,
            ket_pairs.pairs@,
            old(out)@,
            final(out)@,
        ),
{
    let s = [a, b, c, d];
    assert(s@ =~= seq![a, b, c, d]);
    coulomb_shell_core(scratch, table, s, &bra_pairs.pairs, &ket_pairs.pairs, out);
}

/// Working buffers of the four-lane entries.
pub struct EriBatch4Scratch<T> {
    c_ef: Vec<Lanes<T>>,
    big4: Vec<Lanes<T>>,
    lane: Vec<T>,
    scalar: EriScratch<T>,
}

impl<T: Real> EriBatch4Scratch<T> {
    /// The buffers of the single-quartet kernel are in place.
    pub closed spec fn valid(&self) -> bool {
        self.scalar.valid()
    }

    /// Fresh buffers; they grow on first use.
    #[must_use]
    pub fn new() -> (s: Self)
        ensures
            s.valid(),
    {
        EriBatch4Scratch {
            c_ef: Vec::new(),
            big4: Vec::new(),
            lane: Vec::new(),
            scalar: EriScratch::new(),
        }
    }
}

/// The contraction of four quartets of the class `(ne, nf)` in lockstep, by the
/// kernel of the class.
fn contract_any4<T: Real>(
    table: &BoysTable<T>,
    ne: usize,
    nf: usize,
    bra: [&[PrimPair<T>]; 4],
    ket: [&[PrimPair<T>]; 4],
    tri: &[[usize; 3]],
    c_ef: &mut [Lanes<T>],
    big4: &mut Vec<Lanes<T>>,
)
    requires
        table.valid(),
        lists_triples(tri@, 12),
        ne <= 6,
        nf <= 6,
        ne + nf > 0,
        same_length(bra, bra[0]@.len() as int),
        same_length(ket, ket[0]@.len() as int),
        old(c_ef)@.len() >= tetrahedron(ne + 1) * tetrahedron(nf + 1),
    ensures
        final(c_ef)@.len() == old(c_ef)@.len(),
        lanes_contracted(
            bra,
            ket,
            tri@,
            ne + nf,
            old(c_ef)@,
            final(c_ef)@,
            tetrahedron(ne + 1),
            tetrahedron(nf + 1),
            bra[0]@.len() as int,
            0,
        ),
{
    match (ne, nf) {
        (0, 1) => contract_class4::<T, 0, 1>(table, bra, ket, tri, 12, c_ef),
        (1, 0) => contract_class4::<T, 1, 0>(table, bra, ket, tri, 12, c_ef),
        (1, 1) => contract_class4::<T, 1, 1>(table, bra, ket, tri, 12, c_ef),
        (0, 2) => contract_class4::<T, 0, 2>(table, bra, ket, tri, 12, c_ef),
        (2, 0) => contract_class4::<T, 2, 0>(table, bra, ket, tri, 12, c_ef),
        (1, 2) => contract_class4::<T, 1, 2>(table, bra, ket, tri, 12, c_ef),
        (2, 1) => contract_class4::<T, 2, 1>(table, bra, ket, tri, 12, c_ef),
        (2, 2) => contract_class4::<T, 2, 2>(table, bra, ket, tri, 12, c_ef),
        (0, 3) => contract_class4::<T, 0, 3>(table, bra, ket, tri, 12, c_ef),
        (3, 0) => contract_class4::<T, 3, 0>(table, bra, ket, tri, 12, c_ef),
        (1, 3) => contract_class4::<T, 1, 3>(table, bra, ket, tri, 12, c_ef),
        (3, 1) => contract_class4::<T, 3, 1>(table, bra, ket, tri, 12, c_ef),
        (2, 3) => contract_class4::<T, 2, 3>(table, bra, ket, tri, 12, c_ef),
        (3, 2) => contract_class4::<T, 3, 2>(table, bra, ket, tri, 12, c_ef),
        (3, 3) => contract_class4::<T, 3, 3>(table, bra, ket, tri, 12, c_ef),
        (0, 4) => contract_class_big4::<T, 0, 4>(table, bra, ket, tri, 12, c_ef, big4),
        (0, 5) => contract_class_big4::<T, 0, 5>(table, bra, ket, tri, 12, c_ef, big4),
        (0, 6) => contract_class_big4::<T, 0, 6>(table, bra, ket, tri, 12, c_ef, big4),
        (1, 4) => contract_class_big4::<T, 1, 4>(table, bra, ket, tri, 12, c_ef, big4),
        (1, 5) => contract_class_big4::<T, 1, 5>(table, bra, ket, tri, 12, c_ef, big4),
        (1, 6) => contract_class_big4::<T, 1, 6>(table, bra, ket, tri, 12, c_ef, big4),
        (2, 4) => contract_class_big4::<T, 2, 4>(table, bra, ket, tri, 12, c_ef, big4),
        (2, 5) => contract_class_big4::<T, 2, 5>(table, bra, ket, tri, 12, c_ef, big4),
        (2, 6) => contract_class_big4::<T, 2, 6>(table, bra, ket, tri, 12, c_ef, big4),
        (3, 4) => contract_class_big4::<T, 3, 4>(table, bra, ket, tri, 12, c_ef, big4),
        (3, 5) => contract_class_big4::<T, 3, 5>(table, bra, ket, tri, 12, c_ef, big4),
        (3, 6) => contract_class_big4::<T, 3, 6>(table, bra, ket, tri, 12, c_ef, big4),
        (4, 0) => contract_class_big4::<T, 4, 0>(table, bra, ket, tri, 12, c_ef, big4),
        (4, 1) => contract_class_big4::<T, 4, 1>(table, bra, ket, tri, 12, c_ef, big4),
        (4, 2) => contract_class_big4::<T, 4, 2>(table, bra, ket, tri, 12, c_ef, big4),
        (4, 3) => contract_class_big4::<T, 4, 3>(table, bra, ket, tri, 12, c_ef, big4),
        (4, 4) => contract_class_big4::<T, 4, 4>(table, bra, ket, tri, 12, c_ef, big4),
        (4, 5) => contract_class_big4::<T, 4, 5>(table, bra, ket, tri, 12, c_ef, big4),
        (4, 6) => contract_class_big4::<T, 4, 6>(table, bra, ket, tri, 12, c_ef, big4),
        (5, 0) => contract_class_big4::<T, 5, 0>(table, bra, ket, tri, 12, c_ef, big4),
        (5, 1) => contract_class_big4::<T, 5, 1>(table, bra, ket, tri, 12, c_ef, big4),
        (5, 2) => contract_class_big4::<T, 5, 2>(table, bra, ket, tri, 12, c_ef, big4),
        (5, 3) => contract_class_big4::<T, 5, 3>(table, bra, ket, tri, 12, c_ef, big4),
        (5, 4) => contract_class_big4::<T, 5, 4>(table, bra, ket, tri, 12, c_ef, big4),
        (5, 5) => contract_class_big4::<T, 5, 5>(table, bra, ket, tri, 12, c_ef, big4),
        (5, 6) => contract_class_big4::<T, 5, 6>(table, bra, ket, tri, 12, c_ef, big4),
        (6, 0) => contract_class_big4::<T, 6, 0>(table, bra, ket, tri, 12, c_ef, big4),
        (6, 1) => contract_class_big4::<T, 6, 1>(table, bra, ket, tri, 12, c_ef, big4),
        (6, 2) => contract_class_big4::<T, 6, 2>(table, bra, ket, tri, 12, c_ef, big4),
        (6, 3) => contract_class_big4::<T, 6, 3>(table, bra, ket, tri, 12, c_ef, big4),
        (6, 4) => contract_class_big4::<T, 6, 4>(table, bra, ket, tri, 12, c_ef, big4),
        (6, 5) => contract_class_big4::<T, 6, 5>(table, bra, ket, tri, 12, c_ef, big4),
        (6, 6) => contract_class_big4::<T, 6, 6>(table, bra, ket, tri, 12, c_ef, big4),
        _ => {
            assert(false);
        },
    }
}

/// Four shells as a sequence.
pub open spec fn lane_shells<T>(quartets: [[ShellRef<T>; 4]; 4], lane: int) -> Seq<ShellRef<T>> {
    quartets[lane]@
}

/// Whether four quartets can run in lockstep: one class, both momenta at most six,
/// and equal pair counts.
pub open spec fn lockstep<T: Real>(
    quartets: [[ShellRef<T>; 4]; 4],
    bra: [&[PrimPair<T>]; 4],
    ket: [&[PrimPair<T>]; 4],
) -> bool {
    let ne = quartets[0][0].l + quartets[0][1].l;
    let nf = quartets[0][2].l + quartets[0][3].l;
    &&& ne <= 6
    &&& nf <= 6
    &&& forall|lane: int|
        0 <= lane < 4 ==> (#[trigger] quartets[lane])[0].l + quartets[lane][1].l == ne
            && quartets[lane][2].l + quartets[lane][3].l == nf
    &&& same_length(bra, bra[0]@.len() as int)
    &&& same_length(ket, ket[0]@.len() as int)
}

/// Whether four quartets can run in lockstep.
fn can_lockstep<T: Real>(
    quartets: &[[ShellRef<T>; 4]; 4],
    bra: [&[PrimPair<T>]; 4],
    ket: [&[PrimPair<T>]; 4],
) -> (r: bool)
    requires
        forall|lane: int, i: int|
            0 <= lane < 4 && 0 <= i < 4 ==> (#[trigger] quartets[lane][i]).l <= MAX_L,
    ensures
        r == lockstep(*quartets, bra, ket),
{
    assert(quartets[0][0].l <= MAX_L && quartets[0][1].l <= MAX_L && quartets[0][2].l <= MAX_L
        && quartets[0][3].l <= MAX_L);
    let ne: usize = quartets[0][0].l + quartets[0][1].l;
    let nf: usize = quartets[0][2].l + quartets[0][3].l;
    let n_bra: usize = bra[0].len();
    let n_ket: usize = ket[0].len();
    let mut ok: bool = ne <= 6 && nf <= 6;
    let mut lane: usize = 0;
    while lane < 4
        invariant
            lane <= 4,
            forall|lane: int, i: int|
                0 <= lane < 4 && 0 <= i < 4 ==> (#[trigger] quartets[lane][i]).l <= MAX_L,
            ne == quartets[0][0].l + quartets[0][1].l,
            nf == quartets[0][2].l + quartets[0][3].l,
            n_bra == bra[0]@.len(),
            n_ket == ket[0]@.len(),
            ok == (ne <= 6 && nf <= 6 && (forall|k: int|
                0 <= k < lane ==> (#[trigger] quartets[k])[0].l + quartets[k][1].l == ne
                    && quartets[k][2].l + quartets[k][3].l == nf) && (forall|k: int|
                0 <= k < lane ==> (#[trigger] bra[k])@.len() == n_bra) && (forall|k: int|
                0 <= k < lane ==> (#[trigger] ket[k])@.len() == n_ket)),
        decreases 4 - lane,
    {
        let ghost g = lane as int;
        assert(quartets[g][0].l <= MAX_L && quartets[g][1].l <= MAX_L && quartets[g][2].l <= MAX_L
            && quartets[g][3].l <= MAX_L);
        let q = quartets[lane];
        let here = q[0].l + q[1].l == ne && q[2].l + q[3].l == nf && bra[lane].len() == n_bra
            && ket[lane].len() == n_ket;
        ok = ok && here;
        lane = lane + 1;
    }
    ok
}

/// Evaluate four shell quartets, in lockstep where they allow it and one by one
/// otherwise: to each of the four blocks, add its shell quartet. How they are
/// evaluated has no bearing on the values.
fn coulomb_shell_batch4_core<T: Real>(
    scratch: &mut EriBatch4Scratch<T>,
    table: &BoysTable<T>,
    quartets: &[[ShellRef<T>; 4]; 4],
    bra: [&[PrimPair<T>]; 4],
    ket: [&[PrimPair<T>]; 4],
    outs: &mut Vec<Vec<T>>,
)
    requires
        old(scratch).valid(),
        table.valid(),
        forall|lane: int, i: int|
            0 <= lane < 4 && 0 <= i < 4 ==> (#[trigger] quartets[lane][i]).l <= MAX_L,
        old(outs)@.len() == 4,
        forall|lane: int|
            0 <= lane < 4 ==> (#[trigger] old(outs)@[lane])@.len() >= block_len(
                lane_shells(*quartets, lane),
            ),
    ensures
        final(scratch).valid(),
        final(outs)@.len() == 4,
        forall|lane: int|
            0 <= lane < 4 ==> quartet_added(
                lane_shells(*quartets, lane),
                bra[lane]@,
                ket[lane]@,
                old(outs)@[lane]@,
                (#[trigger] final(outs)@[lane])@,
            ),
{
    if !can_lockstep(quartets, bra, ket) {
        let mut lane: usize = 0;
        while lane < 4
            invariant
                lane <= 4,
                scratch.valid(),
                table.valid(),
                forall|k: int, i: int|
                    0 <= k < 4 && 0 <= i < 4 ==> (#[trigger] quartets[k][i]).l <= MAX_L,
                outs@.len() == 4,
                forall|k: int|
                    lane <= k < 4 ==> (#[trigger] outs@[k]) == old(outs)@[k] && outs@[k]@.len()
                        >= block_len(lane_shells(*quartets, k)),
                forall|k: int|
                    0 <= k < lane ==> quartet_added(
                        lane_shells(*quartets, k),
                        bra[k]@,
                        ket[k]@,
                        old(outs)@[k]@,
                        (#[trigger] outs@[k])@,
                    ),
            decreases 4 - lane,
        {
            let s = quartets[lane];
            proof {
                assert forall|i: int| 0 <= i < 4 implies (#[trigger] s[i]).l <= MAX_L by {
                    assert(quartets[lane as int][i].l <= MAX_L);
                }
                assert(outs@[lane as int] == old(outs)@[lane as int]);
            }
            coulomb_shell_core(
                &mut scratch.scalar,
                table,
                s,
                bra[lane],
                ket[lane],
                &mut outs[lane],
            );
            lane = lane + 1;
        }
        return ;
    }
    assert(quartets[0][0].l <= MAX_L && quartets[0][1].l <= MAX_L && quartets[0][2].l <= MAX_L
        && quartets[0][3].l <= MAX_L);
    let ne: usize = quartets[0][0].l + quartets[0][1].l;
    let nf: usize = quartets[0][2].l + quartets[0][3].l;
    proof {
        lemma_small_degree(ne as int);
        lemma_small_degree(nf as int);
    }
    if ne + nf == 0 {
        let acc = contract_ssss4(table, bra, ket);
        let mut lane: usize = 0;
        while lane < 4
            invariant
                lane <= 4,
                scratch.valid(),
                lockstep(*quartets, bra, ket),
                quartets[0][0].l + quartets[0][1].l == 0,
                quartets[0][2].l + quartets[0][3].l == 0,
                outs@.len() == 4,
                forall|k: int|
                    0 <= k < 4 ==> #[trigger] acc.at(k) == contracted(
                        bra[k]@,
                        ket[k]@,
                        0,
                        (0, 0, 0),
                        (0, 0, 0),
                        T::count(0),
                        bra[0]@.len() as int,
                        0,
                    ),
                forall|k: int|
                    lane <= k < 4 ==> (#[trigger] outs@[k]) == old(outs)@[k] && outs@[k]@.len()
                        >= block_len(lane_shells(*quartets, k)),
                forall|k: int|
                    0 <= k < lane ==> quartet_added(
                        lane_shells(*quartets, k),
                        bra[k]@,
                        ket[k]@,
                        old(outs)@[k]@,
                        (#[trigger] outs@[k])@,
                    ),
            decreases 4 - lane,
        {
            let ghost g = lane as int;
            let ghost s = lane_shells(*quartets, g);
            proof {
                assert(quartets[g][0].l + quartets[g][1].l == 0);
                assert(bra[g]@.len() == bra[0]@.len());
                lemma_ssss(s, bra[g]@, ket[g]@);
                assert(outs@[g] == old(outs)@[g]);
                assert(1 * 1 * 1 * 1 == 1) by (nonlinear_arith);
                assert(acc.at(g) == quartet_value(s, bra[g]@, ket[g]@, 0, 0, 0, 0));
            }
            let ghost before = outs@[g]@;
            let v = acc.lane(lane);
            add_first(&mut outs[lane], v);
            proof {
                let new = outs@[g]@;
                assert forall|ia: int, ib: int, ic: int, id: int|
                    0 <= ia < 1 && 0 <= ib < 1 && 0 <= ic < 1 && 0 <= id
                        < 1 implies #[trigger] new[quad(ia, 1, ib, 1, ic, 1, id)] == T::sum(
                    before[quad(ia, 1, ib, 1, ic, 1, id)],
                    quartet_value(s, bra[g]@, ket[g]@, ia, ib, ic, id),
                ) by {
                    assert(quad(0, 1, 0, 1, 0, 1, 0) == 0) by (nonlinear_arith);
                }
                assert(quartet_added(s, bra[g]@, ket[g]@, before, new));
            }
            lane = lane + 1;
        }
        return ;
    }
    let n_e: usize = n_addr(ne);
    let n_f: usize = n_addr(nf);
    proof {
        assert(n_e * n_f <= 10_732_176) by (nonlinear_arith)
            requires
                0 <= n_e <= 3276,
                0 <= n_f <= 3276,
        ;
    }
    zero_prefix(&mut scratch.c_ef, n_e * n_f);
    let ghost zeros = scratch.c_ef@;
    contract_any4(
        table,
        ne,
        nf,
        bra,
        ket,
        &scratch.scalar.tri,
        &mut scratch.c_ef,
        &mut scratch.big4,
    );
    let mut lane: usize = 0;
    while lane < 4
        invariant
            lane <= 4,
            scratch.valid(),
            lockstep(*quartets, bra, ket),
            forall|k: int, i: int|
                0 <= k < 4 && 0 <= i < 4 ==> (#[trigger] quartets[k][i]).l <= MAX_L,
            quartets[0][0].l + quartets[0][1].l == ne,
            quartets[0][2].l + quartets[0][3].l == nf,
            n_e == tetrahedron(ne + 1),
            n_f == tetrahedron(nf + 1),
            n_e * n_f <= 10_732_176,
            zeros.len() >= n_e * n_f,
            scratch.c_ef@.len() == zeros.len(),
            forall|i: int|
                0 <= i < n_e * n_f ==> #[trigger] zeros[i] == <Lanes<T> as Scalar>::count(0),
            lanes_contracted(
                bra,
                ket,
                scratch.scalar.tri@,
                ne + nf,
                zeros,
                scratch.c_ef@,
                n_e as int,
                n_f as int,
                bra[0]@.len() as int,
                0,
            ),
            outs@.len() == 4,
            forall|k: int|
                lane <= k < 4 ==> (#[trigger] outs@[k]) == old(outs)@[k] && outs@[k]@.len()
                    >= block_len(lane_shells(*quartets, k)),
            forall|k: int|
                0 <= k < lane ==> quartet_added(
                    lane_shells(*quartets, k),
                    bra[k]@,
                    ket[k]@,
                    old(outs)@[k]@,
                    (#[trigger] outs@[k])@,
                ),
        decreases 4 - lane,
    {
        let s = quartets[lane];
        let ghost g = lane as int;
        let ghost tri = scratch.scalar.tri@;
        proof {
            assert forall|i: int| 0 <= i < 4 implies (#[trigger] s[i]).l <= MAX_L by {
                assert(quartets[g][i].l <= MAX_L);
            }
            assert(quartets[g][0].l + quartets[g][1].l == ne);
            assert(s[0].l <= MAX_L && s[1].l <= MAX_L && s[2].l <= MAX_L && s[3].l <= MAX_L);
            assert(bra[g]@.len() == bra[0]@.len());
            assert(outs@[g] == old(outs)@[g]);
        }
        copy_lane(&scratch.c_ef, lane, &mut scratch.lane);
        let ab = crate::engine::pairs::sub(s[0].center, s[1].center);
        let cd = crate::engine::pairs::sub(s[2].center, s[3].center);
        let ghost before = outs@[g]@;
        hrr_and_scatter(
            s[0].l,
            s[1].l,
            s[2].l,
            s[3].l,
            &scratch.lane,
            ab,
            cd,
            &mut outs[lane],
            &mut scratch.scalar.bra,
            &mut scratch.scalar.bra_prev,
            &mut scratch.scalar.bra_cur,
            &mut scratch.scalar.ket_prev,
            &mut scratch.scalar.ket_cur,
            &scratch.scalar.tri,
            12,
        );
        proof {
            let z = lane_row(zeros, g);
            assert(contracted_to(
                bra[g]@,
                ket[g]@,
                tri,
                ne + nf,
                z,
                lane_row(scratch.c_ef@, g),
                n_e as int,
                n_f as int,
                bra[0]@.len() as int,
                0,
            ));
            assert forall|i: int| 0 <= i < n_e * n_f implies #[trigger] z[i] == T::count(0) by {
                assert(zeros[i] == <Lanes<T> as Scalar>::count(0));
            }
            lemma_quartet_from_table(
                s@,
                tri,
                bra[g]@,
                ket[g]@,
                z,
                scratch.lane@,
                before,
                outs@[g]@,
            );
        }
        lane = lane + 1;
    }
}

/// Add `v` to the first entry.
fn add_first<T: Scalar>(out: &mut Vec<T>, v: T)
    requires
        old(out)@.len() >= 1,
    ensures
        final(out)@ == old(out)@.update(0, T::sum(old(out)@[0], v)),
{
    out[0] = out[0].plus(v);
}

/// Copy one lane.
fn copy_lane<T: Scalar>(from: &[Lanes<T>], lane: usize, to: &mut Vec<T>)
    requires
        lane < 4,
    ensures
        final(to)@ == lane_row(from@, lane as int),
{
    to.clear();
    let mut i: usize = 0;
    while i < from.len()
        invariant
            i <= from@.len(),
            lane < 4,
            to@.len() == i,
            forall|k: int| 0 <= k < i ==> #[trigger] to@[k] == from@[k].at(lane as int),
        decreases from@.len() - i,
    {
        to.push(from[i].lane(lane));
        i = i + 1;
    }
    assert(to@ =~= lane_row(from@, lane as int));
}

/// Evaluate four shell quartets at once: to each of the four blocks in `outs`, add
/// its shell quartet. Each block is what [`coulomb_shell_into`] makes of it.
pub fn coulomb_shell_batch4_into_scratch<T: Real>(
    scratch: &mut EriBatch4Scratch<T>,
    table: &BoysTable<T>,
    quartets: &[[ShellRef<T>; 4]; 4],
    outs: &mut Vec<Vec<T>>,
)
    requires
        old(scratch).valid(),
        table.valid(),
        forall|lane: int, i: int|
            0 <= lane < 4 && 0 <= i < 4 ==> (#[trigger] quartets[lane][i]).l <= MAX_L,
        old(outs)@.len() == 4,
        forall|lane: int|
            0 <= lane < 4 ==> (#[trigger] old(outs)@[lane])@.len() >= block_len(
                lane_shells(*quartets, lane),
            ),
    ensures
        final(scratch).valid(),
        final(outs)@.len() == 4,
        forall|lane: int|
            0 <= lane < 4 ==> quartet_added(
                lane_shells(*quartets, lane),
                shell_pairs(quartets[lane][0].contraction(), quartets[lane][1].contraction()),
                shell_pairs(quartets[lane][2].contraction(), quartets[lane][3].contraction()),
                old(outs)@[lane]@,
                (#[trigger] final(outs)@[lane])@,
            ),
{
    let b0 = shell_pair_data(quartets[0][0], quartets[0][1]);
    let b1 = shell_pair_data(quartets[1][0], quartets[1][1]);
    let b2 = shell_pair_data(quartets[2][0], quartets[2][1]);
    let b3 = shell_pair_data(quartets[3][0], quartets[3][1]);
    let k0 = shell_pair_data(quartets[0][2], quartets[0][3]);
    let k1 = shell_pair_data(quartets[1][2], quartets[1][3]);
    let k2 = shell_pair_data(quartets[2][2], quartets[2][3]);
    let k3 = shell_pair_data(quartets[3][2], quartets[3][3]);
    let ghost was = outs@;
    coulomb_shell_batch4_pairs_into_scratch(
        scratch,
        table,
        quartets,
        [&b0, &b1, &b2, &b3],
        [&k0, &k1, &k2, &k3],
        outs,
    );
    proof {
        assert forall|lane: int| 0 <= lane < 4 implies quartet_added(
            lane_shells(*quartets, lane),
            shell_pairs(quartets[lane][0].contraction(), quartets[lane][1].contraction()),
            shell_pairs(quartets[lane][2].contraction(), quartets[lane][3].contraction()),
            was[lane]@,
            (#[trigger] outs@[lane])@,
        ) by {
            assert(lane == 0 || lane == 1 || lane == 2 || lane == 3);
        }
    }
}

/// [`coulomb_shell_batch4_into_scratch`] with the primitive pairs given.
pub fn coulomb_shell_batch4_pairs_into_scratch<T: Real>(
    scratch: &mut EriBatch4Scratch<T>,
    table: &BoysTable<T>,
    quartets: &[[ShellRef<T>; 4]; 4],
    bra_pairs: [&ShellPairData<T>; 4],
    ket_pairs: [&ShellPairData<T>; 4],
    outs: &mut Vec<Vec<T>>,
)
    requires
        old(scratch).valid(),
        table.valid(),
        forall|lane: int, i: int|
            0 <= lane < 4 && 0 <= i < 4 ==> (#[trigger] quartets[lane][i]).l <= MAX_L,
        old(outs)@.len() == 4,
        forall|lane: int|
            0 <= lane < 4 ==> (#[trigger] old(outs)@[lane])@.len() >= block_len(
                lane_shells(*quartets, lane),
            ),
    ensures
        final(scratch).valid(),
        final(outs)@.len() == 4,
        forall|lane: int|
            0 <= lane < 4 ==> quartet_added(
                lane_shells(*quartets, lane),
                bra_pairs[lane].pairs@,
                ket_pairs[lane].pairs@,
                old(outs)@[lane]@,
                (#[trigger] final(outs)@[lane])@,
            ),
{
    let bra: [&[PrimPair<T>]; 4] = [
        bra_pairs[0].pairs.as_slice(),
        bra_pairs[1].pairs.as_slice(),
        bra_pairs[2].pairs.as_slice(),
        bra_pairs[3].pairs.as_slice(),
    ];
    let ket: [&[PrimPair<T>]; 4] = [
        ket_pairs[0].pairs.as_slice(),
        ket_pairs[1].pairs.as_slice(),
        ket_pairs[2].pairs.as_slice(),
        ket_pairs[3].pairs.as_slice(),
    ];
    let ghost was = outs@;
    coulomb_shell_batch4_core(scratch, table, quartets, bra, ket, outs);
    proof {
        assert forall|lane: int| 0 <= lane < 4 implies quartet_added(
            lane_shells(*quartets, lane),
            bra_pairs[lane].pairs@,
            ket_pairs[lane].pairs@,
            was[lane]@,
            (#[trigger] outs@[lane])@,
        ) by {
            assert(lane == 0 || lane == 1 || lane == 2 || lane == 3);
        }
    }
}

/// Without primitive pairs nothing is contracted.
proof fn lemma_nothing_contracted<T: Real>(
    bras: Seq<PrimPair<T>>,
    kets: Seq<PrimPair<T>>,
    lt: int,
    e: Powers,
    f: Powers,
    start: T,
    ib: int,
)
    requires
        bras.len() == 0 || kets.len() == 0,
        0 <= ib <= bras.len(),
    ensures
        contracted(bras, kets, lt, e, f, start, ib, 0) == start,
    decreases ib,
{
    if ib > 0 {
        lemma_nothing_contracted(bras, kets, lt, e, f, start, ib - 1);
    }
}

/// What is transferred from zeros is zero.
proof fn lemma_nothing_transferred<T: Scalar>(
    base: Seq<T>,
    shift: Vec3<T>,
    l: int,
    a: Powers,
    b: Powers,
)
    requires
        keeps_zero::<T>(),
        base.len() == tetrahedron(l + 1),
        forall|i: int| 0 <= i < base.len() ==> #[trigger] base[i] == T::count(0),
        is_triple(a, l),
        is_triple(b, l),
        degree(a) + degree(b) <= l,
    ensures
        transferred(base, shift, a, b) == T::count(0),
    decreases degree(b),
{
    if degree(b) <= 0 {
        law_addresses_are_distinct(a, a, l);
    } else {
        let i = first_axis(b);
        let b1 = shifted(b, i, -1);
        lemma_nothing_transferred(base, shift, l, shifted(a, i, 1), b1);
        lemma_nothing_transferred(base, shift, l, a, b1);
    }
}

/// A quartet without primitive pairs of its bra or its ket has no integrals.
pub proof fn law_no_pairs_no_integrals<T: Real>(
    s: Seq<ShellRef<T>>,
    bras: Seq<PrimPair<T>>,
    kets: Seq<PrimPair<T>>,
    ia: int,
    ib: int,
    ic: int,
    id: int,
)
    requires
        keeps_zero::<T>(),
        bras.len() == 0 || kets.len() == 0,
        0 <= ia < cart_count(s[0].l as int),
        0 <= ib < cart_count(s[1].l as int),
        0 <= ic < cart_count(s[2].l as int),
        0 <= id < cart_count(s[3].l as int),
    ensures
        quartet_value(s, bras, kets, ia, ib, ic, id) == T::count(0),
{
    let (ne, nf) = (s[0].l + s[1].l, s[2].l + s[3].l);
    let (ab, cd) = (
        difference(s[0].center, s[1].center),
        difference(s[2].center, s[3].center),
    );
    let (a, b) = (component_at(s[0].l as int, ia), component_at(s[1].l as int, ib));
    let (c, d) = (component_at(s[2].l as int, ic), component_at(s[3].l as int, id));
    law_every_position_is_taken(s[0].l as int, ia);
    law_every_position_is_taken(s[1].l as int, ib);
    law_every_position_is_taken(s[2].l as int, ic);
    law_every_position_is_taken(s[3].l as int, id);
    lemma_tetrahedron_grows(0, ne + 1);
    lemma_tetrahedron_grows(0, nf + 1);
    let done = bra_transferred(bras, kets, ne, nf, ab, a, b);
    assert forall|f: int| 0 <= f < done.len() implies #[trigger] done[f] == T::count(0) by {
        let col = contracted_column(bras, kets, ne, nf, f);
        assert forall|e: int| 0 <= e < col.len() implies #[trigger] col[e] == T::count(0) by {
            lemma_nothing_contracted(
                bras,
                kets,
                ne + nf,
                triple_at(ne, e),
                triple_at(nf, f),
                T::count(0),
                bras.len() as int,
            );
        }
        lemma_nothing_transferred(col, ab, ne, a, b);
    }
    lemma_nothing_transferred(done, cd, nf, c, d);
}

/// A quartet adds to any block what it leaves in one of zeros.
pub proof fn law_quartets_accumulate<T: Real>(
    s: Seq<ShellRef<T>>,
    bras: Seq<PrimPair<T>>,
    kets: Seq<PrimPair<T>>,
    old: Seq<T>,
    new: Seq<T>,
    zeros: Seq<T>,
    alone: Seq<T>,
    x: int,
)
    requires
        forall|a: T| #[trigger] T::sum(T::count(0), a) == a,
        quartet_added(s, bras, kets, old, new),
        quartet_added(s, bras, kets, zeros, alone),
        block_len(s) <= old.len(),
        block_len(s) <= zeros.len(),
        forall|i: int| 0 <= i < zeros.len() ==> #[trigger] zeros[i] == T::count(0),
        0 <= x < block_len(s),
    ensures
        new[x] == T::sum(old[x], alone[x]),
{
    let (na, nb) = (cart_count(s[0].l as int), cart_count(s[1].l as int));
    let (nc, nd) = (cart_count(s[2].l as int), cart_count(s[3].l as int));
    lemma_index_parts(x, na * nb * nc, nd);
    let r = x / nd;
    lemma_index_parts(r, na * nb, nc);
    lemma_index_parts(r / nc, na, nb);
    let (ia, ib, ic, id) = (r / nc / nb, r / nc % nb, r % nc, x % nd);
    assert(quad(ia, nb, ib, nc, ic, nd, id) == x);
    let v = quartet_value(s, bras, kets, ia, ib, ic, id);
    assert(new[quad(ia, nb, ib, nc, ic, nd, id)] == T::sum(old[x], v));
    assert(alone[quad(ia, nb, ib, nc, ic, nd, id)] == T::sum(zeros[x], v));
}

} // verus!
