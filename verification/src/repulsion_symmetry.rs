//! The repulsion of two pairs of shells does not depend on which of them is the bra.
use vstd::prelude::*;

use crate::engine::invariance::lemma_opposite;
use crate::engine::os_eri::MAX_L;
use crate::engine::pairs::{
    coulomb_constant, difference, header_of, input_of, ladder_of, shell_pairs, square,
    weighted_center, PrimPair, Vec3,
};
use crate::engine::tower_contracted::{
    lemma_contracted_sum, primitive_value, quartet_sum, Components,
};
use crate::engine::tower_mirror::{exchanged, lemma_space_mirrored, mirrored};
use crate::engine::tower_space::{is_whole, quartet_base, quartet_steps};
use crate::exact::{
    counts_exactly, is_ring, lemma_ring_commute, lemma_ring_factors, lemma_ring_sums,
    lemma_same_sum, sum_before,
};
use crate::grad::repulsion::{are_components, repulsion};
use crate::math::am::degree;
use crate::quartet::Four;
use crate::scalar::{Real, Scalar};
use crate::transposition::lemma_sums_exchanged;

verus! {

/// The square of a difference does not depend on its direction.
proof fn lemma_square<T: Scalar>(a: Vec3<T>, b: Vec3<T>)
    requires
        is_ring::<T>(),
    ensures
        square(difference(a, b)) == square(difference(b, a)),
{
    let one = T::count(1);
    assert forall|k: int| 0 <= k < 3 implies T::prod(
        T::diff(#[trigger] a[k], b[k]),
        T::diff(a[k], b[k]),
    ) == T::prod(T::diff(b[k], a[k]), T::diff(b[k], a[k])) by {
        let (d, e) = (T::diff(a[k], b[k]), T::diff(b[k], a[k]));
        lemma_opposite(a[k], b[k], one);
        lemma_ring_sums(d, d, d);
        lemma_ring_sums(e, e, e);
    }
    assert(a[0] == a[0] && a[1] == a[1] && a[2] == a[2]);
}

/// The scalars of two pairs with bra and ket exchanged.
proof fn lemma_header_exchanged<T: Real>(bra: PrimPair<T>, ket: PrimPair<T>)
    requires
        is_ring::<T>(),
    ensures
        ({
            let (h, g) = (header_of(bra, ket), header_of(ket, bra));
            &&& g.wp == h.wq && g.wq == h.wp
            &&& g.pref == h.pref
            &&& g.inv_2pq == h.inv_2pq
            &&& g.q_over_pq == h.p_over_pq && g.p_over_pq == h.q_over_pq
            &&& g.scale == h.scale
            &&& g.t == h.t
        }),
{
    let (p, q) = (bra.zeta, ket.zeta);
    let pq = T::sum(p, q);
    let (u, v) = (bra.center, ket.center);
    lemma_ring_sums(p, q, q);
    lemma_ring_commute(p, q);
    lemma_ring_sums(T::prod(p, u[0]), T::prod(q, v[0]), p);
    lemma_ring_sums(T::prod(p, u[1]), T::prod(q, v[1]), p);
    lemma_ring_sums(T::prod(p, u[2]), T::prod(q, v[2]), p);
    assert(weighted_center(p, u, q, v, pq) == weighted_center(q, v, p, u, pq));
    lemma_square(u, v);
    let c = T::quot(coulomb_constant::<T>(), T::prod(T::prod(p, q), T::root(pq)));
    lemma_ring_factors(c, bra.kappa, ket.kappa);
    lemma_ring_factors(c, ket.kappa, bra.kappa);
    lemma_ring_commute(bra.kappa, ket.kappa);
    let (cb, ck) = (T::prod(bra.c1, bra.c2), T::prod(ket.c1, ket.c2));
    lemma_ring_factors(cb, ket.c1, ket.c2);
    lemma_ring_factors(ck, bra.c1, bra.c2);
    lemma_ring_commute(cb, ck);
}

/// The integral of a primitive quartet with bra and ket exchanged.
proof fn lemma_primitive_exchanged<T: Real>(
    bra: PrimPair<T>,
    ket: PrimPair<T>,
    lt: int,
    ab: Vec3<T>,
    cd: Vec3<T>,
    n: Components,
)
    requires
        is_ring::<T>(),
        counts_exactly::<T>(),
        is_whole(n.0) && is_whole(n.1) && is_whole(n.2) && is_whole(n.3),
        degree(n.0) + degree(n.1) < 0xfff,
        degree(n.2) + degree(n.3) < 0xfff,
    ensures
        primitive_value(bra, ket, lt, ab, cd, n) == primitive_value(
            ket,
            bra,
            lt,
            cd,
            ab,
            exchanged(n),
        ),
{
    lemma_header_exchanged(bra, ket);
    let (x, y) = (input_of(bra, ket), input_of(ket, bra));
    let (s, t) = (quartet_steps(x, ab, cd), quartet_steps(y, cd, ab));
    assert(ladder_of(bra, ket, lt) =~= ladder_of(ket, bra, lt));
    assert(quartet_base(x, ladder_of(bra, ket, lt)) =~= quartet_base(
        y,
        ladder_of(ket, bra, lt),
    ));
    assert(t(0) == mirrored(s(0)) && t(1) == mirrored(s(1)) && t(2) == mirrored(s(2)));
    lemma_space_mirrored(s, t, quartet_base(x, ladder_of(bra, ket, lt)), n);
}

/// What the ket pairs before `ik` contribute with bra pair `i`.
spec fn row<T: Real>(
    bras: Seq<PrimPair<T>>,
    kets: Seq<PrimPair<T>>,
    g: spec_fn(int, int) -> T,
    i: int,
    ik: int,
) -> T {
    sum_before(|j: int| T::prod(input_of(bras[i], kets[j]).hdr.scale, g(i, j)), ik)
}

/// A sum over primitive quartets, row by row.
proof fn lemma_rows<T: Real>(
    bras: Seq<PrimPair<T>>,
    kets: Seq<PrimPair<T>>,
    g: spec_fn(int, int) -> T,
    ib: int,
    ik: int,
)
    requires
        is_ring::<T>(),
        0 <= ib,
        0 <= ik,
    ensures
        quartet_sum(bras, kets, g, ib, ik) == T::sum(
            sum_before(|i: int| row(bras, kets, g, i, kets.len() as int), ib),
            row(bras, kets, g, ib, ik),
        ),
    decreases ib, ik,
{
    let f = |i: int| row(bras, kets, g, i, kets.len() as int);
    let s = sum_before(f, ib);
    if ik > 0 {
        lemma_rows(bras, kets, g, ib, ik - 1);
        let v = T::prod(input_of(bras[ib], kets[ik - 1]).hdr.scale, g(ib, ik - 1));
        lemma_ring_sums(s, row(bras, kets, g, ib, ik - 1), v);
    } else if ib > 0 {
        lemma_rows(bras, kets, g, ib - 1, kets.len() as int);
        lemma_ring_sums(s, s, s);
    } else {
        lemma_ring_sums(T::count(0), T::count(0), T::count(0));
    }
}

/// The sum over primitive quartets with bra and ket exchanged.
proof fn lemma_quartets_exchanged<T: Real>(
    bras: Seq<PrimPair<T>>,
    kets: Seq<PrimPair<T>>,
    g: spec_fn(int, int) -> T,
    h: spec_fn(int, int) -> T,
)
    requires
        is_ring::<T>(),
        forall|i: int, j: int|
            #![trigger g(i, j)]
            0 <= i < bras.len() && 0 <= j < kets.len() ==> g(i, j) == h(j, i),
    ensures
        quartet_sum(bras, kets, g, bras.len() as int, 0) == quartet_sum(
            kets,
            bras,
            h,
            kets.len() as int,
            0,
        ),
{
    let (nb, nk) = (bras.len() as int, kets.len() as int);
    lemma_rows(bras, kets, g, nb, 0);
    lemma_rows(kets, bras, h, nk, 0);
    let f = |i: int, j: int| T::prod(input_of(bras[i], kets[j]).hdr.scale, g(i, j));
    let by_bra = |i: int| row(bras, kets, g, i, nk);
    let by_ket = |j: int| row(kets, bras, h, j, nb);
    let a = |i: int| sum_before(|j: int| f(i, j), nk);
    let b = |j: int| sum_before(|i: int| f(i, j), nb);
    assert forall|i: int| 0 <= i < nb implies #[trigger] by_bra(i) == a(i) by {
        lemma_same_sum(
            |j: int| f(i, j),
            |j: int| T::prod(input_of(bras[i], kets[j]).hdr.scale, g(i, j)),
            nk,
        );
    }
    assert forall|j: int| 0 <= j < nk implies #[trigger] by_ket(j) == b(j) by {
        let p = |i: int| f(i, j);
        let q = |i: int| T::prod(input_of(kets[j], bras[i]).hdr.scale, h(j, i));
        assert forall|i: int| 0 <= i < nb implies #[trigger] q(i) == p(i) by {
            lemma_header_exchanged(bras[i], kets[j]);
            assert(g(i, j) == h(j, i));
        }
        lemma_same_sum(p, q, nb);
    }
    lemma_same_sum(a, by_bra, nb);
    lemma_same_sum(b, by_ket, nk);
    lemma_sums_exchanged(f, a, b, nb, nk);
    let (s, t) = (sum_before(by_bra, nb), sum_before(by_ket, nk));
    lemma_ring_sums(s, s, s);
    lemma_ring_sums(t, t, t);
}

/// Four shells with bra and ket exchanged.
pub open spec fn turned<T>(q: Four<T>) -> Four<T> {
    (q.2, q.3, q.0, q.1)
}

/// The integral of four shells by the recurrences does not change when bra and ket are
/// exchanged, in any commutative ring in which counts add up.
pub proof fn law_bra_and_ket_exchange<T: Real>(q: Four<T>, n: Components)
    requires
        is_ring::<T>(),
        counts_exactly::<T>(),
        0 <= q.0.0 <= MAX_L && 0 <= q.1.0 <= MAX_L && 0 <= q.2.0 <= MAX_L && 0 <= q.3.0 <= MAX_L,
        are_components((q.0.0, q.1.0, q.2.0, q.3.0), n),
    ensures
        repulsion(q, n) == repulsion(turned(q), exchanged(n)),
{
    let (bras, kets) = (shell_pairs(q.0.1, q.1.1), shell_pairs(q.2.1, q.3.1));
    let (ab, cd) = (difference(q.0.1.0, q.1.1.0), difference(q.2.1.0, q.3.1.0));
    let (ne, nf) = (q.0.0 + q.1.0, q.2.0 + q.3.0);
    let lt = ne + nf;
    lemma_contracted_sum(bras, kets, ne, nf, ab, cd, n);
    lemma_contracted_sum(kets, bras, nf, ne, cd, ab, exchanged(n));
    let g = |i: int, j: int| primitive_value(bras[i], kets[j], lt, ab, cd, n);
    let h = |i: int, j: int| primitive_value(kets[i], bras[j], lt, cd, ab, exchanged(n));
    assert forall|i: int, j: int|
        #![trigger g(i, j)]
        0 <= i < bras.len() && 0 <= j < kets.len() implies g(i, j) == h(j, i) by {
        lemma_primitive_exchanged(bras[i], kets[j], lt, ab, cd, n);
    }
    lemma_quartets_exchanged(bras, kets, g, h);
}

} // verus!
