//! Contracted repulsion integrals as sums of towers over the primitive quartets.
use vstd::prelude::*;

use crate::engine::contract::contracted;
use crate::engine::hrr::transferred;
use crate::engine::invariance::lemma_interchange;
use crate::engine::os_eri::{bra_transferred, contracted_column, eri_value};
use crate::engine::pairs::{input_of, ladder_of, PrimPair, Vec3};
use crate::engine::tower_space::{
    lemma_bra_space, lemma_element, lemma_ket_space, origin, quartet_base, quartet_steps, space,
};
use crate::engine::triples::{
    address, first_axis, is_triple, law_addresses_are_distinct, law_every_address_is_taken,
    shifted, tetrahedron, triple_at,
};
use crate::engine::vrr::element;
use crate::exact::{is_ring, lemma_ring_factors, lemma_ring_sums};
use crate::grid_attraction::lemma_transferred_linear;
use crate::math::am::{degree, Powers};
use crate::scalar::{Real, Scalar};

verus! {

/// The components of a quartet.
pub type Components = (Powers, Powers, Powers, Powers);

/// The integral of a primitive quartet, its coefficients left out, from a ladder up to
/// order `lt`.
pub open spec fn primitive_value<T: Real>(
    bra: PrimPair<T>,
    ket: PrimPair<T>,
    lt: int,
    ab: Vec3<T>,
    cd: Vec3<T>,
    n: Components,
) -> T {
    let x = input_of(bra, ket);
    space(
        quartet_steps(x, ab, cd),
        quartet_base(x, ladder_of(bra, ket, lt)),
        n.0,
        n.1,
        n.2,
        n.3,
    )(0)
}

/// The sum of `g` over the primitive quartets before `(ib, ik)`, each times the product
/// of its coefficients.
pub open spec fn quartet_sum<T: Real>(
    bras: Seq<PrimPair<T>>,
    kets: Seq<PrimPair<T>>,
    g: spec_fn(int, int) -> T,
    ib: int,
    ik: int,
) -> T
    decreases ib, ik,
{
    if ik > 0 {
        T::sum(
            quartet_sum(bras, kets, g, ib, ik - 1),
            T::prod(input_of(bras[ib], kets[ik - 1]).hdr.scale, g(ib, ik - 1)),
        )
    } else if ib > 0 {
        quartet_sum(bras, kets, g, ib - 1, kets.len() as int)
    } else {
        T::count(0)
    }
}

/// The elements of a primitive quartet for every bra address.
spec fn primitive_column<T: Real>(
    bra: PrimPair<T>,
    ket: PrimPair<T>,
    ne: int,
    nf: int,
    f: int,
) -> Seq<T> {
    Seq::new(
        tetrahedron(ne + 1) as nat,
        |e: int|
            element(
                input_of(bra, ket),
                ladder_of(bra, ket, ne + nf),
                triple_at(ne, e),
                triple_at(nf, f),
                0,
            ),
    )
}

/// The elements of the quartets before `(ib, ik)` for every bra address.
spec fn partial_column<T: Real>(
    bras: Seq<PrimPair<T>>,
    kets: Seq<PrimPair<T>>,
    ne: int,
    nf: int,
    f: int,
    ib: int,
    ik: int,
) -> Seq<T> {
    Seq::new(
        tetrahedron(ne + 1) as nat,
        |e: int|
            contracted(
                bras,
                kets,
                ne + nf,
                triple_at(ne, e),
                triple_at(nf, f),
                T::count(0),
                ib,
                ik,
            ),
    )
}

/// The bra transferred, for every ket address.
spec fn partial_row<T: Real>(
    bras: Seq<PrimPair<T>>,
    kets: Seq<PrimPair<T>>,
    ne: int,
    nf: int,
    ab: Vec3<T>,
    a: Powers,
    b: Powers,
    ib: int,
    ik: int,
) -> Seq<T> {
    Seq::new(
        tetrahedron(nf + 1) as nat,
        |f: int| transferred(partial_column(bras, kets, ne, nf, f, ib, ik), ab, a, b),
    )
}

/// Zeros stay zeros when transferred.
proof fn lemma_transferred_zero<T: Scalar>(u: Seq<T>, ab: Vec3<T>, a: Powers, b: Powers, lt: int)
    requires
        is_ring::<T>(),
        is_triple(a, lt),
        is_triple(b, lt),
        degree(a) + degree(b) <= lt,
        forall|e: int| 0 <= e < tetrahedron(lt + 1) ==> #[trigger] u[e] == T::count(0),
    ensures
        transferred(u, ab, a, b) == T::count(0),
    decreases degree(b),
{
    if degree(b) <= 0 {
        law_addresses_are_distinct(a, a, lt);
    } else {
        let i = first_axis(b);
        let low = shifted(b, i, -1);
        lemma_transferred_zero(u, ab, shifted(a, i, 1), low, lt);
        lemma_transferred_zero(u, ab, a, low, lt);
        lemma_ring_sums(ab[i], T::count(0), T::count(0));
        lemma_ring_sums(T::count(0), T::count(0), T::count(0));
    }
}

/// A primitive quartet, transferred on both sides.
proof fn lemma_primitive<T: Real>(
    bra: PrimPair<T>,
    ket: PrimPair<T>,
    ne: int,
    nf: int,
    ab: Vec3<T>,
    cd: Vec3<T>,
    n: Components,
)
    requires
        is_ring::<T>(),
        is_triple(n.0, ne),
        is_triple(n.1, ne),
        degree(n.0) + degree(n.1) <= ne,
        is_triple(n.2, nf),
        is_triple(n.3, nf),
        degree(n.2) + degree(n.3) <= nf,
    ensures
        ({
            let row = Seq::new(
                tetrahedron(nf + 1) as nat,
                |f: int| transferred(primitive_column(bra, ket, ne, nf, f), ab, n.0, n.1),
            );
            transferred(row, cd, n.2, n.3) == primitive_value(bra, ket, ne + nf, ab, cd, n)
        }),
{
    let x = input_of(bra, ket);
    let fm = ladder_of(bra, ket, ne + nf);
    let s = quartet_steps(x, ab, cd);
    let u = quartet_base(x, fm);
    let row = Seq::new(
        tetrahedron(nf + 1) as nat,
        |f: int| transferred(primitive_column(bra, ket, ne, nf, f), ab, n.0, n.1),
    );
    assert forall|f: Powers| is_triple(f, nf) implies row[#[trigger] address(f)] == space(
        s,
        u,
        n.0,
        n.1,
        f,
        origin(),
    )(0) by {
        let at = address(f);
        law_addresses_are_distinct(f, f, nf);
        law_every_address_is_taken(nf, at);
        law_addresses_are_distinct(triple_at(nf, at), f, nf);
        let col = primitive_column(bra, ket, ne, nf, at);
        assert forall|e: Powers| is_triple(e, ne) implies col[#[trigger] address(e)] == space(
            s,
            u,
            e,
            origin(),
            f,
            origin(),
        )(0) by {
            let i = address(e);
            law_addresses_are_distinct(e, e, ne);
            law_every_address_is_taken(ne, i);
            law_addresses_are_distinct(triple_at(ne, i), e, ne);
            lemma_element(x, fm, ab, cd, e, f, 0);
        }
        lemma_bra_space(s, u, col, ab, ne, n.0, n.1, f);
    }
    lemma_ket_space(s, u, row, cd, nf, n.0, n.1, n.2, n.3);
}

/// The integral of a contracted quartet, over the primitive quartets before `(ib, ik)`.
#[verifier::spinoff_prover]
#[verifier::rlimit(40)]
proof fn lemma_partial_sum<T: Real>(
    bras: Seq<PrimPair<T>>,
    kets: Seq<PrimPair<T>>,
    ne: int,
    nf: int,
    ab: Vec3<T>,
    cd: Vec3<T>,
    n: Components,
    ib: int,
    ik: int,
)
    requires
        is_ring::<T>(),
        0 <= ne <= 12,
        0 <= nf <= 12,
        is_triple(n.0, ne),
        is_triple(n.1, ne),
        degree(n.0) + degree(n.1) <= ne,
        is_triple(n.2, nf),
        is_triple(n.3, nf),
        degree(n.2) + degree(n.3) <= nf,
    ensures
        transferred(partial_row(bras, kets, ne, nf, ab, n.0, n.1, ib, ik), cd, n.2, n.3)
            == quartet_sum(
            bras,
            kets,
            |i: int, j: int| primitive_value(bras[i], kets[j], ne + nf, ab, cd, n),
            ib,
            ik,
        ),
    decreases ib, ik,
{
    let g = |i: int, j: int| primitive_value(bras[i], kets[j], ne + nf, ab, cd, n);
    let w = partial_row(bras, kets, ne, nf, ab, n.0, n.1, ib, ik);
    if ik > 0 {
        lemma_partial_sum(bras, kets, ne, nf, ab, cd, n, ib, ik - 1);
        let (bra, ket) = (bras[ib], kets[ik - 1]);
        let s = input_of(bra, ket).hdr.scale;
        let u = partial_row(bras, kets, ne, nf, ab, n.0, n.1, ib, ik - 1);
        let v = Seq::new(
            tetrahedron(nf + 1) as nat,
            |f: int| transferred(primitive_column(bra, ket, ne, nf, f), ab, n.0, n.1),
        );
        assert forall|f: int| 0 <= f < tetrahedron(nf + 1) implies #[trigger] w[f] == T::sum(
            u[f],
            T::prod(s, v[f]),
        ) by {
            lemma_transferred_linear(
                partial_column(bras, kets, ne, nf, f, ib, ik - 1),
                primitive_column(bra, ket, ne, nf, f),
                s,
                partial_column(bras, kets, ne, nf, f, ib, ik),
                ab,
                n.0,
                n.1,
                ne,
            );
        }
        lemma_transferred_linear(u, v, s, w, cd, n.2, n.3, nf);
        lemma_primitive(bra, ket, ne, nf, ab, cd, n);
    } else if ib > 0 {
        let m = kets.len() as int;
        lemma_partial_sum(bras, kets, ne, nf, ab, cd, n, ib - 1, m);
        let u = partial_row(bras, kets, ne, nf, ab, n.0, n.1, ib - 1, m);
        assert(u =~= w) by {
            assert forall|f: int| 0 <= f < tetrahedron(nf + 1) implies #[trigger] w[f]
                == u[f] by {
                assert(partial_column(bras, kets, ne, nf, f, ib, ik) =~= partial_column(
                    bras,
                    kets,
                    ne,
                    nf,
                    f,
                    ib - 1,
                    m,
                ));
            }
        }
    } else {
        assert forall|f: int| 0 <= f < tetrahedron(nf + 1) implies #[trigger] w[f] == T::count(
            0,
        ) by {
            lemma_transferred_zero(
                partial_column(bras, kets, ne, nf, f, ib, ik),
                ab,
                n.0,
                n.1,
                ne,
            );
        }
        lemma_transferred_zero(w, cd, n.2, n.3, nf);
    }
}

/// The integral of a contracted quartet is the sum over its primitive quartets.
pub proof fn lemma_contracted_sum<T: Real>(
    bras: Seq<PrimPair<T>>,
    kets: Seq<PrimPair<T>>,
    ne: int,
    nf: int,
    ab: Vec3<T>,
    cd: Vec3<T>,
    n: Components,
)
    requires
        is_ring::<T>(),
        0 <= ne <= 12,
        0 <= nf <= 12,
        is_triple(n.0, ne),
        is_triple(n.1, ne),
        degree(n.0) + degree(n.1) <= ne,
        is_triple(n.2, nf),
        is_triple(n.3, nf),
        degree(n.2) + degree(n.3) <= nf,
    ensures
        eri_value(bras, kets, ne, nf, ab, cd, n.0, n.1, n.2, n.3) == quartet_sum(
            bras,
            kets,
            |i: int, j: int| primitive_value(bras[i], kets[j], ne + nf, ab, cd, n),
            bras.len() as int,
            0,
        ),
{
    let m = bras.len() as int;
    lemma_partial_sum(bras, kets, ne, nf, ab, cd, n, m, 0);
    let row = partial_row(bras, kets, ne, nf, ab, n.0, n.1, m, 0);
    assert(row =~= bra_transferred(bras, kets, ne, nf, ab, n.0, n.1)) by {
        assert forall|f: int| 0 <= f < tetrahedron(nf + 1) implies #[trigger] row[f]
            == bra_transferred(bras, kets, ne, nf, ab, n.0, n.1)[f] by {
            assert(partial_column(bras, kets, ne, nf, f, m, 0) =~= contracted_column(
                bras,
                kets,
                ne,
                nf,
                f,
            ));
        }
    }
}

/// Whether the primitive quartets before `(ib, ik)` are among all.
pub open spec fn is_before(nb: int, nk: int, ib: int, ik: int) -> bool {
    0 <= ib && 0 <= ik <= nk && (ib < nb || ib == nb && ik == 0)
}

/// Whether two pairs differ in their coefficients alone, the product of which is `w`
/// times as large.
pub open spec fn is_reweighted<T: Real>(x: PrimPair<T>, y: PrimPair<T>, w: T) -> bool {
    &&& y.zeta == x.zeta
    &&& y.center == x.center
    &&& y.kappa == x.kappa
    &&& y.inv_2zeta == x.inv_2zeta
    &&& y.r1 == x.r1
    &&& T::prod(y.c1, y.c2) == T::prod(w, T::prod(x.c1, x.c2))
}

/// The coefficients are left out.
proof fn lemma_same_primitive<T: Real>(
    bra: PrimPair<T>,
    ket: PrimPair<T>,
    other: PrimPair<T>,
    w: T,
    lt: int,
    ab: Vec3<T>,
    cd: Vec3<T>,
    n: Components,
)
    requires
        is_ring::<T>(),
    ensures
        is_reweighted(bra, other, w) ==> {
            &&& primitive_value(other, ket, lt, ab, cd, n) == primitive_value(
                bra,
                ket,
                lt,
                ab,
                cd,
                n,
            )
            &&& input_of(other, ket).hdr.scale == T::prod(w, input_of(bra, ket).hdr.scale)
        },
        is_reweighted(ket, other, w) ==> {
            &&& primitive_value(bra, other, lt, ab, cd, n) == primitive_value(
                bra,
                ket,
                lt,
                ab,
                cd,
                n,
            )
            &&& input_of(bra, other).hdr.scale == T::prod(w, input_of(bra, ket).hdr.scale)
        },
{
    let x = input_of(bra, ket);
    if is_reweighted(bra, other, w) {
        let y = input_of(other, ket);
        assert(quartet_steps(x, ab, cd) =~= quartet_steps(y, ab, cd));
        assert(ladder_of(bra, ket, lt) =~= ladder_of(other, ket, lt));
        assert(quartet_base(x, ladder_of(bra, ket, lt)) =~= quartet_base(
            y,
            ladder_of(other, ket, lt),
        ));
        let c = T::prod(bra.c1, bra.c2);
        lemma_ring_factors(w, c, ket.c1);
        lemma_ring_factors(w, T::prod(c, ket.c1), ket.c2);
    }
    if is_reweighted(ket, other, w) {
        let y = input_of(bra, other);
        assert(quartet_steps(x, ab, cd) =~= quartet_steps(y, ab, cd));
        assert(ladder_of(bra, ket, lt) =~= ladder_of(bra, other, lt));
        assert(quartet_base(x, ladder_of(bra, ket, lt)) =~= quartet_base(
            y,
            ladder_of(bra, other, lt),
        ));
        let c = T::prod(bra.c1, bra.c2);
        lemma_ring_factors(c, ket.c1, ket.c2);
        lemma_ring_factors(c, other.c1, other.c2);
        lemma_ring_factors(w, c, T::prod(ket.c1, ket.c2));
    }
}

/// Whether every primitive quartet has been reweighted, on the bra or on the ket.
pub open spec fn are_reweighted<T: Real>(
    bras: Seq<PrimPair<T>>,
    kets: Seq<PrimPair<T>>,
    others: (Seq<PrimPair<T>>, Seq<PrimPair<T>>),
    w: spec_fn(int, int) -> T,
) -> bool {
    forall|i: int, j: int|
        #![trigger w(i, j)]
        0 <= i < bras.len() && 0 <= j < kets.len() ==> {
            ||| others.1[j] == kets[j] && is_reweighted(bras[i], others.0[i], w(i, j))
            ||| others.0[i] == bras[i] && is_reweighted(kets[j], others.1[j], w(i, j))
        }
}

/// The sum over quartets of which the bra or the ket has been weighted.
pub proof fn lemma_reweighted_sum<T: Real>(
    bras: Seq<PrimPair<T>>,
    kets: Seq<PrimPair<T>>,
    others: (Seq<PrimPair<T>>, Seq<PrimPair<T>>),
    w: spec_fn(int, int) -> T,
    lt: int,
    ab: Vec3<T>,
    cd: Vec3<T>,
    n: Components,
    ib: int,
    ik: int,
)
    requires
        is_ring::<T>(),
        others.0.len() == bras.len(),
        others.1.len() == kets.len(),
        is_before(bras.len() as int, kets.len() as int, ib, ik),
        are_reweighted(bras, kets, others, w),
    ensures
        quartet_sum(
            others.0,
            others.1,
            |i: int, j: int| primitive_value(others.0[i], others.1[j], lt, ab, cd, n),
            ib,
            ik,
        ) == quartet_sum(
            bras,
            kets,
            |i: int, j: int|
                T::prod(w(i, j), primitive_value(bras[i], kets[j], lt, ab, cd, n)),
            ib,
            ik,
        ),
    decreases ib, ik,
{
    if ik > 0 {
        lemma_reweighted_sum(bras, kets, others, w, lt, ab, cd, n, ib, ik - 1);
        let (bra, ket) = (bras[ib], kets[ik - 1]);
        let v = w(ib, ik - 1);
        lemma_same_primitive(bra, ket, others.0[ib], v, lt, ab, cd, n);
        lemma_same_primitive(bra, ket, others.1[ik - 1], v, lt, ab, cd, n);
        let s = input_of(bra, ket).hdr.scale;
        lemma_ring_factors(v, s, primitive_value(bra, ket, lt, ab, cd, n));
    } else if ib > 0 {
        lemma_reweighted_sum(
            bras,
            kets,
            others,
            w,
            lt,
            ab,
            cd,
            n,
            ib - 1,
            kets.len() as int,
        );
    }
}

/// Quartets that contribute nothing.
pub proof fn lemma_empty_sum<T: Real>(
    bras: Seq<PrimPair<T>>,
    kets: Seq<PrimPair<T>>,
    g: spec_fn(int, int) -> T,
    ib: int,
    ik: int,
)
    requires
        is_ring::<T>(),
        is_before(bras.len() as int, kets.len() as int, ib, ik),
        forall|i: int, j: int|
            #![trigger g(i, j)]
            0 <= i < bras.len() && 0 <= j < kets.len() ==> T::prod(
                input_of(bras[i], kets[j]).hdr.scale,
                g(i, j),
            ) == T::count(0),
    ensures
        quartet_sum(bras, kets, g, ib, ik) == T::count(0),
    decreases ib, ik,
{
    if ik > 0 {
        lemma_empty_sum(bras, kets, g, ib, ik - 1);
        assert(T::prod(input_of(bras[ib], kets[ik - 1]).hdr.scale, g(ib, ik - 1)) == T::count(0));
        lemma_ring_sums(T::count(0), T::count(0), T::count(0));
    } else if ib > 0 {
        lemma_empty_sum(bras, kets, g, ib - 1, kets.len() as int);
    }
}

/// A factor may be moved out of a sum over quartets.
pub proof fn lemma_times_sum<T: Real>(
    bras: Seq<PrimPair<T>>,
    kets: Seq<PrimPair<T>>,
    s: T,
    g: spec_fn(int, int) -> T,
    ib: int,
    ik: int,
)
    requires
        is_ring::<T>(),
    ensures
        T::prod(s, quartet_sum(bras, kets, g, ib, ik)) == quartet_sum(
            bras,
            kets,
            |i: int, j: int| T::prod(s, g(i, j)),
            ib,
            ik,
        ),
    decreases ib, ik,
{
    if ik > 0 {
        lemma_times_sum(bras, kets, s, g, ib, ik - 1);
        let c = input_of(bras[ib], kets[ik - 1]).hdr.scale;
        let v = g(ib, ik - 1);
        lemma_ring_factors(s, quartet_sum(bras, kets, g, ib, ik - 1), T::prod(c, v));
        lemma_ring_factors(s, c, v);
    } else if ib > 0 {
        lemma_times_sum(bras, kets, s, g, ib - 1, kets.len() as int);
    } else {
        lemma_ring_sums(s, s, s);
    }
}

/// The sum of four numbers, two and two.
pub open spec fn sum_of_four<T: Scalar>(x: (T, T, T, T)) -> T {
    T::sum(T::sum(x.0, x.1), T::sum(x.2, x.3))
}

/// Four sums, each with one more term.
pub proof fn lemma_four_more<T: Scalar>(p: (T, T, T, T), x: (T, T, T, T), s: T)
    requires
        is_ring::<T>(),
    ensures
        sum_of_four(
            (
                T::sum(p.0, T::prod(s, x.0)),
                T::sum(p.1, T::prod(s, x.1)),
                T::sum(p.2, T::prod(s, x.2)),
                T::sum(p.3, T::prod(s, x.3)),
            ),
        ) == T::sum(sum_of_four(p), T::prod(s, sum_of_four(x))),
{
    let y = (T::prod(s, x.0), T::prod(s, x.1), T::prod(s, x.2), T::prod(s, x.3));
    lemma_interchange(p.0, y.0, p.1, y.1);
    lemma_interchange(p.2, y.2, p.3, y.3);
    lemma_interchange(T::sum(p.0, p.1), T::sum(y.0, y.1), T::sum(p.2, p.3), T::sum(y.2, y.3));
    lemma_ring_factors(s, x.0, x.1);
    lemma_ring_factors(s, x.2, x.3);
    lemma_ring_factors(s, T::sum(x.0, x.1), T::sum(x.2, x.3));
}

/// Four functions of the primitive quartets.
pub type Terms<T> = spec_fn(int, int) -> (T, T, T, T);

/// The sums of four functions over the primitive quartets before `(ib, ik)`.
pub open spec fn four_sums<T: Real>(
    bras: Seq<PrimPair<T>>,
    kets: Seq<PrimPair<T>>,
    g: Terms<T>,
    ib: int,
    ik: int,
) -> (T, T, T, T) {
    (
        quartet_sum(bras, kets, |i: int, j: int| g(i, j).0, ib, ik),
        quartet_sum(bras, kets, |i: int, j: int| g(i, j).1, ib, ik),
        quartet_sum(bras, kets, |i: int, j: int| g(i, j).2, ib, ik),
        quartet_sum(bras, kets, |i: int, j: int| g(i, j).3, ib, ik),
    )
}

/// Sums over quartets whose terms agree.
pub proof fn lemma_four_sums<T: Real>(
    bras: Seq<PrimPair<T>>,
    kets: Seq<PrimPair<T>>,
    g: Terms<T>,
    h: Terms<T>,
    ib: int,
    ik: int,
)
    requires
        is_ring::<T>(),
        is_before(bras.len() as int, kets.len() as int, ib, ik),
        forall|i: int, j: int|
            #![trigger g(i, j)]
            0 <= i < bras.len() && 0 <= j < kets.len() ==> sum_of_four(g(i, j)) == sum_of_four(
                h(i, j),
            ),
    ensures
        sum_of_four(four_sums(bras, kets, g, ib, ik)) == sum_of_four(
            four_sums(bras, kets, h, ib, ik),
        ),
    decreases ib, ik,
{
    if ik > 0 {
        lemma_four_sums(bras, kets, g, h, ib, ik - 1);
        let s = input_of(bras[ib], kets[ik - 1]).hdr.scale;
        lemma_four_more(four_sums(bras, kets, g, ib, ik - 1), g(ib, ik - 1), s);
        lemma_four_more(four_sums(bras, kets, h, ib, ik - 1), h(ib, ik - 1), s);
    } else if ib > 0 {
        lemma_four_sums(bras, kets, g, h, ib - 1, kets.len() as int);
    }
}

} // verus!
