//! Translation invariance of the repulsion of four primitives.
//!
//! The integral depends on the differences of the four centers alone: raised on each
//! center in turn and weighted by twice the exponent there, it adds up to the lowered
//! integrals.
use vstd::prelude::*;

use crate::engine::invariance::{has_product, lemma_center};
use crate::engine::pairs::{difference, header_of, input_of, prim_pair, PrimPair, Vec3};
use crate::engine::tower::{tower, Ladder};
use crate::engine::tower_raise::{lemma_tower_invariant, weighs};
use crate::engine::tower_space::{across, lemma_outermost, quartet_steps, space, Steps};
use crate::engine::triples::{power, shifted};
use crate::exact::{
    counts_exactly, is_ring, lemma_ring_commute, lemma_ring_factors, lemma_ring_negatives,
    lemma_ring_sums,
};
use crate::math::am::Powers;
use crate::operator_laws::lemma_between;
use crate::scalar::{fraction, Real, Scalar};

verus! {

/// A primitive: its center and its exponent.
pub type Point<T> = (Vec3<T>, T);

/// Twice a number.
pub open spec fn double<T: Scalar>(a: T) -> T {
    T::prod(T::count(2), a)
}

/// Whether a number can be divided by.
pub open spec fn divides<T: Scalar>(p: T) -> bool {
    forall|z: T| T::prod(p, #[trigger] T::quot(z, p)) == z
}

/// Twice a sum.
pub proof fn lemma_doubles<T: Scalar>(a: T, b: T)
    requires
        is_ring::<T>(),
    ensures
        T::sum(double(a), double(b)) == double(T::sum(a, b)),
{
    lemma_ring_factors(T::count(2), a, b);
}

/// The displacement of a product center, weighted.
pub proof fn lemma_displacement<T: Scalar>(a: T, x: T, b: T, y: T, p: T)
    requires
        is_ring::<T>(),
        p == T::sum(a, b),
        divides(p),
    ensures
        ({
            let c = T::quot(T::sum(T::prod(a, x), T::prod(b, y)), p);
            T::sum(T::prod(double(p), T::diff(c, x)), T::prod(double(b), T::diff(x, y)))
                == T::count(0)
        }),
{
    let z = T::sum(T::prod(a, x), T::prod(b, y));
    let c = T::quot(z, p);
    assert(T::prod(p, c) == z);
    lemma_center(a, x, b, y, c);
    lemma_between(c, x, y);
    let (u, v) = (T::diff(c, x), T::diff(x, y));
    lemma_ring_factors(b, u, v);
    lemma_ring_commute(p, u);
    lemma_ring_factors(u, a, b);
    lemma_ring_commute(u, a);
    lemma_ring_commute(u, b);
    lemma_ring_sums(T::prod(a, u), T::prod(b, u), T::prod(b, v));
    let two = T::count(2);
    lemma_ring_factors(two, p, u);
    lemma_ring_factors(two, b, v);
    lemma_ring_factors(two, T::prod(p, u), T::prod(b, v));
    lemma_ring_sums(two, two, two);
}

/// A half of the reciprocal, weighted.
proof fn lemma_half_reciprocal<T: Scalar>(p: T)
    requires
        is_ring::<T>(),
        divides(p),
        crate::exact::halves_exactly::<T>(),
    ensures
        T::prod(double(p), T::quot(fraction::<T>(1, 2), p)) == T::count(1),
{
    let half = fraction::<T>(1, 2);
    let h = T::quot(half, p);
    lemma_ring_factors(T::count(2), p, h);
    lemma_ring_commute(T::count(2), half);
}

/// The coupling of bra and ket, weighted.
proof fn lemma_coupling<T: Scalar>(p: T, q: T, s: T)
    requires
        is_ring::<T>(),
        divides(p),
        divides(s),
        crate::exact::halves_exactly::<T>(),
    ensures
        ({
            let half = fraction::<T>(1, 2);
            let h = T::quot(half, p);
            T::sum(
                T::prod(double(p), T::neg(T::prod(h, T::quot(q, s)))),
                T::prod(double(q), T::quot(half, s)),
            ) == T::count(0)
        }),
{
    let half = fraction::<T>(1, 2);
    let (h, r) = (T::quot(half, p), T::quot(q, s));
    let g = T::quot(half, s);
    let two = T::count(2);
    let p2 = double(p);
    lemma_half_reciprocal(p);
    lemma_ring_negatives(p2, T::prod(h, r));
    lemma_ring_factors(p2, h, r);
    lemma_ring_sums(r, r, r);
    assert(T::prod(p2, T::neg(T::prod(h, r))) == T::neg(r));
    // Twice `q` times half the reciprocal is the ratio: both times `s` are `q`.
    let w = T::prod(double(q), g);
    lemma_ring_factors(double(q), s, g);
    lemma_ring_factors(s, double(q), g);
    lemma_ring_factors(two, q, half);
    lemma_ring_factors(q, two, half);
    lemma_ring_commute(two, half);
    lemma_ring_commute(q, T::count(1));
    lemma_ring_sums(q, q, q);
    assert(T::prod(s, w) == T::prod(double(q), half));
    assert(T::prod(double(q), half) == q);
    let inverse = T::quot(T::count(1), s);
    assert(T::prod(s, inverse) == T::count(1));
    lemma_ring_commute(s, inverse);
    lemma_ring_factors(inverse, s, w);
    lemma_ring_factors(inverse, s, r);
    lemma_ring_sums(w, w, w);
    assert(w == r);
    lemma_ring_negatives(r, r);
    lemma_ring_sums(T::neg(r), r, r);
}

/// The steps of four primitives weigh by twice their exponents.
pub proof fn lemma_quartet_weighs<T: Real>(
    a: Point<T>,
    b: Point<T>,
    c: Point<T>,
    d: Point<T>,
    bra: PrimPair<T>,
    ket: PrimPair<T>,
    k: int,
)
    requires
        is_ring::<T>(),
        has_product(a.1, b.1),
        has_product(c.1, d.1),
        has_product(T::sum(a.1, b.1), T::sum(c.1, d.1)),
        bra == prim_pair(a.0, a.1, bra.c1, b.0, b.1, bra.c2),
        ket == prim_pair(c.0, c.1, ket.c1, d.0, d.1, ket.c2),
        0 <= k < 3,
    ensures
        weighs(
            quartet_steps(input_of(bra, ket), difference(a.0, b.0), difference(c.0, d.0))(k),
            double(a.1),
            double(b.1),
            double(c.1),
            double(d.1),
        ),
{
    let (p, q) = (bra.zeta, ket.zeta);
    let s = T::sum(p, q);
    assert(divides(p) && divides(q) && divides(s));
    lemma_doubles(a.1, b.1);
    lemma_doubles(c.1, d.1);
    lemma_displacement(a.1, a.0[k], b.1, b.0[k], p);
    lemma_displacement(c.1, c.0[k], d.1, d.0[k], q);
    lemma_half_reciprocal(p);
    lemma_half_reciprocal(q);
    lemma_coupling(p, q, s);
    lemma_coupling(q, p, s);
    let (x, y) = (bra.center[k], ket.center[k]);
    let w = T::quot(T::sum(T::prod(p, x), T::prod(q, y)), s);
    lemma_center(p, x, q, y, w);
    let (u, v) = (T::diff(w, x), T::diff(w, y));
    let two = T::count(2);
    lemma_ring_factors(two, p, u);
    lemma_ring_factors(two, q, v);
    lemma_ring_factors(two, T::prod(p, u), T::prod(q, v));
    lemma_ring_sums(two, two, two);
    let h = header_of(bra, ket);
    assert(h.wp[k] == u && h.wq[k] == v);
}

/// The towers lowered on each center in turn, each as often as its power.
pub open spec fn lowered_space<T: Scalar>(
    x: Steps<T>,
    u: Ladder<T>,
    a: Powers,
    b: Powers,
    c: Powers,
    d: Powers,
    k: int,
) -> T {
    let n = |p: Powers| T::count(power(p, k) as u64);
    T::sum(
        T::sum(
            T::prod(n(a), space(x, u, shifted(a, k, -1), b, c, d)(0)),
            T::prod(n(b), space(x, u, a, shifted(b, k, -1), c, d)(0)),
        ),
        T::sum(
            T::prod(n(c), space(x, u, a, b, shifted(c, k, -1), d)(0)),
            T::prod(n(d), space(x, u, a, b, c, shifted(d, k, -1))(0)),
        ),
    )
}

/// The towers raised on each center in turn, each times its weight.
pub open spec fn raised_space<T: Scalar>(
    x: Steps<T>,
    u: Ladder<T>,
    e: (T, T, T, T),
    a: Powers,
    b: Powers,
    c: Powers,
    d: Powers,
    k: int,
) -> T {
    T::sum(
        T::sum(
            T::prod(e.0, space(x, u, shifted(a, k, 1), b, c, d)(0)),
            T::prod(e.1, space(x, u, a, shifted(b, k, 1), c, d)(0)),
        ),
        T::sum(
            T::prod(e.2, space(x, u, a, b, shifted(c, k, 1), d)(0)),
            T::prod(e.3, space(x, u, a, b, c, shifted(d, k, 1))(0)),
        ),
    )
}

/// A tower shifted along axis `k`, over the other axes.
proof fn lemma_shifted_space<T: Scalar>(
    x: Steps<T>,
    u: Ladder<T>,
    a: Powers,
    b: Powers,
    c: Powers,
    d: Powers,
    k: int,
    i: int,
)
    requires
        is_ring::<T>(),
        0 <= k < 3,
    ensures
        ({
            let w = across(x, u, a, b, c, d, k);
            let n = |p: Powers| power(p, k);
            &&& space(x, u, shifted(a, k, i), b, c, d) == tower(x(k), w, n(a) + i, n(b), n(c), n(d))
            &&& space(x, u, a, shifted(b, k, i), c, d) == tower(x(k), w, n(a), n(b) + i, n(c), n(d))
            &&& space(x, u, a, b, shifted(c, k, i), d) == tower(x(k), w, n(a), n(b), n(c) + i, n(d))
            &&& space(x, u, a, b, c, shifted(d, k, i)) == tower(x(k), w, n(a), n(b), n(c), n(d) + i)
        }),
{
    lemma_outermost(x, u, shifted(a, k, i), b, c, d, k);
    lemma_outermost(x, u, a, shifted(b, k, i), c, d, k);
    lemma_outermost(x, u, a, b, shifted(c, k, i), d, k);
    lemma_outermost(x, u, a, b, c, shifted(d, k, i), k);
}

/// The weighted raised towers add up to the lowered ones.
pub proof fn lemma_space_invariant<T: Scalar>(
    x: Steps<T>,
    u: Ladder<T>,
    e: (T, T, T, T),
    a: Powers,
    b: Powers,
    c: Powers,
    d: Powers,
    k: int,
)
    requires
        is_ring::<T>(),
        counts_exactly::<T>(),
        0 <= k < 3,
        weighs(x(k), e.0, e.1, e.2, e.3),
        0 <= power(a, k) < 0xff,
        0 <= power(b, k) < 0xff,
        0 <= power(c, k) < 0xff,
        0 <= power(d, k) < 0xff,
    ensures
        raised_space(x, u, e, a, b, c, d, k) == lowered_space(x, u, a, b, c, d, k),
{
    let w = across(x, u, a, b, c, d, k);
    lemma_shifted_space(x, u, a, b, c, d, k, 1);
    lemma_shifted_space(x, u, a, b, c, d, k, -1);
    lemma_tower_invariant(
        x(k),
        w,
        e,
        power(a, k),
        power(b, k),
        power(c, k),
        power(d, k),
        0,
    );
}

} // verus!
