//! The attraction between gradients is the attraction with a momentum on either side.
use vstd::prelude::*;

use crate::commutators::behind;
use crate::engine::nuclear::{attraction_block, block_entry, pvp_axis, pvp_value};
use crate::engine::operator::Factor;
use crate::engine::os::{block_size, lemma_block_bounds, Prim};
use crate::engine::os_eri::MAX_L;
use crate::engine::pairs::Vec3;
use crate::engine::triples::{power, shifted};
use crate::exact::{
    counts_exactly, is_ring, lemma_count_product, lemma_ring_commute, lemma_ring_difference,
    lemma_ring_factors, lemma_ring_negatives, lemma_ring_sums,
};
use crate::flat::lemma_index_parts;
use crate::math::am::{
    cart_count, component_at, degree, is_component, law_every_position_is_taken, Powers,
};
use crate::math::boys::BoysTable;
use crate::one_electron::{pair_entries, pvp_step, unit_charges};
use crate::operator_laws::lemma_same_contraction;
use crate::pair_values::{value_step, PairValue};
use crate::scalar::{Real, Scalar};
use crate::shell::{function_counts, Basis, Shell};
use crate::tensor::{is_function, slot2, At};

verus! {

/// The attraction to the charges of a Gaussian of powers `p` and one of powers `q`, with the
/// exponents and centers of `a` and `b`.
pub open spec fn attraction<T: Real>(
    a: Prim<T>,
    b: Prim<T>,
    charges: Seq<(Vec3<T>, T)>,
    p: Powers,
    q: Powers,
) -> T {
    block_entry(attraction_block(a, degree(p), b, degree(q), charges), degree(q), p, q)
}

/// The attraction with a momentum along an axis applied to either Gaussian. The two imaginary
/// units leave a factor of one.
pub open spec fn between_momenta<T: Real>(
    a: Prim<T>,
    b: Prim<T>,
    charges: Seq<(Vec3<T>, T)>,
    axis: usize,
    p: Powers,
    q: Powers,
) -> T {
    let right = |m: Powers|
        behind(Factor::P(axis), b.exp, b.center, |n: Powers| attraction(a, b, charges, m, n))(q);
    behind(Factor::P(axis), a.exp, a.center, right)(p)
}

/// A product of doubled exponents.
proof fn lemma_doubled<T: Scalar>(x: T, y: T, v: T)
    requires
        is_ring::<T>(),
        counts_exactly::<T>(),
    ensures
        ({
            let two = T::count(2);
            T::prod(T::prod(two, x), T::prod(T::prod(two, y), v)) == T::prod(
                T::prod(T::prod(T::count(4), x), y),
                v,
            )
        }),
{
    let two = T::count(2);
    lemma_count_product::<T>(2, 2);
    lemma_ring_factors(T::prod(two, x), T::prod(two, y), v);
    lemma_ring_factors(T::prod(two, x), two, y);
    lemma_ring_factors(two, two, x);
    lemma_ring_factors(two, T::prod(two, x), y);
    lemma_ring_commute(T::prod(two, x), two);
    assert(T::prod(T::prod(two, x), T::prod(two, y)) == T::prod(T::prod(T::count(4), x), y));
}

/// The four parts of a derivative on either side.
proof fn lemma_four_parts<T: Scalar>(s: T, m: T, x: T, y: T, z: T, w: T)
    requires
        is_ring::<T>(),
    ensures
        T::diff(T::prod(s, T::diff(x, y)), T::prod(m, T::diff(z, w))) == T::sum(
            T::diff(T::diff(T::prod(s, x), T::prod(s, y)), T::prod(m, z)),
            T::prod(m, w),
        ),
{
    let (sx, sy, mz, mw) = (T::prod(s, x), T::prod(s, y), T::prod(m, z), T::prod(m, w));
    lemma_ring_difference(s, x, y);
    lemma_ring_difference(m, z, w);
    let left = T::diff(sx, sy);
    lemma_ring_negatives(left, T::diff(mz, mw));
    lemma_ring_negatives(mz, mw);
    lemma_ring_negatives(mz, T::neg(mw));
    lemma_ring_negatives(mw, mw);
    lemma_ring_negatives(left, mz);
    lemma_ring_sums(left, T::neg(mz), mw);
}

/// What an axis adds.
proof fn lemma_axis<T: Real>(
    a: Prim<T>,
    b: Prim<T>,
    charges: Seq<(Vec3<T>, T)>,
    p: Powers,
    q: Powers,
    axis: usize,
    v: T,
)
    requires
        is_ring::<T>(),
        counts_exactly::<T>(),
        a.l <= MAX_L,
        b.l <= MAX_L,
        is_component(p, a.l as int),
        is_component(q, b.l as int),
        axis < 3,
    ensures
        pvp_axis(a, b, charges, p, q, axis as int, v) == T::sum(
            v,
            between_momenta(a, b, charges, axis, p, q),
        ),
{
    let k = axis as int;
    let (pu, pd) = (shifted(p, k, 1), shifted(p, k, -1));
    let (qu, qd) = (shifted(q, k, 1), shifted(q, k, -1));
    let x = attraction(a, b, charges, pu, qu);
    let y = attraction(a, b, charges, pu, qd);
    let z = attraction(a, b, charges, pd, qu);
    let w = attraction(a, b, charges, pd, qd);
    let (i, j) = (power(p, k), power(q, k));
    assert(0 <= i * j <= 10000) by (nonlinear_arith)
        requires
            0 <= i <= 100,
            0 <= j <= 100,
    ;
    let (m, n) = (T::count(i as u64), T::count(j as u64));
    let two = T::count(2);
    let (sa, sb) = (T::prod(two, a.exp), T::prod(two, b.exp));
    lemma_count_product::<T>(i, j);
    lemma_doubled(a.exp, b.exp, x);
    lemma_ring_factors(sa, n, y);
    lemma_ring_factors(m, sb, z);
    lemma_ring_commute(m, sb);
    lemma_ring_factors(m, n, w);
    let (px, py) = (T::prod(sb, x), T::prod(n, y));
    let (pz, pw) = (T::prod(sb, z), T::prod(n, w));
    lemma_four_parts(sa, m, px, py, pz, pw);
    lemma_ring_difference(sa, px, py);
    let (tx, ty) = (T::prod(sa, px), T::prod(sa, py));
    let (tz, tw) = (T::prod(m, pz), T::prod(m, pw));
    lemma_ring_negatives(v, ty);
    lemma_ring_negatives(T::sum(v, tx), ty);
    lemma_ring_negatives(tx, ty);
    lemma_ring_sums(v, tx, T::neg(ty));
    let both = T::diff(tx, ty);
    lemma_ring_negatives(T::sum(v, both), tz);
    lemma_ring_negatives(both, tz);
    lemma_ring_sums(v, both, T::neg(tz));
    lemma_ring_sums(v, T::diff(both, tz), tw);
    lemma_ring_negatives(T::sum(v, tx), tz);
    lemma_ring_negatives(tx, tz);
    lemma_ring_sums(v, tx, T::neg(tz));
}

/// The attraction between gradients is the sum over the axes of the attraction with the
/// momentum of that axis applied to both Gaussians.
pub proof fn law_pvp_is_the_attraction_between_momenta<T: Real>(
    a: Prim<T>,
    b: Prim<T>,
    charges: Seq<(Vec3<T>, T)>,
    p: Powers,
    q: Powers,
)
    requires
        is_ring::<T>(),
        counts_exactly::<T>(),
        a.l <= MAX_L,
        b.l <= MAX_L,
        is_component(p, a.l as int),
        is_component(q, b.l as int),
    ensures
        pvp_value(a, b, charges, p, q) == T::sum(
            T::sum(
                between_momenta(a, b, charges, 0, p, q),
                between_momenta(a, b, charges, 1, p, q),
            ),
            between_momenta(a, b, charges, 2, p, q),
        ),
{
    let zero = T::count(0);
    let v0 = pvp_axis(a, b, charges, p, q, 0, zero);
    let v1 = pvp_axis(a, b, charges, p, q, 1, v0);
    lemma_axis(a, b, charges, p, q, 0, zero);
    lemma_axis(a, b, charges, p, q, 1, v0);
    lemma_axis(a, b, charges, p, q, 2, v1);
    let first = between_momenta(a, b, charges, 0, p, q);
    lemma_ring_sums(first, first, first);
}

/// The attraction between gradients of two Gaussians.
pub open spec fn between_all_momenta<T: Real>(charges: Seq<(Vec3<T>, T)>) -> PairValue<T> {
    |a: Prim<T>, b: Prim<T>, p: Powers, q: Powers|
        T::sum(
            T::sum(
                between_momenta(a, b, charges, 0, p, q),
                between_momenta(a, b, charges, 1, p, q),
            ),
            between_momenta(a, b, charges, 2, p, q),
        )
}

/// The matrix of the attraction between gradients holds the attraction with the momentum of
/// an axis applied to both functions, summed over the axes.
pub proof fn law_pvp_matrix<T: Real>(
    charges: Seq<(Vec3<T>, T)>,
    shells: Seq<Shell<T>>,
    x: At,
    y: At,
)
    requires
        is_ring::<T>(),
        counts_exactly::<T>(),
        0 <= x.0 < shells.len(),
        0 <= y.0 < shells.len(),
        shells[x.0].valid(),
        shells[y.0].valid(),
    ensures
        pair_entries(pvp_step(charges), shells)(x, y) == pair_entries(
            value_step(between_all_momenta(charges)),
            shells,
        )(x, y),
{
    let s = pvp_step(charges);
    let value = between_all_momenta(charges);
    let u = value_step(value);
    assert forall|old: Seq<T>, a: Prim<T>, b: Prim<T>, scale: T|
        a.l <= MAX_L && b.l <= MAX_L && old.len() == block_size(
            a.l as int,
            b.l as int,
        ) implies #[trigger] s(old, a, b, scale) == u(old, a, b, scale) && s(
        old,
        a,
        b,
        scale,
    ).len() == old.len() by {
        let (la, lb) = (a.l as int, b.l as int);
        let (left, right) = (s(old, a, b, scale), u(old, a, b, scale));
        let nb = cart_count(lb);
        lemma_block_bounds(la, lb);
        assert forall|e: int| 0 <= e < old.len() implies left[e] == right[e] by {
            lemma_index_parts(e, cart_count(la), nb);
            law_every_position_is_taken(la, e / nb);
            law_every_position_is_taken(lb, e % nb);
            let (ca, cb) = (component_at(la, e / nb), component_at(lb, e % nb));
            law_pvp_is_the_attraction_between_momenta(a, b, charges, ca, cb);
        }
        assert(left =~= right);
    }
    let (a, b) = (shells[x.0], shells[y.0]);
    lemma_same_contraction(s, u, a, b, a.exponents@.len() as int, 0);
}

/// The attraction between gradients without charges given is that for charges of one at the
/// atoms of the basis.
pub proof fn law_pvp_takes_unit_charges<T: Real>(
    basis: &Basis<T>,
    table: &BoysTable<T>,
    atoms: Vec<Vec3<T>>,
    charges: &[(Vec3<T>, T)],
    short: Vec<T>,
    long: Vec<T>,
    x: At,
    y: At,
)
    requires
        call_ensures(Basis::<T>::atoms, (basis,), atoms),
        charges@.len() == atoms@.len(),
        forall|k: int|
            0 <= k < atoms@.len() ==> #[trigger] charges@[k] == (atoms@[k], T::count(1)),
        call_ensures(Basis::<T>::pvp, (basis, table), short),
        call_ensures(Basis::<T>::pvp_charges, (basis, table, charges), long),
        is_function(function_counts(basis.shells@), x),
        is_function(function_counts(basis.shells@), y),
    ensures
        ({
            let at = slot2(function_counts(basis.shells@), x, y);
            short@[at] == long@[at]
        }),
{
    let lens = function_counts(basis.shells@);
    assert(charges@ =~= unit_charges(atoms@));
    assert(short@[slot2(lens, x, y)] == long@[slot2(lens, x, y)]);
}

} // verus!
