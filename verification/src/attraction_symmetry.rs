//! Symmetry of the attraction.
//!
//! The attraction of two primitives is raised on the first center and transferred to the
//! second. Without rounding it does not depend on which of the two is the first.
use vstd::prelude::*;

use crate::engine::nuclear::{
    attracted, attraction_value, attractions, charge_entries, charge_input, charge_ladder,
};
use crate::engine::os::{block_size, pair_at, product_of, Prim};
use crate::engine::pairs::{difference, Vec3};
use crate::engine::tower_raise::{are_exchanged, lemma_tower_exchanged};
use crate::engine::tower_space::{
    along, charge_steps, is_whole, lemma_attraction_tower, lemma_bra_space, origin, space,
};
use crate::engine::triples::{
    address, is_triple, law_addresses_are_distinct, law_every_address_is_taken, triple_at,
};
use crate::exact::{
    counts_exactly, is_ring, lemma_ring_commute, lemma_ring_factors, lemma_ring_negatives,
    lemma_ring_sums, lemma_same_sum, sum_before,
};
use crate::flat::added;
use crate::math::am::{degree, is_component, Powers};
use crate::grid::grid_entry;
use crate::grid_attraction::{divides_factors, law_grid_is_the_negated_attraction};
use crate::one_electron::{nuclear_step, pair_entries};
use crate::operator_laws::lemma_between;
use crate::pair_values::{adds_values, entries_of, PairValue};
use crate::scalar::{Real, Scalar};
use crate::shell::{function_counts, Shell};
use crate::tensor::{is_function, At};
use crate::transposition::lemma_entries_transposed;

verus! {

/// The square of a distance in the other direction.
proof fn lemma_square_turned<T: Scalar>(a: T, b: T)
    requires
        is_ring::<T>(),
    ensures
        T::prod(T::diff(a, b), T::diff(a, b)) == T::prod(T::diff(b, a), T::diff(b, a)),
{
    let (d, e) = (T::diff(a, b), T::diff(b, a));
    lemma_ring_negatives(a, b);
    lemma_ring_negatives(b, a);
    lemma_ring_negatives(a, T::neg(b));
    lemma_ring_negatives(b, b);
    lemma_ring_sums(T::neg(a), b, b);
    assert(e == T::neg(d));
    lemma_ring_negatives(e, d);
    lemma_ring_commute(e, d);
    lemma_ring_negatives(d, d);
    lemma_ring_negatives(T::prod(d, d), d);
}

/// The product of two primitives does not depend on their order.
proof fn lemma_product_exchanged<T: Real>(a: Prim<T>, b: Prim<T>)
    requires
        is_ring::<T>(),
    ensures
        product_of(a.exp, a.center, b.exp, b.center) == product_of(
            b.exp,
            b.center,
            a.exp,
            a.center,
        ),
{
    let (p, q) = (
        product_of(a.exp, a.center, b.exp, b.center),
        product_of(b.exp, b.center, a.exp, a.center),
    );
    lemma_ring_sums(a.exp, b.exp, b.exp);
    lemma_ring_commute(a.exp, b.exp);
    lemma_ring_sums(
        T::prod(a.exp, a.center[0]),
        T::prod(b.exp, b.center[0]),
        T::prod(b.exp, b.center[0]),
    );
    lemma_ring_sums(
        T::prod(a.exp, a.center[1]),
        T::prod(b.exp, b.center[1]),
        T::prod(b.exp, b.center[1]),
    );
    lemma_ring_sums(
        T::prod(a.exp, a.center[2]),
        T::prod(b.exp, b.center[2]),
        T::prod(b.exp, b.center[2]),
    );
    lemma_square_turned(a.center[0], b.center[0]);
    lemma_square_turned(a.center[1], b.center[1]);
    lemma_square_turned(a.center[2], b.center[2]);
    assert(p.p_center =~= q.p_center);
}

/// An attraction as towers along the axes.
proof fn lemma_value_tower<T: Real>(a: Prim<T>, b: Prim<T>, c: Vec3<T>, ca: Powers, cb: Powers)
    requires
        is_ring::<T>(),
        is_whole(ca),
        is_whole(cb),
        degree(ca) + degree(cb) <= a.l + b.l,
    ensures
        ({
            let base = charge_ladder(a, b, c, a.l + b.l);
            attraction_value(a, b, c, ca, cb) == space(
                charge_steps(charge_input(a, b, c), difference(a.center, b.center)),
                |m: int| base[m],
                ca,
                cb,
                origin(),
                origin(),
            )(0)
        }),
{
    let lt = a.l + b.l;
    let base = charge_ladder(a, b, c, lt);
    let x = charge_input(a, b, c);
    let ab = difference(a.center, b.center);
    let theta = attractions(x, base, lt);
    let (s, u, o) = (charge_steps(x, ab), |m: int| base[m], origin());
    assert forall|e: Powers|
        is_triple(e, lt) implies theta[#[trigger] address(e)] == space(s, u, e, o, o, o)(0) by {
        law_addresses_are_distinct(e, e, lt);
        let n = address(e);
        law_every_address_is_taken(lt, n);
        law_addresses_are_distinct(triple_at(lt, n), e, lt);
        lemma_attraction_tower(x, base, ab, e, 0);
    }
    lemma_bra_space(s, u, theta, ab, lt, ca, cb, o);
}

/// The attraction of two primitives to a charge does not depend on their order, in any
/// commutative ring in which counts add up.
pub proof fn law_attraction_is_symmetric<T: Real>(
    a: Prim<T>,
    b: Prim<T>,
    c: Vec3<T>,
    ca: Powers,
    cb: Powers,
)
    requires
        is_ring::<T>(),
        counts_exactly::<T>(),
        is_whole(ca),
        is_whole(cb),
        degree(ca) + degree(cb) <= a.l + b.l,
        degree(ca) + degree(cb) < 0xffff,
    ensures
        attraction_value(a, b, c, ca, cb) == attraction_value(b, a, c, cb, ca),
{
    lemma_value_tower(a, b, c, ca, cb);
    lemma_value_tower(b, a, c, cb, ca);
    lemma_product_exchanged(a, b);
    let pr = product_of(a.exp, a.center, b.exp, b.center);
    let (base, other) = (charge_ladder(a, b, c, a.l + b.l), charge_ladder(b, a, c, b.l + a.l));
    assert(base == other);
    let u = |m: int| base[m];
    let (ab, ba) = (difference(a.center, b.center), difference(b.center, a.center));
    let (x, y) = (
        charge_steps(charge_input(a, b, c), ab),
        charge_steps(charge_input(b, a, c), ba),
    );
    let o = origin();
    assert forall|k: int| 0 <= k < 3 implies are_exchanged(#[trigger] x(k), y(k)) by {
        lemma_between(pr.p_center[k], a.center[k], b.center[k]);
        lemma_between(pr.p_center[k], b.center[k], a.center[k]);
    }
    let (x2, y2) = (along(x, u, ca, cb, o, o, 2), along(y, u, cb, ca, o, o, 2));
    assert(are_exchanged(x(2), y(2)) && are_exchanged(x(1), y(1)) && are_exchanged(x(0), y(0)));
    lemma_tower_exchanged(x(2), y(2), u, ca.2, cb.2);
    let x1 = along(x, x2, ca, cb, o, o, 1);
    lemma_tower_exchanged(x(1), y(1), x2, ca.1, cb.1);
    lemma_tower_exchanged(x(0), y(0), x1, ca.0, cb.0);
    assert((|m: int| other[m]) =~= u);
}

/// The attraction of two primitives to the charges.
spec fn attraction_of<T: Real>(charges: Seq<(Vec3<T>, T)>) -> PairValue<T> {
    |a: Prim<T>, b: Prim<T>, ca: Powers, cb: Powers|
        sum_before(
            |n: int| T::prod(T::neg(charges[n].1), attraction_value(a, b, charges[n].0, ca, cb)),
            charges.len() as int,
        )
}

/// The attractions to the first charges, one after another, are their sum.
proof fn lemma_attracted<T: Real>(
    old: Seq<T>,
    a: Prim<T>,
    b: Prim<T>,
    charges: Seq<(Vec3<T>, T)>,
    n: int,
    w: T,
    k: int,
)
    requires
        is_ring::<T>(),
        0 <= n <= charges.len(),
        0 <= k < old.len(),
    ensures
        ({
            let (ca, cb) = pair_at(a.l as int, b.l as int, k);
            let f = |n: int|
                T::prod(T::neg(charges[n].1), attraction_value(a, b, charges[n].0, ca, cb));
            &&& attracted(old, a, b, charges, n, w).len() == old.len()
            &&& attracted(old, a, b, charges, n, w)[k] == (if k < block_size(
                a.l as int,
                b.l as int,
            ) {
                T::sum(old[k], T::prod(w, sum_before(f, n)))
            } else {
                old[k]
            })
        }),
    decreases n,
{
    let (ca, cb) = pair_at(a.l as int, b.l as int, k);
    let f = |n: int| T::prod(T::neg(charges[n].1), attraction_value(a, b, charges[n].0, ca, cb));
    if n > 0 {
        lemma_attracted(old, a, b, charges, n - 1, w, k);
        let v = attraction_value(a, b, charges[n - 1].0, ca, cb);
        lemma_ring_factors(w, T::neg(charges[n - 1].1), v);
        lemma_ring_factors(w, sum_before(f, n - 1), f(n - 1));
        lemma_ring_sums(old[k], T::prod(w, sum_before(f, n - 1)), T::prod(w, f(n - 1)));
        assert(charge_entries(a, b, charges[n - 1], w)(k) == T::prod(w, f(n - 1)));
    } else {
        lemma_ring_sums(w, w, w);
        lemma_ring_sums(old[k], old[k], old[k]);
    }
}

proof fn lemma_attraction_adds<T: Real>(charges: Seq<(Vec3<T>, T)>)
    requires
        is_ring::<T>(),
    ensures
        adds_values(nuclear_step(charges), attraction_of(charges)),
{
    let n = charges.len() as int;
    assert forall|old: Seq<T>, a: Prim<T>, b: Prim<T>, w: T| #[trigger]
        nuclear_step(charges)(old, a, b, w) == added(
            old,
            block_size(a.l as int, b.l as int),
            entries_of(attraction_of(charges), a, b, w),
        ) by {
        let left = attracted(old, a, b, charges, n, w);
        let right = added(
            old,
            block_size(a.l as int, b.l as int),
            entries_of(attraction_of(charges), a, b, w),
        );
        lemma_attracted_len(old, a, b, charges, n, w);
        assert forall|k: int| 0 <= k < old.len() implies left[k] == right[k] by {
            lemma_attracted(old, a, b, charges, n, w, k);
        }
        assert(left =~= right);
    }
}

proof fn lemma_attracted_len<T: Real>(
    old: Seq<T>,
    a: Prim<T>,
    b: Prim<T>,
    charges: Seq<(Vec3<T>, T)>,
    n: int,
    w: T,
)
    ensures
        attracted(old, a, b, charges, n, w).len() == old.len(),
    decreases n,
{
    if n > 0 {
        lemma_attracted_len(old, a, b, charges, n - 1, w);
    }
}

/// The matrix of the attraction is symmetric, in any commutative ring in which counts add
/// up.
pub proof fn law_nuclear_is_symmetric<T: Real>(
    charges: Seq<(Vec3<T>, T)>,
    shells: Seq<Shell<T>>,
    x: At,
    y: At,
)
    requires
        is_ring::<T>(),
        counts_exactly::<T>(),
        is_function(function_counts(shells), x),
        is_function(function_counts(shells), y),
        shells[x.0].valid(),
        shells[y.0].valid(),
    ensures
        pair_entries(nuclear_step(charges), shells)(x, y) == pair_entries(
            nuclear_step(charges),
            shells,
        )(y, x),
{
    let (a, b) = (shells[x.0], shells[y.0]);
    let one = T::count(1);
    let value = attraction_of(charges);
    lemma_attraction_adds(charges);
    assert forall|i: int, j: int, ca: Powers, cb: Powers|
        0 <= i < a.exponents@.len() && 0 <= j < b.exponents@.len() && is_component(
            ca,
            a.l as int,
        ) && is_component(cb, b.l as int) implies #[trigger] value(
        a.primitive(i),
        b.primitive(j),
        ca,
        cb,
    ) == T::prod(one, value(b.primitive(j), a.primitive(i), cb, ca)) by {
        let (pa, pb) = (a.primitive(i), b.primitive(j));
        let f = |n: int|
            T::prod(T::neg(charges[n].1), attraction_value(pb, pa, charges[n].0, cb, ca));
        let g = |n: int|
            T::prod(T::neg(charges[n].1), attraction_value(pa, pb, charges[n].0, ca, cb));
        assert forall|n: int| 0 <= n < charges.len() implies #[trigger] g(n) == f(n) by {
            law_attraction_is_symmetric(pa, pb, charges[n].0, ca, cb);
        }
        lemma_same_sum(f, g, charges.len() as int);
        let v = value(pb, pa, cb, ca);
        lemma_ring_sums(v, v, v);
    }
    lemma_entries_transposed(nuclear_step(charges), value, one, shells, x, y);
    let v = pair_entries(nuclear_step(charges), shells)(y, x);
    lemma_ring_sums(v, v, v);
}

/// At every point the entry of two functions is the negative of their attraction to a
/// unit charge there, in either order, in any commutative ring in which counts add up and
/// factors may be moved out of quotients.
pub proof fn law_grid_is_the_negated_attraction_in_either_order<T: Real>(
    shells: Seq<Shell<T>>,
    c: Vec3<T>,
    x: At,
    y: At,
)
    requires
        is_ring::<T>(),
        counts_exactly::<T>(),
        divides_factors::<T>(),
        is_function(function_counts(shells), x),
        is_function(function_counts(shells), y),
        shells[x.0].valid(),
        shells[y.0].valid(),
    ensures
        grid_entry(shells, c, None, x, y) == T::neg(
            pair_entries(nuclear_step(seq![(c, T::count(1))]), shells)(x, y),
        ),
{
    law_grid_is_the_negated_attraction(shells, c, x, y);
    law_nuclear_is_symmetric(seq![(c, T::count(1))], shells, x, y);
}

} // verus!
