//! Translation invariance of the gradients of the overlap and of the kinetic energy.
//!
//! The integral of two primitives depends on the difference of their centers alone, so its
//! derivatives with respect to the two are opposite.
use vstd::prelude::*;

use crate::engine::deriv::derivative_entries;
use crate::engine::invariance::{has_product, lemma_overlap_invariant};
use crate::engine::kinetic_invariance::lemma_kinetic_invariant;
use crate::engine::os::{
    block_size, kinetic_value, lemma_block_bounds, lemma_pair_at, overlap_value, pair_at, Prim,
};
use crate::engine::os_eri::MAX_L;
use crate::engine::triples::{power, shifted};
use crate::exact::{
    counts_exactly, is_ring, lemma_ring_factors, lemma_ring_negatives, lemma_ring_sums,
    lemma_ring_unique, sum_before,
};
use crate::flat::{added, cell, lemma_index_parts, lemma_pair_in_range, lemma_pair_parts, pair};
use crate::grad::matrix::{gradient_entry, landed};
use crate::grad::one_electron::{fixed_term, lemma_landed_sum};
use crate::grad::pair::{at_momentum, derivative_step, lowered_pair, pair_axis, raised_pair, zeros};
use crate::grid_attraction::lemma_negative_axis;
use crate::math::am::{
    cart_count, cart_position, component_at, is_component, law_every_position_is_taken,
    law_positions_order_components, Powers,
};
use crate::one_electron::{contracted_pair, kinetic_step, overlap_step, pair_entries, PairStep};
use crate::pair_values::{
    adds, entries_of, kinetic_of, lemma_kinetic_adds, lemma_overlap_adds, overlap_of, PairValue,
};
use crate::scalar::{Real, Scalar};
use crate::shell::{atom_of, function_counts, Shell};
use crate::spherical::{contracted_axis, shell_matrix};
use crate::tensor::{is_function, At};

verus! {

/// An entry of a block.
proof fn lemma_block_entry<T: Real>(
    step: PairStep<T>,
    value: PairValue<T>,
    a: Prim<T>,
    b: Prim<T>,
    w: T,
    ca: Powers,
    cb: Powers,
)
    requires
        is_ring::<T>(),
        adds(step, value),
        a.l <= MAX_L,
        b.l <= MAX_L,
        is_component(ca, a.l as int),
        is_component(cb, b.l as int),
    ensures
        ({
            let (la, lb) = (a.l as int, b.l as int);
            let block = step(zeros(block_size(la, lb)), a, b, w);
            block[pair(cart_position(ca), cart_count(lb), cart_position(cb))] == T::prod(
                w,
                value(a, b, ca, cb),
            )
        }),
{
    let (la, lb) = (a.l as int, b.l as int);
    law_positions_order_components(ca, ca, la);
    law_positions_order_components(cb, cb, lb);
    let (ia, ib) = (cart_position(ca), cart_position(cb));
    lemma_block_bounds(la, lb);
    lemma_pair_at(la, lb, ia, ib);
    law_every_position_is_taken(la, ia);
    law_every_position_is_taken(lb, ib);
    law_positions_order_components(ca, component_at(la, ia), la);
    law_positions_order_components(cb, component_at(lb, ib), lb);
    let v = T::prod(w, value(a, b, ca, cb));
    lemma_ring_sums(v, v, v);
    let old = zeros::<T>(block_size(la, lb));
    assert(step(old, a, b, w) == added(old, block_size(la, lb), entries_of(value, a, b, w)));
}

/// What one component adds to a derivative: twice the exponent times the raised integral,
/// less the power times the lowered one.
spec fn slope<T: Real>(
    value: PairValue<T>,
    a: Prim<T>,
    b: Prim<T>,
    ca: Powers,
    cb: Powers,
    k: int,
    ket: bool,
) -> T {
    if ket {
        T::diff(
            T::prod(T::prod(T::count(2), b.exp), value(a, b, ca, shifted(cb, k, 1))),
            T::prod(T::count(power(cb, k) as u64), value(a, b, ca, shifted(cb, k, -1))),
        )
    } else {
        T::diff(
            T::prod(T::prod(T::count(2), a.exp), value(a, b, shifted(ca, k, 1), cb)),
            T::prod(T::count(power(ca, k) as u64), value(a, b, shifted(ca, k, -1), cb)),
        )
    }
}

/// Whether the derivatives of two primitives with respect to their centers are opposite.
spec fn balanced<T: Real>(value: PairValue<T>, a: Prim<T>, b: Prim<T>) -> bool {
    forall|ca: Powers, cb: Powers, k: int|
        0 <= k < 3 && 0 <= power(ca, k) <= MAX_L && 0 <= power(cb, k) <= MAX_L ==> T::sum(
            #[trigger] slope(value, a, b, ca, cb, k, false),
            slope(value, a, b, ca, cb, k, true),
        ) == T::count(0)
}

/// Two differences whose first and second terms have the same sum.
proof fn lemma_differences<T: Scalar>(u: T, x: T, v: T, y: T)
    requires
        is_ring::<T>(),
        T::sum(u, v) == T::sum(x, y),
    ensures
        T::sum(T::diff(u, x), T::diff(v, y)) == T::count(0),
{
    let (mx, my) = (T::neg(x), T::neg(y));
    lemma_ring_negatives(u, x);
    lemma_ring_negatives(v, y);
    lemma_ring_negatives(x, y);
    lemma_ring_sums(T::sum(u, mx), v, my);
    lemma_ring_sums(u, mx, v);
    lemma_ring_sums(T::sum(u, v), mx, my);
    lemma_ring_negatives(T::sum(x, y), x);
}

proof fn lemma_overlap_balanced<T: Real>(a: Prim<T>, b: Prim<T>)
    requires
        is_ring::<T>(),
        counts_exactly::<T>(),
        has_product(a.exp, b.exp),
    ensures
        balanced(overlap_of(), a, b),
{
    assert forall|ca: Powers, cb: Powers, k: int|
        0 <= k < 3 && 0 <= power(ca, k) <= MAX_L && 0 <= power(cb, k) <= MAX_L implies T::sum(
        #[trigger] slope(overlap_of(), a, b, ca, cb, k, false),
        slope(overlap_of(), a, b, ca, cb, k, true),
    ) == T::count(0) by {
        lemma_overlap_invariant(a, b, ca, cb, k);
        lemma_differences(
            T::prod(T::prod(T::count(2), a.exp), overlap_value(a, b, shifted(ca, k, 1), cb)),
            T::prod(T::count(power(ca, k) as u64), overlap_value(a, b, shifted(ca, k, -1), cb)),
            T::prod(T::prod(T::count(2), b.exp), overlap_value(a, b, ca, shifted(cb, k, 1))),
            T::prod(T::count(power(cb, k) as u64), overlap_value(a, b, ca, shifted(cb, k, -1))),
        );
    }
}

proof fn lemma_kinetic_balanced<T: Real>(a: Prim<T>, b: Prim<T>)
    requires
        is_ring::<T>(),
        counts_exactly::<T>(),
        has_product(a.exp, b.exp),
    ensures
        balanced(kinetic_of(), a, b),
{
    assert forall|ca: Powers, cb: Powers, k: int|
        0 <= k < 3 && 0 <= power(ca, k) <= MAX_L && 0 <= power(cb, k) <= MAX_L implies T::sum(
        #[trigger] slope(kinetic_of(), a, b, ca, cb, k, false),
        slope(kinetic_of(), a, b, ca, cb, k, true),
    ) == T::count(0) by {
        lemma_kinetic_invariant(a, b, ca, cb, k);
        lemma_differences(
            T::prod(T::prod(T::count(2), a.exp), kinetic_value(a, b, shifted(ca, k, 1), cb)),
            T::prod(T::count(power(ca, k) as u64), kinetic_value(a, b, shifted(ca, k, -1), cb)),
            T::prod(T::prod(T::count(2), b.exp), kinetic_value(a, b, ca, shifted(cb, k, 1))),
            T::prod(T::count(power(cb, k) as u64), kinetic_value(a, b, ca, shifted(cb, k, -1))),
        );
    }
}

proof fn lemma_no_power<T: Scalar>(up: T, low: T)
    requires
        is_ring::<T>(),
    ensures
        T::diff(up, T::prod(T::count(0), low)) == up,
{
    crate::exact::lemma_ring_commute(T::count(0), low);
    lemma_ring_sums(low, low, low);
    lemma_ring_negatives(up, T::count(0));
    lemma_ring_negatives(T::count(0), T::count(0));
    lemma_ring_sums(up, up, up);
}

/// The entries of the derivative of a block.
proof fn lemma_derivative_entry<T: Real>(
    step: PairStep<T>,
    value: PairValue<T>,
    a: Prim<T>,
    b: Prim<T>,
    scale: T,
    axis: int,
    ket: bool,
    k: int,
)
    requires
        is_ring::<T>(),
        adds(step, value),
        a.l < MAX_L,
        b.l < MAX_L,
        0 <= axis < 3,
        0 <= k < block_size(a.l as int, b.l as int),
    ensures
        ({
            let (ca, cb) = pair_at(a.l as int, b.l as int, k);
            derivative_entries(
                pair_axis(a.l as int, b.l as int, ket, axis),
                scale,
                raised_pair(step, a, b, ket),
                lowered_pair(step, a, b, ket),
            )(k) == T::prod(scale, slope(value, a, b, ca, cb, axis, ket))
        }),
{
    let (la, lb) = (a.l as int, b.l as int);
    let (na, nb) = (cart_count(la), cart_count(lb));
    lemma_block_bounds(la, lb);
    lemma_block_bounds(la + 1, lb + 1);
    lemma_index_parts(k, na, nb);
    let (ia, ib) = (k / nb, k % nb);
    let (ca, cb) = pair_at(la, lb, k);
    lemma_pair_at(la, lb, ia, ib);
    law_every_position_is_taken(la, ia);
    law_every_position_is_taken(lb, ib);
    let two = T::count(2);
    let one = T::count(1);
    if ket {
        assert(k / 1 == k && k % 1 == 0);
        let up = shifted(cb, axis, 1);
        let w = T::prod(two, b.exp);
        lemma_block_entry(step, value, a, at_momentum(b, lb + 1), w, ca, up);
        let at = pair(ia, cart_count(lb + 1), cart_position(up));
        assert(cell(ia, cart_count(lb + 1), cart_position(up), 1, 0) == at);
        assert(value(a, at_momentum(b, lb + 1), ca, up) == value(a, b, ca, up));
        if power(cb, axis) >= 1 {
            let low = shifted(cb, axis, -1);
            lemma_block_bounds(la, lb - 1);
            lemma_block_entry(step, value, a, at_momentum(b, lb - 1), one, ca, low);
            assert(value(a, at_momentum(b, lb - 1), ca, low) == value(
                a,
                b,
                ca,
                low,
            ));
            let v = value(a, b, ca, low);
            lemma_ring_sums(v, v, v);
            assert(cell(ia, cart_count(lb - 1), cart_position(low), 1, 0) == pair(
                ia,
                cart_count(lb - 1),
                cart_position(low),
            ));
        } else {
            lemma_no_power(
                T::prod(w, value(a, b, ca, up)),
                value(a, b, ca, shifted(cb, axis, -1)),
            );
        }
    } else {
        assert(ia / na == 0 && ia % na == ia) by {
            lemma_pair_parts(0, na, ia);
            assert(pair(0, na, ia) == ia);
        }
        let up = shifted(ca, axis, 1);
        let w = T::prod(two, a.exp);
        lemma_block_entry(step, value, at_momentum(a, la + 1), b, w, up, cb);
        assert(cell(0, cart_count(la + 1), cart_position(up), nb, ib) == pair(
            cart_position(up),
            nb,
            ib,
        ));
        assert(value(at_momentum(a, la + 1), b, up, cb) == value(a, b, up, cb));
        if power(ca, axis) >= 1 {
            let low = shifted(ca, axis, -1);
            lemma_block_bounds(la - 1, lb);
            lemma_block_entry(step, value, at_momentum(a, la - 1), b, one, low, cb);
            assert(value(at_momentum(a, la - 1), b, low, cb) == value(
                a,
                b,
                low,
                cb,
            ));
            let v = value(a, b, low, cb);
            lemma_ring_sums(v, v, v);
            assert(cell(0, cart_count(la - 1), cart_position(low), nb, ib) == pair(
                cart_position(low),
                nb,
                ib,
            ));
        } else {
            lemma_no_power(
                T::prod(w, value(a, b, up, cb)),
                value(a, b, shifted(ca, axis, -1), cb),
            );
        }
    }
}

/// Whether every primitive of one shell has a product with every primitive of another.
pub open spec fn have_products<T: Real>(a: Shell<T>, b: Shell<T>) -> bool {
    forall|i: int, j: int|
        0 <= i < a.exponents@.len() && 0 <= j < b.exponents@.len() ==> has_product(
            #[trigger] a.exponents@[i],
            #[trigger] b.exponents@[j],
        )
}

/// Whether the derivatives of all pairs of primitives are opposite.
spec fn all_balanced<T: Real>(value: PairValue<T>, a: Shell<T>, b: Shell<T>) -> bool {
    forall|i: int, j: int|
        0 <= i < a.exponents@.len() && 0 <= j < b.exponents@.len() ==> #[trigger] balanced(
            value,
            a.primitive(i),
            b.primitive(j),
        )
}

/// The Cartesian derivatives with respect to both centers are opposite.
proof fn lemma_opposite_blocks<T: Real>(
    step: PairStep<T>,
    value: PairValue<T>,
    a: Shell<T>,
    b: Shell<T>,
    axis: int,
    i: int,
    j: int,
    k: int,
)
    requires
        is_ring::<T>(),
        adds(step, value),
        a.valid(),
        b.valid(),
        a.l < MAX_L,
        b.l < MAX_L,
        all_balanced(value, a, b),
        0 <= axis < 3,
        0 <= k < block_size(a.l as int, b.l as int),
        0 <= i,
        0 <= j <= b.exponents@.len(),
        i < a.exponents@.len() || i == a.exponents@.len() && j == 0,
    ensures
        ({
            let bra = contracted_pair(
                derivative_step(step, false, axis),
                a,
                b,
                i,
                j,
            );
            let ket = contracted_pair(derivative_step(step, true, axis), a, b, i, j);
            &&& bra.len() == block_size(a.l as int, b.l as int)
            &&& ket.len() == block_size(a.l as int, b.l as int)
            &&& T::sum(bra[k], ket[k]) == T::count(0)
        }),
    decreases i, j,
{
    let sb = derivative_step(step, false, axis);
    let sk = derivative_step(step, true, axis);
    lemma_block_bounds(a.l as int, b.l as int);
    if j > 0 {
        lemma_opposite_blocks(step, value, a, b, axis, i, j - 1, k);
        let (pa, pb) = (a.primitive(i), b.primitive(j - 1));
        let scale = T::prod(a.effective(i), b.effective(j - 1));
        let (u, v) = (
            contracted_pair(sb, a, b, i, j - 1)[k],
            contracted_pair(sk, a, b, i, j - 1)[k],
        );
        lemma_derivative_entry(step, value, pa, pb, scale, axis, false, k);
        lemma_derivative_entry(step, value, pa, pb, scale, axis, true, k);
        let (la, lb) = (a.l as int, b.l as int);
        let (ca, cb) = pair_at(la, lb, k);
        lemma_index_parts(k, cart_count(la), cart_count(lb));
        lemma_pair_at(la, lb, k / cart_count(lb), k % cart_count(lb));
        assert(balanced(value, pa, pb));
        law_every_position_is_taken(la, k / cart_count(lb));
        law_every_position_is_taken(lb, k % cart_count(lb));
        let (x, y) = (
            slope(value, pa, pb, ca, cb, axis, false),
            slope(value, pa, pb, ca, cb, axis, true),
        );
        lemma_ring_factors(scale, x, y);
        lemma_ring_sums(scale, scale, scale);
        let (sx, sy) = (T::prod(scale, x), T::prod(scale, y));
        assert(T::sum(sx, sy) == T::count(0));
        lemma_ring_sums(T::sum(u, sx), v, sy);
        lemma_ring_sums(u, sx, v);
        lemma_ring_sums(T::sum(u, v), sx, sy);
        lemma_ring_sums(T::count(0), T::count(0), T::count(0));
    } else if i > 0 {
        lemma_opposite_blocks(step, value, a, b, axis, i - 1, b.exponents@.len() as int, k);
    } else {
        lemma_ring_sums(T::count(0), T::count(0), T::count(0));
    }
}

/// The derivatives of an entry with respect to its two centers are opposite.
proof fn lemma_opposite_entries<T: Real>(
    step: PairStep<T>,
    value: PairValue<T>,
    shells: Seq<Shell<T>>,
    axis: int,
    x: At,
    y: At,
)
    requires
        is_ring::<T>(),
        adds(step, value),
        is_function(function_counts(shells), x),
        is_function(function_counts(shells), y),
        shells[x.0].valid(),
        shells[y.0].valid(),
        shells[x.0].l < MAX_L,
        shells[y.0].l < MAX_L,
        all_balanced(value, shells[x.0], shells[y.0]),
        0 <= axis < 3,
    ensures
        T::sum(
            pair_entries(derivative_step(step, false, axis), shells)(x, y),
            pair_entries(derivative_step(step, true, axis), shells)(x, y),
        ) == T::count(0),
{
    let (a, b) = (shells[x.0], shells[y.0]);
    let (na, nb) = (cart_count(a.l as int), cart_count(b.l as int));
    let (fa, fb) = (a.functions(), b.functions());
    let (ma, mb) = (
        shell_matrix::<T>(a.kind, a.l as int),
        shell_matrix::<T>(b.kind, b.l as int),
    );
    let m = a.exponents@.len() as int;
    let bra = contracted_pair(derivative_step(step, false, axis), a, b, m, 0);
    let ket = contracted_pair(derivative_step(step, true, axis), a, b, m, 0);
    let size = block_size(a.l as int, b.l as int);
    lemma_block_bounds(a.l as int, b.l as int);
    lemma_opposite_blocks(step, value, a, b, axis, m, 0, 0);
    assert forall|k: int| 0 <= k < bra.len() implies #[trigger] ket[k] == T::neg(bra[k]) by {
        lemma_opposite_blocks(step, value, a, b, axis, m, 0, k);
        lemma_ring_unique(bra[k], ket[k]);
    }
    assert(1 * na * nb == na * nb);
    assert(1 * fa * nb == fa * nb);
    assert(fa * nb * 1 == fa * nb);
    assert(fa * fb * 1 == fa * fb);
    lemma_negative_axis(ma, fa, bra, ket, 1, na, nb);
    lemma_negative_axis(
        mb,
        fb,
        contracted_axis(ma, fa, bra, 1, na, nb),
        contracted_axis(ma, fa, ket, 1, na, nb),
        fa,
        nb,
        1,
    );
    lemma_pair_in_range(x.1, fa, fb, y.1);
    let u = pair_entries(derivative_step(step, false, axis), shells)(x, y);
    lemma_ring_negatives(u, u);
}

/// The derivatives of an overlap with respect to its two centers are opposite, in any
/// commutative ring in which counts add up and the sums of exponents can be divided by.
pub proof fn law_overlap_derivatives_are_opposite<T: Real>(
    shells: Seq<Shell<T>>,
    axis: int,
    x: At,
    y: At,
)
    requires
        is_ring::<T>(),
        counts_exactly::<T>(),
        is_function(function_counts(shells), x),
        is_function(function_counts(shells), y),
        shells[x.0].valid(),
        shells[y.0].valid(),
        shells[x.0].l < MAX_L,
        shells[y.0].l < MAX_L,
        have_products(shells[x.0], shells[y.0]),
        0 <= axis < 3,
    ensures
        T::sum(
            pair_entries(derivative_step(overlap_step::<T>(), false, axis), shells)(x, y),
            pair_entries(derivative_step(overlap_step::<T>(), true, axis), shells)(x, y),
        ) == T::count(0),
{
    let (a, b) = (shells[x.0], shells[y.0]);
    lemma_overlap_adds::<T>();
    assert forall|i: int, j: int|
        0 <= i < a.exponents@.len() && 0 <= j < b.exponents@.len() implies #[trigger] balanced(
        overlap_of(),
        a.primitive(i),
        b.primitive(j),
    ) by {
        assert(has_product(a.exponents@[i], b.exponents@[j]));
        lemma_overlap_balanced(a.primitive(i), b.primitive(j));
    }
    lemma_opposite_entries(overlap_step::<T>(), overlap_of(), shells, axis, x, y);
}

/// The derivatives of a kinetic energy with respect to its two centers are opposite, in any
/// commutative ring in which counts add up and the sums of exponents can be divided by.
pub proof fn law_kinetic_derivatives_are_opposite<T: Real>(
    shells: Seq<Shell<T>>,
    axis: int,
    x: At,
    y: At,
)
    requires
        is_ring::<T>(),
        counts_exactly::<T>(),
        is_function(function_counts(shells), x),
        is_function(function_counts(shells), y),
        shells[x.0].valid(),
        shells[y.0].valid(),
        shells[x.0].l < MAX_L,
        shells[y.0].l < MAX_L,
        have_products(shells[x.0], shells[y.0]),
        0 <= axis < 3,
    ensures
        T::sum(
            pair_entries(derivative_step(kinetic_step::<T>(), false, axis), shells)(x, y),
            pair_entries(derivative_step(kinetic_step::<T>(), true, axis), shells)(x, y),
        ) == T::count(0),
{
    let (a, b) = (shells[x.0], shells[y.0]);
    lemma_kinetic_adds::<T>();
    assert forall|i: int, j: int|
        0 <= i < a.exponents@.len() && 0 <= j < b.exponents@.len() implies #[trigger] balanced(
        kinetic_of(),
        a.primitive(i),
        b.primitive(j),
    ) by {
        assert(has_product(a.exponents@[i], b.exponents@[j]));
        lemma_kinetic_balanced(a.primitive(i), b.primitive(j));
    }
    lemma_opposite_entries(kinetic_step::<T>(), kinetic_of(), shells, axis, x, y);
}

/// Opposite derivatives with respect to two centers sum to zero over the atoms.
proof fn lemma_gradient_sum<T: Real>(
    step: PairStep<T>,
    shells: Seq<Shell<T>>,
    natom: int,
    axis: int,
    x: At,
    y: At,
)
    requires
        is_ring::<T>(),
        0 <= atom_of(shells, x.0) < natom,
        0 <= atom_of(shells, y.0) < natom,
        T::sum(
            pair_entries(derivative_step(step, false, axis), shells)(x, y),
            pair_entries(derivative_step(step, true, axis), shells)(x, y),
        ) == T::count(0),
    ensures
        sum_before(
            |c: int| gradient_entry(fixed_term(step), shells, c, axis, x, y, 1),
            natom,
        ) == T::count(0),
{
    let terms = fixed_term(step);
    let bra = pair_entries(derivative_step(step, false, axis), shells)(x, y);
    let ket = pair_entries(derivative_step(step, true, axis), shells)(x, y);
    let (ca, cb) = (atom_of(shells, x.0), atom_of(shells, y.0));
    let one = T::count(1);
    let z = T::count(0);
    let f0 = |c: int| z;
    let f1 = |c: int| landed(f0(c), ca == c, one, bra);
    let f2 = |c: int| landed(f1(c), cb == c, one, ket);
    let g = |c: int| gradient_entry(terms, shells, c, axis, x, y, 1);
    reveal_with_fuel(gradient_entry, 2);
    lemma_ring_sums(bra, ket, ket);
    lemma_ring_sums(ket, bra, bra);
    lemma_landed_sum(f0, f1, ca, one, bra, natom);
    lemma_landed_sum(f1, f2, cb, one, ket, natom);
    crate::exact::lemma_zero_sum(f0, natom);
    assert forall|c: int| 0 <= c < natom implies #[trigger] g(c) == f2(c) by {
        assert(terms[0] == (step, None::<int>));
    }
    crate::exact::lemma_same_sum(f2, g, natom);
}

/// The derivatives of an entry of the overlap with respect to all atoms sum to zero.
pub proof fn law_overlap_gradient_is_translation_invariant<T: Real>(
    shells: Seq<Shell<T>>,
    natom: int,
    axis: int,
    x: At,
    y: At,
)
    requires
        is_ring::<T>(),
        counts_exactly::<T>(),
        is_function(function_counts(shells), x),
        is_function(function_counts(shells), y),
        shells[x.0].valid(),
        shells[y.0].valid(),
        shells[x.0].l < MAX_L,
        shells[y.0].l < MAX_L,
        have_products(shells[x.0], shells[y.0]),
        0 <= axis < 3,
        0 <= atom_of(shells, x.0) < natom,
        0 <= atom_of(shells, y.0) < natom,
    ensures
        sum_before(
            |c: int|
                gradient_entry(fixed_term(overlap_step::<T>()), shells, c, axis, x, y, 1),
            natom,
        ) == T::count(0),
{
    law_overlap_derivatives_are_opposite(shells, axis, x, y);
    lemma_gradient_sum(overlap_step::<T>(), shells, natom, axis, x, y);
}

/// The derivatives of an entry of the kinetic energy with respect to all atoms sum to zero.
pub proof fn law_kinetic_gradient_is_translation_invariant<T: Real>(
    shells: Seq<Shell<T>>,
    natom: int,
    axis: int,
    x: At,
    y: At,
)
    requires
        is_ring::<T>(),
        counts_exactly::<T>(),
        is_function(function_counts(shells), x),
        is_function(function_counts(shells), y),
        shells[x.0].valid(),
        shells[y.0].valid(),
        shells[x.0].l < MAX_L,
        shells[y.0].l < MAX_L,
        have_products(shells[x.0], shells[y.0]),
        0 <= axis < 3,
        0 <= atom_of(shells, x.0) < natom,
        0 <= atom_of(shells, y.0) < natom,
    ensures
        sum_before(
            |c: int|
                gradient_entry(fixed_term(kinetic_step::<T>()), shells, c, axis, x, y, 1),
            natom,
        ) == T::count(0),
{
    law_kinetic_derivatives_are_opposite(shells, axis, x, y);
    lemma_gradient_sum(kinetic_step::<T>(), shells, natom, axis, x, y);
}

} // verus!
