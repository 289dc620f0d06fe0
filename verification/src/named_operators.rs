//! What the matrices of the named operators hold.
//!
//! Of a linear function on Gaussians, a product of factors leaves the function with the
//! factors applied to its argument, the last one first. The named operators are such
//! products.
use vstd::prelude::*;

use crate::commutators::{behind, lemma_behind, lemma_overlaps_read, read, Reading};
use crate::engine::operator::{
    applied, expansion, momenta, phase_of, sign_scalar, term_value, terms_value, Factor, Operator,
};
use crate::engine::os::{overlap_value, Prim};
use crate::engine::os_eri::MAX_L;
use crate::engine::pairs::{difference, Vec3};
use crate::exact::{
    is_ring, lemma_negative_factor, lemma_ring_factors, lemma_ring_negatives, lemma_ring_sums,
};
use crate::math::am::Powers;
use crate::momentum_symmetry::lemma_operator_adds;
use crate::one_electron::pair_entries;
use crate::operator::operator_step;
use crate::pair_values::{value_step, PairValue};
use crate::scalar::{Real, Scalar};
use crate::shell::Shell;
use crate::tensor::At;

verus! {

/// The values on what the first `n` factors make of Gaussians.
pub open spec fn through<T: Scalar>(
    factors: Seq<Factor>,
    beta: T,
    bo: Vec3<T>,
    v: Reading<T>,
    n: int,
) -> Reading<T>
    decreases n,
{
    if n <= 0 {
        v
    } else {
        behind(factors[n - 1], beta, bo, through(factors, beta, bo, v, n - 1))
    }
}

/// The overlap of a Gaussian with a product of factors applied to another.
pub open spec fn product_value<T: Real>(factors: Seq<Factor>, o: Vec3<T>) -> PairValue<T> {
    |a: Prim<T>, b: Prim<T>, ca: Powers, cb: Powers|
        through(
            factors,
            b.exp,
            difference(b.center, o),
            |m: Powers| overlap_value(a, b, ca, m),
            factors.len() as int,
        )(cb)
}

/// A multiple of a value.
pub open spec fn scaled_value<T: Real>(c: T, value: PairValue<T>) -> PairValue<T> {
    |a: Prim<T>, b: Prim<T>, ca: Powers, cb: Powers| T::prod(c, value(a, b, ca, cb))
}

/// The value on what the factors make of a Gaussian.
proof fn lemma_through<T: Scalar>(
    factors: Seq<Factor>,
    beta: T,
    bo: Vec3<T>,
    v: Reading<T>,
    m: Powers,
    k: int,
)
    requires
        is_ring::<T>(),
        0 <= k <= factors.len(),
    ensures
        ({
            let list = expansion(factors, beta, bo, m, k);
            let n = factors.len() as int;
            read(list, through(factors, beta, bo, v, k), list.len() as int) == through(
                factors,
                beta,
                bo,
                v,
                n,
            )(m)
        }),
    decreases factors.len() - k,
{
    let list = expansion(factors, beta, bo, m, k);
    let w = through(factors, beta, bo, v, k);
    if k == factors.len() {
        assert(list == seq![(m, T::count(1))]);
        reveal_with_fuel(read, 2);
        lemma_ring_sums(w(m), w(m), w(m));
    } else {
        lemma_through(factors, beta, bo, v, m, k + 1);
        let src = expansion(factors, beta, bo, m, k + 1);
        assert(list == applied(factors[k], beta, bo, src, src.len() as int));
        lemma_behind(factors[k], beta, bo, w, src, src.len() as int);
    }
}

/// What a term adds to the part of its phase.
proof fn lemma_term<T: Real>(
    start: T,
    coeff: T,
    factors: Seq<Factor>,
    o: Vec3<T>,
    a: Prim<T>,
    b: Prim<T>,
    scale: T,
    ca: Powers,
    cb: Powers,
)
    requires
        is_ring::<T>(),
    ensures
        ({
            let phase = phase_of(momenta(factors, factors.len() as int));
            term_value(start, (coeff, factors), o, a, b, scale, phase.0, ca, cb) == T::sum(
                start,
                T::prod(
                    scale,
                    T::prod(
                        T::prod(sign_scalar::<T>(phase.1), coeff),
                        product_value(factors, o)(a, b, ca, cb),
                    ),
                ),
            )
        }),
{
    let phase = phase_of(momenta(factors, factors.len() as int));
    let bo = difference(b.center, o);
    let list = expansion(factors, b.exp, bo, cb, 0);
    let v = |m: Powers| overlap_value(a, b, ca, m);
    let sign = sign_scalar::<T>(phase.1);
    let w = T::prod(T::prod(scale, sign), coeff);
    lemma_overlaps_read(start, w, a, b, ca, list, list.len() as int);
    lemma_through(factors, b.exp, bo, v, cb, 0);
    let value = product_value(factors, o)(a, b, ca, cb);
    lemma_ring_factors(scale, sign, coeff);
    lemma_ring_factors(scale, T::prod(sign, coeff), value);
}

/// The matrix of an operator of one product of factors holds the overlaps with the factors
/// applied to the second function, the last one first, times the coefficient and one
/// imaginary unit for every momentum: in the imaginary part where these are odd in number,
/// and negative where two or three of four are left.
pub proof fn law_product_of_factors<T: Real>(
    coeff: T,
    factors: Seq<Factor>,
    o: Vec3<T>,
    shells: Seq<Shell<T>>,
    x: At,
    y: At,
)
    requires
        is_ring::<T>(),
        0 <= x.0 < shells.len(),
        0 <= y.0 < shells.len(),
        shells[x.0].valid(),
        shells[y.0].valid(),
    ensures
        ({
            let n = momenta(factors, factors.len() as int);
            let c = if n % 4 >= 2 {
                T::neg(coeff)
            } else {
                coeff
            };
            pair_entries(operator_step(seq![(coeff, factors)], o, n % 2 == 1), shells)(x, y)
                == pair_entries(value_step(scaled_value(c, product_value(factors, o))), shells)(
                x,
                y,
            )
        }),
{
    let n = momenta(factors, factors.len() as int);
    let imag = n % 2 == 1;
    let terms = seq![(coeff, factors)];
    let c = if n % 4 >= 2 {
        T::neg(coeff)
    } else {
        coeff
    };
    lemma_ring_sums(coeff, coeff, coeff);
    lemma_negative_factor(T::count(1), coeff);
    let value = scaled_value(c, product_value(factors, o));
    assert forall|start: T, a: Prim<T>, b: Prim<T>, scale: T, ca: Powers, cb: Powers|
        0 <= ca.0 <= MAX_L && 0 <= ca.1 <= MAX_L && 0 <= ca.2 <= MAX_L && 0 <= cb.0 <= MAX_L && 0
            <= cb.1 <= MAX_L && 0 <= cb.2 <= MAX_L implies #[trigger] terms_value(
        start,
        terms,
        o,
        a,
        b,
        scale,
        imag,
        ca,
        cb,
        terms.len() as int,
    ) == T::sum(start, T::prod(scale, value(a, b, ca, cb))) by {
        reveal_with_fuel(terms_value, 2);
        lemma_term(start, coeff, factors, o, a, b, scale, ca, cb);
    }
    lemma_operator_adds(terms, o, imag, value, shells, x, y);
}

/// The matrix of an operator of one product of factors.
proof fn lemma_one_term<T: Real>(
    factors: Seq<Factor>,
    o: Vec3<T>,
    imag: bool,
    shells: Seq<Shell<T>>,
    x: At,
    y: At,
)
    requires
        is_ring::<T>(),
        phase_of(momenta(factors, factors.len() as int)) == (imag, false),
        0 <= x.0 < shells.len(),
        0 <= y.0 < shells.len(),
        shells[x.0].valid(),
        shells[y.0].valid(),
    ensures
        pair_entries(operator_step(seq![(T::count(1), factors)], o, imag), shells)(x, y)
            == pair_entries(value_step(product_value(factors, o)), shells)(x, y),
{
    let terms = seq![(T::count(1), factors)];
    let value = product_value(factors, o);
    assert forall|start: T, a: Prim<T>, b: Prim<T>, scale: T, ca: Powers, cb: Powers|
        0 <= ca.0 <= MAX_L && 0 <= ca.1 <= MAX_L && 0 <= ca.2 <= MAX_L && 0 <= cb.0 <= MAX_L && 0
            <= cb.1 <= MAX_L && 0 <= cb.2 <= MAX_L implies #[trigger] terms_value(
        start,
        terms,
        o,
        a,
        b,
        scale,
        imag,
        ca,
        cb,
        terms.len() as int,
    ) == T::sum(start, T::prod(scale, value(a, b, ca, cb))) by {
        reveal_with_fuel(terms_value, 2);
        lemma_term(start, T::count(1), factors, o, a, b, scale, ca, cb);
        let v = value(a, b, ca, cb);
        lemma_ring_sums(v, v, v);
        lemma_ring_sums(T::count(1), v, v);
    }
    lemma_operator_adds(terms, o, imag, value, shells, x, y);
}

/// The operator that the momentum along an axis is has the overlaps with the momentum along
/// that axis applied to the second function as its imaginary part.
pub proof fn law_momentum<T: Real>(
    axis: usize,
    op: Operator<T>,
    shells: Seq<Shell<T>>,
    x: At,
    y: At,
)
    requires
        is_ring::<T>(),
        call_ensures(Operator::<T>::momentum, (axis,), op),
        0 <= x.0 < shells.len(),
        0 <= y.0 < shells.len(),
        shells[x.0].valid(),
        shells[y.0].valid(),
    ensures
        pair_entries(operator_step(op.shown(), op.origin, true), shells)(x, y) == pair_entries(
            value_step(product_value(seq![Factor::P(axis)], op.origin)),
            shells,
        )(x, y),
{
    let factors = seq![Factor::P(axis)];
    reveal_with_fuel(momenta, 2);
    assert(momenta(factors, 1) == 1);
    lemma_one_term(factors, op.origin, true, shells, x, y);
}

/// The operator that the dipole along an axis about an origin is has the overlaps with the
/// position along that axis about the origin applied to the second function.
pub proof fn law_dipole<T: Real>(
    axis: usize,
    origin: Vec3<T>,
    op: Operator<T>,
    shells: Seq<Shell<T>>,
    x: At,
    y: At,
)
    requires
        is_ring::<T>(),
        call_ensures(Operator::<T>::dipole, (axis, origin), op),
        0 <= x.0 < shells.len(),
        0 <= y.0 < shells.len(),
        shells[x.0].valid(),
        shells[y.0].valid(),
    ensures
        pair_entries(operator_step(op.shown(), op.origin, false), shells)(x, y) == pair_entries(
            value_step(product_value(seq![Factor::R(axis)], origin)),
            shells,
        )(x, y),
{
    let factors = seq![Factor::R(axis)];
    reveal_with_fuel(momenta, 2);
    assert(momenta(factors, 1) == 0);
    lemma_one_term(factors, origin, false, shells, x, y);
}

/// The operator that the second moment along two axes about an origin is has the overlaps
/// with the positions along both axes about the origin applied to the second function.
pub proof fn law_quadrupole<T: Real>(
    i: usize,
    j: usize,
    origin: Vec3<T>,
    op: Operator<T>,
    shells: Seq<Shell<T>>,
    x: At,
    y: At,
)
    requires
        is_ring::<T>(),
        call_ensures(Operator::<T>::quadrupole, (i, j, origin), op),
        0 <= x.0 < shells.len(),
        0 <= y.0 < shells.len(),
        shells[x.0].valid(),
        shells[y.0].valid(),
    ensures
        pair_entries(operator_step(op.shown(), op.origin, false), shells)(x, y) == pair_entries(
            value_step(product_value(seq![Factor::R(i), Factor::R(j)], origin)),
            shells,
        )(x, y),
{
    let factors = seq![Factor::R(i), Factor::R(j)];
    reveal_with_fuel(momenta, 3);
    assert(momenta(factors, 2) == 0);
    lemma_one_term(factors, origin, false, shells, x, y);
}

/// The component along an axis of the cross product of position and momentum.
pub open spec fn cross_value<T: Real>(axis: int, o: Vec3<T>) -> PairValue<T> {
    let (j, k) = (((axis + 1) % 3) as usize, ((axis + 2) % 3) as usize);
    |a: Prim<T>, b: Prim<T>, ca: Powers, cb: Powers|
        T::diff(
            product_value(seq![Factor::R(j), Factor::P(k)], o)(a, b, ca, cb),
            product_value(seq![Factor::R(k), Factor::P(j)], o)(a, b, ca, cb),
        )
}

/// The operator that the angular momentum along an axis about an origin is has the
/// component of the cross product of position and momentum along that axis, applied to the
/// second function, as its imaginary part. An axis beyond the third is taken as the third.
pub proof fn law_angular_momentum<T: Real>(
    axis: usize,
    origin: Vec3<T>,
    op: Operator<T>,
    shells: Seq<Shell<T>>,
    x: At,
    y: At,
)
    requires
        is_ring::<T>(),
        call_ensures(Operator::<T>::angular_momentum, (axis, origin), op),
        0 <= x.0 < shells.len(),
        0 <= y.0 < shells.len(),
        shells[x.0].valid(),
        shells[y.0].valid(),
    ensures
        pair_entries(operator_step(op.shown(), op.origin, true), shells)(x, y) == pair_entries(
            value_step(
                cross_value(
                    if axis < 3 {
                        axis as int
                    } else {
                        2
                    },
                    origin,
                ),
            ),
            shells,
        )(x, y),
{
    let l = if axis < 3 {
        axis as int
    } else {
        2
    };
    let (j, k) = (((l + 1) % 3) as usize, ((l + 2) % 3) as usize);
    let (fs, gs) = (seq![Factor::R(j), Factor::P(k)], seq![Factor::R(k), Factor::P(j)]);
    let minus = T::neg(T::count(1));
    let terms = seq![(T::count(1), fs), (minus, gs)];
    assert(op.shown() =~= terms);
    let value = cross_value(l, origin);
    reveal_with_fuel(momenta, 3);
    assert(momenta(fs, 2) == 1 && momenta(gs, 2) == 1);
    assert(phase_of(1) == (true, false));
    assert forall|start: T, a: Prim<T>, b: Prim<T>, scale: T, ca: Powers, cb: Powers|
        0 <= ca.0 <= MAX_L && 0 <= ca.1 <= MAX_L && 0 <= ca.2 <= MAX_L && 0 <= cb.0 <= MAX_L && 0
            <= cb.1 <= MAX_L && 0 <= cb.2 <= MAX_L implies #[trigger] terms_value(
        start,
        terms,
        origin,
        a,
        b,
        scale,
        true,
        ca,
        cb,
        terms.len() as int,
    ) == T::sum(start, T::prod(scale, value(a, b, ca, cb))) by {
        reveal_with_fuel(terms_value, 3);
        let mid = terms_value(start, terms, origin, a, b, scale, true, ca, cb, 1);
        lemma_term(start, T::count(1), fs, origin, a, b, scale, ca, cb);
        lemma_term(mid, minus, gs, origin, a, b, scale, ca, cb);
        lemma_ring_sums(T::count(1), minus, minus);
        lemma_ring_sums(minus, minus, minus);
        let p = product_value(fs, origin)(a, b, ca, cb);
        let q = product_value(gs, origin)(a, b, ca, cb);
        lemma_ring_sums(p, p, p);
        lemma_negative_factor(T::count(1), q);
        lemma_ring_sums(q, q, q);
        lemma_ring_negatives(p, q);
        lemma_ring_factors(scale, p, T::neg(q));
        lemma_ring_sums(start, T::prod(scale, p), T::prod(scale, T::neg(q)));
    }
    lemma_operator_adds(terms, origin, true, value, shells, x, y);
}

} // verus!
