//! The harmonic of degree zero, and what its integrals with the others are.
//!
//! About its own center a function meets only the harmonic of degree zero of the expansion
//! of the exponential. Without rounding its square times the area of the unit sphere is
//! one.
use vstd::prelude::*;

use crate::ecp::angular::{
    harmonic_values, local_angle, local_sum, projected_angle, projected_sum,
};
use crate::ecp::harmonics::{
    binomial, column, derived_times, double_integral, evaluated, harmonic, harmonic_norm, legendre,
    legendre_coefficient, sign_of, single_integral, sphere_integral, term_integral, Term,
};
use crate::engine::pairs::Vec3;
use crate::exact::{
    counts_exactly, is_ring, lemma_ring_commute, lemma_ring_factors, lemma_ring_sums,
};
use crate::math::harmonic_products::raises_exactly;
use crate::math::rotation::{
    divides_by_units, has_inverse, inverts_counts, lemma_cancelled, lemma_one_is_a_unit,
    lemma_units, lemma_zero_factor,
};
use crate::math::solid_harmonics::vanishes;
use crate::scalar::{fraction, Real, Scalar};

verus! {

/// Whether counts, quotients, powers, roots, the exponential and comparisons with zero are
/// those of the real numbers, as far as the integrals of a potential about its own center
/// need them.
pub open spec fn calculates_exactly<T: Real>() -> bool {
    &&& is_ring::<T>()
    &&& counts_exactly::<T>()
    &&& raises_exactly::<T>()
    &&& divides_by_units::<T>()
    &&& inverts_counts::<T>(u64::MAX as int)
    &&& has_inverse(T::circle())
    &&& T::count(1) != T::count(0)
    &&& forall|a: T| #[trigger] vanishes(a) <==> a == T::count(0)
    &&& T::root(T::count(0)) == T::count(0)
    &&& forall|a: T|
        T::le(T::count(0), a) ==> T::prod(#[trigger] T::root(a), T::root(a)) == a
    &&& T::expo(T::count(0)) == T::count(1)
    &&& is_not_negative::<T>()
    &&& T::lt(T::count(0), T::count(100))
    &&& !T::lt(fraction::<T>(1, 1000000000000), T::count(0))
}

/// Whether counts, the circle constant, and products and quotients of what is not negative
/// are not negative.
pub open spec fn is_not_negative<T: Real>() -> bool {
    &&& forall|n: u64| T::le(T::count(0), #[trigger] T::count(n))
    &&& T::le(T::count(0), T::circle())
    &&& forall|a: T, b: T|
        T::le(T::count(0), a) && T::le(T::count(0), b) ==> T::le(
            T::count(0),
            #[trigger] T::prod(a, b),
        )
    &&& forall|a: T, b: T|
        T::le(T::count(0), a) && T::le(T::count(0), b) ==> T::le(
            T::count(0),
            #[trigger] T::quot(a, b),
        )
}

/// Division by one.
pub proof fn lemma_over_one<T: Scalar>(a: T)
    requires
        is_ring::<T>(),
        divides_by_units::<T>(),
    ensures
        T::quot(a, T::count(1)) == a,
{
    lemma_one_is_a_unit::<T>();
    let q = T::quot(a, T::count(1));
    assert(T::prod(T::count(1), q) == a);
    lemma_ring_sums(q, q, q);
}

/// Nothing divided.
pub proof fn lemma_nothing_over<T: Scalar>(s: T)
    requires
        is_ring::<T>(),
        divides_by_units::<T>(),
        has_inverse(s),
    ensures
        T::quot(T::count(0), s) == T::count(0),
{
    let q = T::quot(T::count(0), s);
    assert(T::prod(s, q) == T::count(0));
    lemma_ring_sums(s, s, s);
    lemma_cancelled(s, q, T::count(0));
}

/// The area of the unit sphere.
pub open spec fn sphere_area<T: Real>() -> T {
    T::prod(T::count(4), T::circle())
}

/// The value of the harmonic of degree zero.
pub open spec fn monopole<T: Real>() -> T {
    harmonic_norm::<T>(0, 0)
}

/// The harmonic of degree zero is a constant, whose square times the area of the unit
/// sphere is one.
pub proof fn lemma_monopole<T: Real>()
    requires
        calculates_exactly::<T>(),
    ensures
        harmonic::<T>(0, 0) == seq![(monopole::<T>(), [0usize, 0usize, 0usize])],
        T::prod(T::prod(monopole::<T>(), monopole::<T>()), sphere_area::<T>()) == T::count(1),
        !vanishes(monopole::<T>()),
        has_inverse(sphere_area::<T>()),
{
    let (one, zero) = (T::count(1), T::count(0));
    let y = monopole::<T>();
    lemma_ring_sums(one, one, one);
    assert(T::raised(fraction::<T>(1, 2), 0) == one);
    assert(binomial::<T>(0, 0) == one);
    assert(sign_of::<T>(false) == one);
    assert(legendre_coefficient::<T>(0, 0) == one);
    let c = derived_times(legendre::<T>(0), 0);
    assert(c == legendre::<T>(0));
    assert(c.len() == 1 && c[0] == one);
    reveal_with_fuel(column, 2);
    lemma_ring_commute(y, one);
    lemma_ring_sums(y, y, y);
    assert(!vanishes(one));
    assert(harmonic::<T>(0, 0) =~= seq![(y, [0usize, 0usize, 0usize])]);
    let area = sphere_area::<T>();
    assert(has_inverse(T::count(4)));
    lemma_units(T::count(4), T::circle());
    let q = T::quot(one, area);
    assert(T::prod(area, q) == one);
    assert(T::le(zero, one));
    assert(T::le(zero, T::count(4)));
    assert(T::le(zero, area));
    assert(T::le(zero, q));
    assert(T::prod(y, y) == q);
    lemma_ring_commute(q, area);
    if vanishes(y) {
        lemma_ring_sums(y, y, y);
        lemma_zero_factor(area);
        assert(false);
    }
}

/// The values of the harmonic of degree zero.
proof fn lemma_monopole_values<T: Real>(u: Vec3<T>)
    requires
        calculates_exactly::<T>(),
    ensures
        harmonic_values(0, u) == seq![monopole::<T>()],
{
    let y = monopole::<T>();
    lemma_monopole::<T>();
    let h = harmonic::<T>(0, 0);
    reveal_with_fuel(evaluated, 2);
    assert(T::raised(u[0], 0) == T::count(1));
    assert(T::raised(u[1], 0) == T::count(1));
    assert(T::raised(u[2], 0) == T::count(1));
    lemma_ring_commute(y, T::count(1));
    lemma_ring_sums(y, y, y);
    assert(evaluated(h, u, 1) == y);
    assert(harmonic_values(0, u) =~= seq![y]);
}

/// The integral of a harmonic with that of degree zero and a monomial.
proof fn lemma_with_monopole<T: Real>(p: Seq<Term<T>>, t: (int, int, int), n: int)
    requires
        calculates_exactly::<T>(),
        0 <= n <= p.len(),
        0 <= t.0,
        0 <= t.1,
        0 <= t.2,
    ensures
        double_integral(p, harmonic::<T>(0, 0), t, n) == T::prod(
            monopole::<T>(),
            single_integral(p, t, n),
        ),
    decreases n,
{
    let y = monopole::<T>();
    lemma_monopole::<T>();
    if n <= 0 {
        lemma_ring_sums(y, y, y);
    } else {
        lemma_with_monopole(p, t, n - 1);
        let (c, m) = p[n - 1];
        let before = single_integral(p, t, n - 1);
        reveal_with_fuel(term_integral, 2);
        let s = sphere_integral::<T>(t.0 + m[0], t.1 + m[1], t.2 + m[2]);
        lemma_ring_commute(c, y);
        lemma_ring_factors(y, c, s);
        lemma_ring_factors(y, before, T::prod(c, s));
        lemma_ring_sums(c, c, c);
        lemma_ring_sums(before, before, before);
    }
}

/// The integral of the harmonic of degree zero with a monomial.
pub proof fn lemma_monopole_integral<T: Real>(t: (int, int, int))
    requires
        calculates_exactly::<T>(),
    ensures
        single_integral(harmonic::<T>(0, 0), t, 1) == T::prod(
            monopole::<T>(),
            sphere_integral::<T>(t.0, t.1, t.2),
        ),
{
    lemma_monopole::<T>();
    reveal_with_fuel(single_integral, 2);
    let v = T::prod(monopole::<T>(), sphere_integral::<T>(t.0, t.1, t.2));
    lemma_ring_sums(v, v, v);
}

/// The angular integral of degree zero of a local potential.
pub proof fn lemma_local_angle<T: Real>(ltot: int, t: (int, int, int), u: Vec3<T>)
    requires
        calculates_exactly::<T>(),
        0 <= t.0,
        0 <= t.1,
        0 <= t.2,
        t.0 + t.1 + t.2 == ltot,
    ensures
        local_angle(ltot, 0, t, u) == T::prod(
            T::prod(monopole::<T>(), monopole::<T>()),
            sphere_integral::<T>(t.0, t.1, t.2),
        ),
{
    let y = monopole::<T>();
    let s = sphere_integral::<T>(t.0, t.1, t.2);
    lemma_monopole::<T>();
    lemma_monopole_values(u);
    lemma_monopole_integral::<T>(t);
    reveal_with_fuel(local_sum, 2);
    lemma_ring_factors(y, y, s);
    let v = T::prod(y, T::prod(y, s));
    lemma_ring_sums(v, v, v);
    if ltot % 2 == 1 {
        assert(t.0 % 2 == 1 || t.1 % 2 == 1 || t.2 % 2 == 1);
        assert(s == T::count(0));
        let yy = T::prod(y, y);
        lemma_ring_sums(yy, yy, yy);
    }
}

/// The angular integral of degree zero of a projector on one side.
pub proof fn lemma_projected_angle<T: Real>(
    l: int,
    m: int,
    lside: int,
    t: (int, int, int),
    u: Vec3<T>,
)
    requires
        calculates_exactly::<T>(),
        0 <= l,
        0 <= t.0,
        0 <= t.1,
        0 <= t.2,
        t.0 + t.1 + t.2 == lside,
    ensures
        projected_angle(l, m, lside, 0, t, u) == (if lside < l || (l + lside) % 2 == 1 {
            T::count(0)
        } else {
            T::prod(
                T::prod(monopole::<T>(), monopole::<T>()),
                single_integral(harmonic::<T>(l, m), t, harmonic::<T>(l, m).len() as int),
            )
        }),
{
    let y = monopole::<T>();
    let p = harmonic::<T>(l, m);
    let s = single_integral(p, t, p.len() as int);
    lemma_monopole::<T>();
    lemma_monopole_values(u);
    lemma_with_monopole(p, t, p.len() as int);
    reveal_with_fuel(projected_sum, 2);
    lemma_ring_factors(y, y, s);
    let v = T::prod(y, T::prod(y, s));
    lemma_ring_sums(v, v, v);
}

} // verus!
