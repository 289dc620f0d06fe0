//! Overlaps of monomials of one degree, and the rotation about the third axis.
//!
//! The weight of the overlap does not change under the rotation, so the derivative along it
//! is moved from one side of an overlap to the other with the opposite sign.
use vstd::prelude::*;

use crate::engine::invariance::lemma_interchange;
use crate::exact::{
    counts_exactly, is_ring, lemma_negative_factor, lemma_ring_commute, lemma_ring_difference,
    lemma_ring_factors, lemma_ring_negatives, lemma_ring_sums, lemma_ring_unique, lemma_same_sum,
    lemma_sum_of_sums, lemma_zero_sum, sum_before,
};
use crate::math::am::{
    cart_count, component_at, is_component, law_every_position_is_taken,
    law_positions_order_components, lemma_triangle_grows, lemma_triangle_step, triangle, Powers,
};
use crate::math::harmonic_rotation::{lemma_moved_sum, slid};
use crate::math::norm::{descending_product, odd_factorial, primitive_norm};
use crate::math::rotation::{
    divides_by_units, has_inverse, integer, inverts_counts, lemma_cancelled,
    lemma_integer_multiples, lemma_one_is_a_unit, lemma_units, lemma_zero_factor,
};
use crate::math::solid_harmonics::{line_moment, raw_factor, raw_overlap};
use crate::scalar::{Real, Scalar};
use crate::transposition::{lemma_scaled_sum, lemma_sums_exchanged};

verus! {

/// Whether powers are repeated products.
pub open spec fn raises_exactly<T: Real>() -> bool {
    &&& forall|a: T| #[trigger] T::raised(a, 0) == T::count(1)
    &&& forall|a: T, n: u64|
        n < u64::MAX ==> #[trigger] T::raised(a, (n + 1) as u64) == T::prod(a, T::raised(a, n))
}

/// A double factorial that starts from a multiple.
proof fn lemma_descending<T: Scalar>(n: int, c: T, acc: T)
    requires
        is_ring::<T>(),
    ensures
        descending_product(n, T::prod(c, acc)) == T::prod(c, descending_product(n, acc)),
    decreases n,
{
    if n > 1 {
        let k = T::count(n as u64);
        lemma_ring_factors(c, acc, k);
        lemma_descending(n - 2, c, T::prod(acc, k));
    }
}

/// The double factorial, by its first factor.
pub proof fn lemma_odd_factorial<T: Scalar>(n: int)
    requires
        is_ring::<T>(),
        n >= 1,
    ensures
        odd_factorial::<T>(n) == T::prod(T::count(n as u64), odd_factorial::<T>(n - 2)),
{
    let (one, k) = (T::count(1), T::count(n as u64));
    lemma_ring_commute(one, k);
    lemma_ring_sums(one, one, one);
    if n > 1 {
        lemma_descending(n - 2, k, one);
    }
}

/// A power of a number with an inverse has one.
proof fn lemma_power_is_a_unit<T: Real>(a: T, n: u64)
    requires
        is_ring::<T>(),
        raises_exactly::<T>(),
        has_inverse(a),
    ensures
        has_inverse(T::raised(a, n)),
    decreases n,
{
    if n == 0 {
        lemma_one_is_a_unit::<T>();
    } else {
        lemma_power_is_a_unit::<T>(a, (n - 1) as u64);
        lemma_units(a, T::raised(a, (n - 1) as u64));
        assert(T::raised(a, ((n - 1) as u64 + 1) as u64) == T::prod(
            a,
            T::raised(a, (n - 1) as u64),
        ));
    }
}

/// The integral of a power over the line, at the exponent of an overlap.
pub open spec fn moment<T: Real>(n: int) -> T {
    line_moment::<T>(n, T::count(2))
}

/// Twice the exponent of an overlap.
pub open spec fn twice_the_exponent<T: Scalar>() -> T {
    T::prod(T::count(2), T::count(2))
}

/// Neighbouring moments.
proof fn lemma_moments<T: Real>(n: int)
    requires
        is_ring::<T>(),
        divides_by_units::<T>(),
        raises_exactly::<T>(),
        inverts_counts::<T>(2),
        0 <= n <= 0xffff_ffff,
    ensures
        has_inverse(twice_the_exponent::<T>()),
        T::prod(twice_the_exponent::<T>(), moment::<T>(n + 1)) == T::prod(
            integer::<T>(n),
            moment::<T>(n - 1),
        ),
{
    let four = twice_the_exponent::<T>();
    assert(has_inverse(T::count(2)));
    lemma_units(T::count(2), T::count(2));
    if n % 2 == 0 {
        lemma_zero_factor(four);
        lemma_zero_factor(integer::<T>(n));
        assert((n - 1) % 2 == 1);
    } else {
        let e = ((n - 1) / 2) as u64;
        let d = T::raised(four, e);
        lemma_power_is_a_unit(four, e);
        lemma_units(four, d);
        assert((n + 1) / 2 == e + 1);
        assert(T::raised(four, (e + 1) as u64) == T::prod(four, d));
        let z = odd_factorial::<T>(n - 2);
        let k = T::count(n as u64);
        lemma_odd_factorial::<T>(n);
        let p = T::quot(T::prod(k, z), T::prod(four, d));
        let q = T::quot(z, d);
        // d (4 p) == k z == d (k q)
        assert(T::prod(T::prod(four, d), p) == T::prod(k, z));
        assert(T::prod(d, q) == z);
        lemma_ring_factors(four, d, p);
        lemma_ring_factors(d, four, p);
        lemma_ring_factors(k, d, q);
        lemma_cancelled(d, T::prod(four, p), T::prod(k, q));
        let r = T::root(T::quot(T::circle(), T::count(2)));
        lemma_ring_factors(four, p, r);
        lemma_ring_factors(k, q, r);
    }
}

/// The rotation leaves the weight of an overlap as it is.
proof fn lemma_weight<T: Real>(l: int, c: Powers, d: Powers)
    requires
        is_ring::<T>(),
        counts_exactly::<T>(),
        divides_by_units::<T>(),
        raises_exactly::<T>(),
        inverts_counts::<T>(2),
        is_component(c, l),
        is_component(d, l),
        l <= 0xff_ffff,
    ensures
        T::prod(integer::<T>(c.1 + d.1), raw_overlap::<T>(l, slid(c, 1), d)) == T::prod(
            integer::<T>(c.0 + d.0),
            raw_overlap::<T>(l, slid(c, -1), d),
        ),
{
    let (a, b) = (c.0 + d.0, c.1 + d.1);
    let (ia, ib) = (integer::<T>(a), integer::<T>(b));
    let (au, al) = (moment::<T>(a + 1), moment::<T>(a - 1));
    let (bu, bl) = (moment::<T>(b + 1), moment::<T>(b - 1));
    let four = twice_the_exponent::<T>();
    lemma_moments::<T>(a);
    lemma_moments::<T>(b);
    // 4 (b (au bl)) == (a al)(b bl) == 4 (a (al bu))
    let (x, y) = (T::prod(ib, T::prod(au, bl)), T::prod(ia, T::prod(al, bu)));
    lemma_ring_factors(four, ib, T::prod(au, bl));
    lemma_ring_factors(four, au, bl);
    lemma_ring_factors(ib, T::prod(ia, al), bl);
    lemma_ring_factors(four, ia, T::prod(al, bu));
    lemma_ring_factors(four, al, bu);
    lemma_ring_factors(ia, al, T::prod(ib, bl));
    lemma_ring_factors(ib, four, T::prod(au, bl));
    lemma_ring_factors(ia, four, T::prod(al, bu));
    assert(T::prod(four, x) == T::prod(T::prod(ia, al), T::prod(ib, bl)));
    assert(T::prod(four, y) == T::prod(ia, T::prod(al, T::prod(ib, bl))));
    lemma_cancelled(four, x, y);
    let mz = moment::<T>(c.2 + d.2);
    let w = primitive_norm(T::count(1), l, 0, 0);
    let s = T::prod(T::prod(T::raised(raw_factor::<T>(l), 2), w), w);
    lemma_ring_factors(ib, T::prod(au, bl), mz);
    lemma_ring_factors(ia, T::prod(al, bu), mz);
    lemma_ring_factors(s, ib, T::prod(T::prod(au, bl), mz));
    lemma_ring_factors(s, ia, T::prod(T::prod(al, bu), mz));
    assert(slid(c, 1).0 + d.0 == a + 1 && slid(c, 1).1 + d.1 == b - 1);
    assert(slid(c, -1).0 + d.0 == a - 1 && slid(c, -1).1 + d.1 == b + 1);
}

/// A value for every monomial.
pub type Form<T> = spec_fn(Powers) -> T;

/// The sum over the components of degree `l`.
pub open spec fn total<T: Scalar>(l: int, f: Form<T>) -> T {
    sum_before(|j: int| f(component_at(l, j)), cart_count(l))
}

/// The sum over the components with the power `l - s` of `x`.
spec fn row<T: Scalar>(l: int, f: Form<T>, s: int) -> T {
    sum_before(|z: int| f((l - s, s - z, z)), s + 1)
}

/// A sum over components, row by row.
proof fn lemma_rows<T: Scalar>(l: int, f: Form<T>, s: int, z: int)
    requires
        is_ring::<T>(),
        0 <= s <= l && 0 <= z <= s + 1 || s == l + 1 && z == 0,
        0 <= l,
    ensures
        sum_before(|j: int| f(component_at(l, j)), triangle(s) + z) == T::sum(
            sum_before(|s: int| row(l, f, s), s),
            sum_before(|z: int| f((l - s, s - z, z)), z),
        ),
    decreases s, z,
{
    let g = |j: int| f(component_at(l, j));
    let rows = |s: int| row(l, f, s);
    let here = |z: int| f((l - s, s - z, z));
    let before = sum_before(rows, s);
    lemma_triangle_step(s);
    lemma_triangle_step(s - 1);
    lemma_triangle_grows(0, s);
    if z > 0 {
        lemma_rows(l, f, s, z - 1);
        let at = triangle(s) + z - 1;
        let c: Powers = (l - s, s - (z - 1), z - 1);
        law_positions_order_components(c, c, l);
        law_every_position_is_taken(l, at);
        law_positions_order_components(c, component_at(l, at), l);
        lemma_ring_sums(before, sum_before(here, z - 1), here(z - 1));
    } else if s > 0 {
        lemma_rows(l, f, s - 1, s);
        lemma_ring_sums(before, before, before);
    } else {
        lemma_ring_sums(T::count(0), T::count(0), T::count(0));
    }
}

/// A sum over components, by rows.
proof fn lemma_total<T: Scalar>(l: int, f: Form<T>)
    requires
        is_ring::<T>(),
        0 <= l,
    ensures
        total(l, f) == sum_before(|s: int| row(l, f, s), l + 1),
{
    lemma_rows(l, f, l + 1, 0);
    let t = sum_before(|s: int| row(l, f, s), l + 1);
    lemma_ring_sums(t, t, t);
}

/// A sum moved by one term.
proof fn lemma_moved<T: Scalar>(f: spec_fn(int) -> T, g: spec_fn(int) -> T, n: int)
    requires
        is_ring::<T>(),
        0 <= n,
        forall|a: int| 0 <= a < n ==> #[trigger] g(a) == f(a + 1),
        f(0) == T::count(0),
        f(n) == T::count(0),
    ensures
        sum_before(g, n) == sum_before(f, n),
{
    lemma_moved_sum(f, g, n);
    lemma_ring_sums(sum_before(g, n), sum_before(g, n), sum_before(g, n));
    lemma_ring_sums(sum_before(f, n), sum_before(f, n), sum_before(f, n));
}

/// A sum of monomials moved from `x` to `y`.
proof fn lemma_slid_up<T: Scalar>(l: int, f: Form<T>)
    requires
        is_ring::<T>(),
        0 <= l,
        forall|c: Powers| c.1 == 0 || c.0 == -1 ==> #[trigger] f(c) == T::count(0),
    ensures
        total(l, |c: Powers| f(slid(c, -1))) == total(l, f),
{
    let g = |c: Powers| f(slid(c, -1));
    lemma_total(l, f);
    lemma_total(l, g);
    let rf = |s: int| row(l, f, s);
    let rg = |s: int| row(l, g, s);
    lemma_ring_sums(T::count(0), T::count(0), T::count(0));
    assert forall|s: int| 0 <= s < l + 1 implies #[trigger] rg(s) == rf(s + 1) by {
        let u = |z: int| f((l - (s + 1), s + 1 - z, z));
        let v = |z: int| g((l - s, s - z, z));
        assert forall|z: int| 0 <= z < s + 1 implies #[trigger] v(z) == u(z) by {
            assert(slid((l - s, s - z, z), -1) == (l - (s + 1), s + 1 - z, z));
        }
        lemma_same_sum(u, v, s + 1);
        assert(u(s + 1) == T::count(0));
        let t = sum_before(u, s + 1);
        lemma_ring_sums(t, t, t);
        assert(rf(s + 1) == sum_before(u, s + 1 + 1));
    }
    let none = |z: int| T::count(0);
    let last = |z: int| f((l - (l + 1), l + 1 - z, z));
    lemma_same_sum(none, last, l + 2);
    lemma_zero_sum(none, l + 2);
    assert(rf(l + 1) == T::count(0));
    let first = |z: int| f((l - 0, 0 - z, z));
    assert(first(0) == T::count(0));
    assert(sum_before(first, 0) == T::count(0));
    assert(sum_before(first, 1) == T::sum(sum_before(first, 0), first(0)));
    assert(rf(0) == T::count(0));
    lemma_moved(rf, rg, l + 1);
}

/// A sum of monomials moved from `y` to `x`.
proof fn lemma_slid_down<T: Scalar>(l: int, f: Form<T>)
    requires
        is_ring::<T>(),
        0 <= l,
        forall|c: Powers| c.0 == 0 || c.1 == -1 ==> #[trigger] f(c) == T::count(0),
    ensures
        total(l, |c: Powers| f(slid(c, 1))) == total(l, f),
{
    let g = |c: Powers| f(slid(c, 1));
    lemma_slid_up(l, g);
    let back = |c: Powers| g(slid(c, -1));
    assert(back =~= f) by {
        assert forall|c: Powers| #[trigger] back(c) == f(c) by {
            assert(slid(slid(c, -1), 1) == c);
        }
    }
}

/// Sums whose terms agree on the components.
pub proof fn lemma_same_total<T: Scalar>(l: int, f: Form<T>, g: Form<T>)
    requires
        0 <= l,
        forall|c: Powers| is_component(c, l) ==> #[trigger] g(c) == f(c),
    ensures
        total(l, g) == total(l, f),
{
    let (u, v) = (|j: int| f(component_at(l, j)), |j: int| g(component_at(l, j)));
    assert forall|j: int| 0 <= j < cart_count(l) implies #[trigger] v(j) == u(j) by {
        law_every_position_is_taken(l, j);
        assert(g(component_at(l, j)) == f(component_at(l, j)));
    }
    lemma_same_sum(u, v, cart_count(l));
}

/// A multiple of a sum over components.
pub proof fn lemma_scaled_total<T: Scalar>(l: int, s: T, f: Form<T>)
    requires
        is_ring::<T>(),
    ensures
        total(l, |c: Powers| T::prod(s, f(c))) == T::prod(s, total(l, f)),
{
    let g = |c: Powers| T::prod(s, f(c));
    lemma_scaled_sum(
        s,
        |j: int| f(component_at(l, j)),
        |j: int| g(component_at(l, j)),
        cart_count(l),
    );
}

/// The sum of two sums over components.
proof fn lemma_total_of_sums<T: Scalar>(l: int, f: Form<T>, g: Form<T>)
    requires
        is_ring::<T>(),
    ensures
        total(l, |c: Powers| T::sum(f(c), g(c))) == T::sum(total(l, f), total(l, g)),
{
    let h = |c: Powers| T::sum(f(c), g(c));
    let z = T::count(0);
    lemma_ring_sums::<T>(z, z, z);
    lemma_sum_of_sums(
        |j: int| f(component_at(l, j)),
        |j: int| g(component_at(l, j)),
        |j: int| h(component_at(l, j)),
        cart_count(l),
    );
}

/// The derivative of a form along the rotation.
pub open spec fn rotated<T: Scalar>(f: Form<T>) -> Form<T> {
    |c: Powers|
        T::diff(
            T::prod(integer::<T>(c.1 + 1), f(slid(c, -1))),
            T::prod(integer::<T>(c.0 + 1), f(slid(c, 1))),
        )
}

/// The derivative along the rotation on the other side of a sum.
pub open spec fn unrotated<T: Scalar>(w: Form<T>) -> Form<T> {
    |c: Powers|
        T::diff(
            T::prod(integer::<T>(c.1), w(slid(c, 1))),
            T::prod(integer::<T>(c.0), w(slid(c, -1))),
        )
}

/// Whether a form has no monomials with a negative power of `x` or `y`.
pub open spec fn is_whole_form<T: Scalar>(f: Form<T>) -> bool {
    forall|c: Powers| c.0 < 0 || c.1 < 0 ==> #[trigger] f(c) == T::count(0)
}

/// A difference times a factor, as a sum.
proof fn lemma_difference_times<T: Scalar>(a: T, b: T, w: T)
    requires
        is_ring::<T>(),
    ensures
        T::prod(w, T::diff(a, b)) == T::sum(T::prod(w, a), T::neg(T::prod(w, b))),
{
    lemma_ring_difference(w, a, b);
    lemma_ring_negatives(T::prod(w, a), T::prod(w, b));
}

/// The derivative along the rotation is moved to the other side of a sum.
proof fn lemma_adjoint<T: Scalar>(l: int, f: Form<T>, w: Form<T>)
    requires
        is_ring::<T>(),
        0 <= l,
        is_whole_form(f),
    ensures
        total(l, |c: Powers| T::prod(rotated(f)(c), w(c))) == total(
            l,
            |c: Powers| T::prod(f(c), unrotated(w)(c)),
        ),
{
    let up = |c: Powers| T::prod(T::prod(integer::<T>(c.1), f(c)), w(slid(c, 1)));
    let down = |c: Powers| T::prod(T::prod(integer::<T>(c.0), f(c)), w(slid(c, -1)));
    assert forall|c: Powers| c.1 == 0 || c.0 == -1 implies #[trigger] up(c) == T::count(0) by {
        lemma_zero_factor(f(c));
        lemma_zero_factor(integer::<T>(c.1));
        lemma_zero_factor(w(slid(c, 1)));
    }
    assert forall|c: Powers| c.0 == 0 || c.1 == -1 implies #[trigger] down(c) == T::count(0) by {
        lemma_zero_factor(f(c));
        lemma_zero_factor(integer::<T>(c.0));
        lemma_zero_factor(w(slid(c, -1)));
    }
    lemma_slid_up(l, up);
    lemma_slid_down(l, down);
    let (su, sd) = (|c: Powers| up(slid(c, -1)), |c: Powers| down(slid(c, 1)));
    let minus = T::neg(T::count(1));
    let (md, msd) = (
        |c: Powers| T::prod(minus, down(c)),
        |c: Powers| T::prod(minus, sd(c)),
    );
    lemma_scaled_total(l, minus, down);
    lemma_scaled_total(l, minus, sd);
    lemma_total_of_sums(l, up, md);
    lemma_total_of_sums(l, su, msd);
    let left = |c: Powers| T::prod(rotated(f)(c), w(c));
    let right = |c: Powers| T::prod(f(c), unrotated(w)(c));
    let one = T::count(1);
    assert forall|c: Powers| is_component(c, l) implies #[trigger] left(c) == T::sum(
        su(c),
        msd(c),
    ) by {
        let (a, b) = (
            T::prod(integer::<T>(c.1 + 1), f(slid(c, -1))),
            T::prod(integer::<T>(c.0 + 1), f(slid(c, 1))),
        );
        assert(slid(slid(c, -1), 1) == c && slid(slid(c, 1), -1) == c);
        lemma_ring_commute(T::diff(a, b), w(c));
        lemma_difference_times(a, b, w(c));
        lemma_ring_commute(w(c), a);
        lemma_ring_commute(w(c), b);
        let v = T::prod(b, w(c));
        lemma_negative_factor(one, v);
        lemma_ring_sums(v, v, v);
    }
    assert forall|c: Powers| is_component(c, l) implies #[trigger] right(c) == T::sum(
        up(c),
        md(c),
    ) by {
        let (a, b) = (
            T::prod(integer::<T>(c.1), w(slid(c, 1))),
            T::prod(integer::<T>(c.0), w(slid(c, -1))),
        );
        lemma_difference_times(a, b, f(c));
        lemma_ring_factors(integer::<T>(c.1), f(c), w(slid(c, 1)));
        lemma_ring_factors(integer::<T>(c.0), f(c), w(slid(c, -1)));
        let v = down(c);
        lemma_negative_factor(one, v);
        lemma_ring_sums(v, v, v);
    }
    lemma_same_total(l, |c: Powers| T::sum(su(c), msd(c)), left);
    lemma_same_total(l, |c: Powers| T::sum(up(c), md(c)), right);
}

/// A kernel over two monomials.
pub type Kernel<T> = spec_fn(Powers, Powers) -> T;

/// A form summed with a kernel at a monomial.
pub open spec fn summed<T: Scalar>(l: int, v: Kernel<T>, g: Form<T>, c: Powers) -> T {
    total(l, |d: Powers| T::prod(g(d), v(c, d)))
}

/// Two forms paired by a kernel.
pub open spec fn paired<T: Scalar>(l: int, v: Kernel<T>, f: Form<T>, g: Form<T>) -> T {
    total(l, |c: Powers| T::prod(f(c), summed(l, v, g, c)))
}

/// The two sides of a pairing may change places.
proof fn lemma_paired_exchanged<T: Scalar>(
    l: int,
    v: Kernel<T>,
    u: Kernel<T>,
    f: Form<T>,
    g: Form<T>,
)
    requires
        is_ring::<T>(),
        0 <= l,
        forall|c: Powers, d: Powers|
            is_component(c, l) && is_component(d, l) ==> #[trigger] u(d, c) == v(c, d),
    ensures
        paired(l, v, f, g) == paired(l, u, g, f),
{
    let n = cart_count(l);
    let at = |j: int| component_at(l, j);
    let h = |i: int, j: int| T::prod(f(at(i)), T::prod(g(at(j)), v(at(i), at(j))));
    let rows = |i: int| T::prod(f(at(i)), summed(l, v, g, at(i)));
    let columns = |j: int| T::prod(g(at(j)), summed(l, u, f, at(j)));
    assert forall|i: int| 0 <= i < n implies #[trigger] rows(i) == sum_before(
        |j: int| h(i, j),
        n,
    ) by {
        let a = |d: Powers| T::prod(g(d), v(at(i), d));
        lemma_scaled_sum(
            f(at(i)),
            |j: int| a(component_at(l, j)),
            |j: int| h(i, j),
            n,
        );
    }
    assert forall|j: int| 0 <= j < n implies #[trigger] columns(j) == sum_before(
        |i: int| h(i, j),
        n,
    ) by {
        let a = |c: Powers| T::prod(f(c), u(at(j), c));
        let x = |i: int| a(component_at(l, i));
        let y = |i: int| h(i, j);
        assert forall|i: int| 0 <= i < n implies #[trigger] y(i) == T::prod(g(at(j)), x(i)) by {
            law_every_position_is_taken(l, i);
            law_every_position_is_taken(l, j);
            assert(u(at(j), at(i)) == v(at(i), at(j)));
            lemma_ring_factors(g(at(j)), f(at(i)), v(at(i), at(j)));
        }
        lemma_scaled_sum(g(at(j)), x, y, n);
    }
    lemma_sums_exchanged(h, rows, columns, n, n);
    let p = |c: Powers| T::prod(f(c), summed(l, v, g, c));
    let q = |d: Powers| T::prod(g(d), summed(l, u, f, d));
    lemma_same_sum(rows, |i: int| p(component_at(l, i)), n);
    lemma_same_sum(columns, |i: int| q(component_at(l, i)), n);
}

/// Pairings whose inner sums agree.
pub proof fn lemma_paired_same<T: Scalar>(
    l: int,
    v: Kernel<T>,
    u: Kernel<T>,
    f: Form<T>,
    g: Form<T>,
    h: Form<T>,
    s: T,
)
    requires
        is_ring::<T>(),
        0 <= l,
        forall|c: Powers|
            is_component(c, l) ==> #[trigger] summed(l, v, g, c) == T::prod(
                s,
                summed(l, u, h, c),
            ),
    ensures
        paired(l, v, f, g) == T::prod(s, paired(l, u, f, h)),
{
    let p = |c: Powers| T::prod(f(c), summed(l, v, g, c));
    let q = |c: Powers| T::prod(f(c), summed(l, u, h, c));
    let r = |c: Powers| T::prod(s, q(c));
    assert forall|c: Powers| is_component(c, l) implies #[trigger] p(c) == r(c) by {
        assert(summed(l, v, g, c) == T::prod(s, summed(l, u, h, c)));
        lemma_ring_factors(s, f(c), summed(l, u, h, c));
    }
    lemma_same_total(l, r, p);
    lemma_scaled_total(l, s, q);
}

/// The overlap of two monomials as a kernel.
pub open spec fn overlap_kernel<T: Real>(l: int) -> Kernel<T> {
    |c: Powers, d: Powers| raw_overlap::<T>(l, c, d)
}

/// The overlap kernel with the derivative along the rotation on its second side.
spec fn turned_kernel<T: Real>(l: int) -> Kernel<T> {
    |c: Powers, d: Powers| unrotated(|e: Powers| raw_overlap::<T>(l, c, e))(d)
}

/// The derivatives of the overlap kernel on its two sides are opposite.
proof fn lemma_turned_kernel<T: Real>(l: int, c: Powers, d: Powers)
    requires
        is_ring::<T>(),
        counts_exactly::<T>(),
        divides_by_units::<T>(),
        raises_exactly::<T>(),
        inverts_counts::<T>(2),
        is_component(c, l),
        is_component(d, l),
        l <= 0xff_ffff,
    ensures
        turned_kernel::<T>(l)(c, d) == T::neg(turned_kernel::<T>(l)(d, c)),
{
    let (x, y) = (
        raw_overlap::<T>(l, slid(c, 1), d),
        raw_overlap::<T>(l, slid(c, -1), d),
    );
    assert(raw_overlap::<T>(l, c, slid(d, 1)) == x && raw_overlap::<T>(l, d, slid(c, 1)) == x);
    assert(raw_overlap::<T>(l, c, slid(d, -1)) == y && raw_overlap::<T>(l, d, slid(c, -1)) == y);
    lemma_weight::<T>(l, c, d);
    lemma_integer_multiples::<T>(c.1, d.1, x);
    lemma_integer_multiples::<T>(c.0, d.0, y);
    let (cx, dx) = (T::prod(integer::<T>(c.1), x), T::prod(integer::<T>(d.1), x));
    let (cy, dy) = (T::prod(integer::<T>(c.0), y), T::prod(integer::<T>(d.0), y));
    // cx + dx == cy + dy gives dx - dy == -(cx - cy)
    assert(T::sum(cx, dx) == T::sum(cy, dy));
    lemma_opposed(cx, dx, cy, dy);
    assert(turned_kernel::<T>(l)(c, d) == T::diff(dx, dy));
    assert(turned_kernel::<T>(l)(d, c) == T::diff(cx, cy));
}

/// Differences of equal sums.
proof fn lemma_opposed<T: Scalar>(a: T, b: T, c: T, d: T)
    requires
        is_ring::<T>(),
        T::sum(a, b) == T::sum(c, d),
    ensures
        T::diff(b, d) == T::neg(T::diff(a, c)),
{
    let (mc, md) = (T::neg(c), T::neg(d));
    lemma_ring_negatives(b, d);
    lemma_ring_negatives(a, c);
    lemma_ring_negatives(c, d);
    lemma_ring_negatives(T::sum(c, d), d);
    lemma_interchange(a, mc, b, md);
    lemma_ring_negatives(T::diff(a, c), T::diff(b, d));
    assert(T::sum(T::sum(a, mc), T::sum(b, md)) == T::sum(T::sum(a, b), T::sum(mc, md)));
    lemma_ring_unique(T::diff(a, c), T::diff(b, d));
}

/// The derivative along the rotation moves from one side of an overlap to the other with
/// the opposite sign, in any commutative ring in which counts add up, powers are repeated
/// products and two has an inverse.
pub proof fn law_rotation_is_antisymmetric<T: Real>(l: int, f: Form<T>, g: Form<T>)
    requires
        is_ring::<T>(),
        counts_exactly::<T>(),
        divides_by_units::<T>(),
        raises_exactly::<T>(),
        inverts_counts::<T>(2),
        0 <= l <= 0xff_ffff,
        is_whole_form(f),
        is_whole_form(g),
    ensures
        paired(l, overlap_kernel::<T>(l), rotated(f), g) == T::neg(
            paired(l, overlap_kernel::<T>(l), f, rotated(g)),
        ),
{
    let (w, v) = (overlap_kernel::<T>(l), turned_kernel::<T>(l));
    let (one, minus) = (T::count(1), T::neg(T::count(1)));
    assert forall|c: Powers, d: Powers|
        is_component(c, l) && is_component(d, l) implies #[trigger] w(d, c) == w(c, d) by {}
    lemma_paired_exchanged(l, w, w, rotated(f), g);
    assert forall|c: Powers| is_component(c, l) implies #[trigger] summed(l, w, rotated(f), c)
        == T::prod(one, summed(l, v, f, c)) by {
        lemma_moved_inside(l, f, c);
    }
    lemma_paired_same(l, w, v, g, rotated(f), f, one);
    let back = |c: Powers, d: Powers| v(d, c);
    assert forall|c: Powers, d: Powers|
        is_component(c, l) && is_component(d, l) implies #[trigger] back(d, c) == v(c, d) by {}
    lemma_paired_exchanged(l, v, back, g, f);
    assert forall|c: Powers| is_component(c, l) implies #[trigger] summed(l, back, g, c)
        == T::prod(minus, summed(l, w, rotated(g), c)) by {
        lemma_moved_inside(l, g, c);
        let a = |d: Powers| T::prod(g(d), v(c, d));
        let b = |d: Powers| T::prod(g(d), back(c, d));
        let m = |d: Powers| T::prod(minus, a(d));
        assert forall|d: Powers| is_component(d, l) implies #[trigger] b(d) == m(d) by {
            lemma_turned_kernel::<T>(l, d, c);
            lemma_ring_negatives(g(d), v(c, d));
            lemma_negative_factor(one, a(d));
            lemma_ring_sums(a(d), a(d), a(d));
        }
        lemma_same_total(l, m, b);
        lemma_scaled_total(l, minus, a);
        let t = summed(l, w, rotated(g), c);
        lemma_ring_sums(t, t, t);
        let s = total(l, a);
        lemma_ring_sums(s, s, s);
    }
    lemma_paired_same(l, back, w, f, g, rotated(g), minus);
    let p = paired(l, w, f, rotated(g));
    lemma_negative_factor(one, p);
    lemma_ring_sums(p, p, p);
    let q = paired(l, v, g, f);
    lemma_ring_sums(q, q, q);
}

/// The derivative along the rotation inside a pairing.
proof fn lemma_moved_inside<T: Real>(l: int, f: Form<T>, c: Powers)
    requires
        is_ring::<T>(),
        0 <= l,
        is_whole_form(f),
    ensures
        ({
            let (w, v) = (overlap_kernel::<T>(l), turned_kernel::<T>(l));
            summed(l, w, rotated(f), c) == T::prod(T::count(1), summed(l, v, f, c))
        }),
{
    let (w, v) = (overlap_kernel::<T>(l), turned_kernel::<T>(l));
    let k = |d: Powers| raw_overlap::<T>(l, c, d);
    lemma_adjoint(l, f, k);
    lemma_same_total(
        l,
        |d: Powers| T::prod(rotated(f)(d), k(d)),
        |d: Powers| T::prod(rotated(f)(d), w(c, d)),
    );
    lemma_same_total(
        l,
        |d: Powers| T::prod(f(d), unrotated(k)(d)),
        |d: Powers| T::prod(f(d), v(c, d)),
    );
    let t = summed(l, v, f, c);
    lemma_ring_sums(t, t, t);
}

} // verus!
