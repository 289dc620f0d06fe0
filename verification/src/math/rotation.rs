//! The rotation of real solid harmonics about the third axis.
//!
//! The derivative along the rotation takes the cosine type to the sine type and back, each
//! times its order. Only the in-plane part of a harmonic takes part: the square of the
//! radius and the third coordinate do not change.
use vstd::prelude::*;

use crate::exact::{
    counts_exactly, is_ring, lemma_count_sum, lemma_negative_factor, lemma_ring_commute,
    lemma_ring_factors, lemma_ring_negatives, lemma_ring_sums,
};
use crate::math::solid_harmonics::{choices, factorial_of, quarter_cosine, quarter_sine};
use crate::scalar::Scalar;

verus! {

/// Whether a number has an inverse.
pub open spec fn has_inverse<T: Scalar>(s: T) -> bool {
    exists|i: T| #[trigger] T::prod(s, i) == T::count(1)
}

/// Whether what has an inverse can be divided by.
pub open spec fn divides_by_units<T: Scalar>() -> bool {
    forall|z: T, s: T|
        has_inverse(s) ==> T::prod(s, #[trigger] T::quot(z, s)) == z
}

/// Whether the counts from one to `top` have inverses.
pub open spec fn inverts_counts<T: Scalar>(top: int) -> bool {
    forall|n: u64| 1 <= n <= top ==> has_inverse(#[trigger] T::count(n))
}

/// The product of numbers with inverses has one.
pub proof fn lemma_units<T: Scalar>(a: T, b: T)
    requires
        is_ring::<T>(),
        has_inverse(a),
        has_inverse(b),
    ensures
        has_inverse(T::prod(a, b)),
{
    let i = choose|i: T| #[trigger] T::prod(a, i) == T::count(1);
    let j = choose|j: T| #[trigger] T::prod(b, j) == T::count(1);
    // (a b)(i j) == a (i (b j)) == 1
    lemma_ring_factors(a, b, T::prod(i, j));
    lemma_ring_factors(i, b, j);
    lemma_ring_commute(i, T::count(1));
    lemma_ring_sums(i, i, i);
    assert(T::prod(T::prod(a, b), T::prod(i, j)) == T::count(1));
}

/// One is its own inverse.
pub proof fn lemma_one_is_a_unit<T: Scalar>()
    requires
        is_ring::<T>(),
    ensures
        has_inverse(T::count(1)),
{
    lemma_ring_sums::<T>(T::count(1), T::count(1), T::count(1));
    assert(T::prod(T::count(1), T::count(1)) == T::count(1));
}

/// A factor with an inverse may be left out on both sides.
pub proof fn lemma_cancelled<T: Scalar>(w: T, x: T, y: T)
    requires
        is_ring::<T>(),
        has_inverse(w),
        T::prod(w, x) == T::prod(w, y),
    ensures
        x == y,
{
    let i = choose|i: T| #[trigger] T::prod(w, i) == T::count(1);
    lemma_ring_commute(w, i);
    lemma_ring_factors(i, w, x);
    lemma_ring_factors(i, w, y);
    lemma_ring_sums(x, x, x);
    lemma_ring_sums(y, y, y);
}

/// Two quotients of one number whose divisors share a factor.
pub proof fn lemma_shared_quotients<T: Scalar>(z: T, w: T, f: T, g: T, d: T, e: T)
    requires
        is_ring::<T>(),
        divides_by_units::<T>(),
        has_inverse(w),
        has_inverse(f),
        has_inverse(g),
        d == T::prod(w, f),
        e == T::prod(w, g),
    ensures
        T::prod(f, T::quot(z, d)) == T::prod(g, T::quot(z, e)),
{
    let (p, q) = (T::quot(z, d), T::quot(z, e));
    lemma_units(w, f);
    lemma_units(w, g);
    assert(T::prod(d, p) == z && T::prod(e, q) == z);
    lemma_ring_factors(w, f, p);
    lemma_ring_factors(w, g, q);
    lemma_cancelled(w, T::prod(f, p), T::prod(g, q));
}

/// Factorials have inverses.
pub proof fn lemma_factorial_is_a_unit<T: Scalar>(n: int, top: int)
    requires
        is_ring::<T>(),
        inverts_counts::<T>(top),
        n <= top <= u64::MAX,
    ensures
        has_inverse(factorial_of::<T>(n)),
    decreases n,
{
    if n <= 0 {
        lemma_one_is_a_unit::<T>();
    } else {
        lemma_factorial_is_a_unit::<T>(n - 1, top);
        assert(has_inverse(T::count(n as u64)));
        lemma_units(factorial_of::<T>(n - 1), T::count(n as u64));
    }
}

/// The scalar of an integer.
pub open spec fn integer<T: Scalar>(n: int) -> T {
    if n >= 0 {
        T::count(n as u64)
    } else {
        T::neg(T::count((-n) as u64))
    }
}

/// The scalar of a negative integer is the negative of the scalar.
pub proof fn lemma_integer_negative<T: Scalar>(n: int)
    requires
        is_ring::<T>(),
    ensures
        integer::<T>(-n) == T::neg(integer::<T>(n)),
        integer::<T>(0) == T::count(0),
{
    lemma_ring_negatives(T::count((-n) as u64), T::count(0));
}

/// The scalars of integers add up.
pub proof fn lemma_integer_sum<T: Scalar>(m: int, n: int)
    requires
        is_ring::<T>(),
        counts_exactly::<T>(),
        -0x1_0000_0000_0000 <= m <= 0x1_0000_0000_0000,
        -0x1_0000_0000_0000 <= n <= 0x1_0000_0000_0000,
    ensures
        integer::<T>(m + n) == T::sum(integer::<T>(m), integer::<T>(n)),
{
    if m >= 0 && n >= 0 {
        lemma_count_sum::<T>(m, n);
    } else if m < 0 && n < 0 {
        lemma_count_sum::<T>(-m, -n);
        lemma_ring_negatives(T::count((-m) as u64), T::count((-n) as u64));
    } else if m >= 0 {
        lemma_integer_difference::<T>(m, -n);
    } else {
        lemma_integer_difference::<T>(n, -m);
        lemma_ring_sums(integer::<T>(m), integer::<T>(n), integer::<T>(n));
    }
}

/// The scalar of a difference of counts.
proof fn lemma_integer_difference<T: Scalar>(m: int, n: int)
    requires
        is_ring::<T>(),
        counts_exactly::<T>(),
        0 <= m <= 0x1_0000_0000_0000,
        0 < n <= 0x1_0000_0000_0000,
    ensures
        integer::<T>(m - n) == T::sum(T::count(m as u64), T::neg(T::count(n as u64))),
{
    let (a, b) = (T::count(m as u64), T::count(n as u64));
    let d = T::count((m - n) as u64);
    lemma_ring_negatives(b, b);
    lemma_ring_negatives(a, a);
    if m >= n {
        lemma_count_sum::<T>(m - n, n);
        lemma_ring_sums(d, b, T::neg(b));
        lemma_ring_sums(d, d, d);
    } else {
        let e = T::count((n - m) as u64);
        lemma_count_sum::<T>(m, n - m);
        // a - (a + e) == -e
        lemma_ring_negatives(a, e);
        lemma_ring_sums(a, T::neg(a), T::neg(e));
        lemma_ring_sums(T::neg(e), T::neg(e), T::neg(e));
    }
}

/// A sum of two integers times a scalar.
pub proof fn lemma_integer_multiples<T: Scalar>(m: int, n: int, v: T)
    requires
        is_ring::<T>(),
        counts_exactly::<T>(),
        -0x1_0000_0000_0000 <= m <= 0x1_0000_0000_0000,
        -0x1_0000_0000_0000 <= n <= 0x1_0000_0000_0000,
    ensures
        T::prod(integer::<T>(m + n), v) == T::sum(
            T::prod(integer::<T>(m), v),
            T::prod(integer::<T>(n), v),
        ),
{
    lemma_integer_sum::<T>(m, n);
    let (a, b) = (integer::<T>(m), integer::<T>(n));
    lemma_ring_commute(T::sum(a, b), v);
    lemma_ring_factors(v, a, b);
    lemma_ring_commute(v, a);
    lemma_ring_commute(v, b);
}

/// A factor of zero.
pub proof fn lemma_zero_factor<T: Scalar>(a: T)
    requires
        is_ring::<T>(),
    ensures
        T::prod(T::count(0), a) == T::count(0),
        T::prod(a, T::count(0)) == T::count(0),
        integer::<T>(0) == T::count(0),
{
    lemma_ring_commute(T::count(0), a);
    lemma_ring_sums(a, a, a);
}

/// The number of ways to choose `p` of `m`; none where `p` is out of range.
pub open spec fn chosen<T: Scalar>(m: int, p: int) -> T {
    if 0 <= p <= m {
        choices::<T>(m, p)
    } else {
        T::count(0)
    }
}

/// Neighbouring numbers of ways.
proof fn lemma_chosen<T: Scalar>(m: int, p: int)
    requires
        is_ring::<T>(),
        divides_by_units::<T>(),
        inverts_counts::<T>(m),
        0 <= m <= 0xffff_ffff,
    ensures
        T::prod(integer::<T>(m - p + 1), chosen::<T>(m, p - 1)) == T::prod(
            integer::<T>(p),
            chosen::<T>(m, p),
        ),
{
    lemma_zero_factor(integer::<T>(p));
    lemma_zero_factor(integer::<T>(m - p + 1));
    lemma_zero_factor(chosen::<T>(m, p));
    lemma_zero_factor(chosen::<T>(m, p - 1));
    if 1 <= p <= m {
        let (u, v) = (factorial_of::<T>(p - 1), factorial_of::<T>(m - p));
        let (f, g) = (T::count(p as u64), T::count((m - p + 1) as u64));
        lemma_factorial_is_a_unit::<T>(p - 1, m);
        lemma_factorial_is_a_unit::<T>(m - p, m);
        lemma_units(u, v);
        assert(has_inverse(f) && has_inverse(g));
        let w = T::prod(u, v);
        // (u p) v == (u v) p and u (v (m - p + 1)) == (u v) (m - p + 1)
        lemma_ring_factors(u, f, v);
        lemma_ring_commute(f, v);
        lemma_ring_factors(u, v, f);
        lemma_ring_factors(u, v, g);
        assert(factorial_of::<T>(p) == T::prod(u, f));
        assert(factorial_of::<T>(m - p + 1) == T::prod(v, g));
        lemma_shared_quotients(
            factorial_of::<T>(m),
            w,
            f,
            g,
            T::prod(T::prod(u, f), v),
            T::prod(u, T::prod(v, g)),
        );
    }
}

/// The cosine or the sine of a number of quarter turns.
pub open spec fn quarter<T: Scalar>(sine: bool, q: int) -> T {
    if sine {
        quarter_sine::<T>(q)
    } else {
        quarter_cosine::<T>(q)
    }
}

/// The coefficient of `x^p y^(m-p)` in the real or the imaginary part of `(x + i y)^m`.
pub open spec fn plane<T: Scalar>(m: int, sine: bool, p: int) -> T {
    T::prod(chosen::<T>(m, p), quarter::<T>(sine, m - p))
}

/// The order with the sign that the rotation gives it: negative for the cosine type.
pub open spec fn turn(m: int, sine: bool) -> int {
    if sine {
        m
    } else {
        -m
    }
}

/// A quarter turn more.
proof fn lemma_quarter<T: Scalar>(sine: bool, q: int)
    requires
        is_ring::<T>(),
    ensures
        quarter::<T>(sine, q + 1) == (if sine {
            quarter::<T>(!sine, q)
        } else {
            T::neg(quarter::<T>(!sine, q))
        }),
        quarter::<T>(sine, q - 1) == (if sine {
            T::neg(quarter::<T>(!sine, q))
        } else {
            quarter::<T>(!sine, q)
        }),
{
    lemma_ring_negatives(T::count(1), T::count(0));
    lemma_ring_negatives(T::neg(T::count(1)), T::count(0));
}

/// The rotation of the in-plane part.
pub proof fn lemma_plane<T: Scalar>(m: int, sine: bool, p: int)
    requires
        is_ring::<T>(),
        counts_exactly::<T>(),
        divides_by_units::<T>(),
        inverts_counts::<T>(m),
        0 <= m <= 0xffff_ffff,
        -0x1_0000_0000 <= p <= 0x1_0000_0000,
    ensures
        T::diff(
            T::prod(integer::<T>(m - p + 1), plane::<T>(m, sine, p - 1)),
            T::prod(integer::<T>(p + 1), plane::<T>(m, sine, p + 1)),
        ) == T::prod(integer::<T>(turn(m, sine)), plane::<T>(m, !sine, p)),
{
    let q = m - p;
    let c = chosen::<T>(m, p);
    let t = quarter::<T>(!sine, q);
    let (up, down) = (quarter::<T>(sine, q + 1), quarter::<T>(sine, q - 1));
    lemma_quarter::<T>(sine, q);
    lemma_chosen::<T>(m, p);
    lemma_chosen::<T>(m, p + 1);
    let (ip, iq) = (integer::<T>(p), integer::<T>(q));
    // The first term is p c times the quarter turn after, the second q c times that before.
    lemma_ring_factors(integer::<T>(m - p + 1), chosen::<T>(m, p - 1), up);
    lemma_ring_factors(integer::<T>(p + 1), chosen::<T>(m, p + 1), down);
    lemma_ring_factors(ip, c, up);
    lemma_ring_factors(iq, c, down);
    let v = T::prod(c, t);
    assert(T::prod(integer::<T>(m - p + 1), plane::<T>(m, sine, p - 1)) == T::prod(
        ip,
        T::prod(c, up),
    ));
    assert(T::prod(integer::<T>(p + 1), plane::<T>(m, sine, p + 1)) == T::prod(
        iq,
        T::prod(c, down),
    ));
    lemma_ring_negatives(c, t);
    lemma_ring_negatives(ip, v);
    lemma_ring_negatives(iq, v);
    let (x, y) = (T::prod(ip, v), T::prod(iq, v));
    lemma_integer_multiples::<T>(p, q, v);
    if sine {
        lemma_ring_negatives(x, T::neg(y));
        lemma_ring_negatives(y, y);
    } else {
        lemma_ring_negatives(T::neg(x), y);
        lemma_ring_negatives(x, y);
        lemma_integer_negative::<T>(m);
        lemma_negative_factor(integer::<T>(m), v);
    }
}

} // verus!
