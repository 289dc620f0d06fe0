//! The harmonics of degree two, between monomials of degree two.
//!
//! The monomials of degree two are made of harmonics of degrees zero and two. All their
//! integrals over the unit sphere are multiples of that of `x^2 y^2`.
use vstd::prelude::*;

use crate::ecp::harmonics::{
    binomial, column, derived, derived_times, factorial_of, first_power, harmonic, harmonic_norm,
    legendre, legendre_coefficient, order_size, plane, sign_of, single_integral, sphere_integral,
    Term,
};
use crate::ecp::monopole::{calculates_exactly, lemma_monopole, monopole, sphere_area};
use crate::ecp::own_center::{law_binomials_are_pascals, overlap_with, pascal, projected_angle_of};
use crate::exact::{
    counts_exactly, is_ring, lemma_count_product, lemma_negative_factor, lemma_ring_commute,
    lemma_ring_factors, lemma_ring_negatives, lemma_ring_sums, sum_before,
};
use crate::math::am::Powers;
use crate::math::norm::{descending_product, odd_factorial};
use crate::math::rotation::{
    has_inverse, integer, lemma_cancelled, lemma_integer_multiples, lemma_units,
    lemma_zero_factor,
};
use crate::math::solid_harmonics::vanishes;
use crate::scalar::{fraction, Real, Scalar};

verus! {

/// A whole multiple.
spec fn multiple<T: Scalar>(n: int, g: T) -> T {
    T::prod(integer::<T>(n), g)
}

proof fn lemma_multiples<T: Scalar>(m: int, n: int, g: T)
    requires
        is_ring::<T>(),
        counts_exactly::<T>(),
        -10000 <= m <= 10000,
        -10000 <= n <= 10000,
    ensures
        T::sum(multiple(m, g), multiple(n, g)) == multiple(m + n, g),
        T::prod(integer::<T>(m), multiple(n, g)) == multiple(m * n, g),
        multiple(0, g) == T::count(0),
        multiple(1, g) == g,
{
    lemma_integer_multiples(m, n, g);
    lemma_zero_factor(g);
    lemma_ring_sums(g, g, g);
    lemma_integer_product::<T>(m, n);
    lemma_ring_factors(integer::<T>(m), integer::<T>(n), g);
}

proof fn lemma_integer_product<T: Scalar>(m: int, n: int)
    requires
        is_ring::<T>(),
        counts_exactly::<T>(),
        -10000 <= m <= 10000,
        -10000 <= n <= 10000,
    ensures
        T::prod(integer::<T>(m), integer::<T>(n)) == integer::<T>(m * n),
{
    let (a, b) = (
        if m < 0 {
            -m
        } else {
            m
        },
        if n < 0 {
            -n
        } else {
            n
        },
    );
    assert(0 <= a * b <= 100000000) by (nonlinear_arith)
        requires
            0 <= a <= 10000,
            0 <= b <= 10000,
    ;
    lemma_count_product::<T>(a, b);
    let (x, y) = (T::count(a as u64), T::count(b as u64));
    lemma_ring_negatives(x, y);
    lemma_negative_factor(x, y);
    lemma_negative_factor(x, T::neg(y));
    lemma_ring_negatives(T::prod(x, y), y);
    lemma_zero_factor(x);
    lemma_zero_factor(y);
    assert(m * n == (if (m < 0) == (n < 0) {
        a * b
    } else {
        -(a * b)
    })) by (nonlinear_arith)
        requires
            a == (if m < 0 {
                -m
            } else {
                m
            }),
            b == (if n < 0 {
                -n
            } else {
                n
            }),
    ;
    lemma_ring_negatives(T::count(0), T::count(0));
    if m * n == 0 {
        assert(a == 0 || b == 0) by (nonlinear_arith)
            requires
                m * n == 0,
                a == (if m < 0 {
                    -m
                } else {
                    m
                }),
                b == (if n < 0 {
                    -n
                } else {
                    n
                }),
        ;
        lemma_zero_factor(integer::<T>(m));
        lemma_zero_factor(integer::<T>(n));
    }
}

/// The integral of `x^2 y^2`.
spec fn base<T: Real>() -> T {
    sphere_integral::<T>(2, 2, 0)
}

/// How often the integral of `x^2 y^2` goes into that of a monomial of degree two or four.
spec fn share(t: Powers) -> int {
    if t.0 % 2 == 1 || t.1 % 2 == 1 || t.2 % 2 == 1 {
        0
    } else if t.0 + t.1 + t.2 == 2 {
        5
    } else if t.0 == 4 || t.1 == 4 || t.2 == 4 {
        3
    } else {
        1
    }
}

proof fn lemma_moments<T: Real>()
    requires
        calculates_exactly::<T>(),
    ensures
        sphere_area::<T>() == multiple(15, base::<T>()),
        sphere_integral::<T>(2, 0, 0) == multiple(5, base::<T>()),
        sphere_integral::<T>(0, 2, 0) == multiple(5, base::<T>()),
        sphere_integral::<T>(0, 0, 2) == multiple(5, base::<T>()),
        sphere_integral::<T>(4, 0, 0) == multiple(3, base::<T>()),
        sphere_integral::<T>(0, 4, 0) == multiple(3, base::<T>()),
        sphere_integral::<T>(0, 0, 4) == multiple(3, base::<T>()),
        sphere_integral::<T>(2, 0, 2) == base::<T>(),
        sphere_integral::<T>(0, 2, 2) == base::<T>(),
        multiple(1, base::<T>()) == base::<T>(),
        multiple(0, base::<T>()) == T::count(0),
{
    let (one, three, five, all) = (T::count(1), T::count(3), T::count(5), T::count(15));
    let area = sphere_area::<T>();
    let g = base::<T>();
    reveal_with_fuel(descending_product, 4);
    lemma_ring_sums(one, one, one);
    lemma_ring_sums(three, three, three);
    lemma_ring_sums(five, five, five);
    lemma_ring_commute(area, one);
    lemma_ring_sums(area, area, area);
    lemma_count_product::<T>(5, 3);
    assert(odd_factorial::<T>(-1) == one && odd_factorial::<T>(1) == one);
    assert(odd_factorial::<T>(3) == three);
    assert(odd_factorial::<T>(5) == all);
    assert(has_inverse(three) && has_inverse(all));
    assert(g == T::quot(area, all));
    assert(T::prod(all, g) == area);
    assert(multiple(15, g) == area);
    lemma_multiples(15, 3, g);
    lemma_multiples(3, 15, g);
    lemma_multiples(3, 5, g);
    let s2 = T::quot(area, three);
    assert(T::prod(three, s2) == area);
    lemma_cancelled(three, s2, multiple(5, g));
    let at = T::prod(area, three);
    lemma_ring_commute(at, one);
    lemma_ring_sums(at, at, at);
    let s4 = T::quot(at, all);
    assert(T::prod(all, s4) == at);
    lemma_ring_commute(area, three);
    assert(at == multiple(45, g));
    lemma_cancelled(all, s4, multiple(3, g));
    assert(sphere_integral::<T>(4, 0, 0) == s4);
    assert(sphere_integral::<T>(0, 4, 0) == s4);
    assert(sphere_integral::<T>(0, 0, 4) == s4);
}

/// The integral of a monomial of degree two or four.
proof fn lemma_share<T: Real>(t: Powers)
    requires
        calculates_exactly::<T>(),
        0 <= t.0,
        0 <= t.1,
        0 <= t.2,
        t.0 + t.1 + t.2 == 2 || t.0 + t.1 + t.2 == 4,
    ensures
        sphere_integral::<T>(t.0, t.1, t.2) == multiple(share(t), base::<T>()),
{
    lemma_moments::<T>();
    if t.0 % 2 == 0 && t.1 % 2 == 0 && t.2 % 2 == 0 {
        assert(t.0 == 0 || t.0 == 2 || t.0 == 4);
        assert(t.1 == 0 || t.1 == 2 || t.1 == 4);
        assert(t.2 == 0 || t.2 == 2 || t.2 == 4);
    }
}

/// The half.
spec fn half<T: Scalar>() -> T {
    fraction::<T>(1, 2)
}

/// The coefficients of the Legendre polynomial of degree two and of its derivatives.
proof fn lemma_legendre_two<T: Real>()
    requires
        calculates_exactly::<T>(),
    ensures
        legendre::<T>(2) == seq![
            T::neg(half::<T>()),
            T::count(0),
            T::prod(T::count(3), half::<T>()),
        ],
        derived_times(legendre::<T>(2), 1) == seq![T::count(0), T::count(3)],
        derived_times(legendre::<T>(2), 2) == seq![T::count(3)],
        T::prod(T::count(2), half::<T>()) == T::count(1),
{
    let (one, two, three, zero) = (T::count(1), T::count(2), T::count(3), T::count(0));
    let h = half::<T>();
    assert(has_inverse(two));
    assert(T::prod(two, h) == one);
    assert(T::raised(h, (0u64 + 1) as u64) == T::prod(h, T::raised(h, 0)));
    assert(T::raised(h, (1u64 + 1) as u64) == T::prod(h, T::raised(h, 1)));
    assert(T::raised(h, 0) == one);
    lemma_ring_commute(h, one);
    lemma_ring_sums(h, h, h);
    let hh = T::prod(h, h);
    assert(T::raised(h, 2) == hh);
    reveal_with_fuel(pascal, 6);
    law_binomials_are_pascals::<T>(2, 0);
    law_binomials_are_pascals::<T>(2, 1);
    law_binomials_are_pascals::<T>(2, 2);
    law_binomials_are_pascals::<T>(4, 2);
    assert(pascal(2, 0) == 1 && pascal(2, 1) == 2 && pascal(2, 2) == 1 && pascal(4, 2) == 6);
    // h h 2 is h.
    lemma_ring_factors(h, h, two);
    lemma_ring_commute(h, two);
    lemma_ring_commute(hh, one);
    lemma_ring_sums(hh, hh, hh);
    assert(T::prod(hh, two) == h);
    lemma_ring_negatives(hh, one);
    assert(T::prod(hh, T::neg(one)) == T::neg(hh));
    lemma_negative_factor(hh, two);
    let mh = T::neg(h);
    lemma_ring_commute(mh, one);
    lemma_ring_sums(mh, mh, mh);
    assert(legendre_coefficient::<T>(2, 0) == mh);
    lemma_count_product::<T>(2, 3);
    lemma_ring_factors(hh, two, three);
    lemma_ring_commute(h, three);
    assert(legendre_coefficient::<T>(2, 2) == T::prod(three, h));
    assert(legendre_coefficient::<T>(2, 1) == zero);
    assert(legendre::<T>(2) =~= seq![mh, zero, T::prod(three, h)]);
    reveal_with_fuel(derived_times, 3);
    lemma_zero_factor(one);
    lemma_ring_factors(three, h, two);
    lemma_ring_commute(three, one);
    lemma_ring_sums(three, three, three);
    let first = derived_times(legendre::<T>(2), 1);
    assert(first == derived(legendre::<T>(2)));
    assert(first =~= seq![zero, three]);
    assert(derived_times(legendre::<T>(2), 2) =~= seq![three]);
}

/// The harmonic of degree two along the third axis.
proof fn lemma_axial<T: Real>()
    requires
        calculates_exactly::<T>(),
    ensures
        ({
            let n = harmonic_norm::<T>(2, 0);
            harmonic::<T>(2, 0) == seq![
                (T::prod(n, T::neg(half::<T>())), [0usize, 0usize, 0usize]),
                (T::prod(n, T::prod(T::count(3), half::<T>())), [0usize, 0usize, 2usize]),
            ]
        }),
{
    let n = harmonic_norm::<T>(2, 0);
    let (three, zero) = (T::count(3), T::count(0));
    let h = half::<T>();
    lemma_legendre_two::<T>();
    let c = legendre::<T>(2);
    assert(derived_times(c, 0) == c);
    reveal_with_fuel(column, 4);
    assert(vanishes(zero));
    // Neither coefficient vanishes: twice them are minus one and three.
    let two = T::count(2);
    if vanishes(T::neg(h)) {
        lemma_ring_negatives(h, h);
        lemma_ring_negatives(zero, zero);
        assert(h == zero);
        lemma_zero_factor(two);
        assert(false);
    }
    if vanishes(T::prod(three, h)) {
        assert(has_inverse(three));
        lemma_zero_factor(three);
        lemma_cancelled(three, h, zero);
        lemma_zero_factor(two);
        assert(false);
    }
    assert(harmonic::<T>(2, 0) =~= seq![
        (T::prod(n, T::neg(h)), [0usize, 0usize, 0usize]),
        (T::prod(n, T::prod(three, h)), [0usize, 0usize, 2usize]),
    ]);
}

proof fn lemma_three_is_there<T: Real>()
    requires
        calculates_exactly::<T>(),
    ensures
        !vanishes(T::count(3)),
        vanishes(T::count(0)),
{
    let three = T::count(3);
    if vanishes(three) {
        assert(has_inverse(three));
        let i = choose|i: T| #[trigger] T::prod(three, i) == T::count(1);
        lemma_zero_factor(i);
        assert(false);
    }
}

/// The other harmonics of degree two.
proof fn lemma_tilted<T: Real>(m: int)
    requires
        calculates_exactly::<T>(),
        -2 <= m <= 2,
        m != 0,
    ensures
        ({
            let n = harmonic_norm::<T>(2, m);
            harmonic::<T>(2, m) == (if m == 1 {
                seq![(T::prod(n, integer::<T>(3)), [1usize, 0usize, 1usize])]
            } else if m == -1 {
                seq![(T::prod(n, integer::<T>(3)), [0usize, 1usize, 1usize])]
            } else if m == 2 {
                seq![
                    (T::prod(n, integer::<T>(3)), [2usize, 0usize, 0usize]),
                    (T::prod(n, integer::<T>(-3)), [0usize, 2usize, 0usize]),
                ]
            } else {
                seq![(T::prod(n, integer::<T>(6)), [1usize, 1usize, 0usize])]
            })
        }),
{
    let n = harmonic_norm::<T>(2, m);
    let (one, two, three) = (T::count(1), T::count(2), T::count(3));
    lemma_legendre_two::<T>();
    lemma_three_is_there::<T>();
    reveal_with_fuel(plane, 3);
    reveal_with_fuel(column, 3);
    reveal_with_fuel(pascal, 4);
    lemma_ring_sums(one, one, one);
    lemma_ring_commute(n, one);
    lemma_ring_sums(n, n, n);
    lemma_ring_sums(two, two, two);
    let none = Seq::<Term<T>>::empty();
    if m == 1 || m == -1 {
        let c = derived_times(legendre::<T>(2), 1);
        let first = first_power(m);
        law_binomials_are_pascals::<T>(1, first);
        assert(pascal(1, first) == 1);
        let f = T::prod(n, T::prod(sign_of((first / 2) % 2 != 0), binomial(1, first)));
        assert((first / 2) % 2 == 0);
        assert(f == n);
        let col = column(f, c, 1 - first, first, 2);
        assert(col =~= seq![
            (T::prod(n, three), [(1 - first) as usize, first as usize, 1usize]),
        ]);
        assert((1 - first) / 2 + 1 == 1);
        assert(plane(n, c, 1, first, 0) =~= none);
        assert(harmonic::<T>(2, m) =~= col);
    } else {
        let c = derived_times(legendre::<T>(2), 2);
        law_binomials_are_pascals::<T>(2, 0);
        law_binomials_are_pascals::<T>(2, 1);
        law_binomials_are_pascals::<T>(2, 2);
        assert(pascal(2, 0) == 1 && pascal(2, 1) == 2 && pascal(2, 2) == 1);
        let minus = T::neg(one);
        if m == 2 {
            let f0 = T::prod(n, T::prod(sign_of::<T>((0int / 2) % 2 != 0), binomial(2, 0)));
            let f2 = T::prod(n, T::prod(sign_of::<T>((2int / 2) % 2 != 0), binomial(2, 2)));
            assert((2int / 2) % 2 == 1);
            assert(f0 == n);
            lemma_ring_commute(minus, one);
            lemma_ring_sums(minus, minus, minus);
            assert(f2 == T::prod(n, minus));
            lemma_ring_factors(n, minus, three);
            lemma_negative_factor(one, three);
            lemma_ring_sums(three, three, three);
            assert(T::prod(f2, three) == T::prod(n, integer::<T>(-3)));
            let (a, b) = (column(f0, c, 2, 0, 1), column(f2, c, 0, 2, 1));
            assert(a =~= seq![(T::prod(n, three), [2usize, 0usize, 0usize])]);
            assert(b =~= seq![(T::prod(n, integer::<T>(-3)), [0usize, 2usize, 0usize])]);
            assert(plane(n, c, 2, 0, 0) =~= none);
            assert(plane(n, c, 2, 0, 1) =~= a);
            assert(plane(n, c, 2, 0, 2) =~= a + b);
            assert((2int - 0) / 2 + 1 == 2);
            assert(harmonic::<T>(2, m) =~= seq![
                (T::prod(n, integer::<T>(3)), [2usize, 0usize, 0usize]),
                (T::prod(n, integer::<T>(-3)), [0usize, 2usize, 0usize]),
            ]);
        } else {
            let f = T::prod(n, T::prod(sign_of::<T>((1int / 2) % 2 != 0), binomial(2, 1)));
            assert((1int / 2) % 2 == 0);
            assert(f == T::prod(n, two));
            lemma_ring_factors(n, two, three);
            lemma_count_product::<T>(2, 3);
            assert(T::prod(f, three) == T::prod(n, integer::<T>(6)));
            let a = column(f, c, 1, 1, 1);
            assert(a =~= seq![(T::prod(n, integer::<T>(6)), [1usize, 1usize, 0usize])]);
            assert((2int - 1) / 2 + 1 == 1);
            assert(plane(n, c, 2, 1, 0) =~= none);
            assert(harmonic::<T>(2, m) =~= a);
        }
    }
}

/// How often the integral of `x^2 y^2` and the norm go into the integral of the harmonic of
/// degree two and order `m` with a monomial of degree two.
spec fn weight(m: int, p: Powers) -> int {
    if m == 0 {
        (3 * share((p.0, p.1, p.2 + 2)) - share(p)) / 2
    } else if m == 1 {
        3 * share((p.0 + 1, p.1, p.2 + 1))
    } else if m == -1 {
        3 * share((p.0, p.1 + 1, p.2 + 1))
    } else if m == 2 {
        3 * share((p.0 + 2, p.1, p.2)) - 3 * share((p.0, p.1 + 2, p.2))
    } else {
        6 * share((p.0 + 1, p.1 + 1, p.2))
    }
}

/// Whether powers are those of a monomial of degree two.
spec fn is_quadratic(p: Powers) -> bool {
    0 <= p.0 && 0 <= p.1 && 0 <= p.2 && p.0 + p.1 + p.2 == 2
}

/// One term of an overlap.
proof fn lemma_weighted_term<T: Real>(n: T, k: int, v: int, g: T)
    requires
        calculates_exactly::<T>(),
        -10000 <= k <= 10000,
        -10000 <= v <= 10000,
    ensures
        T::prod(T::prod(n, integer::<T>(k)), multiple(v, g)) == T::prod(n, multiple(k * v, g)),
{
    lemma_ring_factors(n, integer::<T>(k), multiple(v, g));
    lemma_multiples(k, v, g);
}

/// The integrals of the harmonics of degree two with monomials of degree two.
proof fn lemma_overlaps<T: Real>(m: int, p: Powers)
    requires
        calculates_exactly::<T>(),
        -2 <= m <= 2,
        is_quadratic(p),
    ensures
        overlap_with::<T>(2, m, p) == T::prod(
            harmonic_norm::<T>(2, m),
            multiple(weight(m, p), base::<T>()),
        ),
{
    let n = harmonic_norm::<T>(2, m);
    let g = base::<T>();
    let q = harmonic::<T>(2, m);
    let zero = T::count(0);
    reveal_with_fuel(single_integral, 3);
    if m == 0 {
        let h = half::<T>();
        let (mh, th) = (T::neg(h), T::prod(T::count(3), h));
        lemma_axial::<T>();
        lemma_legendre_two::<T>();
        let z = (p.0, p.1, p.2 + 2);
        let (a, b) = (share(p), share(z));
        lemma_share::<T>(p);
        lemma_share::<T>(z);
        let (x, y) = (multiple(a, g), multiple(b, g));
        // n (-h) x + n (3h) y is n (h (3 y - x)).
        lemma_ring_factors(n, mh, x);
        lemma_ring_factors(n, th, y);
        lemma_negative_factor(h, x);
        lemma_ring_negatives(h, x);
        lemma_ring_factors(T::count(3), h, y);
        lemma_ring_factors(h, T::count(3), y);
        lemma_multiples(3, b, g);
        lemma_multiples(-1, a, g);
        let one = T::count(1);
        lemma_negative_factor(one, x);
        lemma_ring_sums(x, x, x);
        assert(T::neg(x) == multiple(-a, g));
        assert(T::prod(mh, x) == T::prod(h, multiple(-a, g)));
        assert(T::prod(th, y) == T::prod(h, multiple(3 * b, g)));
        lemma_ring_factors(h, multiple(-a, g), multiple(3 * b, g));
        lemma_multiples(-a, 3 * b, g);
        let w = weight(0, p);
        assert(-a + 3 * b == 2 * w);
        lemma_multiples(2, w, g);
        lemma_ring_factors(h, T::count(2), multiple(w, g));
        lemma_ring_commute(h, T::count(2));
        lemma_ring_sums(multiple(w, g), zero, zero);
        lemma_ring_factors(n, T::prod(mh, x), T::prod(th, y));
        let first = T::prod(n, T::prod(mh, x));
        lemma_ring_sums(first, first, first);
    } else {
        lemma_tilted::<T>(m);
        let t = q[0].1;
        let z = (p.0 + t[0], p.1 + t[1], p.2 + t[2]);
        lemma_share::<T>(z);
        let k: int = if m == -2 {
            6
        } else {
            3
        };
        lemma_weighted_term(n, k, share(z), g);
        let first = T::prod(n, multiple(k * share(z), g));
        lemma_ring_sums(first, first, first);
        if m == 2 {
            let t2 = q[1].1;
            let z2 = (p.0 + t2[0], p.1 + t2[1], p.2 + t2[2]);
            lemma_share::<T>(z2);
            lemma_weighted_term(n, -3, share(z2), g);
            lemma_ring_factors(n, multiple(3 * share(z), g), multiple(-3 * share(z2), g));
            lemma_multiples(3 * share(z), -3 * share(z2), g);
        }
    }
}

/// How often the integral of `x^2 y^2` goes into 36 times its square times the square of a
/// norm.
spec fn scale_of(m: int) -> int {
    if m == 0 {
        12
    } else if m == 1 || m == -1 {
        4
    } else {
        1
    }
}

/// The norms of the harmonics of degree two.
proof fn lemma_norms<T: Real>(m: int)
    requires
        calculates_exactly::<T>(),
        -2 <= m <= 2,
    ensures
        ({
            let n = harmonic_norm::<T>(2, m);
            T::prod(T::count(36), T::prod(T::prod(n, n), base::<T>())) == integer::<T>(
                scale_of(m),
            )
        }),
{
    let (zero, one, two, four, five) = (
        T::count(0),
        T::count(1),
        T::count(2),
        T::count(4),
        T::count(5),
    );
    let pi = T::circle();
    let area = sphere_area::<T>();
    let g = base::<T>();
    let n = harmonic_norm::<T>(2, m);
    let nn = T::prod(n, n);
    let a = order_size(m);
    lemma_moments::<T>();
    assert(T::le(zero, one) && T::le(zero, two) && T::le(zero, four) && T::le(zero, five)
        && T::le(zero, pi));
    assert(has_inverse(two) && has_inverse(four) && has_inverse(five));
    lemma_units(four, pi);
    lemma_units(two, pi);
    // d nn area is 5, with d the number of 1, 3 and 12.
    let d: int = if m == 0 {
        1
    } else if a == 1 {
        3
    } else {
        12
    };
    if m == 0 {
        let q = T::quot(five, area);
        assert(T::le(zero, area) && T::le(zero, q));
        assert(T::prod(area, q) == five);
        assert(nn == q);
        lemma_ring_commute(q, area);
        lemma_ring_sums(five, five, five);
    } else {
        reveal_with_fuel(factorial_of, 5);
        lemma_ring_sums(one, one, one);
        lemma_ring_sums(two, two, two);
        lemma_ring_commute(one, two);
        lemma_count_product::<T>(2, 3);
        lemma_count_product::<T>(6, 4);
        let low = factorial_of::<T>(2 - a);
        let high = factorial_of::<T>(2 + a);
        assert(factorial_of::<T>(0) == one && factorial_of::<T>(1) == one);
        assert(low == one);
        let k: int = if a == 1 {
            6
        } else {
            24
        };
        assert(high == T::count(k as u64));
        let hp = T::prod(two, pi);
        let q = T::quot(five, hp);
        assert(T::prod(hp, q) == five);
        lemma_ring_commute(q, one);
        lemma_ring_sums(q, q, q);
        let r = T::quot(q, high);
        assert(has_inverse(high));
        assert(T::prod(high, r) == q);
        assert(T::le(zero, high));
        assert(T::le(zero, hp) && T::le(zero, q) && T::le(zero, r));
        assert(n == T::root(r));
        assert(nn == r);
        // (2 pi) (k r) is 5, and k is 2 d: d ((4 pi) r).
        let td = T::count(d as u64);
        lemma_count_product::<T>(d, 2);
        lemma_count_product::<T>(2, 2);
        assert(high == T::prod(td, two));
        lemma_ring_factors(two, two, pi);
        assert(area == T::prod(two, hp));
        lemma_ring_factors(td, two, r);
        lemma_ring_factors(td, hp, T::prod(two, r));
        lemma_ring_factors(two, hp, r);
        lemma_ring_commute(r, area);
        assert(T::prod(hp, T::prod(high, r)) == T::prod(td, T::prod(hp, T::prod(two, r))));
        lemma_ring_factors(two, hp, r);
        assert(T::prod(hp, T::prod(two, r)) == T::prod(two, T::prod(hp, r)));
        assert(T::prod(area, r) == T::prod(two, T::prod(hp, r)));
    }
    let td = T::count(d as u64);
    lemma_ring_sums(T::prod(nn, area), zero, zero);
    assert(T::prod(td, T::prod(nn, area)) == five);
    // With area == 15 g: 5 (3 d nn g) is 5.
    let v = T::prod(nn, g);
    let c15 = T::count(15);
    lemma_ring_factors(c15, nn, g);
    assert(T::prod(nn, area) == T::prod(c15, v));
    let k: int = 3 * d;
    let tk = T::count(k as u64);
    lemma_count_product::<T>(d, 15);
    lemma_count_product::<T>(5, k);
    lemma_ring_factors(td, c15, v);
    assert(d * 15 == 5 * k);
    lemma_ring_factors(five, tk, v);
    assert(T::prod(five, T::prod(tk, v)) == five);
    lemma_ring_commute(five, one);
    lemma_ring_sums(five, five, five);
    lemma_cancelled(five, T::prod(tk, v), one);
    // 36 is the scale times 3 d.
    let s = scale_of(m);
    lemma_count_product::<T>(s, k);
    assert(s * k == 36);
    let ts = T::count(s as u64);
    lemma_ring_factors(ts, tk, v);
    lemma_ring_commute(ts, one);
    lemma_ring_sums(ts, ts, ts);
}

/// What one order contributes between two monomials, times 36.
proof fn lemma_contribution<T: Real>(m: int, p: Powers, q: Powers)
    requires
        calculates_exactly::<T>(),
        -2 <= m <= 2,
        is_quadratic(p),
        is_quadratic(q),
    ensures
        T::prod(
            T::count(36),
            T::prod(overlap_with::<T>(2, m, p), overlap_with::<T>(2, m, q)),
        ) == multiple(scale_of(m) * (weight(m, p) * weight(m, q)), base::<T>()),
{
    let n = harmonic_norm::<T>(2, m);
    let g = base::<T>();
    let (a, b) = (weight(m, p), weight(m, q));
    let (ta, tb) = (integer::<T>(a), integer::<T>(b));
    lemma_overlaps::<T>(m, p);
    lemma_overlaps::<T>(m, q);
    lemma_norms::<T>(m);
    let (x, y) = (multiple(a, g), multiple(b, g));
    let nn = T::prod(n, n);
    lemma_ring_factors(n, x, T::prod(n, y));
    lemma_ring_factors(n, x, y);
    lemma_ring_factors(n, n, T::prod(x, y));
    assert(T::prod(T::prod(n, x), T::prod(n, y)) == T::prod(nn, T::prod(x, y)));
    // (a g) (b g) is (a b) (g g).
    lemma_ring_factors(ta, g, y);
    lemma_ring_factors(tb, g, g);
    let gg = T::prod(g, g);
    assert(T::prod(x, y) == T::prod(ta, T::prod(tb, gg)));
    assert(-30 <= a <= 30 && -30 <= b <= 30);
    lemma_integer_product::<T>(a, b);
    lemma_ring_factors(ta, tb, gg);
    let tab = integer::<T>(a * b);
    assert(T::prod(x, y) == T::prod(tab, gg));
    let c = T::count(36);
    // 36 (nn (ab (g g))) is ab ((36 (nn g)) g).
    lemma_ring_factors(tab, nn, gg);
    lemma_ring_factors(tab, c, T::prod(nn, gg));
    lemma_ring_factors(nn, g, g);
    lemma_ring_factors(c, T::prod(nn, g), g);
    let s = scale_of(m);
    assert(T::prod(c, T::prod(nn, T::prod(tab, gg))) == T::prod(tab, multiple(s, g)));
    assert(-900 <= a * b <= 900) by (nonlinear_arith)
        requires
            -30 <= a <= 30,
            -30 <= b <= 30,
    ;
    lemma_multiples(a * b, s, g);
    assert((a * b) * s == s * (a * b)) by (nonlinear_arith);
}

/// The integral of the harmonic of degree zero with a monomial of degree two.
proof fn lemma_constant_overlap<T: Real>(p: Powers)
    requires
        calculates_exactly::<T>(),
        is_quadratic(p),
    ensures
        overlap_with::<T>(0, 0, p) == T::prod(monopole::<T>(), multiple(share(p), base::<T>())),
{
    lemma_monopole::<T>();
    lemma_share::<T>(p);
    reveal_with_fuel(single_integral, 2);
    let v = T::prod(monopole::<T>(), multiple(share(p), base::<T>()));
    lemma_ring_sums(v, v, v);
}

/// What the harmonic of degree zero contributes between two monomials, times 36.
proof fn lemma_constant_contribution<T: Real>(p: Powers, q: Powers)
    requires
        calculates_exactly::<T>(),
        is_quadratic(p),
        is_quadratic(q),
    ensures
        T::prod(
            T::count(36),
            T::prod(overlap_with::<T>(0, 0, p), overlap_with::<T>(0, 0, q)),
        ) == multiple(
            if share(p) == 5 && share(q) == 5 {
                60
            } else {
                0
            },
            base::<T>(),
        ),
{
    let y = monopole::<T>();
    let g = base::<T>();
    let (a, b) = (share(p), share(q));
    lemma_constant_overlap::<T>(p);
    lemma_constant_overlap::<T>(q);
    lemma_monopole::<T>();
    lemma_moments::<T>();
    let c = T::count(36);
    lemma_zero_factor(y);
    lemma_zero_factor(c);
    lemma_zero_factor(T::prod(y, multiple(a, g)));
    lemma_zero_factor(T::prod(y, multiple(b, g)));
    if a == 5 && b == 5 {
        let x = multiple(5, g);
        let yy = T::prod(y, y);
        lemma_ring_factors(y, x, T::prod(y, x));
        lemma_ring_factors(y, x, x);
        lemma_ring_factors(y, y, T::prod(x, x));
        assert(T::prod(T::prod(y, x), T::prod(y, x)) == T::prod(yy, T::prod(x, x)));
        // 36 (yy ((5 g) x)) is 12 ((yy (15 g)) x), that is 12 x.
        let three = T::count(3);
        lemma_count_product::<T>(12, 3);
        let c12 = T::count(12);
        let v = T::prod(yy, T::prod(x, x));
        lemma_ring_factors(c12, three, v);
        lemma_ring_factors(three, yy, T::prod(x, x));
        lemma_ring_factors(three, x, x);
        lemma_multiples(3, 5, g);
        let area = sphere_area::<T>();
        assert(T::prod(three, x) == area);
        lemma_ring_factors(yy, area, x);
        lemma_ring_sums(x, x, x);
        lemma_multiples(12, 5, g);
    }
}

/// Between monomials of degree two, the projectors of degrees zero and two add up to the
/// integral of the product.
pub proof fn lemma_quadratic_angles<T: Real>(p: Powers, q: Powers)
    requires
        calculates_exactly::<T>(),
        0 <= p.0,
        0 <= p.1,
        0 <= p.2,
        p.0 + p.1 + p.2 == 2,
        0 <= q.0,
        0 <= q.1,
        0 <= q.2,
        q.0 + q.1 + q.2 == 2,
    ensures
        T::sum(
            projected_angle_of::<T>(0, 2, 2, p, q),
            projected_angle_of::<T>(2, 2, 2, p, q),
        ) == sphere_integral::<T>(p.0 + q.0, p.1 + q.1, p.2 + q.2),
{
    let g = base::<T>();
    let c = T::count(36);
    let f0 = |i: int| T::prod(overlap_with::<T>(0, i - 0, p), overlap_with::<T>(0, i - 0, q));
    let f = |i: int| T::prod(overlap_with::<T>(2, i - 2, p), overlap_with::<T>(2, i - 2, q));
    reveal_with_fuel(sum_before, 6);
    lemma_ring_sums(f0(0), f0(0), f0(0));
    let s0 = projected_angle_of::<T>(0, 2, 2, p, q);
    assert(s0 == f0(0));
    lemma_constant_contribution::<T>(p, q);
    lemma_contribution::<T>(-2, p, q);
    lemma_contribution::<T>(-1, p, q);
    lemma_contribution::<T>(0, p, q);
    lemma_contribution::<T>(1, p, q);
    lemma_contribution::<T>(2, p, q);
    let n0: int = if share(p) == 5 && share(q) == 5 {
        60
    } else {
        0
    };
    let k = |i: int| scale_of(i - 2) * (weight(i - 2, p) * weight(i - 2, q));
    let s2 = projected_angle_of::<T>(2, 2, 2, p, q);
    let p1 = f(0);
    let p2 = T::sum(p1, f(1));
    let p3 = T::sum(p2, f(2));
    let p4 = T::sum(p3, f(3));
    let p5 = T::sum(p4, f(4));
    lemma_ring_sums(p1, p1, p1);
    assert(s2 == p5);
    lemma_ring_factors(c, p1, f(1));
    lemma_ring_factors(c, p2, f(2));
    lemma_ring_factors(c, p3, f(3));
    lemma_ring_factors(c, p4, f(4));
    lemma_ring_factors(c, s0, s2);
    lemma_small_weights(p, q);
    lemma_multiples(k(0), k(1), g);
    lemma_multiples(k(0) + k(1), k(2), g);
    lemma_multiples(k(0) + k(1) + k(2), k(3), g);
    lemma_multiples(k(0) + k(1) + k(2) + k(3), k(4), g);
    let all = k(0) + k(1) + k(2) + k(3) + k(4);
    lemma_multiples(n0, all, g);
    assert(T::prod(c, T::sum(s0, s2)) == multiple(n0 + all, g));
    let t = (p.0 + q.0, p.1 + q.1, p.2 + q.2);
    lemma_share::<T>(t);
    lemma_multiples(36, share(t), g);
    assert(n0 + all == 36 * share(t));
    assert(has_inverse(c));
    lemma_cancelled(c, T::sum(s0, s2), sphere_integral::<T>(t.0, t.1, t.2));
}

/// The weights of the orders add up to the share of the product.
proof fn lemma_small_weights(p: Powers, q: Powers)
    requires
        is_quadratic(p),
        is_quadratic(q),
    ensures
        ({
            let k = |i: int| scale_of(i - 2) * (weight(i - 2, p) * weight(i - 2, q));
            let n0: int = if share(p) == 5 && share(q) == 5 {
                60
            } else {
                0
            };
            &&& -1000 <= k(0) <= 1000 && -1000 <= k(1) <= 1000 && -1000 <= k(2) <= 1000
            &&& -1000 <= k(3) <= 1000 && -1000 <= k(4) <= 1000
            &&& n0 + (k(0) + k(1) + k(2) + k(3) + k(4)) == 36 * share(
                (p.0 + q.0, p.1 + q.1, p.2 + q.2),
            )
        }),
{
    lemma_weights(p);
    lemma_weights(q);
    let (a, b) = (weight(0, p), weight(0, q));
    let (c, d) = (weight(2, p), weight(2, q));
    lemma_small_product(a, b);
    lemma_small_product(c, d);
    lemma_small_product(weight(1, p), weight(1, q));
    lemma_small_product(weight(-1, p), weight(-1, q));
    lemma_small_product(weight(-2, p), weight(-2, q));
}

/// The weights of one monomial.
proof fn lemma_weights(p: Powers)
    requires
        is_quadratic(p),
    ensures
        p == (2int, 0int, 0int) || p == (0int, 2int, 0int) || p == (0int, 0int, 2int) || p == (
            1int,
            1int,
            0int,
        ) || p == (1int, 0int, 1int) || p == (0int, 1int, 1int),
        weight(0, p) == (if p.2 == 2 {
            2int
        } else if p.0 == 2 || p.1 == 2 {
            -1int
        } else {
            0int
        }),
        weight(1, p) == (if p.0 == 1 && p.2 == 1 {
            3int
        } else {
            0int
        }),
        weight(-1, p) == (if p.1 == 1 && p.2 == 1 {
            3int
        } else {
            0int
        }),
        weight(2, p) == (if p.0 == 2 {
            6int
        } else if p.1 == 2 {
            -6int
        } else {
            0int
        }),
        weight(-2, p) == (if p.0 == 1 && p.1 == 1 {
            6int
        } else {
            0int
        }),
{
}

/// The products of the numbers that weights can be.
proof fn lemma_small_product(a: int, b: int)
    ensures
        a == 0 || b == 0 ==> a * b == 0,
        a == 2 ==> a * b == 2 * b,
        a == -1 ==> a * b == -b,
        a == 3 ==> a * b == 3 * b,
        a == 6 ==> a * b == 6 * b,
        a == -6 ==> a * b == -6 * b,
{
    assert(a == 0 || b == 0 ==> a * b == 0) by (nonlinear_arith);
}

} // verus!
