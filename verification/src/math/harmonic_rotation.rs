//! The coefficients of real solid harmonics under the rotation about the third axis.
use vstd::prelude::*;

use crate::exact::{
    counts_exactly, is_ring, lemma_ring_commute, lemma_ring_factors, lemma_ring_negatives,
    lemma_ring_sums, lemma_same_sum, lemma_sum_of_sums, lemma_zero_sum, sum_before,
};
use crate::math::am::Powers;
use crate::math::rotation::{
    chosen, divides_by_units, integer, inverts_counts, lemma_factorial_is_a_unit,
    lemma_integer_multiples, lemma_plane, lemma_shared_quotients, lemma_units, lemma_zero_factor,
    plane, quarter, turn,
};
use crate::math::solid_harmonics::{
    contributes, factorial_of, gamma, harmonic_sum, harmonic_term, order_of,
};
use crate::scalar::{Real, Scalar};
use crate::transposition::lemma_scaled_sum;

verus! {

/// The coefficient of `x^2a y^2b` in the `k`-th power of the square of the radius.
pub open spec fn shared<T: Scalar>(k: int, a: int, b: int) -> T {
    if 0 <= a && 0 <= b && a + b <= k {
        T::quot(
            factorial_of::<T>(k),
            T::prod(
                T::prod(factorial_of::<T>(a), factorial_of::<T>(b)),
                factorial_of::<T>(k - a - b),
            ),
        )
    } else {
        T::count(0)
    }
}

/// Neighbouring coefficients of a power of the square of the radius.
proof fn lemma_shared<T: Scalar>(k: int, a: int, b: int, top: int)
    requires
        is_ring::<T>(),
        divides_by_units::<T>(),
        inverts_counts::<T>(top),
        0 <= k <= top <= 0xffff_ffff,
    ensures
        T::prod(integer::<T>(b), shared::<T>(k, a, b)) == T::prod(
            integer::<T>(a + 1),
            shared::<T>(k, a + 1, b - 1),
        ),
{
    lemma_zero_factor(integer::<T>(b));
    lemma_zero_factor(integer::<T>(a + 1));
    lemma_zero_factor(shared::<T>(k, a, b));
    lemma_zero_factor(shared::<T>(k, a + 1, b - 1));
    if 0 <= a && 1 <= b && a + b <= k {
        let (u, v) = (factorial_of::<T>(a), factorial_of::<T>(b - 1));
        let r = factorial_of::<T>(k - a - b);
        let (f, g) = (T::count(b as u64), T::count((a + 1) as u64));
        lemma_factorial_is_a_unit::<T>(a, top);
        lemma_factorial_is_a_unit::<T>(b - 1, top);
        lemma_factorial_is_a_unit::<T>(k - a - b, top);
        lemma_units(u, v);
        let uv = T::prod(u, v);
        lemma_units(uv, r);
        let w = T::prod(uv, r);
        assert(factorial_of::<T>(b) == T::prod(v, f));
        assert(factorial_of::<T>(a + 1) == T::prod(u, g));
        // (u (v b)) r == ((u v) r) b
        lemma_ring_factors(u, v, f);
        lemma_ring_factors(uv, f, r);
        lemma_ring_commute(f, r);
        lemma_ring_factors(uv, r, f);
        // ((u (a + 1)) v) r == ((u v) r) (a + 1)
        lemma_ring_factors(u, g, v);
        lemma_ring_commute(g, v);
        lemma_ring_factors(u, v, g);
        lemma_ring_factors(uv, g, r);
        lemma_ring_commute(g, r);
        lemma_ring_factors(uv, r, g);
        lemma_shared_quotients(
            factorial_of::<T>(k),
            w,
            f,
            g,
            T::prod(T::prod(u, T::prod(v, f)), r),
            T::prod(T::prod(T::prod(u, g), v), r),
        );
    }
}

/// The part with `x^2a` taken from the `k`-th power of the square of the radius, of the
/// coefficient of `x^x` where `2h` powers of `x` and `y` come from that power.
pub open spec fn layer_term<T: Scalar>(k: int, m: int, sine: bool, h: int, x: int, a: int) -> T {
    T::prod(shared::<T>(k, a, h - a), plane::<T>(m, sine, x - 2 * a))
}

/// The coefficient of `x^x` in the product of the `k`-th power of the square of the radius
/// and the in-plane part of order `m`, where `2h` powers of `x` and `y` come from the first.
pub open spec fn layer<T: Scalar>(k: int, m: int, sine: bool, h: int, x: int) -> T {
    sum_before(|a: int| layer_term::<T>(k, m, sine, h, x, a), k + 1)
}

/// A sum moved by one term.
pub proof fn lemma_moved_sum<T: Scalar>(f: spec_fn(int) -> T, g: spec_fn(int) -> T, n: int)
    requires
        is_ring::<T>(),
        0 <= n,
        forall|a: int| 0 <= a < n ==> #[trigger] g(a) == f(a + 1),
    ensures
        T::sum(f(0), sum_before(g, n)) == T::sum(sum_before(f, n), f(n)),
    decreases n,
{
    lemma_ring_sums(f(0), f(0), f(0));
    if n > 0 {
        lemma_moved_sum(f, g, n - 1);
        assert(g(n - 1) == f(n));
        lemma_ring_sums(f(0), sum_before(g, n - 1), g(n - 1));
    } else {
        lemma_ring_sums(T::count(0), f(0), f(0));
    }
}

/// A multiple of a product, with the multiplier split in two.
proof fn lemma_split<T: Scalar>(i: int, j: int, n: T, v: T)
    requires
        is_ring::<T>(),
        counts_exactly::<T>(),
        -0x1_0000_0000_0000 <= i <= 0x1_0000_0000_0000,
        -0x1_0000_0000_0000 <= j <= 0x1_0000_0000_0000,
    ensures
        T::prod(integer::<T>(i + j), T::prod(n, v)) == T::sum(
            T::prod(n, T::prod(integer::<T>(i), v)),
            T::prod(T::prod(integer::<T>(j), n), v),
        ),
{
    lemma_integer_multiples::<T>(i, j, T::prod(n, v));
    lemma_ring_factors(n, integer::<T>(i), v);
    lemma_ring_factors(integer::<T>(j), n, v);
}

/// Twice an integer, times neighbouring coefficients.
proof fn lemma_twice_shared<T: Scalar>(k: int, a: int, b: int, top: int)
    requires
        is_ring::<T>(),
        counts_exactly::<T>(),
        divides_by_units::<T>(),
        inverts_counts::<T>(top),
        0 <= k <= top <= 0xffff_ffff,
        -0x1_0000_0000 <= a <= 0x1_0000_0000,
        -0x1_0000_0000 <= b <= 0x1_0000_0000,
    ensures
        T::prod(integer::<T>(2 * b), shared::<T>(k, a, b)) == T::prod(
            integer::<T>(2 * (a + 1)),
            shared::<T>(k, a + 1, b - 1),
        ),
{
    lemma_shared::<T>(k, a, b, top);
    lemma_integer_multiples::<T>(b, b, shared::<T>(k, a, b));
    lemma_integer_multiples::<T>(a + 1, a + 1, shared::<T>(k, a + 1, b - 1));
    assert(b + b == 2 * b && a + 1 + (a + 1) == 2 * (a + 1));
}

/// The rotation of one layer.
#[verifier::spinoff_prover]
#[verifier::rlimit(40)]
proof fn lemma_layer<T: Scalar>(k: int, m: int, sine: bool, h: int, x: int, top: int)
    requires
        is_ring::<T>(),
        counts_exactly::<T>(),
        divides_by_units::<T>(),
        inverts_counts::<T>(top),
        0 <= k <= top,
        0 <= m <= top <= 0xfff_ffff,
        -0x1000_0000 <= h <= 0x1000_0000,
        -0x1000_0000 <= x <= 0x1000_0000,
    ensures
        T::diff(
            T::prod(integer::<T>(2 * h + m - x + 1), layer::<T>(k, m, sine, h, x - 1)),
            T::prod(integer::<T>(x + 1), layer::<T>(k, m, sine, h, x + 1)),
        ) == T::prod(integer::<T>(turn(m, sine)), layer::<T>(k, m, !sine, h, x)),
{
    let n = k + 1;
    let y1 = 2 * h + m - x + 1;
    let s = |a: int| shared::<T>(k, a, h - a);
    let low = |a: int| plane::<T>(m, sine, x - 2 * a - 1);
    let up = |a: int| plane::<T>(m, sine, x - 2 * a + 1);
    let fa = |a: int| layer_term::<T>(k, m, sine, h, x - 1, a);
    let fb = |a: int| layer_term::<T>(k, m, sine, h, x + 1, a);
    let ga = |a: int| T::prod(integer::<T>(y1), fa(a));
    let gb = |a: int| T::prod(integer::<T>(x + 1), fb(a));
    let t = integer::<T>(turn(m, sine));
    let other = |a: int| layer_term::<T>(k, m, !sine, h, x, a);
    let turned = |a: int| T::prod(t, other(a));
    let r = |a: int| T::prod(s(a), T::prod(integer::<T>(m - (x - 2 * a) + 1), low(a)));
    let q = |a: int| T::prod(s(a), T::prod(integer::<T>(x - 2 * a + 1), up(a)));
    let u = |a: int| T::prod(T::prod(integer::<T>(2 * (h - a)), s(a)), low(a));
    let v = |a: int| T::prod(T::prod(integer::<T>(2 * a), s(a)), up(a));
    assert forall|a: int| 0 <= a < n implies #[trigger] ga(a) == T::sum(r(a), u(a)) by {
        lemma_split::<T>(m - (x - 2 * a) + 1, 2 * (h - a), s(a), low(a));
        assert(m - (x - 2 * a) + 1 + 2 * (h - a) == y1);
    }
    assert forall|a: int| 0 <= a < n implies #[trigger] gb(a) == T::sum(q(a), v(a)) by {
        lemma_split::<T>(x - 2 * a + 1, 2 * a, s(a), up(a));
        assert(x - 2 * a + 1 + 2 * a == x + 1);
    }
    assert forall|a: int| 0 <= a < n implies #[trigger] r(a) == T::sum(q(a), turned(a)) by {
        lemma_plane::<T>(m, sine, x - 2 * a);
        let (i, j) = (
            T::prod(integer::<T>(m - (x - 2 * a) + 1), low(a)),
            T::prod(integer::<T>(x - 2 * a + 1), up(a)),
        );
        let w = plane::<T>(m, !sine, x - 2 * a);
        // i == j + (i - j)
        lemma_ring_negatives(i, j);
        lemma_ring_negatives(j, j);
        lemma_ring_sums(j, i, T::neg(j));
        lemma_ring_sums(j, T::neg(j), i);
        lemma_ring_sums(i, i, i);
        assert(i == T::sum(j, T::diff(i, j)));
        lemma_ring_factors(s(a), j, T::prod(t, w));
        lemma_ring_factors(t, s(a), w);
    }
    assert forall|a: int| 0 <= a < n implies #[trigger] u(a) == v(a + 1) by {
        lemma_twice_shared::<T>(k, a, h - a, top);
        assert(h - a - 1 == h - (a + 1));
        assert(x - 2 * a - 1 == x - 2 * (a + 1) + 1);
    }
    lemma_moved_sum(v, u, n);
    lemma_zero_factor(s(0));
    lemma_zero_factor(up(0));
    lemma_zero_factor(integer::<T>(2 * n));
    lemma_zero_factor(up(n));
    assert(v(0) == T::count(0) && v(n) == T::count(0));
    let (su, sv) = (sum_before(u, n), sum_before(v, n));
    let (sr, sq, st) = (sum_before(r, n), sum_before(q, n), sum_before(turned, n));
    lemma_ring_sums(su, su, su);
    lemma_ring_sums(sv, sv, sv);
    assert(su == sv);
    lemma_scaled_sum(integer::<T>(y1), fa, ga, n);
    lemma_scaled_sum(integer::<T>(x + 1), fb, gb, n);
    lemma_scaled_sum(t, other, turned, n);
    lemma_sum_of_sums(r, u, ga, n);
    lemma_sum_of_sums(q, v, gb, n);
    lemma_sum_of_sums(q, turned, r, n);
    // (q + t + v) - (q + v) == t
    let w = T::sum(sq, sv);
    lemma_ring_sums(sq, st, sv);
    lemma_ring_sums(w, st, T::neg(w));
    lemma_ring_negatives(T::sum(sr, su), w);
    lemma_ring_negatives(w, w);
    lemma_ring_sums(T::count(0), st, st);
    lemma_ring_sums(st, st, st);
}

/// The coefficient of the monomial `c` in the harmonic of degree `l` and order `m` of the
/// cosine or the sine type, without its factor.
pub open spec fn figure<T: Real>(l: int, m: int, sine: bool, c: Powers) -> T {
    if (c.0 + c.1 - m) % 2 != 0 {
        T::count(0)
    } else {
        sum_before(
            |k: int|
                T::prod(
                    gamma::<T>(l, m, k),
                    layer::<T>(k, m, sine, (c.0 + c.1 - m) / 2, c.0),
                ),
            (l - m) / 2 + 1,
        )
    }
}

/// A monomial with `i` more powers of `x` and as many fewer of `y`.
pub open spec fn slid(c: Powers, i: int) -> Powers {
    (c.0 + i, c.1 - i, c.2)
}

/// The rotation of a harmonic.
pub proof fn lemma_figure<T: Real>(l: int, m: int, sine: bool, c: Powers)
    requires
        is_ring::<T>(),
        counts_exactly::<T>(),
        divides_by_units::<T>(),
        inverts_counts::<T>(l),
        0 <= m <= l <= 0xff_ffff,
        0 <= c.0 <= l,
        0 <= c.1 <= l,
    ensures
        T::diff(
            T::prod(integer::<T>(c.1 + 1), figure::<T>(l, m, sine, slid(c, -1))),
            T::prod(integer::<T>(c.0 + 1), figure::<T>(l, m, sine, slid(c, 1))),
        ) == T::prod(integer::<T>(turn(m, sine)), figure::<T>(l, m, !sine, c)),
{
    let (i, j, t) = (
        integer::<T>(c.1 + 1),
        integer::<T>(c.0 + 1),
        integer::<T>(turn(m, sine)),
    );
    if (c.0 + c.1 - m) % 2 != 0 {
        lemma_zero_factor(i);
        lemma_zero_factor(j);
        lemma_zero_factor(t);
        lemma_ring_negatives(T::count(0), T::count(0));
    } else {
        let h = (c.0 + c.1 - m) / 2;
        let n = (l - m) / 2 + 1;
        let g = |k: int| gamma::<T>(l, m, k);
        let f = |sine: bool, x: int| |k: int| T::prod(g(k), layer::<T>(k, m, sine, h, x));
        let (a, b, d) = (f(sine, c.0 - 1), f(sine, c.0 + 1), f(!sine, c.0));
        let ia = |k: int| T::prod(i, a(k));
        let jb = |k: int| T::prod(j, b(k));
        let td = |k: int| T::prod(t, d(k));
        assert forall|k: int| 0 <= k < n implies #[trigger] ia(k) == T::sum(jb(k), td(k)) by {
            lemma_layer::<T>(k, m, sine, h, c.0, l);
            let (p, q, r) = (
                layer::<T>(k, m, sine, h, c.0 - 1),
                layer::<T>(k, m, sine, h, c.0 + 1),
                layer::<T>(k, m, !sine, h, c.0),
            );
            assert(2 * h + m - c.0 + 1 == c.1 + 1);
            lemma_ring_factors(g(k), i, p);
            lemma_ring_factors(g(k), j, q);
            lemma_ring_factors(g(k), t, r);
            let (ip, jq) = (T::prod(i, p), T::prod(j, q));
            lemma_ring_negatives(ip, jq);
            lemma_ring_negatives(jq, jq);
            lemma_ring_sums(jq, ip, T::neg(jq));
            lemma_ring_sums(jq, T::neg(jq), ip);
            lemma_ring_sums(ip, ip, ip);
            assert(ip == T::sum(jq, T::prod(t, r)));
            lemma_ring_factors(g(k), jq, T::prod(t, r));
        }
        lemma_ring_sums(i, i, i);
        lemma_scaled_sum(i, a, ia, n);
        lemma_scaled_sum(j, b, jb, n);
        lemma_scaled_sum(t, d, td, n);
        lemma_sum_of_sums(jb, td, ia, n);
        let (sj, st) = (sum_before(jb, n), sum_before(td, n));
        lemma_ring_sums(sj, st, T::neg(sj));
        lemma_ring_negatives(T::sum(sj, st), sj);
        lemma_ring_negatives(sj, sj);
        lemma_ring_sums(st, st, st);
        assert((slid(c, -1).0 + slid(c, -1).1 - m) / 2 == h);
        assert((slid(c, 1).0 + slid(c, 1).1 - m) / 2 == h);
        assert(figure::<T>(l, m, sine, slid(c, -1)) == sum_before(a, n)) by {
            lemma_same_sum(
                a,
                |k: int| T::prod(gamma::<T>(l, m, k), layer::<T>(k, m, sine, h, c.0 - 1)),
                n,
            );
        }
        assert(figure::<T>(l, m, sine, slid(c, 1)) == sum_before(b, n)) by {
            lemma_same_sum(
                b,
                |k: int| T::prod(gamma::<T>(l, m, k), layer::<T>(k, m, sine, h, c.0 + 1)),
                n,
            );
        }
        assert(figure::<T>(l, m, !sine, c) == sum_before(d, n)) by {
            lemma_same_sum(
                d,
                |k: int| T::prod(gamma::<T>(l, m, k), layer::<T>(k, m, !sine, h, c.0)),
                n,
            );
        }
    }
}

/// A harmonic has no monomials with negative powers.
pub proof fn lemma_no_figure<T: Real>(l: int, m: int, sine: bool, c: Powers)
    requires
        is_ring::<T>(),
        0 <= m <= l,
        c.0 < 0 || c.1 < 0 || c.0 + c.1 > l,
    ensures
        figure::<T>(l, m, sine, c) == T::count(0),
{
    let h = (c.0 + c.1 - m) / 2;
    let n = (l - m) / 2 + 1;
    if (c.0 + c.1 - m) % 2 == 0 {
        let f = |k: int| T::prod(gamma::<T>(l, m, k), layer::<T>(k, m, sine, h, c.0));
        let z = |k: int| T::count(0);
        lemma_ring_sums(T::count(0), T::count(0), T::count(0));
        assert forall|k: int| 0 <= k < n implies #[trigger] f(k) == z(k) by {
            let g = |a: int| layer_term::<T>(k, m, sine, h, c.0, a);
            assert forall|a: int| 0 <= a < k + 1 implies #[trigger] g(a) == z(a) by {
                let (s, p) = (shared::<T>(k, a, h - a), plane::<T>(m, sine, c.0 - 2 * a));
                lemma_zero_factor(s);
                lemma_zero_factor(p);
                lemma_zero_factor(quarter::<T>(sine, m - (c.0 - 2 * a)));
            }
            lemma_same_sum(z, g, k + 1);
            lemma_zero_sum(z, k + 1);
            lemma_zero_factor(gamma::<T>(l, m, k));
        }
        lemma_same_sum(z, f, n);
        lemma_zero_sum(z, n);
    }
}

/// The terms of one layer, as the coefficient adds them up.
proof fn lemma_layer_terms<T: Real>(l: int, m: int, c: Powers, k: int, a: int)
    requires
        is_ring::<T>(),
        (c.0 + c.1 - order_of(m)) % 2 == 0,
        0 <= k,
        0 <= a <= k + 1,
    ensures
        ({
            let h = (c.0 + c.1 - order_of(m)) / 2;
            harmonic_sum::<T>(l, m, c, k, a) == T::sum(
                harmonic_sum::<T>(l, m, c, k, 0),
                T::prod(
                    gamma::<T>(l, order_of(m), k),
                    sum_before(
                        |a: int| layer_term::<T>(k, order_of(m), m < 0, h, c.0, a),
                        a,
                    ),
                ),
            )
        }),
    decreases a,
{
    let big_m = order_of(m);
    let h = (c.0 + c.1 - big_m) / 2;
    let g = gamma::<T>(l, big_m, k);
    let f = |a: int| layer_term::<T>(k, big_m, m < 0, h, c.0, a);
    let start = harmonic_sum::<T>(l, m, c, k, 0);
    if a > 0 {
        lemma_layer_terms::<T>(l, m, c, k, a - 1);
        let p = c.0 - 2 * (a - 1);
        let q = big_m - p;
        let b = h - (a - 1);
        assert(c.1 - q == 2 * b);
        let s = sum_before(f, a - 1);
        let (n, e) = (shared::<T>(k, a - 1, b), plane::<T>(big_m, m < 0, p));
        lemma_ring_factors(g, s, f(a - 1));
        lemma_ring_sums(start, T::prod(g, s), T::prod(g, f(a - 1)));
        if contributes(c, m, k, a - 1) {
            assert((c.1 - q) / 2 == b);
            let (w, t) = (chosen::<T>(big_m, p), quarter::<T>(m < 0, q));
            lemma_ring_factors(g, n, w);
            lemma_ring_factors(g, T::prod(n, w), t);
            lemma_ring_factors(n, w, t);
            assert(harmonic_term::<T>(l, m, c, k, a - 1) == T::prod(g, f(a - 1)));
        } else {
            lemma_zero_factor(n);
            lemma_zero_factor(e);
            lemma_zero_factor(chosen::<T>(big_m, p));
            lemma_zero_factor(quarter::<T>(m < 0, q));
            lemma_zero_factor(g);
            assert(f(a - 1) == T::count(0));
            let before = harmonic_sum::<T>(l, m, c, k, a - 1);
            lemma_ring_sums(before, before, before);
        }
    } else {
        lemma_zero_factor(g);
        lemma_ring_sums(start, start, start);
    }
}

/// The coefficient, layer by layer.
pub proof fn lemma_layers<T: Real>(l: int, m: int, c: Powers, n: int)
    requires
        is_ring::<T>(),
        (c.0 + c.1 - order_of(m)) % 2 == 0,
        0 <= n,
    ensures
        ({
            let h = (c.0 + c.1 - order_of(m)) / 2;
            harmonic_sum::<T>(l, m, c, n, 0) == sum_before(
                |k: int|
                    T::prod(
                        gamma::<T>(l, order_of(m), k),
                        layer::<T>(k, order_of(m), m < 0, h, c.0),
                    ),
                n,
            )
        }),
    decreases n,
{
    if n > 0 {
        lemma_layers::<T>(l, m, c, n - 1);
        lemma_layer_terms::<T>(l, m, c, n - 1, n);
    }
}

} // verus!
