//! The rows of the transform to solid harmonics: unit norm, and no overlap between
//! different rows.
use vstd::prelude::*;

use crate::exact::{
    counts_exactly, is_ring, lemma_negative_factor, lemma_ring_commute, lemma_ring_factors,
    lemma_ring_negatives, lemma_ring_sums, sum_before,
};
use crate::math::am::{
    cart_count, component_at, is_component, law_every_position_is_taken, lemma_triangle_grows,
    Powers,
};
use crate::math::harmonic_products::{
    law_rotation_is_antisymmetric, lemma_paired_same, lemma_same_total, lemma_scaled_total,
    overlap_kernel, paired, raises_exactly, rotated, summed, Form, Kernel,
};
use crate::math::harmonic_rotation::{figure, lemma_figure, lemma_layers, lemma_no_figure};
use crate::math::norm::primitive_norm;
use crate::math::rotation::{
    divides_by_units, has_inverse, integer, inverts_counts, lemma_cancelled,
    lemma_integer_multiples, lemma_integer_negative, lemma_zero_factor, turn,
};
use crate::math::solid_harmonics::{
    contributes, factorial_of, harmonic_coefficient, harmonic_sum, line_moment, order_at, order_of,
    raw_factor, raw_overlap, row_coefficient, row_norm, transform_entry, vanishes,
};
use crate::scalar::Real;

verus! {

/// The overlap of rows `i` and `n` of the transform of degree `l`, over the component pairs
/// before `(j, k)`.
pub open spec fn rows_overlap<T: Real>(l: int, i: int, n: int, j: int, k: int) -> T
    decreases j, k,
{
    if k > 0 {
        T::sum(
            rows_overlap::<T>(l, i, n, j, k - 1),
            T::prod(
                T::prod(transform_entry::<T>(l, i, j), transform_entry::<T>(l, n, k - 1)),
                raw_overlap::<T>(l, component_at(l, j), component_at(l, k - 1)),
            ),
        )
    } else if j > 0 {
        rows_overlap::<T>(l, i, n, j - 1, cart_count(l))
    } else {
        T::count(0)
    }
}

/// Whether what vanishes is zero.
pub open spec fn vanishes_exactly<T: Real>() -> bool {
    forall|a: T| #[trigger] vanishes(a) ==> a == T::count(0)
}

/// Whether the root of a number is one, and can be divided by.
pub open spec fn has_root<T: Real>(a: T) -> bool {
    &&& T::prod(T::root(a), T::root(a)) == a
    &&& T::prod(T::root(a), T::quot(T::count(1), T::root(a))) == T::count(1)
}

/// The overlap of a row with itself is its unscaled overlap, scaled twice.
proof fn lemma_row_norm<T: Real>(l: int, i: int, j: int, k: int)
    requires
        is_ring::<T>(),
        vanishes_exactly::<T>(),
    ensures
        ({
            let s = T::quot(T::count(1), T::root(row_norm::<T>(l, i, cart_count(l), 0)));
            rows_overlap::<T>(l, i, i, j, k) == T::prod(T::prod(s, s), row_norm::<T>(l, i, j, k))
        }),
    decreases j, k,
{
    let s = T::quot(T::count(1), T::root(row_norm::<T>(l, i, cart_count(l), 0)));
    let ss = T::prod(s, s);
    if k > 0 {
        lemma_row_norm::<T>(l, i, j, k - 1);
        let (a, b) = (row_coefficient::<T>(l, i, j), row_coefficient::<T>(l, i, k - 1));
        let v = raw_overlap::<T>(l, component_at(l, j), component_at(l, k - 1));
        let before = row_norm::<T>(l, i, j, k - 1);
        let ab = T::prod(a, b);
        // (s a)(s b) v == (s s) ((a b) v)
        lemma_ring_factors(s, a, T::prod(s, b));
        lemma_ring_factors(s, a, b);
        lemma_ring_factors(s, s, ab);
        lemma_ring_factors(ss, ab, v);
        if vanishes(a) || vanishes(b) {
            lemma_zero_factor(a);
            lemma_zero_factor(b);
            lemma_zero_factor(v);
            lemma_zero_factor(ss);
            let t = rows_overlap::<T>(l, i, i, j, k - 1);
            lemma_ring_sums(t, t, t);
        } else {
            lemma_ring_factors(ss, before, T::prod(ab, v));
        }
    } else if j > 0 {
        lemma_row_norm::<T>(l, i, j - 1, cart_count(l));
    } else {
        lemma_zero_factor(ss);
    }
}

/// Every row of the transform has unit norm, in any commutative ring in which what vanishes
/// is zero and the norm of the row has a root that can be divided by.
pub proof fn law_rows_have_unit_norm<T: Real>(l: int, i: int)
    requires
        is_ring::<T>(),
        vanishes_exactly::<T>(),
        has_root(row_norm::<T>(l, i, cart_count(l), 0)),
        0 <= l,
        0 <= i < 2 * l + 1,
    ensures
        rows_overlap::<T>(l, i, i, cart_count(l), 0) == T::count(1),
{
    let n = row_norm::<T>(l, i, cart_count(l), 0);
    let r = T::root(n);
    let s = T::quot(T::count(1), r);
    lemma_row_norm::<T>(l, i, cart_count(l), 0);
    // (s s)(r r) == (s r)(s r) == 1
    lemma_ring_commute(r, s);
    lemma_ring_factors(s, s, T::prod(r, r));
    lemma_ring_factors(s, r, r);
    lemma_ring_sums(r, r, r);
}

/// The power of `y` of a monomial of order `m` is even for the cosine type and odd for the
/// sine type; that of `z` is even or odd as `l - |m|` is.
pub open spec fn has_parity(m: int, c: Powers) -> bool {
    &&& c.1 % 2 == (if m >= 0 {
        0int
    } else {
        1
    })
    &&& (c.0 + c.1 - order_of(m)) % 2 == 0
}

/// No term contributes to a monomial of another parity.
proof fn lemma_no_terms<T: Real>(l: int, m: int, c: Powers, k: int, a: int)
    requires
        !has_parity(m, c),
    ensures
        harmonic_sum::<T>(l, m, c, k, a) == T::count(0),
    decreases k, a,
{
    if a > 0 {
        lemma_no_terms::<T>(l, m, c, k, a - 1);
        assert(!contributes(c, m, k, a - 1)) by {
            if contributes(c, m, k, a - 1) {
                let p = c.0 - 2 * (a - 1);
                let q = order_of(m) - p;
                let b = (c.1 - q) / 2;
                assert(c.1 == q + 2 * b);
                assert(c.0 + c.1 - order_of(m) == 2 * (b + a - 1));
                assert(c.1 % 2 == q % 2);
            }
        }
    } else if k > 0 {
        lemma_no_terms::<T>(l, m, c, k - 1, k);
    }
}

/// The coefficient of a monomial of another parity is zero, in any commutative ring.
pub proof fn law_other_parities_have_no_coefficient<T: Real>(l: int, m: int, c: Powers)
    requires
        is_ring::<T>(),
        !has_parity(m, c),
    ensures
        harmonic_coefficient::<T>(l, m, c) == T::count(0),
{
    let big_m = order_of(m);
    lemma_no_terms::<T>(l, m, c, (l - big_m) / 2 + 1, 0);
    let share = T::quot(
        if big_m == 0 {
            factorial_of::<T>(l - big_m)
        } else {
            T::prod(T::count(2), factorial_of::<T>(l - big_m))
        },
        factorial_of::<T>(l + big_m),
    );
    lemma_zero_factor(T::root(share));
}

/// Whether two orders have different parity: one is of the cosine type and one of the sine
/// type, or one magnitude is even and one odd.
pub open spec fn differ_in_parity(m: int, n: int) -> bool {
    (m >= 0) != (n >= 0) || (order_of(m) - order_of(n)) % 2 != 0
}

/// Components of different parity do not overlap.
proof fn lemma_no_overlap<T: Real>(l: int, m: int, n: int, a: Powers, b: Powers)
    requires
        is_ring::<T>(),
        differ_in_parity(m, n),
        has_parity(m, a),
        has_parity(n, b),
        a.0 + a.1 + a.2 == l,
        b.0 + b.1 + b.2 == l,
    ensures
        raw_overlap::<T>(l, a, b) == T::count(0),
{
    let beta = T::count(2);
    let (x, y, z) = (
        line_moment::<T>(a.0 + b.0, beta),
        line_moment::<T>(a.1 + b.1, beta),
        line_moment::<T>(a.2 + b.2, beta),
    );
    let w = primitive_norm(T::count(1), l, 0, 0);
    let s = T::prod(T::prod(T::raised(raw_factor::<T>(l), 2), w), w);
    lemma_zero_factor(x);
    lemma_zero_factor(z);
    lemma_zero_factor(T::prod(x, y));
    lemma_zero_factor(s);
    if (m >= 0) != (n >= 0) {
        assert((a.1 + b.1) % 2 == 1);
    } else {
        assert((a.2 + b.2) % 2 == 1);
    }
}

/// Two rows of the transform whose orders differ in parity do not overlap, in any
/// commutative ring.
pub proof fn law_rows_of_other_parity_do_not_overlap<T: Real>(
    l: int,
    i: int,
    n: int,
    j: int,
    k: int,
)
    requires
        is_ring::<T>(),
        0 <= l,
        differ_in_parity(order_at(l, i), order_at(l, n)),
        0 <= j,
        0 <= k <= cart_count(l),
        j < cart_count(l) || j == cart_count(l) && k == 0,
    ensures
        rows_overlap::<T>(l, i, n, j, k) == T::count(0),
    decreases j, k,
{
    if k > 0 {
        law_rows_of_other_parity_do_not_overlap::<T>(l, i, n, j, k - 1);
        law_every_position_is_taken(l, j);
        law_every_position_is_taken(l, k - 1);
        let (a, b) = (component_at(l, j), component_at(l, k - 1));
        let (m, o) = (order_at(l, i), order_at(l, n));
        let (x, y) = (transform_entry::<T>(l, i, j), transform_entry::<T>(l, n, k - 1));
        let v = raw_overlap::<T>(l, a, b);
        let r = T::quot(T::count(1), T::root(row_norm::<T>(l, i, cart_count(l), 0)));
        let s = T::quot(T::count(1), T::root(row_norm::<T>(l, n, cart_count(l), 0)));
        lemma_zero_factor(r);
        lemma_zero_factor(s);
        lemma_zero_factor(x);
        lemma_zero_factor(y);
        lemma_zero_factor(v);
        lemma_zero_factor(T::prod(x, y));
        if !has_parity(m, a) {
            law_other_parities_have_no_coefficient::<T>(l, m, a);
        } else if !has_parity(o, b) {
            law_other_parities_have_no_coefficient::<T>(l, o, b);
        } else {
            lemma_no_overlap::<T>(l, m, o, a, b);
        }
        lemma_ring_sums(T::count(0), T::count(0), T::count(0));
    } else if j > 0 {
        law_rows_of_other_parity_do_not_overlap::<T>(l, i, n, j - 1, cart_count(l));
    }
}

/// The harmonic of degree `l` and order `m` of the cosine or the sine type, as a form.
pub open spec fn figure_form<T: Real>(l: int, m: int, sine: bool) -> Form<T> {
    |c: Powers| figure::<T>(l, m, sine, c)
}

/// The overlap of two harmonics without their factors.
spec fn figures_overlap<T: Real>(l: int, m: int, first: bool, n: int, second: bool) -> T {
    paired(
        l,
        overlap_kernel::<T>(l),
        figure_form::<T>(l, m, first),
        figure_form::<T>(l, n, second),
    )
}

/// What exact arithmetic keeps of the factors of harmonics of degree `l`: counts add up,
/// those up to `2l` have inverses, which can be divided by, and powers are repeated products.
pub open spec fn keeps_harmonics<T: Real>(l: int) -> bool {
    &&& is_ring::<T>()
    &&& counts_exactly::<T>()
    &&& divides_by_units::<T>()
    &&& raises_exactly::<T>()
    &&& inverts_counts::<T>(2 * l)
}

/// A pairing of multiples.
proof fn lemma_paired_scaled<T: Real>(
    l: int,
    v: Kernel<T>,
    s: T,
    f: Form<T>,
    h: Form<T>,
    g: Form<T>,
)
    requires
        is_ring::<T>(),
        0 <= l,
        forall|c: Powers| is_component(c, l) ==> #[trigger] f(c) == T::prod(s, h(c)),
    ensures
        paired(l, v, f, g) == T::prod(s, paired(l, v, h, g)),
        paired(l, v, g, f) == T::prod(s, paired(l, v, g, h)),
{
    let p = |c: Powers| T::prod(f(c), summed(l, v, g, c));
    let q = |c: Powers| T::prod(h(c), summed(l, v, g, c));
    let r = |c: Powers| T::prod(s, q(c));
    assert forall|c: Powers| is_component(c, l) implies #[trigger] p(c) == r(c) by {
        assert(f(c) == T::prod(s, h(c)));
        lemma_ring_factors(s, h(c), summed(l, v, g, c));
    }
    lemma_same_total(l, r, p);
    lemma_scaled_total(l, s, q);
    assert forall|c: Powers| is_component(c, l) implies #[trigger] summed(l, v, f, c) == T::prod(
        s,
        summed(l, v, h, c),
    ) by {
        let a = |d: Powers| T::prod(f(d), v(c, d));
        let b = |d: Powers| T::prod(h(d), v(c, d));
        let e = |d: Powers| T::prod(s, b(d));
        assert forall|d: Powers| is_component(d, l) implies #[trigger] a(d) == e(d) by {
            assert(f(d) == T::prod(s, h(d)));
            lemma_ring_factors(s, h(d), v(c, d));
        }
        lemma_same_total(l, e, a);
        lemma_scaled_total(l, s, b);
    }
    lemma_paired_same(l, v, v, g, f, h, s);
}

/// The rotation of one harmonic of an overlap against that of the other.
proof fn lemma_turns<T: Real>(l: int, m: int, first: bool, n: int, second: bool)
    requires
        keeps_harmonics::<T>(l),
        1 <= l <= 0xff_ffff,
        0 <= m <= l,
        0 <= n <= l,
    ensures
        T::prod(
            integer::<T>(turn(m, first)),
            figures_overlap::<T>(l, m, !first, n, second),
        ) == T::neg(
            T::prod(
                integer::<T>(turn(n, second)),
                figures_overlap::<T>(l, m, first, n, !second),
            ),
        ),
{
    let (f, g) = (figure_form::<T>(l, m, first), figure_form::<T>(l, n, second));
    let (fo, go) = (figure_form::<T>(l, m, !first), figure_form::<T>(l, n, !second));
    let w = overlap_kernel::<T>(l);
    let (i, j) = (integer::<T>(turn(m, first)), integer::<T>(turn(n, second)));
    assert forall|k: u64| 1 <= k <= l implies has_inverse(#[trigger] T::count(k)) by {}
    assert forall|c: Powers| c.0 < 0 || c.1 < 0 implies #[trigger] f(c) == T::count(0) by {
        lemma_no_figure::<T>(l, m, first, c);
    }
    assert forall|c: Powers| c.0 < 0 || c.1 < 0 implies #[trigger] g(c) == T::count(0) by {
        lemma_no_figure::<T>(l, n, second, c);
    }
    law_rotation_is_antisymmetric(l, f, g);
    let (rf, rg) = (rotated(f), rotated(g));
    assert forall|c: Powers| is_component(c, l) implies #[trigger] rf(c) == T::prod(i, fo(c)) by {
        lemma_figure::<T>(l, m, first, c);
    }
    assert forall|c: Powers| is_component(c, l) implies #[trigger] rg(c) == T::prod(j, go(c)) by {
        lemma_figure::<T>(l, n, second, c);
    }
    lemma_paired_scaled(l, w, i, rf, fo, g);
    lemma_paired_scaled(l, w, j, rg, go, f);
}

/// Two harmonics of one type and of different orders do not overlap.
proof fn lemma_orders_apart<T: Real>(l: int, m: int, n: int, sine: bool)
    requires
        keeps_harmonics::<T>(l),
        1 <= l <= 0xff_ffff,
        0 <= m <= l,
        0 <= n <= l,
        m != n,
    ensures
        figures_overlap::<T>(l, m, sine, n, sine) == T::count(0),
{
    let b = figures_overlap::<T>(l, m, sine, n, sine);
    let e = figures_overlap::<T>(l, m, !sine, n, !sine);
    let (im, i) = (integer::<T>(m), integer::<T>(n));
    lemma_turns::<T>(l, m, !sine, n, sine);
    lemma_turns::<T>(l, m, sine, n, !sine);
    lemma_integer_negative::<T>(m);
    lemma_integer_negative::<T>(n);
    lemma_negative_factor(im, b);
    lemma_negative_factor(im, e);
    lemma_negative_factor(i, b);
    lemma_negative_factor(i, e);
    let (mb, me, nb, ne) = (T::prod(im, b), T::prod(im, e), T::prod(i, b), T::prod(i, e));
    lemma_ring_negatives(mb, mb);
    lemma_ring_negatives(me, me);
    lemma_ring_negatives(nb, nb);
    lemma_ring_negatives(ne, ne);
    assert(!!sine == sine);
    assert(mb == ne && me == nb);
    // m m b == m n e == n m e == n n b
    lemma_ring_factors(im, i, e);
    assert(T::prod(im, mb) == T::prod(i, nb));
    let p = T::sum(mb, nb);
    lemma_integer_multiples::<T>(m, n, b);
    // (m - n)(m + n) b == 0
    lemma_integer_multiples::<T>(m, -n, p);
    lemma_negative_factor(i, p);
    lemma_ring_factors(im, mb, nb);
    lemma_ring_factors(i, mb, nb);
    lemma_ring_factors(im, i, b);
    lemma_ring_sums(T::prod(im, mb), T::prod(im, nb), b);
    lemma_ring_negatives(T::prod(im, p), T::prod(im, p));
    assert(T::prod(im, p) == T::prod(i, p));
    assert(T::prod(integer::<T>(m - n), p) == T::count(0));
    let w = T::count((if m > n {
        m - n
    } else {
        n - m
    }) as u64);
    lemma_integer_negative::<T>(n - m);
    lemma_negative_factor(w, p);
    lemma_ring_negatives(T::prod(w, p), T::count(0));
    lemma_zero_factor(w);
    assert(has_inverse(w));
    lemma_cancelled(w, p, T::count(0));
    let s = T::count((m + n) as u64);
    lemma_zero_factor(s);
    assert(has_inverse(s));
    lemma_cancelled(s, b, T::count(0));
}

/// The factor of row `i`: that of the harmonic over the norm of the row.
spec fn row_factor<T: Real>(l: int, i: int) -> T {
    let big_m = order_of(order_at(l, i));
    let share = T::quot(
        if big_m == 0 {
            factorial_of::<T>(l - big_m)
        } else {
            T::prod(T::count(2), factorial_of::<T>(l - big_m))
        },
        factorial_of::<T>(l + big_m),
    );
    T::prod(
        T::quot(T::count(1), T::root(row_norm::<T>(l, i, cart_count(l), 0))),
        T::root(share),
    )
}

/// An entry of the transform is a multiple of the coefficient of its harmonic.
proof fn lemma_entry<T: Real>(l: int, i: int, j: int)
    requires
        is_ring::<T>(),
        0 <= l,
        0 <= i < 2 * l + 1,
        0 <= j < cart_count(l),
    ensures
        ({
            let m = order_at(l, i);
            transform_entry::<T>(l, i, j) == T::prod(
                row_factor::<T>(l, i),
                figure::<T>(l, order_of(m), m < 0, component_at(l, j)),
            )
        }),
{
    let m = order_at(l, i);
    let big_m = order_of(m);
    let c = component_at(l, j);
    let n = (l - big_m) / 2 + 1;
    let share = T::quot(
        if big_m == 0 {
            factorial_of::<T>(l - big_m)
        } else {
            T::prod(T::count(2), factorial_of::<T>(l - big_m))
        },
        factorial_of::<T>(l + big_m),
    );
    if (c.0 + c.1 - big_m) % 2 == 0 {
        lemma_layers::<T>(l, m, c, n);
    } else {
        lemma_no_terms::<T>(l, m, c, n, 0);
    }
    let v = figure::<T>(l, big_m, m < 0, c);
    let s = T::quot(T::count(1), T::root(row_norm::<T>(l, i, cart_count(l), 0)));
    lemma_ring_factors(s, T::root(share), v);
}

/// The overlap of two rows, row of components by row.
proof fn lemma_rows_overlap<T: Real>(l: int, i: int, n: int, f: Form<T>, g: Form<T>, j: int, k: int)
    requires
        is_ring::<T>(),
        0 <= l,
        0 <= j,
        0 <= k <= cart_count(l),
        j < cart_count(l) || j == cart_count(l) && k == 0,
        forall|j: int|
            0 <= j < cart_count(l) ==> #[trigger] transform_entry::<T>(l, i, j) == f(
                component_at(l, j),
            ),
        forall|j: int|
            0 <= j < cart_count(l) ==> #[trigger] transform_entry::<T>(l, n, j) == g(
                component_at(l, j),
            ),
    ensures
        ({
            let w = overlap_kernel::<T>(l);
            let c = component_at(l, j);
            let a = |c: Powers| T::prod(f(c), summed(l, w, g, c));
            let b = |d: Powers| T::prod(g(d), w(c, d));
            rows_overlap::<T>(l, i, n, j, k) == T::sum(
                sum_before(|j: int| a(component_at(l, j)), j),
                T::prod(f(c), sum_before(|k: int| b(component_at(l, k)), k)),
            )
        }),
    decreases j, k,
{
    let w = overlap_kernel::<T>(l);
    let c = component_at(l, j);
    let a = |c: Powers| T::prod(f(c), summed(l, w, g, c));
    let aj = |j: int| a(component_at(l, j));
    let b = |d: Powers| T::prod(g(d), w(c, d));
    let bk = |k: int| b(component_at(l, k));
    let before = sum_before(aj, j);
    if k > 0 {
        lemma_rows_overlap(l, i, n, f, g, j, k - 1);
        let d = component_at(l, k - 1);
        assert(transform_entry::<T>(l, i, j) == f(c));
        assert(transform_entry::<T>(l, n, k - 1) == g(d));
        let s = sum_before(bk, k - 1);
        lemma_ring_factors(f(c), g(d), w(c, d));
        lemma_ring_factors(f(c), s, bk(k - 1));
        lemma_ring_sums(before, T::prod(f(c), s), T::prod(f(c), bk(k - 1)));
    } else {
        lemma_zero_factor(f(c));
        lemma_ring_sums(before, before, before);
        if j > 0 {
            lemma_rows_overlap(l, i, n, f, g, j - 1, cart_count(l));
            let e = component_at(l, j - 1);
            let b1 = |d: Powers| T::prod(g(d), w(e, d));
            assert(summed(l, w, g, e) == sum_before(
                |k: int| b1(component_at(l, k)),
                cart_count(l),
            ));
        }
    }
}

/// Different rows of the transform do not overlap, in any commutative ring that keeps the
/// factors of the harmonics. A transform whose size a `usize` holds has a degree far below
/// the bound, which keeps the counts of the moments exact.
pub proof fn law_rows_do_not_overlap<T: Real>(l: int, i: int, n: int)
    requires
        keeps_harmonics::<T>(l),
        0 <= l <= 0xff_ffff,
        0 <= i < 2 * l + 1,
        0 <= n < 2 * l + 1,
        i != n,
    ensures
        rows_overlap::<T>(l, i, n, cart_count(l), 0) == T::count(0),
{
    let (m, o) = (order_at(l, i), order_at(l, n));
    lemma_triangle_grows(0, l + 1);
    if differ_in_parity(m, o) {
        law_rows_of_other_parity_do_not_overlap::<T>(l, i, n, cart_count(l), 0);
    } else {
        let sine = m < 0;
        let (bm, bo) = (order_of(m), order_of(o));
        let w = overlap_kernel::<T>(l);
        let (p, q) = (figure_form::<T>(l, bm, sine), figure_form::<T>(l, bo, sine));
        let (rp, rq) = (row_factor::<T>(l, i), row_factor::<T>(l, n));
        let f = |c: Powers| T::prod(rp, p(c));
        let g = |c: Powers| T::prod(rq, q(c));
        assert forall|j: int| 0 <= j < cart_count(l) implies #[trigger] transform_entry::<T>(
            l,
            i,
            j,
        ) == f(component_at(l, j)) by {
            lemma_entry::<T>(l, i, j);
        }
        assert forall|j: int| 0 <= j < cart_count(l) implies #[trigger] transform_entry::<T>(
            l,
            n,
            j,
        ) == g(component_at(l, j)) by {
            lemma_entry::<T>(l, n, j);
        }
        lemma_rows_overlap(l, i, n, f, g, cart_count(l), 0);
        lemma_paired_scaled(l, w, rp, f, p, g);
        lemma_paired_scaled(l, w, rq, g, q, p);
        lemma_orders_apart::<T>(l, bm, bo, sine);
        lemma_zero_factor(rp);
        lemma_zero_factor(rq);
        lemma_zero_factor(f(component_at(l, cart_count(l))));
        let t = paired(l, w, f, g);
        lemma_ring_sums(t, t, t);
    }
}

} // verus!
