//! Arithmetic that loses nothing.
//!
//! Sums and products that are the same in exact arithmetic may differ once they are
//! rounded. The predicates here say what a scalar must keep for a law of exact
//! arithmetic to hold of it.
use vstd::prelude::*;
use vstd::arithmetic::div_mod::{
    lemma_add_mod_noop, lemma_mul_mod_noop_left, lemma_mul_mod_noop_right,
};
use vstd::set_lib::set_int_range;

use crate::scalar::{fraction, Residue, Scalar};

verus! {

/// Whether sums may be regrouped and reordered and zero adds nothing.
#[verifier::opaque]
pub open spec fn adds_exactly<T: Scalar>() -> bool {
    &&& forall|a: T, b: T| #[trigger] T::sum(a, b) == T::sum(b, a)
    &&& forall|a: T, b: T, c: T| #[trigger] T::sum(T::sum(a, b), c) == T::sum(a, T::sum(b, c))
    &&& forall|a: T| #[trigger] T::sum(T::count(0), a) == a
}

/// Whether products distribute over sums and zero annihilates.
#[verifier::opaque]
pub open spec fn distributes_exactly<T: Scalar>() -> bool {
    &&& forall|a: T, b: T, c: T| #[trigger]
        T::prod(a, T::sum(b, c)) == T::sum(T::prod(a, b), T::prod(a, c))
    &&& forall|a: T| #[trigger] T::prod(a, T::count(0)) == T::count(0)
}

/// Whether zero is the sum of zeros and the product of zero with any value.
pub open spec fn keeps_zero<T: Scalar>() -> bool {
    &&& T::sum(T::count(0), T::count(0)) == T::count(0)
    &&& forall|a: T| #[trigger] T::prod(a, T::count(0)) == T::count(0)
}

/// Whether multiplying by one and adding to zero leave a value as it is.
pub open spec fn has_neutral_values<T: Scalar>() -> bool {
    &&& forall|a: T| #[trigger] T::prod(T::count(1), a) == a
    &&& forall|a: T| #[trigger] T::prod(a, T::count(1)) == a
    &&& forall|a: T| #[trigger] T::sum(T::count(0), a) == a
}

/// Whether a value divided by a count, or multiplied by its reciprocal, is given back by
/// that count.
pub open spec fn divides_exactly<T: Scalar>() -> bool {
    forall|a: T, n: u64|
        n >= 1 ==> T::prod(T::count(n), #[trigger] T::quot(a, T::count(n))) == a && T::prod(
            T::count(n),
            T::prod(a, T::quot(T::count(1), T::count(n))),
        ) == a
}

/// Whether one and minus one times a value cancel.
pub open spec fn cancels_exactly<T: Scalar>() -> bool {
    forall|a: T|
        T::sum(#[trigger] T::prod(T::count(1), a), T::prod(T::neg(T::count(1)), a)) == T::count(0)
}

/// Whether taking a value from a sum to which it was added gives the sum back.
pub open spec fn takes_back<T: Scalar>() -> bool {
    forall|a: T, b: T| #[trigger] T::diff(a, b) == T::sum(a, T::neg(b)) && T::sum(b, T::neg(b))
        == T::count(0)
}

/// Sums of three values, regrouped and reordered.
pub proof fn lemma_regrouped<T: Scalar>(a: T, b: T, c: T)
    requires
        adds_exactly::<T>(),
    ensures
        T::sum(T::sum(a, b), c) == T::sum(a, T::sum(b, c)),
        T::sum(b, c) == T::sum(c, b),
        T::sum(T::sum(a, b), c) == T::sum(T::sum(a, c), b),
        T::sum(T::count(0), a) == a,
{
    reveal(adds_exactly);
    assert(T::sum(T::sum(a, c), b) == T::sum(a, T::sum(c, b)));
}

/// Whether two factors may change places.
pub open spec fn commute<T: Scalar>(a: T, b: T) -> bool {
    T::prod(a, b) == T::prod(b, a)
}

/// Whether a product of three factors may be regrouped.
pub open spec fn associate<T: Scalar>(a: T, b: T, c: T) -> bool {
    T::prod(T::prod(a, b), c) == T::prod(a, T::prod(b, c))
}

/// Whether sums, differences, negatives and products are those of a commutative ring
/// with a one.
#[verifier::opaque]
pub open spec fn is_ring<T: Scalar>() -> bool {
    &&& adds_exactly::<T>()
    &&& distributes_exactly::<T>()
    &&& forall|a: T, b: T| #[trigger] commute(a, b)
    &&& forall|a: T, b: T, c: T| #[trigger] associate(a, b, c)
    &&& forall|a: T| #[trigger] T::prod(T::count(1), a) == a
    &&& forall|a: T| T::sum(a, #[trigger] T::neg(a)) == T::count(0)
    &&& forall|a: T, b: T| #[trigger] T::diff(a, b) == T::sum(a, T::neg(b))
}

/// What a ring keeps of sums.
pub proof fn lemma_ring_sums<T: Scalar>(a: T, b: T, c: T)
    requires
        is_ring::<T>(),
    ensures
        adds_exactly::<T>(),
        distributes_exactly::<T>(),
        T::sum(T::sum(a, b), c) == T::sum(a, T::sum(b, c)),
        T::sum(T::sum(a, b), c) == T::sum(T::sum(a, c), b),
        T::sum(a, b) == T::sum(b, a),
        T::sum(T::count(0), a) == a,
        T::sum(a, T::count(0)) == a,
        T::prod(T::count(1), a) == a,
        T::prod(a, T::count(0)) == T::count(0),
{
    assert(adds_exactly::<T>() && distributes_exactly::<T>() && T::prod(T::count(1), a) == a) by {
        reveal(is_ring);
    }
    assert(T::prod(a, T::count(0)) == T::count(0)) by {
        reveal(distributes_exactly);
    }
    lemma_regrouped(a, b, c);
    lemma_regrouped(a, a, b);
    lemma_regrouped(a, a, T::count(0));
}

/// Two factors may change places.
pub proof fn lemma_ring_commute<T: Scalar>(a: T, b: T)
    requires
        is_ring::<T>(),
    ensures
        T::prod(a, b) == T::prod(b, a),
{
    reveal(is_ring);
    assert(commute(a, b));
}

/// A factor may be moved past another, and into a sum.
pub proof fn lemma_ring_factors<T: Scalar>(s: T, a: T, b: T)
    requires
        is_ring::<T>(),
    ensures
        T::prod(a, T::prod(s, b)) == T::prod(s, T::prod(a, b)),
        T::prod(T::prod(s, a), b) == T::prod(s, T::prod(a, b)),
        T::prod(s, T::sum(a, b)) == T::sum(T::prod(s, a), T::prod(s, b)),
{
    reveal(is_ring);
    reveal(distributes_exactly);
    assert(associate(a, s, b) && associate(s, a, b) && commute(a, s));
    assert(T::prod(s, T::sum(a, b)) == T::sum(T::prod(s, a), T::prod(s, b)));
}

/// What adds to zero is the negative.
pub proof fn lemma_ring_unique<T: Scalar>(a: T, b: T)
    requires
        is_ring::<T>(),
        T::sum(a, b) == T::count(0),
    ensures
        b == T::neg(a),
{
    let m = T::neg(a);
    assert(T::sum(a, m) == T::count(0)) by {
        reveal(is_ring);
    }
    lemma_ring_sums(m, a, b);
    lemma_ring_sums(a, m, b);
    lemma_ring_sums(b, m, b);
    lemma_ring_sums(m, m, b);
}

/// Negatives of products, sums and negatives.
pub proof fn lemma_ring_negatives<T: Scalar>(a: T, b: T)
    requires
        is_ring::<T>(),
    ensures
        T::prod(a, T::neg(b)) == T::neg(T::prod(a, b)),
        T::neg(T::sum(a, b)) == T::sum(T::neg(a), T::neg(b)),
        T::neg(T::neg(a)) == a,
        T::neg(T::count(0)) == T::count(0),
        T::sum(a, T::neg(a)) == T::count(0),
        T::diff(a, b) == T::sum(a, T::neg(b)),
{
    let (ma, mb) = (T::neg(a), T::neg(b));
    assert(T::sum(a, ma) == T::count(0) && T::sum(b, mb) == T::count(0) && T::diff(a, b)
        == T::sum(a, mb)) by {
        reveal(is_ring);
    }
    lemma_ring_factors(a, b, mb);
    lemma_ring_sums(a, b, b);
    lemma_ring_unique(T::prod(a, b), T::prod(a, mb));
    lemma_ring_sums(ma, a, a);
    lemma_ring_unique(ma, a);
    lemma_ring_sums(T::count(0), a, a);
    lemma_ring_unique::<T>(T::count(0), T::count(0));
    lemma_ring_sums(T::sum(a, b), ma, mb);
    lemma_ring_sums(a, b, ma);
    lemma_ring_sums(T::count(0), b, mb);
    lemma_ring_sums(b, mb, mb);
    assert(T::sum(T::sum(T::sum(a, b), ma), mb) == T::count(0));
    lemma_ring_unique(T::sum(a, b), T::sum(ma, mb));
}

/// The negative of a factor.
pub proof fn lemma_negative_factor<T: Scalar>(p: T, x: T)
    requires
        is_ring::<T>(),
    ensures
        T::prod(T::neg(p), x) == T::neg(T::prod(p, x)),
{
    lemma_ring_commute(T::neg(p), x);
    lemma_ring_negatives(x, p);
    lemma_ring_commute(x, p);
}

/// A factor may be moved out of a difference.
pub proof fn lemma_ring_difference<T: Scalar>(s: T, a: T, b: T)
    requires
        is_ring::<T>(),
    ensures
        T::diff(T::prod(s, a), T::prod(s, b)) == T::prod(s, T::diff(a, b)),
{
    lemma_ring_negatives(a, b);
    lemma_ring_negatives(T::prod(s, a), T::prod(s, b));
    lemma_ring_negatives(s, b);
    lemma_ring_factors(s, a, T::neg(b));
}

/// Whether counts add up.
pub open spec fn counts_exactly<T: Scalar>() -> bool {
    forall|n: u64| n < u64::MAX ==> #[trigger] T::count((n + 1) as u64) == T::sum(
        T::count(n),
        T::count(1),
    )
}

/// Whether twice a half is one.
pub open spec fn halves_exactly<T: Scalar>() -> bool {
    T::prod(fraction::<T>(1, 2), T::count(2)) == T::count(1)
}

/// Counts add up.
pub proof fn lemma_count_sum<T: Scalar>(m: int, n: int)
    requires
        is_ring::<T>(),
        counts_exactly::<T>(),
        0 <= m,
        0 <= n,
        m + n <= u64::MAX,
    ensures
        T::sum(T::count(m as u64), T::count(n as u64)) == T::count((m + n) as u64),
    decreases n,
{
    let a = T::count(m as u64);
    if n == 0 {
        lemma_ring_sums(a, a, a);
    } else {
        lemma_count_sum::<T>(m, n - 1);
        let (low, all) = ((n - 1) as u64, (m + n - 1) as u64);
        assert(T::count((low + 1) as u64) == T::sum(T::count(low), T::count(1)));
        assert(T::count((all + 1) as u64) == T::sum(T::count(all), T::count(1)));
        lemma_ring_sums(a, T::count(low), T::count(1));
    }
}

/// Counts multiply.
pub proof fn lemma_count_product<T: Scalar>(m: int, n: int)
    requires
        is_ring::<T>(),
        counts_exactly::<T>(),
        0 <= m,
        0 <= n,
        m <= u64::MAX,
        n <= u64::MAX,
        m * n <= u64::MAX,
    ensures
        T::prod(T::count(m as u64), T::count(n as u64)) == T::count((m * n) as u64),
    decreases n,
{
    let a = T::count(m as u64);
    lemma_ring_sums(a, a, a);
    if n == 0 {
        assert(m * n == 0) by (nonlinear_arith)
            requires
                n == 0,
        ;
    } else {
        assert(m * (n - 1) + m == m * n && 0 <= m * (n - 1)) by (nonlinear_arith)
            requires
                0 <= m,
                1 <= n,
        ;
        lemma_count_product::<T>(m, n - 1);
        let low = (n - 1) as u64;
        assert(T::count((low + 1) as u64) == T::sum(T::count(low), T::count(1)));
        lemma_ring_factors(a, T::count(low), T::count(1));
        lemma_ring_commute(a, T::count(1));
        lemma_count_sum::<T>(m * (n - 1), m);
    }
}

/// A half of a double.
pub proof fn lemma_half_of_double<T: Scalar>(a: T)
    requires
        is_ring::<T>(),
        halves_exactly::<T>(),
    ensures
        T::prod(fraction::<T>(1, 2), T::prod(T::count(2), a)) == a,
{
    lemma_ring_factors(fraction::<T>(1, 2), T::count(2), a);
    lemma_ring_sums(a, a, a);
}

/// Two to the 64th.
spec fn modulus() -> int {
    0x1_0000_0000_0000_0000
}

/// Sums, differences and products of residues, as remainders.
proof fn lemma_residue_values(a: Residue, b: Residue)
    ensures
        Residue::sum(a, b).0 == (a.0 + b.0) % modulus(),
        Residue::diff(a, b).0 == (a.0 - b.0) % modulus(),
        Residue::prod(a, b).0 == (a.0 * b.0) % modulus(),
        Residue::neg(a).0 == (0 - a.0) % modulus(),
        a.0 == a.0 as int % modulus(),
{
}

proof fn lemma_residue_products(a: Residue, b: Residue, c: Residue)
    ensures
        associate(a, b, c),
        commute(a, b),
        Residue::prod(a, Residue::sum(b, c)) == Residue::sum(
            Residue::prod(a, b),
            Residue::prod(a, c),
        ),
{
    let (x, y, z) = (a.0 as int, b.0 as int, c.0 as int);
    let m = modulus();
    lemma_residue_values(a, b);
    lemma_residue_values(b, a);
    lemma_residue_values(b, c);
    lemma_residue_values(a, c);
    lemma_residue_values(Residue::prod(a, b), c);
    lemma_residue_values(a, Residue::prod(b, c));
    lemma_residue_values(a, Residue::sum(b, c));
    lemma_residue_values(Residue::prod(a, b), Residue::prod(a, c));
    lemma_mul_mod_noop_left(x * y, z, m);
    lemma_mul_mod_noop_right(x, y * z, m);
    lemma_mul_mod_noop_right(x, y + z, m);
    lemma_add_mod_noop(x * y, x * z, m);
    assert((x * y) * z == x * (y * z)) by (nonlinear_arith);
    assert(x * y == y * x) by (nonlinear_arith);
    assert(x * (y + z) == x * y + x * z) by (nonlinear_arith);
}

proof fn lemma_residue_sums(a: Residue, b: Residue, c: Residue)
    ensures
        Residue::sum(Residue::sum(a, b), c) == Residue::sum(a, Residue::sum(b, c)),
        Residue::sum(a, b) == Residue::sum(b, a),
        Residue::sum(Residue::count(0), a) == a,
        Residue::sum(a, Residue::neg(a)) == Residue::count(0),
        Residue::diff(a, b) == Residue::sum(a, Residue::neg(b)),
        Residue::prod(Residue::count(1), a) == a,
        Residue::prod(a, Residue::count(0)) == Residue::count(0),
{
    lemma_residue_values(Residue::count(1), a);
    lemma_residue_values(a, Residue::count(0));
}

/// The residues are a commutative ring with a one, so what holds in every such ring
/// holds of them.
pub proof fn law_residues_form_a_ring()
    ensures
        is_ring::<Residue>(),
{
    reveal(adds_exactly);
    reveal(distributes_exactly);
    reveal(is_ring);
    assert forall|a: Residue, b: Residue| #[trigger] Residue::sum(a, b) == Residue::sum(b, a) by {
        lemma_residue_sums(a, b, a);
    }
    assert forall|a: Residue, b: Residue, c: Residue| #[trigger]
        Residue::sum(Residue::sum(a, b), c) == Residue::sum(a, Residue::sum(b, c)) by {
        lemma_residue_sums(a, b, c);
    }
    assert forall|a: Residue| #[trigger] Residue::sum(Residue::count(0), a) == a by {
        lemma_residue_sums(a, a, a);
    }
    assert forall|a: Residue, b: Residue, c: Residue| #[trigger]
        Residue::prod(a, Residue::sum(b, c)) == Residue::sum(
            Residue::prod(a, b),
            Residue::prod(a, c),
        ) by {
        lemma_residue_products(a, b, c);
    }
    assert forall|a: Residue| #[trigger] Residue::prod(a, Residue::count(0)) == Residue::count(
        0,
    ) by {
        lemma_residue_sums(a, a, a);
    }
    assert forall|a: Residue, b: Residue| #[trigger] commute(a, b) by {
        lemma_residue_products(a, b, a);
    }
    assert forall|a: Residue, b: Residue, c: Residue| #[trigger] associate(a, b, c) by {
        lemma_residue_products(a, b, c);
    }
    assert forall|a: Residue| #[trigger] Residue::prod(Residue::count(1), a) == a by {
        lemma_residue_sums(a, a, a);
    }
    assert forall|a: Residue| Residue::sum(a, #[trigger] Residue::neg(a)) == Residue::count(0) by {
        lemma_residue_sums(a, a, a);
    }
    assert forall|a: Residue, b: Residue| #[trigger] Residue::diff(a, b) == Residue::sum(
        a,
        Residue::neg(b),
    ) by {
        lemma_residue_sums(a, b, a);
    }
}

/// The sum of `f` over the numbers before `n`.
pub open spec fn sum_before<T: Scalar>(f: spec_fn(int) -> T, n: int) -> T
    decreases n,
{
    if n <= 0 {
        T::count(0)
    } else {
        T::sum(sum_before(f, n - 1), f(n - 1))
    }
}

/// A sum of zeros is zero.
pub proof fn lemma_zero_sum<T: Scalar>(f: spec_fn(int) -> T, n: int)
    requires
        adds_exactly::<T>(),
        forall|c: int| #[trigger] f(c) == T::count(0),
    ensures
        sum_before(f, n) == T::count(0),
    decreases n,
{
    if n > 0 {
        lemma_zero_sum(f, n - 1);
        assert(f(n - 1) == T::count(0));
        lemma_regrouped(T::count(0), T::count(0), T::count(0));
    }
}

/// Sums of equal values are equal.
pub proof fn lemma_same_sum<T: Scalar>(f: spec_fn(int) -> T, g: spec_fn(int) -> T, n: int)
    requires
        forall|c: int| 0 <= c < n ==> #[trigger] g(c) == f(c),
    ensures
        sum_before(g, n) == sum_before(f, n),
    decreases n,
{
    if n > 0 {
        lemma_same_sum(f, g, n - 1);
        assert(g(n - 1) == f(n - 1));
    }
}

/// The sum of sums is the sum of the two.
pub proof fn lemma_sum_of_sums<T: Scalar>(
    f: spec_fn(int) -> T,
    g: spec_fn(int) -> T,
    h: spec_fn(int) -> T,
    n: int,
)
    requires
        adds_exactly::<T>(),
        forall|c: int| 0 <= c < n ==> #[trigger] h(c) == T::sum(f(c), g(c)),
    ensures
        sum_before(h, n) == T::sum(sum_before(f, n), sum_before(g, n)),
    decreases n,
{
    if n > 0 {
        lemma_sum_of_sums(f, g, h, n - 1);
        let (a, b) = (sum_before(f, n - 1), sum_before(g, n - 1));
        let (u, v) = (f(n - 1), g(n - 1));
        assert(h(n - 1) == T::sum(u, v));
        lemma_regrouped(T::sum(a, b), u, v);
        lemma_regrouped(a, b, u);
        lemma_regrouped(T::sum(a, u), b, v);
    } else {
        lemma_regrouped(T::count(0), T::count(0), T::count(0));
    }
}

/// The sum of `f` over a finite set of numbers.
pub open spec fn sum_over<T: Scalar>(s: Set<int>, f: spec_fn(int) -> T) -> T {
    s.fold(T::count(0), |acc: T, k: int| T::sum(acc, f(k)))
}

/// One more number adds its value.
pub proof fn lemma_sum_insert<T: Scalar>(s: Set<int>, f: spec_fn(int) -> T, k: int)
    requires
        adds_exactly::<T>(),
        s.finite(),
        !s.contains(k),
    ensures
        sum_over(s.insert(k), f) == T::sum(sum_over(s, f), f(k)),
{
    let step = |acc: T, k: int| T::sum(acc, f(k));
    assert forall|a: int, b: int, t: T| #[trigger] step(step(t, b), a) == step(step(t, a), b) by {
        lemma_regrouped(t, f(a), f(b));
    }
    vstd::set::fold::lemma_fold_insert(s, T::count(0), step, k);
}

/// The sum over no numbers is zero.
pub proof fn lemma_sum_empty<T: Scalar>(f: spec_fn(int) -> T)
    ensures
        sum_over(Set::empty(), f) == T::count(0),
{
    vstd::set::fold::lemma_fold_empty::<int, T>(
        T::count(0),
        |acc: T, k: int| T::sum(acc, f(k)),
    );
}

/// The sum over the numbers before `n`, in any order.
pub proof fn lemma_sum_range<T: Scalar>(f: spec_fn(int) -> T, n: int)
    requires
        adds_exactly::<T>(),
        0 <= n,
    ensures
        set_int_range(0, n).finite(),
        sum_over(set_int_range(0, n), f) == sum_before(f, n),
    decreases n,
{
    if n == 0 {
        assert(set_int_range(0, 0) =~= Set::empty());
        lemma_sum_empty(f);
    } else {
        lemma_sum_range(f, n - 1);
        assert(set_int_range(0, n) =~= set_int_range(0, n - 1).insert(n - 1));
        lemma_sum_insert(set_int_range(0, n - 1), f, n - 1);
    }
}

} // verus!
