//! What the integrals of a potential leave out.
use vstd::prelude::*;

use crate::ecp::monopole::calculates_exactly;
use crate::ecp::side::{below_screen, left_out, pair_left_out, EcpPrimitive};
use crate::exact::{
    is_ring, lemma_count_product, lemma_count_sum, lemma_ring_commute, lemma_ring_factors,
    lemma_ring_negatives, lemma_ring_sums,
};
use crate::math::rotation::{has_inverse, lemma_cancelled, lemma_units};
use crate::math::solid_harmonics::vanishes;
use crate::scalar::{Real, Scalar};

verus! {

/// The exponent `arg0 + k r - a r^2` of an integrand at the distance `r`.
pub open spec fn exponent_at<T: Scalar>(arg0: T, k: T, a: T, r: T) -> T {
    T::diff(T::sum(arg0, T::prod(k, r)), T::prod(a, T::prod(r, r)))
}

/// Half of twice a value is left when one is taken.
proof fn lemma_one_of_two<T: Scalar>(h: T)
    requires
        is_ring::<T>(),
    ensures
        T::diff(T::sum(h, h), h) == h,
{
    lemma_ring_negatives(T::sum(h, h), h);
    lemma_ring_negatives(h, h);
    lemma_ring_sums(h, h, T::neg(h));
    lemma_ring_sums(h, h, h);
}

/// Twice a value.
proof fn lemma_twice<T: Real>(x: T)
    requires
        calculates_exactly::<T>(),
    ensures
        T::prod(T::count(2), x) == T::sum(x, x),
{
    let one = T::count(1);
    lemma_count_sum::<T>(1, 1);
    lemma_ring_commute(T::count(2), x);
    lemma_ring_factors(x, one, one);
    lemma_ring_commute(x, one);
    lemma_ring_sums(x, x, x);
}

/// A term of a potential that has a coefficient and a positive exponent is left out exactly
/// where the exponent of the integrand is below -120 at its peak, where `2 a r` is `k`; at
/// every other distance the exponent lies below that by `a` times the square of how far it
/// is from the peak.
pub proof fn law_screen_is_at_the_peak<T: Real>(
    ep: EcpPrimitive<T>,
    arg0: T,
    k: T,
    asum: T,
    peak: T,
    d: T,
)
    requires
        calculates_exactly::<T>(),
        ({
            let a = T::sum(asum, ep.zeta);
            has_inverse(a) && !T::le(a, T::count(0)) && T::prod(T::prod(T::count(2), a), peak)
                == k
        }),
        !vanishes(ep.coef),
    ensures
        ({
            let a = T::sum(asum, ep.zeta);
            &&& left_out(ep, arg0, k, asum) == T::lt(
                exponent_at(arg0, k, a, peak),
                T::neg(T::count(120)),
            )
            &&& T::sum(
                exponent_at(arg0, k, a, T::sum(peak, d)),
                T::prod(a, T::prod(d, d)),
            ) == exponent_at(arg0, k, a, peak)
        }),
{
    let a = T::sum(asum, ep.zeta);
    lemma_peak(arg0, k, a, peak);
    lemma_off_peak(arg0, k, a, peak, d);
}

/// A pair of primitives whose exponents have a positive sum is left out exactly where the
/// exponent of the integrand without the potential is below -120 at its peak.
pub proof fn law_pair_screen_is_at_the_peak<T: Real>(arg0: T, k: T, asum: T, peak: T)
    requires
        calculates_exactly::<T>(),
        has_inverse(asum),
        T::lt(T::count(0), asum),
        T::prod(T::prod(T::count(2), asum), peak) == k,
    ensures
        pair_left_out(arg0, k, asum) == T::lt(
            exponent_at(arg0, k, asum, peak),
            T::neg(T::count(120)),
        ),
{
    lemma_peak(arg0, k, asum, peak);
}

/// The exponent at the peak is `arg0 + k^2 / 4 a`.
proof fn lemma_peak<T: Real>(arg0: T, k: T, a: T, peak: T)
    requires
        calculates_exactly::<T>(),
        has_inverse(a),
        T::prod(T::prod(T::count(2), a), peak) == k,
    ensures
        below_screen(arg0, k, a) == T::lt(exponent_at(arg0, k, a, peak), T::neg(T::count(120))),
{
    let (two, four) = (T::count(2), T::count(4));
    let h = T::prod(a, T::prod(peak, peak));
    // k r is 2 a r r.
    lemma_ring_factors(T::prod(two, a), peak, peak);
    lemma_ring_factors(two, a, T::prod(peak, peak));
    lemma_twice(h);
    assert(T::prod(k, peak) == T::sum(h, h));
    lemma_one_of_two(h);
    lemma_ring_negatives(T::sum(h, h), h);
    lemma_ring_negatives(T::sum(arg0, T::sum(h, h)), h);
    lemma_ring_sums(arg0, T::sum(h, h), T::neg(h));
    assert(exponent_at(arg0, k, a, peak) == T::sum(arg0, h));
    // 4 a (a r r) is k k.
    let fa = T::prod(four, a);
    assert(has_inverse(four));
    lemma_units(four, a);
    lemma_count_product::<T>(2, 2);
    let ta = T::prod(two, a);
    lemma_ring_factors(two, two, a);
    assert(fa == T::prod(two, ta));
    // k k == (2a r) k == 2a (r k), and r k == 2 h.
    lemma_ring_commute(k, peak);
    lemma_ring_factors(ta, peak, k);
    assert(T::prod(k, k) == T::prod(ta, T::prod(two, h)));
    lemma_ring_factors(two, ta, h);
    assert(T::prod(fa, h) == T::prod(k, k));
    let q = T::quot(T::prod(k, k), fa);
    assert(T::prod(fa, q) == T::prod(k, k));
    lemma_cancelled(fa, q, h);
}

/// The exponent off the peak.
proof fn lemma_off_peak<T: Real>(arg0: T, k: T, a: T, r: T, d: T)
    requires
        calculates_exactly::<T>(),
        T::prod(T::prod(T::count(2), a), r) == k,
    ensures
        T::sum(
            exponent_at(arg0, k, a, T::sum(r, d)),
            T::prod(a, T::prod(d, d)),
        ) == exponent_at(arg0, k, a, r),
{
    let s = T::sum(r, d);
    let (rr, rd, dd) = (T::prod(r, r), T::prod(r, d), T::prod(d, d));
    let (arr, ard, add) = (T::prod(a, rr), T::prod(a, rd), T::prod(a, dd));
    // s s is (rr + rd) + (rd + dd).
    lemma_ring_factors(s, r, d);
    lemma_ring_commute(s, r);
    lemma_ring_commute(s, d);
    lemma_ring_factors(r, r, d);
    lemma_ring_factors(d, r, d);
    lemma_ring_commute(d, r);
    assert(T::prod(s, s) == T::sum(T::sum(rr, rd), T::sum(rd, dd)));
    lemma_ring_factors(a, T::sum(rr, rd), T::sum(rd, dd));
    lemma_ring_factors(a, rr, rd);
    lemma_ring_factors(a, rd, dd);
    let ass = T::prod(a, T::prod(s, s));
    assert(ass == T::sum(T::sum(arr, ard), T::sum(ard, add)));
    // k d is 2 a r d.
    lemma_ring_factors(T::prod(T::count(2), a), r, d);
    lemma_ring_factors(T::count(2), a, rd);
    lemma_twice(ard);
    let twice = T::sum(ard, ard);
    lemma_ring_factors(k, r, d);
    let (kr, ks) = (T::prod(k, r), T::prod(k, s));
    assert(ks == T::sum(kr, twice));
    lemma_ring_sums(arr, ard, T::sum(ard, add));
    lemma_ring_sums(ard, ard, add);
    lemma_ring_sums(arr, twice, add);
    let rest = T::sum(arr, add);
    assert(ass == T::sum(rest, twice));
    // (arg0 + (kr + twice)) - (rest + twice) + add.
    let top = T::sum(arg0, kr);
    lemma_ring_sums(arg0, kr, twice);
    let full = T::sum(top, twice);
    lemma_ring_negatives(full, ass);
    lemma_ring_negatives(rest, twice);
    let (nr, nt) = (T::neg(rest), T::neg(twice));
    lemma_ring_sums(full, nt, nr);
    lemma_ring_sums(full, nr, nt);
    lemma_ring_sums(nr, nt, nt);
    lemma_ring_sums(top, twice, nt);
    lemma_ring_negatives(twice, twice);
    lemma_ring_sums(top, top, top);
    assert(exponent_at(arg0, k, a, s) == T::sum(top, nr));
    lemma_ring_negatives(arr, add);
    let (na, nd) = (T::neg(arr), T::neg(add));
    lemma_ring_sums(top, na, nd);
    lemma_ring_negatives(add, add);
    lemma_ring_sums(T::sum(top, na), nd, add);
    lemma_ring_sums(nd, add, add);
    lemma_ring_sums(T::sum(top, na), na, na);
    lemma_ring_negatives(top, arr);
}

} // verus!
