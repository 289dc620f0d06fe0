//! Normalization constants of primitive Gaussians.
//!
//! The self-overlap of `x^lx y^ly z^lz exp(-alpha r^2)` is
//! `(2lx-1)!!(2ly-1)!!(2lz-1)!! / (4 alpha)^l (pi/2 alpha)^(3/2)`, so its norm is
//!
//! ```text
//!   N(alpha; lx,ly,lz) = (2 alpha/pi)^(3/4) (4 alpha)^(l/2)
//!                        / sqrt((2lx-1)!!(2ly-1)!!(2lz-1)!!).
//! ```
//!
//! A shell is normalized by the constant of its component `x^l`.
use vstd::prelude::*;

use crate::scalar::{Real, Scalar};

verus! {

/// `acc n (n-2) (n-4) ...` down to the last factor above one, in that order.
pub open spec fn descending_product<T: Scalar>(n: int, acc: T) -> T
    decreases n,
{
    if n <= 1 {
        acc
    } else {
        descending_product(n - 2, T::prod(acc, T::count(n as u64)))
    }
}

/// `n!! = n (n-2) (n-4) ...`, one for `n <= 1`.
pub open spec fn odd_factorial<T: Scalar>(n: int) -> T {
    descending_product(n, T::count(1))
}

/// The double factorial `n!! = n (n-2) (n-4) ...`, one for `n <= 1`.
#[must_use]
pub fn double_factorial<T: Scalar>(n: i64) -> (r: T)
    ensures
        r == odd_factorial::<T>(n as int),
{
    let mut k: i64 = n;
    let mut acc = T::from_count(1);
    let ghost goal = odd_factorial::<T>(n as int);
    while k > 1
        invariant
            goal == descending_product(k as int, acc),
        decreases k,
    {
        acc = acc.times(T::from_count(k as u64));
        k = k - 2;
    }
    acc
}

/// `(2lx-1)!!(2ly-1)!!(2lz-1)!!`.
pub open spec fn component_factor<T: Scalar>(lx: int, ly: int, lz: int) -> T {
    T::prod(
        T::prod(odd_factorial::<T>(2 * lx - 1), odd_factorial::<T>(2 * ly - 1)),
        odd_factorial::<T>(2 * lz - 1),
    )
}

/// The norm of a primitive.
pub open spec fn primitive_norm<T: Real>(alpha: T, lx: int, ly: int, lz: int) -> T {
    T::quot(
        T::prod(
            T::rational(T::quot(T::prod(T::count(2), alpha), T::circle()), 3, 4),
            T::root(T::raised(T::prod(T::count(4), alpha), (lx + ly + lz) as u64)),
        ),
        T::root(component_factor::<T>(lx, ly, lz)),
    )
}

/// `(2lx-1)!!(2ly-1)!!(2lz-1)!!`.
fn odd_factors<T: Scalar>(lx: usize, ly: usize, lz: usize) -> (r: T)
    requires
        2 * lx <= i64::MAX,
        2 * ly <= i64::MAX,
        2 * lz <= i64::MAX,
    ensures
        r == component_factor::<T>(lx as int, ly as int, lz as int),
{
    let fx: T = double_factorial(2 * (lx as i64) - 1);
    let fy: T = double_factorial(2 * (ly as i64) - 1);
    let fz: T = double_factorial(2 * (lz as i64) - 1);
    fx.times(fy).times(fz)
}

/// The norm `N(alpha; lx,ly,lz)` of a primitive. The power of the exponent is counted by an
/// `i32`.
#[must_use]
pub fn cart_norm<T: Real>(alpha: T, lx: usize, ly: usize, lz: usize) -> (r: T)
    requires
        lx + ly + lz <= i32::MAX,
    ensures
        r == primitive_norm(alpha, lx as int, ly as int, lz as int),
{
    let l: usize = lx + ly + lz;
    let df: T = odd_factors(lx, ly, lz);
    let two_alpha_over_pi = T::from_count(2).times(alpha).over(T::pi());
    two_alpha_over_pi.powf(3, 4).times(T::from_count(4).times(alpha).powi(l as u64).sqrt()).over(
        df.sqrt(),
    )
}

/// The constant `N(alpha; l,0,0)` of a whole shell.
#[must_use]
pub fn shell_norm<T: Real>(alpha: T, l: usize) -> (r: T)
    requires
        l <= i32::MAX,
    ensures
        r == primitive_norm(alpha, l as int, 0, 0),
{
    cart_norm(alpha, l, 0, 0)
}

/// The factor that makes the component `(lx,ly,lz)` of a normalized shell itself
/// normalized: `sqrt((2l-1)!! / ((2lx-1)!!(2ly-1)!!(2lz-1)!!))`.
#[must_use]
pub fn cart_unit_factor<T: Real>(lx: usize, ly: usize, lz: usize) -> (r: T)
    requires
        2 * (lx + ly + lz) <= i64::MAX,
        lx + ly + lz <= usize::MAX,
    ensures
        r == T::root(
            T::quot(
                odd_factorial::<T>(2 * (lx + ly + lz) - 1),
                component_factor::<T>(lx as int, ly as int, lz as int),
            ),
        ),
{
    let l: usize = lx + ly + lz;
    let df: T = odd_factors(lx, ly, lz);
    let top: T = double_factorial(2 * (l as i64) - 1);
    top.over(df).sqrt()
}

} // verus!
