//! Roots and weights of the Rys quadrature.
//!
//! For a parameter `T >= 0` the `n` nodes `x_i` and weights `w_i` satisfy
//!
//! ```text
//!   sum_i w_i x_i^k = F_k(T),   k = 0, 1, ..., 2n-1,
//! ```
//!
//! with `F_k` the functions of [`crate::math::boys`]. Below the asymptotic boundary of
//! order `2n-1` they are read from Chebyshev series in `T`, one per root and
//! subinterval; above it they are the nodes and weights of the half-line measure
//! `x^(-1/2) exp(-x)`, scaled by `1/T` and `1/(2 sqrt(T))`.
use vstd::prelude::*;

use crate::math::boys::{asymptotic_boundary, boundary};
use crate::scalar::{fraction, ratio, Real, Scalar};

verus! {

/// Largest number of roots: half of four times the largest angular momentum, plus
/// one.
pub const MAX_RYS_ROOTS: usize = 13;

/// The data of the quadrature for every number of roots `n`, held at index `n - 1`:
/// the Chebyshev series of the roots and of the weights, those of subinterval `s`
/// from index `s * n` on, and the nodes and weights of the half-line measure.
pub struct RysTables<T> {
    pub root_coeffs: Vec<Vec<Vec<T>>>,
    pub weight_coeffs: Vec<Vec<Vec<T>>>,
    pub nodes: Vec<Vec<T>>,
    pub node_weights: Vec<Vec<T>>,
}

/// Whether `rows` are the series of whole subintervals of `n` roots, none empty.
pub open spec fn series_of<T>(rows: Seq<Vec<T>>, n: int) -> bool {
    &&& rows.len() >= n
    &&& rows.len() % (n as nat) == 0
    &&& forall|i: int| 0 <= i < rows.len() ==> (#[trigger] rows[i])@.len() >= 1
}

impl<T: Real> RysTables<T> {
    /// Whether there are data for every number of roots, and those of the half-line measure
    /// are its nodes and weights.
    pub open spec fn valid(self) -> bool {
        self.has_all_series() && self.holds_half_line()
    }

    /// Whether there are data for every number of roots.
    pub open spec fn has_all_series(self) -> bool {
        &&& self.root_coeffs@.len() == MAX_RYS_ROOTS
        &&& self.weight_coeffs@.len() == MAX_RYS_ROOTS
        &&& self.nodes@.len() == MAX_RYS_ROOTS
        &&& self.node_weights@.len() == MAX_RYS_ROOTS
        &&& forall|k: int|
            0 <= k < MAX_RYS_ROOTS ==> series_of((#[trigger] self.root_coeffs@[k])@, k + 1)
        &&& forall|k: int|
            0 <= k < MAX_RYS_ROOTS ==> series_of((#[trigger] self.weight_coeffs@[k])@, k + 1)
        &&& forall|k: int|
            0 <= k < MAX_RYS_ROOTS ==> (#[trigger] self.root_coeffs@[k])@.len()
                == self.weight_coeffs@[k]@.len()
        &&& forall|k: int| 0 <= k < MAX_RYS_ROOTS ==> (#[trigger] self.nodes@[k])@.len() == k + 1
        &&& forall|k: int|
            0 <= k < MAX_RYS_ROOTS ==> (#[trigger] self.node_weights@[k])@.len() == k + 1
    }
}

/// The pair that the Clenshaw recurrence holds once the coefficients from the last
/// down to `k` have been taken in.
pub open spec fn clenshaw<T: Scalar>(c: Seq<T>, xi: T, k: int) -> (T, T)
    decreases c.len() - k,
{
    if k >= c.len() {
        (T::count(0), T::count(0))
    } else {
        let (d, dd) = clenshaw(c, xi, k + 1);
        (T::sum(T::diff(T::prod(T::prod(T::count(2), xi), d), dd), c[k]), d)
    }
}

/// The Chebyshev series `c` at `xi`, with half the coefficient of order zero.
pub open spec fn chebyshev<T: Scalar>(c: Seq<T>, xi: T) -> T {
    let (d, dd) = clenshaw(c, xi, 1);
    T::sum(T::diff(T::prod(xi, d), dd), T::prod(fraction::<T>(1, 2), c[0]))
}

/// The Chebyshev series `c` at `xi`.
fn chebev<T: Scalar>(c: &Vec<T>, xi: T) -> (r: T)
    requires
        c@.len() >= 1,
    ensures
        r == chebyshev(c@, xi),
{
    let two_xi = T::from_count(2).times(xi);
    let mut d = T::from_count(0);
    let mut dd = T::from_count(0);
    let mut k: usize = c.len();
    while k > 1
        invariant
            1 <= k <= c@.len(),
            two_xi == T::prod(T::count(2), xi),
            (d, dd) == clenshaw(c@, xi, k as int),
        decreases k,
    {
        k = k - 1;
        let sv = d;
        d = two_xi.times(d).minus(dd).plus(c[k]);
        dd = sv;
    }
    xi.times(d).minus(dd).plus(ratio::<T>(1, 2).times(c[0]))
}

/// Width of the subintervals for `n` roots.
pub open spec fn subinterval_width<T: Real>(n: int, n_sub: int) -> T {
    T::quot(boundary::<T>(2 * n - 1), T::count(n_sub as u64))
}

/// The subinterval of `t`: the last one for `t` at its end.
pub open spec fn subinterval<T: Real>(n: int, n_sub: int, t: T) -> int {
    let s = T::whole(T::quot(t, subinterval_width::<T>(n, n_sub)));
    if s >= n_sub {
        n_sub - 1
    } else {
        s as int
    }
}

/// `t` within its subinterval, mapped onto the range from -1 to 1.
pub open spec fn local_argument<T: Real>(n: int, n_sub: int, t: T) -> T {
    let width = subinterval_width::<T>(n, n_sub);
    let a = T::prod(T::count(subinterval(n, n_sub, t) as u64), width);
    let b = T::sum(a, width);
    T::quot(T::diff(T::prod(T::count(2), t), T::sum(a, b)), T::diff(b, a))
}

/// Series `i` of the subinterval of `t`, evaluated there.
pub open spec fn interpolated<T: Real>(rows: Seq<Vec<T>>, n: int, t: T, i: int) -> T {
    let n_sub = rows.len() as int / n;
    chebyshev(rows[subinterval(n, n_sub, t) * n + i]@, local_argument(n, n_sub, t))
}

/// Whether the half-line measure is used.
pub open spec fn in_far_range<T: Real>(n: int, t: T) -> bool {
    T::le(boundary::<T>(2 * n - 1), t)
}

/// Root `i` of `n` for the parameter `t`.
pub open spec fn rys_root<T: Real>(tables: RysTables<T>, n: int, t: T, i: int) -> T {
    if in_far_range(n, t) {
        T::prod(tables.nodes@[n - 1]@[i], T::quot(T::count(1), t))
    } else {
        interpolated(tables.root_coeffs@[n - 1]@, n, t, i)
    }
}

/// Weight `i` of `n` for the parameter `t`.
pub open spec fn rys_weight<T: Real>(tables: RysTables<T>, n: int, t: T, i: int) -> T {
    if in_far_range(n, t) {
        T::prod(tables.node_weights@[n - 1]@[i], T::quot(fraction::<T>(1, 2), T::root(t)))
    } else {
        interpolated(tables.weight_coeffs@[n - 1]@, n, t, i)
    }
}

/// The scaled nodes and weights of the half-line measure.
fn laguerre_half_branch<T: Real>(
    tables: &RysTables<T>,
    n: usize,
    t: T,
    roots: &mut [T],
    weights: &mut [T],
)
    requires
        tables.valid(),
        1 <= n <= MAX_RYS_ROOTS,
        in_far_range(n as int, t),
        old(roots)@.len() >= n,
        old(weights)@.len() >= n,
    ensures
        final(roots)@.len() == old(roots)@.len(),
        final(weights)@.len() == old(weights)@.len(),
        forall|i: int|
            0 <= i < n ==> #[trigger] final(roots)@[i] == rys_root(*tables, n as int, t, i),
        forall|i: int|
            0 <= i < n ==> #[trigger] final(weights)@[i] == rys_weight(*tables, n as int, t, i),
        forall|i: int| n <= i < old(roots)@.len() ==> #[trigger] final(roots)@[i] == old(roots)@[i],
        forall|i: int|
            n <= i < old(weights)@.len() ==> #[trigger] final(weights)@[i] == old(weights)@[i],
{
    let inv_t = T::from_count(1).over(t);
    let scale = ratio::<T>(1, 2).over(t.sqrt());
    let xi = &tables.nodes[n - 1];
    let om = &tables.node_weights[n - 1];
    let mut i: usize = 0;
    while i < n
        invariant
            i <= n,
            1 <= n <= MAX_RYS_ROOTS,
            in_far_range(n as int, t),
            inv_t == T::quot(T::count(1), t),
            scale == T::quot(fraction::<T>(1, 2), T::root(t)),
            xi@ == tables.nodes@[n - 1]@,
            om@ == tables.node_weights@[n - 1]@,
            xi@.len() == n,
            om@.len() == n,
            roots@.len() == old(roots)@.len(),
            weights@.len() == old(weights)@.len(),
            roots@.len() >= n,
            weights@.len() >= n,
            forall|k: int|
                0 <= k < i ==> #[trigger] roots@[k] == rys_root(*tables, n as int, t, k),
            forall|k: int|
                0 <= k < i ==> #[trigger] weights@[k] == rys_weight(*tables, n as int, t, k),
            forall|k: int| i <= k < roots@.len() ==> #[trigger] roots@[k] == old(roots)@[k],
            forall|k: int| i <= k < weights@.len() ==> #[trigger] weights@[k] == old(weights)@[k],
        decreases n - i,
    {
        roots[i] = xi[i].times(inv_t);
        weights[i] = om[i].times(scale);
        i = i + 1;
    }
}

/// The series of the subinterval of `t`, evaluated there.
fn interp_finite<T: Real>(
    tables: &RysTables<T>,
    n: usize,
    t: T,
    roots: &mut [T],
    weights: &mut [T],
)
    requires
        tables.valid(),
        1 <= n <= MAX_RYS_ROOTS,
        !in_far_range(n as int, t),
        old(roots)@.len() >= n,
        old(weights)@.len() >= n,
    ensures
        final(roots)@.len() == old(roots)@.len(),
        final(weights)@.len() == old(weights)@.len(),
        forall|i: int|
            0 <= i < n ==> #[trigger] final(roots)@[i] == rys_root(*tables, n as int, t, i),
        forall|i: int|
            0 <= i < n ==> #[trigger] final(weights)@[i] == rys_weight(*tables, n as int, t, i),
        forall|i: int| n <= i < old(roots)@.len() ==> #[trigger] final(roots)@[i] == old(roots)@[i],
        forall|i: int|
            n <= i < old(weights)@.len() ==> #[trigger] final(weights)@[i] == old(weights)@[i],
{
    let t_hi = asymptotic_boundary::<T>(2 * n - 1);
    let root_coeffs = &tables.root_coeffs[n - 1];
    let weight_coeffs = &tables.weight_coeffs[n - 1];
    assert(series_of(tables.root_coeffs@[n - 1]@, n as int));
    assert(series_of(tables.weight_coeffs@[n - 1]@, n as int));
    let n_sub: usize = root_coeffs.len() / n;
    let ghost rows = root_coeffs@.len() as int;
    proof {
        vstd::arithmetic::div_mod::lemma_fundamental_div_mod(rows, n as int);
        assert(n_sub >= 1) by (nonlinear_arith)
            requires
                rows == n * n_sub,
                rows >= n,
                n >= 1,
        ;
    }
    let width = t_hi.over(T::from_count(n_sub as u64));
    let mut s: usize = t.over(width).trunc();
    if s >= n_sub {
        s = n_sub - 1;
    }
    let a = T::from_count(s as u64).times(width);
    let b = a.plus(width);
    let xi = T::from_count(2).times(t).minus(a.plus(b)).over(b.minus(a));
    proof {
        assert(s * n + n <= rows) by (nonlinear_arith)
            requires
                rows == n * n_sub,
                s + 1 <= n_sub,
        ;
    }
    let base: usize = s * n;
    let mut i: usize = 0;
    while i < n
        invariant
            i <= n,
            1 <= n <= MAX_RYS_ROOTS,
            !in_far_range(n as int, t),
            root_coeffs@ == tables.root_coeffs@[n - 1]@,
            weight_coeffs@ == tables.weight_coeffs@[n - 1]@,
            root_coeffs@.len() == rows,
            weight_coeffs@.len() == rows,
            series_of(root_coeffs@, n as int),
            series_of(weight_coeffs@, n as int),
            n_sub == rows / (n as int),
            s == subinterval(n as int, n_sub as int, t),
            xi == local_argument(n as int, n_sub as int, t),
            base == s * n,
            base + n <= rows <= usize::MAX,
            roots@.len() == old(roots)@.len(),
            weights@.len() == old(weights)@.len(),
            roots@.len() >= n,
            weights@.len() >= n,
            forall|k: int|
                0 <= k < i ==> #[trigger] roots@[k] == rys_root(*tables, n as int, t, k),
            forall|k: int|
                0 <= k < i ==> #[trigger] weights@[k] == rys_weight(*tables, n as int, t, k),
            forall|k: int| i <= k < roots@.len() ==> #[trigger] roots@[k] == old(roots)@[k],
            forall|k: int| i <= k < weights@.len() ==> #[trigger] weights@[k] == old(weights)@[k],
        decreases n - i,
    {
        assert(root_coeffs@[base + i]@.len() >= 1);
        assert(weight_coeffs@[base + i]@.len() >= 1);
        roots[i] = chebev(&root_coeffs[base + i], xi);
        weights[i] = chebev(&weight_coeffs[base + i], xi);
        i = i + 1;
    }
}

/// The roots and weights of the `n`-point quadrature for the parameter `t`.
pub fn rys_roots_weights<T: Real>(
    tables: &RysTables<T>,
    n: usize,
    t: T,
    roots: &mut [T],
    weights: &mut [T],
)
    requires
        tables.valid(),
        1 <= n <= MAX_RYS_ROOTS,
        old(roots)@.len() >= n,
        old(weights)@.len() >= n,
    ensures
        final(roots)@.len() == old(roots)@.len(),
        final(weights)@.len() == old(weights)@.len(),
        forall|i: int|
            0 <= i < n ==> #[trigger] final(roots)@[i] == rys_root(*tables, n as int, t, i),
        forall|i: int|
            0 <= i < n ==> #[trigger] final(weights)@[i] == rys_weight(*tables, n as int, t, i),
        forall|i: int| n <= i < old(roots)@.len() ==> #[trigger] final(roots)@[i] == old(roots)@[i],
        forall|i: int|
            n <= i < old(weights)@.len() ==> #[trigger] final(weights)@[i] == old(weights)@[i],
{
    if asymptotic_boundary::<T>(2 * n - 1).at_most(t) {
        laguerre_half_branch(tables, n, t, roots, weights);
    } else {
        interp_finite(tables, n, t, roots, weights);
    }
}

} // verus!
