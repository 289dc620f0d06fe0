//! The transform from Cartesian components to real solid harmonics.
//!
//! The `2l+1` components are normalized real solid harmonics in the order of
//! [`m_order`]. The conversion has two factors: the scalar
//! [`monomial_to_raw_factor`], from the normalization of the monomial `x^l` to that
//! of the solid harmonic, and the matrix [`c2s_matrix`].
use vstd::prelude::*;

use crate::flat::pair;
use crate::math::am::{
    cart_components, cart_count, component_at, is_component, lemma_listed_components,
    lemma_triangle_step, powers, Powers,
};
use crate::math::norm::{cart_norm, double_factorial, odd_factorial, primitive_norm};
use crate::scalar::{Real, Scalar};

verus! {

/// `n!`, built up from one.
pub open spec fn factorial_of<T: Scalar>(n: int) -> T
    decreases n,
{
    if n <= 0 {
        T::count(1)
    } else {
        T::prod(factorial_of::<T>(n - 1), T::count(n as u64))
    }
}

/// `n!`.
fn factorial<T: Scalar>(n: usize) -> (r: T)
    ensures
        r == factorial_of::<T>(n as int),
{
    let mut r = T::from_count(1);
    let mut k: usize = 0;
    while k < n
        invariant
            k <= n,
            r == factorial_of::<T>(k as int),
        decreases n - k,
    {
        k = k + 1;
        r = r.times(T::from_count(k as u64));
    }
    r
}

/// `n! / (k! (n-k)!)`.
pub open spec fn choices<T: Scalar>(n: int, k: int) -> T {
    T::quot(
        factorial_of::<T>(n),
        T::prod(factorial_of::<T>(k), factorial_of::<T>(n - k)),
    )
}

/// The binomial coefficient `n! / (k! (n-k)!)`.
fn binom<T: Scalar>(n: usize, k: usize) -> (r: T)
    requires
        k <= n,
    ensures
        r == choices::<T>(n as int, k as int),
{
    let top: T = factorial(n);
    top.over(factorial::<T>(k).times(factorial::<T>(n - k)))
}

/// `cos(n pi/2)` on the counts: 1, 0, -1, 0 and again.
pub open spec fn quarter_cosine<T: Scalar>(n: int) -> T {
    if n % 4 == 0 {
        T::count(1)
    } else if n % 4 == 2 {
        T::neg(T::count(1))
    } else {
        T::count(0)
    }
}

/// `sin(n pi/2)` on the counts: 0, 1, 0, -1 and again.
pub open spec fn quarter_sine<T: Scalar>(n: int) -> T {
    if n % 4 == 1 {
        T::count(1)
    } else if n % 4 == 3 {
        T::neg(T::count(1))
    } else {
        T::count(0)
    }
}

/// `cos(n pi/2)`.
fn cos_half_pi<T: Scalar>(n: usize) -> (r: T)
    ensures
        r == quarter_cosine::<T>(n as int),
{
    if n % 4 == 0 {
        T::from_count(1)
    } else if n % 4 == 2 {
        T::from_count(1).negated()
    } else {
        T::from_count(0)
    }
}

/// `sin(n pi/2)`.
fn sin_half_pi<T: Scalar>(n: usize) -> (r: T)
    ensures
        r == quarter_sine::<T>(n as int),
{
    if n % 4 == 1 {
        T::from_count(1)
    } else if n % 4 == 3 {
        T::from_count(1).negated()
    } else {
        T::from_count(0)
    }
}

/// The magnitude of an order.
pub open spec fn order_of(m: int) -> int {
    if m >= 0 {
        m
    } else {
        -m
    }
}

/// `(-1)^k 2^-l C(l,k) C(2l-2k,l) (l-2k)!/(l-2k-M)!`.
pub open spec fn gamma<T: Real>(l: int, big_m: int, k: int) -> T {
    let sign = if k % 2 == 0 {
        T::count(1)
    } else {
        T::neg(T::count(1))
    };
    T::quot(
        T::prod(
            T::prod(
                T::prod(
                    T::prod(sign, T::quot(T::count(1), T::raised(T::count(2), l as u64))),
                    choices::<T>(l, k),
                ),
                choices::<T>(2 * l - 2 * k, l),
            ),
            factorial_of::<T>(l - 2 * k),
        ),
        factorial_of::<T>(l - 2 * k - big_m),
    )
}

/// Whether `r^2k z^(l-2k-M)` times the in-plane part of order `M` holds the monomial
/// `c` with `x^2a` taken from `r^2k`: then the in-plane part gives `x^p y^(M-p)` with
/// `p = lx - 2a`, and `r^2k` gives `y^2b` with `2b = ly - (M-p)`. Terms whose in-plane
/// part vanishes are left out.
pub open spec fn contributes(c: Powers, m: int, k: int, a: int) -> bool {
    let big_m = order_of(m);
    let p = c.0 - 2 * a;
    let q = big_m - p;
    let b2 = c.1 - q;
    &&& 0 <= p <= big_m
    &&& b2 >= 0
    &&& b2 % 2 == 0
    &&& a + b2 / 2 <= k
    &&& (m >= 0) == (q % 2 == 0)
}

/// The part of the coefficient of `c` from the term `k` with `x^2a` taken from
/// `r^2k`.
pub open spec fn harmonic_term<T: Real>(l: int, m: int, c: Powers, k: int, a: int) -> T {
    let big_m = order_of(m);
    let p = c.0 - 2 * a;
    let q = big_m - p;
    let b = (c.1 - q) / 2;
    T::prod(
        T::prod(
            T::prod(
                gamma::<T>(l, big_m, k),
                T::quot(
                    factorial_of::<T>(k),
                    T::prod(
                        T::prod(factorial_of::<T>(a), factorial_of::<T>(b)),
                        factorial_of::<T>(k - a - b),
                    ),
                ),
            ),
            choices::<T>(big_m, p),
        ),
        if m >= 0 {
            quarter_cosine::<T>(q)
        } else {
            quarter_sine::<T>(q)
        },
    )
}

/// The sum of the terms before `(k, a)`, in order.
pub open spec fn harmonic_sum<T: Real>(l: int, m: int, c: Powers, k: int, a: int) -> T
    decreases k, a,
{
    if a > 0 {
        let before = harmonic_sum::<T>(l, m, c, k, a - 1);
        if contributes(c, m, k, a - 1) {
            T::sum(before, harmonic_term::<T>(l, m, c, k, a - 1))
        } else {
            before
        }
    } else if k > 0 {
        harmonic_sum::<T>(l, m, c, k - 1, k)
    } else {
        T::count(0)
    }
}

/// The coefficient of the monomial `c` in the real solid harmonic of degree `l` and
/// order `m` in Racah's normalization: cosine type for `m >= 0`, sine type below.
pub open spec fn harmonic_coefficient<T: Real>(l: int, m: int, c: Powers) -> T {
    let big_m = order_of(m);
    let share = T::quot(
        if big_m == 0 {
            factorial_of::<T>(l - big_m)
        } else {
            T::prod(T::count(2), factorial_of::<T>(l - big_m))
        },
        factorial_of::<T>(l + big_m),
    );
    T::prod(T::root(share), harmonic_sum::<T>(l, m, c, (l - big_m) / 2 + 1, 0))
}

/// `(-1)^k 2^-l C(l,k) C(2l-2k,l) (l-2k)!/(l-2k-M)!`.
fn gamma_of<T: Real>(l: usize, big_m: usize, k: usize) -> (r: T)
    requires
        l <= i32::MAX,
        big_m + 2 * k <= l,
    ensures
        r == gamma::<T>(l as int, big_m as int, k as int),
{
    let sign = if k % 2 == 0 {
        T::from_count(1)
    } else {
        T::from_count(1).negated()
    };
    sign.times(T::from_count(1).over(T::from_count(2).powi(l as u64))).times(
        binom::<T>(l, k),
    ).times(binom::<T>(2 * l - 2 * k, l)).times(factorial::<T>(l - 2 * k)).over(
        factorial::<T>(l - 2 * k - big_m),
    )
}

/// The coefficient of the monomial `x^lx y^ly z^lz` in the real solid harmonic of
/// degree `l` and order `m`; zero for an order above the degree.
#[verifier::spinoff_prover]
pub fn racah_real_solid_harmonic_coeff<T: Real>(
    l: usize,
    m: i64,
    lx: usize,
    ly: usize,
    lz: usize,
) -> (r: T)
    requires
        l <= i32::MAX,
        lx + ly + lz == l,
    ensures
        r == (if order_of(m as int) > l {
            T::count(0)
        } else {
            harmonic_coefficient::<T>(l as int, m as int, (lx as int, ly as int, lz as int))
        }),
{
    if m == i64::MIN {
        return T::from_count(0);
    }
    let magnitude: i64 = if m >= 0 {
        m
    } else {
        -m
    };
    if magnitude > l as i64 {
        return T::from_count(0);
    }
    let big_m: usize = magnitude as usize;
    let ghost (ll, mm) = (l as int, m as int);
    let ghost c = (lx as int, ly as int, lz as int);
    let top = if big_m == 0 {
        factorial::<T>(l - big_m)
    } else {
        T::from_count(2).times(factorial::<T>(l - big_m))
    };
    let norm = top.over(factorial::<T>(l + big_m)).sqrt();
    let mut acc = T::from_count(0);
    let kmax: usize = (l - big_m) / 2;
    let mut k: usize = 0;
    while k <= kmax
        invariant
            k <= kmax + 1,
            l <= i32::MAX,
            lx + ly + lz == l,
            big_m <= l,
            big_m == order_of(m as int),
            kmax == (l - big_m) / 2,
            ll == l,
            mm == m,
            c == (lx as int, ly as int, lz as int),
            acc == harmonic_sum::<T>(ll, mm, c, k as int, 0),
        decreases kmax + 1 - k,
    {
        let gamma = gamma_of::<T>(l, big_m, k);
        let mut a: usize = 0;
        while a <= k
            invariant
                k <= kmax,
                a <= k + 1,
                l <= i32::MAX,
                lx + ly + lz == l,
                big_m <= l,
                big_m == order_of(m as int),
                kmax == (l - big_m) / 2,
                ll == l,
                mm == m,
                c == (lx as int, ly as int, lz as int),
                gamma == self::gamma::<T>(ll, big_m as int, k as int),
                acc == harmonic_sum::<T>(ll, mm, c, k as int, a as int),
            decreases k + 1 - a,
        {
            if lx >= 2 * a && lx - 2 * a <= big_m {
                let p: usize = lx - 2 * a;
                let q: usize = big_m - p;
                if ly >= q && (ly - q) % 2 == 0 && a + (ly - q) / 2 <= k && (m >= 0) == (q % 2
                    == 0) {
                    let b: usize = (ly - q) / 2;
                    let trig = if m >= 0 {
                        cos_half_pi::<T>(q)
                    } else {
                        sin_half_pi::<T>(q)
                    };
                    let multinomial = factorial::<T>(k).over(
                        factorial::<T>(a).times(factorial::<T>(b)).times(
                            factorial::<T>(k - a - b),
                        ),
                    );
                    acc = acc.plus(gamma.times(multinomial).times(binom::<T>(big_m, p)).times(trig));
                }
            }
            a = a + 1;
        }
        k = k + 1;
    }
    norm.times(acc)
}

/// The order of component `i` of degree `l`: for `l = 1` the orders `1, -1, 0`, which
/// are `x, y, z`; else the orders from `-l` to `l`.
pub open spec fn order_at(l: int, i: int) -> int {
    if l == 1 {
        if i == 0 {
            1
        } else if i == 1 {
            -1
        } else {
            0
        }
    } else {
        i - l
    }
}

/// The orders of the `2l+1` components of degree `l`.
#[must_use]
pub fn m_order(l: usize) -> (ms: Vec<i64>)
    requires
        2 * l + 1 <= usize::MAX,
        2 * l + 1 <= i64::MAX,
    ensures
        ms@.len() == 2 * l + 1,
        forall|i: int| 0 <= i < ms@.len() ==> #[trigger] ms@[i] == order_at(l as int, i),
{
    let mut ms: Vec<i64> = Vec::new();
    if l == 1 {
        ms.push(1);
        ms.push(-1);
        ms.push(0);
        return ms;
    }
    let mut i: usize = 0;
    while i < 2 * l + 1
        invariant
            i <= 2 * l + 1,
            2 * l + 1 <= usize::MAX,
            2 * l + 1 <= i64::MAX,
            l != 1,
            ms@.len() == i,
            forall|k: int| 0 <= k < i ==> #[trigger] ms@[k] == order_at(l as int, k),
        decreases 2 * l + 1 - i,
    {
        ms.push(i as i64 - l as i64);
        i = i + 1;
    }
    ms
}

/// Every order from `-l` to `l` belongs to exactly one component of degree `l`.
pub proof fn law_every_order_has_one_component(l: int, m: int, i: int, j: int)
    requires
        l >= 0,
        -l <= m <= l,
        0 <= i < 2 * l + 1,
        0 <= j < 2 * l + 1,
    ensures
        exists|k: int| 0 <= k < 2 * l + 1 && #[trigger] order_at(l, k) == m,
        -l <= order_at(l, i) <= l,
        order_at(l, i) == order_at(l, j) ==> i == j,
{
    if l == 1 {
        let k: int = if m == 1 {
            0
        } else if m == -1 {
            1
        } else {
            2
        };
        assert(order_at(l, k) == m);
    } else {
        assert(order_at(l, m + l) == m);
    }
}

/// `sqrt(4 pi/(2l+1))` for `l >= 2`, else one.
pub open spec fn raw_factor<T: Real>(l: int) -> T {
    if l < 2 {
        T::count(1)
    } else {
        T::root(
            T::quot(T::prod(T::count(4), T::circle()), T::count((2 * l + 1) as u64)),
        )
    }
}

/// The scalar from the normalization of the monomial `x^l` to that of the solid
/// harmonic: `sqrt(4 pi/(2l+1))` for `l >= 2`, else one.
#[must_use]
pub fn monomial_to_raw_factor<T: Real>(l: usize) -> (r: T)
    requires
        2 * l + 1 <= usize::MAX,
    ensures
        r == raw_factor::<T>(l as int),
{
    if l < 2 {
        T::from_count(1)
    } else {
        T::from_count(4).times(T::pi()).over(T::from_count((2 * l + 1) as u64)).sqrt()
    }
}

/// The integral of `x^n exp(-beta x^2)` over the line: zero for odd `n`, else
/// `(n-1)!!/(2 beta)^(n/2) sqrt(pi/beta)`.
pub open spec fn line_moment<T: Real>(n: int, beta: T) -> T {
    if n % 2 == 1 {
        T::count(0)
    } else {
        T::prod(
            T::quot(
                odd_factorial::<T>(n - 1),
                T::raised(T::prod(T::count(2), beta), (n / 2) as u64),
            ),
            T::root(T::quot(T::circle(), beta)),
        )
    }
}

/// The integral of `x^n exp(-beta x^2)` over the line.
fn gaussian_moment_1d<T: Real>(n: usize, beta: T) -> (r: T)
    requires
        n <= i32::MAX,
    ensures
        r == line_moment(n as int, beta),
{
    if n % 2 == 1 {
        return T::from_count(0);
    }
    let dfac: T = double_factorial(n as i64 - 1);
    dfac.over(T::from_count(2).times(beta).powi((n / 2) as u64)).times(T::pi().over(beta).sqrt())
}

/// The overlap of two components of degree `l` in the normalization of the solid
/// harmonic, at exponent one.
pub open spec fn raw_overlap<T: Real>(l: int, ci: Powers, cj: Powers) -> T {
    let beta = T::count(2);
    let bare = T::prod(
        T::prod(line_moment(ci.0 + cj.0, beta), line_moment(ci.1 + cj.1, beta)),
        line_moment(ci.2 + cj.2, beta),
    );
    let n = primitive_norm(T::count(1), l, 0, 0);
    T::prod(T::prod(T::prod(T::raised(raw_factor::<T>(l), 2), n), n), bare)
}

/// The overlap of two components of degree `l` in the normalization of the solid
/// harmonic, at exponent one.
pub fn raw_self_overlap<T: Real>(l: usize, ci: [usize; 3], cj: [usize; 3]) -> (r: T)
    requires
        2 * l <= i32::MAX,
        is_component(powers(ci), l as int),
        is_component(powers(cj), l as int),
    ensures
        r == raw_overlap::<T>(l as int, powers(ci), powers(cj)),
{
    let beta = T::from_count(2);
    let bare = gaussian_moment_1d(ci[0] + cj[0], beta).times(
        gaussian_moment_1d(ci[1] + cj[1], beta),
    ).times(gaussian_moment_1d(ci[2] + cj[2], beta));
    let n_mono = cart_norm(T::from_count(1), l, 0, 0);
    monomial_to_raw_factor::<T>(l).powi(2).times(n_mono).times(n_mono).times(bare)
}

/// Whether a value is zero.
pub open spec fn vanishes<T: Real>(a: T) -> bool {
    T::le(a, T::count(0)) && T::le(T::count(0), a)
}

/// Whether a value is zero.
pub fn is_zero<T: Real>(a: T) -> (r: bool)
    ensures
        r == vanishes(a),
{
    let zero = T::from_count(0);
    a.at_most(zero) && zero.at_most(a)
}

/// The Racah coefficient of row `i` of degree `l` at the component of position `j`.
pub open spec fn row_coefficient<T: Real>(l: int, i: int, j: int) -> T {
    harmonic_coefficient::<T>(l, order_at(l, i), component_at(l, j))
}

/// The self-overlap of row `i` of degree `l`, over the component pairs before
/// `(j, k)`; pairs with a vanishing coefficient are left out.
pub open spec fn row_norm<T: Real>(l: int, i: int, j: int, k: int) -> T
    decreases j, k,
{
    if k > 0 {
        let before = row_norm::<T>(l, i, j, k - 1);
        let (a, b) = (row_coefficient::<T>(l, i, j), row_coefficient::<T>(l, i, k - 1));
        if vanishes(a) || vanishes(b) {
            before
        } else {
            T::sum(
                before,
                T::prod(
                    T::prod(a, b),
                    raw_overlap::<T>(l, component_at(l, j), component_at(l, k - 1)),
                ),
            )
        }
    } else if j > 0 {
        row_norm::<T>(l, i, j - 1, cart_count(l))
    } else {
        T::count(0)
    }
}

/// Entry `(i, j)` of the transform of degree `l`: the Racah coefficient over the norm
/// of its row.
pub open spec fn transform_entry<T: Real>(l: int, i: int, j: int) -> T {
    T::prod(
        T::quot(T::count(1), T::root(row_norm::<T>(l, i, cart_count(l), 0))),
        row_coefficient::<T>(l, i, j),
    )
}

/// The coefficients of one row of the transform, normalized.
#[verifier::spinoff_prover]
fn c2s_row<T: Real>(l: usize, comps: &Vec<[usize; 3]>, row: usize, m: i64) -> (coeffs: Vec<T>)
    requires
        l < 0x40_0000,
        row < 2 * l + 1,
        m == order_at(l as int, row as int),
        comps@.len() == cart_count(l as int),
        forall|i: int|
            0 <= i < comps@.len() ==> is_component(#[trigger] powers(comps@[i]), l as int),
        forall|i: int|
            0 <= i < comps@.len() ==> #[trigger] powers(comps@[i]) == component_at(l as int, i),
    ensures
        coeffs@ == Seq::new(
            cart_count(l as int) as nat,
            |j: int| transform_entry::<T>(l as int, row as int, j),
        ),
{
    let ghost (ll, rr) = (l as int, row as int);
    let mut coeffs: Vec<T> = Vec::new();
    let mut i: usize = 0;
    while i < comps.len()
        invariant
            i <= comps@.len(),
            l < 0x40_0000,
            row < 2 * l + 1,
            m == order_at(l as int, row as int),
            ll == l,
            rr == row,
            coeffs@.len() == i,
            forall|i: int| 0 <= i < comps@.len() ==> is_component(#[trigger] powers(comps@[i]), ll),
            forall|i: int|
                0 <= i < comps@.len() ==> #[trigger] powers(comps@[i]) == component_at(ll, i),
            forall|j: int| 0 <= j < i ==> #[trigger] coeffs@[j] == row_coefficient::<T>(ll, rr, j),
        decreases comps@.len() - i,
    {
        let c = comps[i];
        assert(powers(comps@[i as int]) == component_at(ll, i as int));
        coeffs.push(racah_real_solid_harmonic_coeff::<T>(l, m, c[0], c[1], c[2]));
        i = i + 1;
    }
    let n: usize = comps.len();
    let mut q = T::from_count(0);
    let mut i: usize = 0;
    while i < n
        invariant
            i <= n,
            n == comps@.len(),
            n == cart_count(ll),
            l < 0x40_0000,
            ll == l,
            rr == row,
            coeffs@.len() == n,
            forall|i: int| 0 <= i < comps@.len() ==> is_component(#[trigger] powers(comps@[i]), ll),
            forall|i: int|
                0 <= i < comps@.len() ==> #[trigger] powers(comps@[i]) == component_at(ll, i),
            forall|j: int| 0 <= j < n ==> #[trigger] coeffs@[j] == row_coefficient::<T>(ll, rr, j),
            q == row_norm::<T>(ll, rr, i as int, 0),
        decreases n - i,
    {
        let mut j: usize = 0;
        while j < n
            invariant
                i < n,
                j <= n,
                n == comps@.len(),
                n == cart_count(ll),
                l < 0x40_0000,
                ll == l,
                rr == row,
                coeffs@.len() == n,
                forall|i: int|
                    0 <= i < comps@.len() ==> is_component(#[trigger] powers(comps@[i]), ll),
                forall|i: int|
                    0 <= i < comps@.len() ==> #[trigger] powers(comps@[i]) == component_at(ll, i),
                forall|j: int|
                    0 <= j < n ==> #[trigger] coeffs@[j] == row_coefficient::<T>(ll, rr, j),
                q == row_norm::<T>(ll, rr, i as int, j as int),
            decreases n - j,
        {
            assert(powers(comps@[i as int]) == component_at(ll, i as int));
            assert(powers(comps@[j as int]) == component_at(ll, j as int));
            if !is_zero(coeffs[i]) && !is_zero(coeffs[j]) {
                q = q.plus(
                    coeffs[i].times(coeffs[j]).times(raw_self_overlap::<T>(l, comps[i], comps[j])),
                );
            }
            j = j + 1;
        }
        i = i + 1;
    }
    let kappa = T::from_count(1).over(q.sqrt());
    let mut out: Vec<T> = Vec::new();
    let mut i: usize = 0;
    while i < n
        invariant
            i <= n,
            n == cart_count(ll),
            coeffs@.len() == n,
            kappa == T::quot(T::count(1), T::root(row_norm::<T>(ll, rr, cart_count(ll), 0))),
            forall|j: int| 0 <= j < n ==> #[trigger] coeffs@[j] == row_coefficient::<T>(ll, rr, j),
            out@.len() == i,
            forall|j: int| 0 <= j < i ==> #[trigger] out@[j] == transform_entry::<T>(ll, rr, j),
        decreases n - i,
    {
        out.push(kappa.times(coeffs[i]));
        i = i + 1;
    }
    assert(out@ =~= Seq::new(
        cart_count(l as int) as nat,
        |j: int| transform_entry::<T>(l as int, row as int, j),
    ));
    out
}

/// A transform that fits has a low degree.
proof fn lemma_transform_fits(l: int)
    requires
        0 <= l,
        (2 * l + 1) * cart_count(l) <= u64::MAX,
    ensures
        l < 0x40_0000,
        (l + 1) * (l + 2) <= (2 * l + 1) * cart_count(l) || l == 0,
        l == 0 ==> (l + 1) * (l + 2) == 2,
        cart_count(l) >= 1,
{
    let c = cart_count(l);
    lemma_triangle_step(l + 1);
    assert(c >= 1) by (nonlinear_arith)
        requires
            2 * c == (l + 1) * (l + 2),
            0 <= l,
    ;
    if l >= 0x40_0000 {
        assert(c >= 0x800_0000_0000) by (nonlinear_arith)
            requires
                2 * c == (l + 1) * (l + 2),
                l >= 0x40_0000,
        ;
        assert((2 * l + 1) * c >= 0x80_0000 * 0x800_0000_0000) by (nonlinear_arith)
            requires
                l >= 0x40_0000,
                c >= 0x800_0000_0000,
        ;
    }
    if l >= 1 {
        assert(2 * c <= (2 * l + 1) * c) by (nonlinear_arith)
            requires
                1 <= l,
                c >= 0,
        ;
    }
}

/// The transform of degree `l`, row by row: `2l+1` rows over the Cartesian
/// components.
#[must_use]
pub fn c2s_matrix<T: Real>(l: usize) -> (mat: Vec<T>)
    requires
        (2 * l + 1) * cart_count(l as int) <= usize::MAX,
    ensures
        mat@ == Seq::new(
            ((2 * l + 1) * cart_count(l as int)) as nat,
            |k: int|
                transform_entry::<T>(
                    l as int,
                    k / cart_count(l as int),
                    k % cart_count(l as int),
                ),
        ),
{
    let ghost ll = l as int;
    let ghost n = cart_count(ll);
    proof {
        lemma_transform_fits(ll);
    }
    let comps = cart_components(l);
    proof {
        lemma_listed_components(comps@, ll);
    }
    let ms = m_order(l);
    let mut mat: Vec<T> = Vec::new();
    let mut row: usize = 0;
    while row < ms.len()
        invariant
            row <= ms@.len(),
            l < 0x40_0000,
            ll == l,
            n == cart_count(ll),
            n >= 1,
            ms@.len() == 2 * l + 1,
            comps@.len() == n,
            forall|i: int| 0 <= i < ms@.len() ==> #[trigger] ms@[i] == order_at(ll, i),
            forall|i: int| 0 <= i < comps@.len() ==> is_component(#[trigger] powers(comps@[i]), ll),
            forall|i: int|
                0 <= i < comps@.len() ==> #[trigger] powers(comps@[i]) == component_at(ll, i),
            mat@.len() == row * n,
            forall|k: int|
                0 <= k < mat@.len() ==> #[trigger] mat@[k] == transform_entry::<T>(
                    ll,
                    k / n,
                    k % n,
                ),
        decreases ms@.len() - row,
    {
        let mut coeffs = c2s_row::<T>(l, &comps, row, ms[row]);
        let ghost before = mat@;
        let ghost added = coeffs@;
        mat.append(&mut coeffs);
        proof {
            assert(row * n + n == (row + 1) * n) by (nonlinear_arith);
            assert forall|k: int| 0 <= k < mat@.len() implies #[trigger] mat@[k]
                == transform_entry::<T>(ll, k / n, k % n) by {
                if k < before.len() {
                    assert(mat@[k] == before[k]);
                } else {
                    let j = k - before.len();
                    crate::flat::lemma_pair_parts(row as int, n, j);
                    assert(k == pair(row as int, n, j));
                    assert(mat@[k] == added[j]);
                }
            }
        }
        row = row + 1;
    }
    assert(mat@ =~= Seq::new(
        ((2 * l + 1) * cart_count(l as int)) as nat,
        |k: int|
            transform_entry::<T>(l as int, k / cart_count(l as int), k % cart_count(l as int)),
    ));
    mat
}

} // verus!
