//! The radial integrals of effective core potentials.
//!
//! An integral over the distance is a sum over the nodes of a Gauss-Legendre rule, laid
//! over a window around the peak of the integrand.
use vstd::prelude::*;

use crate::dense::{larger, larger_of};
use crate::ecp::harmonics::MAX_DEGREE;
use crate::flat::{
    cell, lemma_cell_distinct, lemma_cell_in_range, lemma_pair_in_range, lemma_pair_order, pair,
};
use crate::math::norm::{double_factorial, odd_factorial};
use crate::math::solid_harmonics::{is_zero, vanishes};
use crate::scalar::{filled, fraction, ratio, Real, Scalar};

verus! {

/// The number of nodes of the radial rule.
pub const N_QUAD: usize = 128;

/// `r^n`, also for a power below zero.
pub open spec fn whole_power<T: Real>(r: T, n: int) -> T {
    if n >= 0 {
        T::raised(r, n as u64)
    } else {
        T::quot(T::count(1), T::raised(r, (-n) as u64))
    }
}

fn raise<T: Real>(r: T, n: i32) -> (v: T)
    ensures
        v == whole_power(r, n as int),
{
    if n >= 0 {
        r.powi(n as u64)
    } else {
        T::from_count(1).over(r.powi((-(n as i64)) as u64))
    }
}

/// The window of the integrand `r^n exp(-alpha r^2 + k r)`: half its width, and its middle.
pub open spec fn window<T: Real>(alpha: T, k: T) -> (T, T) {
    let r0 = T::quot(k, T::prod(T::count(2), alpha));
    let hw = T::root(T::quot(T::count(80), alpha));
    let lo = larger(T::diff(r0, hw), T::count(0));
    let hi = T::sum(r0, hw);
    (
        T::prod(fraction(1, 2), T::diff(hi, lo)),
        T::prod(fraction(1, 2), T::sum(hi, lo)),
    )
}

/// The window of the integrand.
pub fn quad_window<T: Real>(alpha: T, k: T) -> (r: (T, T))
    ensures
        r == window(alpha, k),
{
    let r0 = k.over(T::from_count(2).times(alpha));
    let hw = T::from_count(80).over(alpha).sqrt();
    let lo = larger_of(r0.minus(hw), T::from_count(0));
    let hi = r0.plus(hw);
    (ratio::<T>(1, 2).times(hi.minus(lo)), ratio::<T>(1, 2).times(hi.plus(lo)))
}

/// The Bessel series of degree `lam` from term `t` on, with the last term and the sum
/// before it.
pub open spec fn series_from<T: Real>(x2: T, lam: int, t: int, term: T, sum: T) -> T
    decreases 500 - t,
{
    if t < 500 && T::lt(T::prod(fraction(1, 1000000000000000000), sum), term) {
        let next = T::prod(
            term,
            T::quot(x2, T::count(((2 * t + 2) * (2 * (lam + t) + 3)) as u64)),
        );
        series_from(x2, lam, t + 1, next, T::sum(sum, next))
    } else {
        sum
    }
}

/// `exp(-x) i_lam(x)` by its series.
pub open spec fn bessel_series<T: Real>(x: T, lam: int) -> T {
    let first = T::quot(T::count(1), odd_factorial(2 * lam + 1));
    T::prod(
        T::prod(
            T::raised(x, lam as u64),
            series_from(T::prod(x, x), lam, 0, first, first),
        ),
        T::expo(T::neg(x)),
    )
}

/// `exp(-x) i_lam(x)` by the recurrence from degrees zero and one.
pub open spec fn bessel_upward<T: Real>(x: T, lam: int) -> T
    decreases lam,
{
    let e2 = T::expo(T::prod(T::neg(T::count(2)), x));
    if lam <= 0 {
        T::quot(T::diff(T::count(1), e2), T::prod(T::count(2), x))
    } else if lam == 1 {
        T::quot(
            T::sum(T::diff(x, T::count(1)), T::prod(T::sum(x, T::count(1)), e2)),
            T::prod(T::prod(T::count(2), x), x),
        )
    } else {
        T::diff(
            bessel_upward(x, lam - 2),
            T::prod(T::quot(T::count((2 * lam - 1) as u64), x), bessel_upward(x, lam - 1)),
        )
    }
}

/// `exp(-x) i_lam(x)`.
pub open spec fn scaled_bessel<T: Real>(x: T, lam: int) -> T {
    if T::lt(x, T::count(100)) {
        bessel_series(x, lam)
    } else {
        bessel_upward(x, lam)
    }
}

fn sum_series<T: Real>(x2: T, lam: usize) -> (r: T)
    requires
        lam <= MAX_DEGREE,
    ensures
        ({
            let first = T::quot(T::count(1), odd_factorial(2 * lam + 1));
            r == series_from(x2, lam as int, 0, first, first)
        }),
{
    let mut term = T::from_count(1).over(double_factorial(2 * lam as i64 + 1));
    let ghost first = term;
    let mut sum = term;
    let mut t: usize = 0;
    let tiny = ratio::<T>(1, 1000000000000000000);
    while t < 500 && tiny.times(sum).less(term)
        invariant
            t <= 500,
            lam <= MAX_DEGREE,
            tiny == fraction::<T>(1, 1000000000000000000),
            series_from(x2, lam as int, t as int, term, sum) == series_from(
                x2,
                lam as int,
                0,
                first,
                first,
            ),
        decreases 500 - t,
    {
        let (up, at): (u64, u64) = (t as u64, lam as u64);
        assert((2 * up + 2) * (2 * (at + up) + 3) <= 1002 * 0x8000_1000) by (nonlinear_arith)
            requires
                up <= 500,
                at <= 0x3fff_ffff,
        ;
        term = term.times(x2.over(T::from_count((2 * up + 2) * (2 * (at + up) + 3))));
        sum = sum.plus(term);
        t = t + 1;
    }
    sum
}

/// The scaled Bessel functions `exp(-x) i_lam(x)` of the degrees up to `lmax`.
pub fn msb_scaled<T: Real>(x: T, lmax: usize, out: &mut [T])
    requires
        lmax <= MAX_DEGREE,
        lmax < old(out)@.len(),
    ensures
        final(out)@.len() == old(out)@.len(),
        forall|k: int|
            0 <= k < old(out)@.len() ==> #[trigger] final(out)@[k] == (if k <= lmax {
                scaled_bessel(x, k)
            } else {
                old(out)@[k]
            }),
{
    let ghost was = out@;
    if x.less(T::from_count(100)) {
        let emx = x.negated().exp();
        let x2 = x.times(x);
        let mut lam: usize = 0;
        while lam <= lmax
            invariant
                lam <= lmax + 1,
                lmax <= MAX_DEGREE,
                lmax < was.len(),
                out@.len() == was.len(),
                T::lt(x, T::count(100)),
                emx == T::expo(T::neg(x)),
                x2 == T::prod(x, x),
                forall|k: int|
                    0 <= k < was.len() ==> #[trigger] out@[k] == (if k < lam {
                        scaled_bessel(x, k)
                    } else {
                        was[k]
                    }),
            decreases lmax + 1 - lam,
        {
            let v = x.powi(lam as u64).times(sum_series(x2, lam)).times(emx);
            out[lam] = v;
            lam = lam + 1;
        }
    } else {
        let e2 = T::from_count(2).negated().times(x).exp();
        let v = T::from_count(1).minus(e2).over(T::from_count(2).times(x));
        out[0] = v;
        if lmax >= 1 {
            let one = T::from_count(1);
            let v = x.minus(one).plus(x.plus(one).times(e2)).over(
                T::from_count(2).times(x).times(x),
            );
            out[1] = v;
        }
        let mut lam: usize = 2;
        while lam <= lmax
            invariant
                2 <= lam,
                lam <= lmax + 1 || lmax < 2,
                lmax <= MAX_DEGREE,
                lmax < was.len(),
                out@.len() == was.len(),
                !T::lt(x, T::count(100)),
                forall|k: int|
                    0 <= k < was.len() ==> #[trigger] out@[k] == (if k < lam && k <= lmax {
                        scaled_bessel(x, k)
                    } else {
                        was[k]
                    }),
            decreases lmax + 1 - lam,
        {
            assert(out@[lam - 2] == scaled_bessel(x, lam - 2));
            assert(out@[lam - 1] == scaled_bessel(x, lam - 1));
            let v = out[lam - 2].minus(
                T::from_count((2 * lam - 1) as u64).over(x).times(out[lam - 1]),
            );
            out[lam] = v;
            lam = lam + 1;
        }
    }
}

/// The Legendre polynomials of degrees `n - 1` and `n` at `x`.
pub open spec fn legendre_pair<T: Scalar>(x: T, n: int) -> (T, T)
    decreases n,
{
    if n <= 1 {
        (T::count(1), x)
    } else {
        let (p0, p1) = legendre_pair(x, n - 1);
        let kf = T::count(n as u64);
        (
            p1,
            T::quot(
                T::diff(
                    T::prod(
                        T::prod(T::diff(T::prod(T::count(2), kf), T::count(1)), x),
                        p1,
                    ),
                    T::prod(T::diff(kf, T::count(1)), p0),
                ),
                kf,
            ),
        )
    }
}

/// The derivative of the Legendre polynomial of degree `n` at `x`.
pub open spec fn legendre_slope<T: Scalar>(x: T, n: int) -> T {
    let (p0, p1) = legendre_pair(x, n);
    T::quot(
        T::prod(T::count(n as u64), T::diff(T::prod(x, p1), p0)),
        T::diff(T::prod(x, x), T::count(1)),
    )
}

/// A root of the Legendre polynomial of degree `n` and the slope there, by at most
/// `steps` Newton steps from `x`; without a step the slope is `dp`.
pub open spec fn newton<T: Real>(x: T, dp: T, n: int, steps: int) -> (T, T)
    decreases steps,
{
    if steps <= 0 {
        (x, dp)
    } else {
        let slope = legendre_slope(x, n);
        let dx = T::quot(legendre_pair(x, n).1, slope);
        let next = T::diff(x, dx);
        if T::lt(T::magnitude(dx), fraction(5, 10000000000000000)) {
            (next, slope)
        } else {
            newton(next, slope, n, steps - 1)
        }
    }
}

/// Node `i` of the rule of `n` nodes on `[-1, 1]`, counted from one, and its weight.
pub open spec fn legendre_node<T: Real>(n: int, i: int) -> (T, T) {
    let start = T::cosine(
        T::quot(
            T::prod(T::circle(), T::diff(T::count(i as u64), fraction(1, 4))),
            T::sum(T::count(n as u64), fraction(1, 2)),
        ),
    );
    let (x, dp) = newton(start, T::count(1), n, 100);
    (
        x,
        T::quot(
            T::count(2),
            T::prod(T::prod(T::diff(T::count(1), T::prod(x, x)), dp), dp),
        ),
    )
}

/// The Gauss-Legendre rule of `n` nodes on `[-1, 1]`.
pub open spec fn legendre_rule<T: Real>(n: int) -> Seq<(T, T)> {
    Seq::new(n as nat, |i: int| legendre_node::<T>(n, i + 1))
}

fn legendre_at<T: Scalar>(x: T, n: usize) -> (r: (T, T))
    requires
        1 <= n < usize::MAX,
    ensures
        r == legendre_pair(x, n as int),
{
    let mut p0 = T::from_count(1);
    let mut p1 = x;
    let mut k: usize = 2;
    while k <= n
        invariant
            2 <= k <= n + 1,
            1 <= n < usize::MAX,
            (p0, p1) == legendre_pair(x, k - 1),
        decreases n + 1 - k,
    {
        let kf = T::from_count(k as u64);
        let p2 = T::from_count(2).times(kf).minus(T::from_count(1)).times(x).times(p1).minus(
            kf.minus(T::from_count(1)).times(p0),
        ).over(kf);
        p0 = p1;
        p1 = p2;
        k = k + 1;
    }
    (p0, p1)
}

fn find_root<T: Real>(start: T, n: usize) -> (r: (T, T))
    requires
        1 <= n < usize::MAX,
    ensures
        r == newton(start, T::count(1), n as int, 100),
{
    let mut x = start;
    let mut dp = T::from_count(1);
    let tiny = ratio::<T>(5, 10000000000000000);
    let mut left: usize = 100;
    while left > 0
        invariant
            left <= 100,
            1 <= n < usize::MAX,
            tiny == fraction::<T>(5, 10000000000000000),
            newton(x, dp, n as int, left as int) == newton(start, T::count(1), n as int, 100),
        decreases left,
    {
        let (p0, p1) = legendre_at(x, n);
        let slope = T::from_count(n as u64).times(x.times(p1).minus(p0)).over(
            x.times(x).minus(T::from_count(1)),
        );
        let dx = p1.over(slope);
        x = x.minus(dx);
        dp = slope;
        if dx.abs().less(tiny) {
            return (x, dp);
        }
        left = left - 1;
    }
    (x, dp)
}

/// The Gauss-Legendre rule of `n` nodes on `[-1, 1]`.
pub fn gauss_legendre<T: Real>(n: usize) -> (out: Vec<(T, T)>)
    requires
        n < usize::MAX,
    ensures
        out@ == legendre_rule::<T>(n as int),
{
    let mut out: Vec<(T, T)> = Vec::new();
    let mut i: usize = 1;
    while i <= n
        invariant
            1 <= i <= n + 1,
            n < usize::MAX,
            out@.len() == i - 1,
            forall|k: int|
                0 <= k < out@.len() ==> #[trigger] out@[k] == legendre_node::<T>(n as int, k + 1),
        decreases n + 1 - i,
    {
        let start = T::pi().times(T::from_count(i as u64).minus(ratio(1, 4))).over(
            T::from_count(n as u64).plus(ratio(1, 2)),
        ).cos();
        let (x, dp) = find_root(start, n);
        let w = T::from_count(2).over(
            T::from_count(1).minus(x.times(x)).times(dp).times(dp),
        );
        out.push((x, w));
        i = i + 1;
    }
    assert(out@ =~= legendre_rule::<T>(n as int));
    out
}

/// The nodes of the radial rule.
pub fn gl_nodes<T: Real>() -> (out: Vec<(T, T)>)
    ensures
        out@ == legendre_rule::<T>(N_QUAD as int),
{
    gauss_legendre(N_QUAD)
}

/// `r^n` multiplied by `r` another `s` times.
pub open spec fn climbed<T: Real>(r: T, n: int, s: int) -> T
    decreases s,
{
    if s <= 0 {
        whole_power(r, n)
    } else {
        T::prod(climbed(r, n, s - 1), r)
    }
}

/// What a radial integral is made of.
pub struct Radial<T> {
    pub alpha: T,
    pub k: T,
    pub arg0: T,
    pub n: int,
}

impl<T: Real> Radial<T> {
    /// The distance of a node.
    pub open spec fn at(self, node: (T, T)) -> T {
        let (c1, c2) = window(self.alpha, self.k);
        T::sum(T::prod(c1, node.0), c2)
    }

    /// The exponential at a node.
    pub open spec fn decay(self, node: (T, T)) -> T {
        let r = self.at(node);
        T::expo(T::sum(self.arg0, T::prod(T::diff(self.k, T::prod(self.alpha, r)), r)))
    }

    /// The weight of a node with the exponential and `r^(n + s)`.
    pub open spec fn weight(self, node: (T, T), s: int) -> T {
        let (c1, c2) = window(self.alpha, self.k);
        T::prod(
            T::prod(T::prod(c1, node.1), self.decay(node)),
            climbed(self.at(node), self.n, s),
        )
    }

    /// The integral of `r^(n + s)` with a Bessel function, over the first `m` nodes.
    pub open spec fn local(self, nodes: Seq<(T, T)>, lam: int, s: int, m: int) -> T
        decreases m,
    {
        if m <= 0 {
            T::count(0)
        } else {
            let before = self.local(nodes, lam, s, m - 1);
            let node = nodes[m - 1];
            if vanishes(self.decay(node)) {
                before
            } else {
                T::sum(
                    before,
                    T::prod(
                        self.weight(node, s),
                        scaled_bessel(T::prod(self.k, self.at(node)), lam),
                    ),
                )
            }
        }
    }

    /// The integral of `r^(n + s)` with two Bessel functions, over the first `m` nodes.
    pub open spec fn projected(
        self,
        nodes: Seq<(T, T)>,
        ka: T,
        kb: T,
        lama: int,
        lamb: int,
        s: int,
        m: int,
    ) -> T
        decreases m,
    {
        if m <= 0 {
            T::count(0)
        } else {
            let before = self.projected(nodes, ka, kb, lama, lamb, s, m - 1);
            let node = nodes[m - 1];
            if vanishes(self.decay(node)) {
                before
            } else {
                T::sum(
                    before,
                    T::prod(
                        T::prod(
                            self.weight(node, s),
                            scaled_bessel(T::prod(ka, self.at(node)), lama),
                        ),
                        scaled_bessel(T::prod(kb, self.at(node)), lamb),
                    ),
                )
            }
        }
    }
}

/// Whether `q` holds the integrals over the first `m` nodes, and those of the powers
/// before `s` also the next.
spec fn holds_local<T: Real>(
    q: Seq<T>,
    x: Radial<T>,
    nodes: Seq<(T, T)>,
    d: int,
    m: int,
    s: int,
) -> bool {
    &&& q.len() == d * d
    &&& forall|lam: int, t: int|
        0 <= lam < d && 0 <= t < d ==> #[trigger] q[pair(lam, d, t)] == x.local(
            nodes,
            lam,
            t,
            if t < s {
                m + 1
            } else {
                m
            },
        )
}

/// The integrals of a local potential: of all degrees and powers up to `ltot`.
#[verifier::spinoff_prover]
#[verifier::rlimit(40)]
pub fn radial_type1<T: Real>(
    nodes: &Vec<(T, T)>,
    alpha: T,
    k: T,
    arg0: T,
    n: i32,
    ltot: usize,
    mb: &mut Vec<T>,
) -> (q: Vec<T>)
    requires
        ltot <= MAX_DEGREE,
        (ltot + 1) * (ltot + 1) <= usize::MAX,
        old(mb)@.len() == ltot + 1,
    ensures
        final(mb)@.len() == ltot + 1,
        q@.len() == (ltot + 1) * (ltot + 1),
        forall|lam: int, s: int|
            0 <= lam <= ltot && 0 <= s <= ltot ==> #[trigger] q@[pair(lam, ltot + 1, s)] == (Radial {
                alpha,
                k,
                arg0,
                n: n as int,
            }).local(nodes@, lam, s, nodes@.len() as int),
{
    let d: usize = ltot + 1;
    let ghost x = Radial { alpha, k, arg0, n: n as int };
    let mut q = filled(d * d, T::from_count(0));
    proof {
        assert forall|lam: int, t: int| 0 <= lam < d && 0 <= t < d implies #[trigger] q@[pair(
            lam,
            d as int,
            t,
        )] == x.local(nodes@, lam, t, 0) by {
            lemma_pair_in_range(lam, d as int, d as int, t);
        }
    }
    let (c1, c2) = quad_window(alpha, k);
    let mut i: usize = 0;
    while i < nodes.len()
        invariant
            i <= nodes@.len(),
            d == ltot + 1,
            ltot <= MAX_DEGREE,
            d * d <= usize::MAX,
            mb@.len() == d,
            x == (Radial { alpha, k, arg0, n: n as int }),
            (c1, c2) == window(alpha, k),
            holds_local(q@, x, nodes@, d as int, i as int, 0),
        decreases nodes@.len() - i,
    {
        let (node, w) = nodes[i];
        let r = c1.times(node).plus(c2);
        let e = arg0.plus(k.minus(alpha.times(r)).times(r)).exp();
        if !is_zero(e) {
            msb_scaled(k.times(r), ltot, mb.as_mut_slice());
            let wr = c1.times(w).times(e);
            let mut rs = raise(r, n);
            let mut s: usize = 0;
            while s < d
                invariant
                    i < nodes@.len(),
                    s <= d,
                    d == ltot + 1,
                    ltot <= MAX_DEGREE,
                    d * d <= usize::MAX,
                    mb@.len() == d,
                    x == (Radial { alpha, k, arg0, n: n as int }),
                    (c1, c2) == window(alpha, k),
                    (node, w) == nodes@[i as int],
                    r == x.at(nodes@[i as int]),
                    e == x.decay(nodes@[i as int]),
                    !vanishes(e),
                    wr == T::prod(T::prod(c1, w), e),
                    forall|lam: int|
                        0 <= lam < d ==> #[trigger] mb@[lam] == scaled_bessel(T::prod(k, r), lam),
                    rs == climbed(r, n as int, s as int),
                    holds_local(q@, x, nodes@, d as int, i as int, s as int),
                decreases d - s,
            {
                let v = wr.times(rs);
                let mut lam: usize = 0;
                while lam < d
                    invariant
                        i < nodes@.len(),
                        s < d,
                        lam <= d,
                        d * d <= usize::MAX,
                        mb@.len() == d,
                        x == (Radial { alpha, k, arg0, n: n as int }),
                        (node, w) == nodes@[i as int],
                        r == x.at(nodes@[i as int]),
                        !vanishes(x.decay(nodes@[i as int])),
                        v == x.weight(nodes@[i as int], s as int),
                        forall|m: int|
                            0 <= m < d ==> #[trigger] mb@[m] == scaled_bessel(T::prod(k, r), m),
                        q@.len() == d * d,
                        forall|m: int, t: int|
                            0 <= m < d && 0 <= t < d ==> #[trigger] q@[pair(m, d as int, t)]
                                == x.local(
                                nodes@,
                                m,
                                t,
                                if t < s || (t == s && m < lam) {
                                    i + 1
                                } else {
                                    i as int
                                },
                            ),
                    decreases d - lam,
                {
                    proof {
                        lemma_pair_in_range(lam as int, d as int, d as int, s as int);
                    }
                    let at: usize = lam * d + s;
                    let ghost before = q@;
                    assert(mb@[lam as int] == scaled_bessel(T::prod(k, r), lam as int));
                    assert(before[pair(lam as int, d as int, s as int)] == x.local(
                        nodes@,
                        lam as int,
                        s as int,
                        i as int,
                    ));
                    q[at] = q[at].plus(v.times(mb[lam]));
                    proof {
                        assert forall|m: int, t: int|
                            0 <= m < d && 0 <= t < d implies #[trigger] q@[pair(m, d as int, t)]
                            == x.local(
                            nodes@,
                            m,
                            t,
                            if t < s || (t == s && m < lam + 1) {
                                i + 1
                            } else {
                                i as int
                            },
                        ) by {
                            lemma_pair_order(m, t, lam as int, s as int, d as int);
                            lemma_pair_in_range(m, d as int, d as int, t);
                            if !(m == lam && t == s) {
                                assert(q@[pair(m, d as int, t)] == before[pair(m, d as int, t)]);
                            }
                        }
                    }
                    lam = lam + 1;
                }
                rs = rs.times(r);
                s = s + 1;
            }
        }
        proof {
            assert forall|lam: int, t: int| 0 <= lam < d && 0 <= t < d implies #[trigger] q@[pair(
                lam,
                d as int,
                t,
            )] == x.local(nodes@, lam, t, i + 1) by {}
        }
        i = i + 1;
    }
    q
}

/// Whether `q` holds the integrals over the first `m` nodes, and those of the powers
/// before `s`, and with that power those of the degrees before `a`, also the next.
spec fn holds_projected<T: Real>(
    q: Seq<T>,
    x: Radial<T>,
    ka: T,
    kb: T,
    nodes: Seq<(T, T)>,
    na: int,
    nb: int,
    ns: int,
    m: int,
    s: int,
    a: int,
) -> bool {
    &&& q.len() == na * nb * ns
    &&& forall|la: int, lb: int, t: int|
        0 <= la < na && 0 <= lb < nb && 0 <= t < ns ==> #[trigger] q[cell(la, nb, lb, ns, t)]
            == x.projected(
            nodes,
            ka,
            kb,
            la,
            lb,
            t,
            if t < s || (t == s && la < a) {
                m + 1
            } else {
                m
            },
        )
}

/// Add one node to the integrals of one power and one degree of the first function.
fn add_projected<T: Real>(
    q: &mut Vec<T>,
    va: T,
    mbb: &Vec<T>,
    laa: usize,
    na: usize,
    nb: usize,
    ns: usize,
    s: usize,
)
    requires
        laa < na,
        s < ns,
        1 <= nb,
        mbb@.len() == nb,
        na * nb * ns <= usize::MAX,
        old(q)@.len() == na * nb * ns,
    ensures
        final(q)@.len() == old(q)@.len(),
        forall|la: int, lb: int, t: int|
            0 <= la < na && 0 <= lb < nb && 0 <= t < ns ==> #[trigger] final(q)@[cell(
                la,
                nb as int,
                lb,
                ns as int,
                t,
            )] == (if la == laa && t == s {
                T::sum(
                    old(q)@[cell(la, nb as int, lb, ns as int, t)],
                    T::prod(va, mbb@[lb]),
                )
            } else {
                old(q)@[cell(la, nb as int, lb, ns as int, t)]
            }),
{
    let ghost was = q@;
    let mut lbb: usize = 0;
    while lbb < nb
        invariant
            lbb <= nb,
            laa < na,
            s < ns,
            mbb@.len() == nb,
            na * nb * ns <= usize::MAX,
            q@.len() == na * nb * ns,
            was.len() == q@.len(),
            forall|la: int, lb: int, t: int|
                0 <= la < na && 0 <= lb < nb && 0 <= t < ns ==> #[trigger] q@[cell(
                    la,
                    nb as int,
                    lb,
                    ns as int,
                    t,
                )] == (if la == laa && t == s && lb < lbb {
                    T::sum(
                        was[cell(la, nb as int, lb, ns as int, t)],
                        T::prod(va, mbb@[lb]),
                    )
                } else {
                    was[cell(la, nb as int, lb, ns as int, t)]
                }),
        decreases nb - lbb,
    {
        proof {
            lemma_cell_in_range(
                laa as int,
                na as int,
                nb as int,
                lbb as int,
                ns as int,
                s as int,
            );
        }
        let at: usize = (laa * nb + lbb) * ns + s;
        let ghost before = q@;
        assert(before[cell(laa as int, nb as int, lbb as int, ns as int, s as int)] == was[at as int]);
        q[at] = q[at].plus(va.times(mbb[lbb]));
        proof {
            assert forall|la: int, lb: int, t: int|
                0 <= la < na && 0 <= lb < nb && 0 <= t < ns implies #[trigger] q@[cell(
                la,
                nb as int,
                lb,
                ns as int,
                t,
            )] == (if la == laa && t == s && lb < lbb + 1 {
                T::sum(was[cell(la, nb as int, lb, ns as int, t)], T::prod(va, mbb@[lb]))
            } else {
                was[cell(la, nb as int, lb, ns as int, t)]
            }) by {
                lemma_cell_distinct(
                    la,
                    lb,
                    t,
                    laa as int,
                    lbb as int,
                    s as int,
                    nb as int,
                    ns as int,
                );
                lemma_cell_in_range(la, na as int, nb as int, lb, ns as int, t);
                if !(la == laa && lb == lbb && t == s) {
                    assert(q@[cell(la, nb as int, lb, ns as int, t)] == before[cell(
                        la,
                        nb as int,
                        lb,
                        ns as int,
                        t,
                    )]);
                }
            }
        }
        lbb = lbb + 1;
    }
}

/// The integrals of a projected potential: of all degrees up to `lama` and `lamb` and of
/// all powers up to `smax`.
#[verifier::spinoff_prover]
#[verifier::rlimit(40)]
pub fn radial_type2<T: Real>(
    nodes: &Vec<(T, T)>,
    alpha: T,
    ka: T,
    kb: T,
    arg0: T,
    n: i32,
    smax: usize,
    lama: usize,
    lamb: usize,
    mba: &mut Vec<T>,
    mbb: &mut Vec<T>,
) -> (q: Vec<T>)
    requires
        lama <= MAX_DEGREE,
        lamb <= MAX_DEGREE,
        smax < usize::MAX,
        (lama + 1) * (lamb + 1) * (smax + 1) <= usize::MAX,
        old(mba)@.len() == lama + 1,
        old(mbb)@.len() == lamb + 1,
    ensures
        final(mba)@.len() == lama + 1,
        final(mbb)@.len() == lamb + 1,
        q@.len() == (lama + 1) * (lamb + 1) * (smax + 1),
        forall|la: int, lb: int, s: int|
            0 <= la <= lama && 0 <= lb <= lamb && 0 <= s <= smax ==> #[trigger] q@[cell(
                la,
                lamb + 1,
                lb,
                smax + 1,
                s,
            )] == (Radial { alpha, k: T::sum(ka, kb), arg0, n: n as int }).projected(
                nodes@,
                ka,
                kb,
                la,
                lb,
                s,
                nodes@.len() as int,
            ),
{
    let (na, nb, ns): (usize, usize, usize) = (lama + 1, lamb + 1, smax + 1);
    assert(0 <= na * nb <= na * nb * ns) by (nonlinear_arith)
        requires
            0 <= na,
            0 <= nb,
            1 <= ns,
    ;
    let mut q = filled(na * nb * ns, T::from_count(0));
    let ksum = ka.plus(kb);
    let ghost x = Radial { alpha, k: ksum, arg0, n: n as int };
    proof {
        assert forall|la: int, lb: int, t: int|
            0 <= la < na && 0 <= lb < nb && 0 <= t < ns implies #[trigger] q@[cell(
            la,
            nb as int,
            lb,
            ns as int,
            t,
        )] == x.projected(nodes@, ka, kb, la, lb, t, 0) by {
            lemma_cell_in_range(la, na as int, nb as int, lb, ns as int, t);
        }
    }
    let (c1, c2) = quad_window(alpha, ksum);
    let mut i: usize = 0;
    while i < nodes.len()
        invariant
            i <= nodes@.len(),
            na == lama + 1,
            nb == lamb + 1,
            ns == smax + 1,
            lama <= MAX_DEGREE,
            lamb <= MAX_DEGREE,
            na * nb * ns <= usize::MAX,
            mba@.len() == na,
            mbb@.len() == nb,
            x == (Radial { alpha, k: ksum, arg0, n: n as int }),
            (c1, c2) == window(alpha, ksum),
            holds_projected(
                q@,
                x,
                ka,
                kb,
                nodes@,
                na as int,
                nb as int,
                ns as int,
                i as int,
                0,
                0,
            ),
        decreases nodes@.len() - i,
    {
        let (node, w) = nodes[i];
        let r = c1.times(node).plus(c2);
        let e = arg0.plus(ksum.minus(alpha.times(r)).times(r)).exp();
        if !is_zero(e) {
            msb_scaled(ka.times(r), lama, mba.as_mut_slice());
            msb_scaled(kb.times(r), lamb, mbb.as_mut_slice());
            let wr = c1.times(w).times(e);
            let mut rs = raise(r, n);
            let mut s: usize = 0;
            while s < ns
                invariant
                    i < nodes@.len(),
                    s <= ns,
                    1 <= nb,
                    na * nb * ns <= usize::MAX,
                    mba@.len() == na,
                    mbb@.len() == nb,
                    x == (Radial { alpha, k: ksum, arg0, n: n as int }),
                    (c1, c2) == window(alpha, ksum),
                    (node, w) == nodes@[i as int],
                    r == x.at(nodes@[i as int]),
                    e == x.decay(nodes@[i as int]),
                    !vanishes(e),
                    wr == T::prod(T::prod(c1, w), e),
                    forall|m: int|
                        0 <= m < na ==> #[trigger] mba@[m] == scaled_bessel(T::prod(ka, r), m),
                    forall|m: int|
                        0 <= m < nb ==> #[trigger] mbb@[m] == scaled_bessel(T::prod(kb, r), m),
                    rs == climbed(r, n as int, s as int),
                    holds_projected(
                        q@,
                        x,
                        ka,
                        kb,
                        nodes@,
                        na as int,
                        nb as int,
                        ns as int,
                        i as int,
                        s as int,
                        0,
                    ),
                decreases ns - s,
            {
                let v = wr.times(rs);
                let mut laa: usize = 0;
                while laa < na
                    invariant
                        i < nodes@.len(),
                        s < ns,
                        laa <= na,
                        1 <= nb,
                        na * nb * ns <= usize::MAX,
                        mba@.len() == na,
                        mbb@.len() == nb,
                        x == (Radial { alpha, k: ksum, arg0, n: n as int }),
                        (node, w) == nodes@[i as int],
                        r == x.at(nodes@[i as int]),
                        !vanishes(x.decay(nodes@[i as int])),
                        v == x.weight(nodes@[i as int], s as int),
                        forall|m: int|
                            0 <= m < na ==> #[trigger] mba@[m] == scaled_bessel(T::prod(ka, r), m),
                        forall|m: int|
                            0 <= m < nb ==> #[trigger] mbb@[m] == scaled_bessel(T::prod(kb, r), m),
                        holds_projected(
                            q@,
                            x,
                            ka,
                            kb,
                            nodes@,
                            na as int,
                            nb as int,
                            ns as int,
                            i as int,
                            s as int,
                            laa as int,
                        ),
                    decreases na - laa,
                {
                    let ghost before = q@;
                    assert(mba@[laa as int] == scaled_bessel(T::prod(ka, r), laa as int));
                    let va = v.times(mba[laa]);
                    add_projected(&mut q, va, mbb, laa, na, nb, ns, s);
                    proof {
                        assert forall|la: int, lb: int, t: int|
                            0 <= la < na && 0 <= lb < nb && 0 <= t < ns implies #[trigger] q@[cell(
                            la,
                            nb as int,
                            lb,
                            ns as int,
                            t,
                        )] == x.projected(
                            nodes@,
                            ka,
                            kb,
                            la,
                            lb,
                            t,
                            if t < s || (t == s && la < laa + 1) {
                                i + 1
                            } else {
                                i as int
                            },
                        ) by {
                            assert(mbb@[lb] == scaled_bessel(T::prod(kb, r), lb));
                            assert(before[cell(la, nb as int, lb, ns as int, t)] == x.projected(
                                nodes@,
                                ka,
                                kb,
                                la,
                                lb,
                                t,
                                if t < s || (t == s && la < laa) {
                                    i + 1
                                } else {
                                    i as int
                                },
                            ));
                        }
                    }
                    laa = laa + 1;
                }
                rs = rs.times(r);
                s = s + 1;
            }
        }
        proof {
            assert forall|la: int, lb: int, t: int|
                0 <= la < na && 0 <= lb < nb && 0 <= t < ns implies #[trigger] q@[cell(
                la,
                nb as int,
                lb,
                ns as int,
                t,
            )] == x.projected(nodes@, ka, kb, la, lb, t, i + 1) by {}
        }
        i = i + 1;
    }
    q
}

} // verus!
