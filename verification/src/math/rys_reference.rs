//! The Rys quadrature by the procedure of Stieltjes: slower than the series of
//! [`crate::math::rys`], and what they are fitted to.
//!
//! With `x = u^2` the measure of the quadrature becomes `exp(-T u^2) du` on `[0, 1]`, which
//! a Gauss-Legendre rule discretizes. The recurrence coefficients of the polynomials that
//! are orthogonal over the discrete measure give the nodes and weights.
use vstd::prelude::*;

use crate::math::boys::asymptotic_boundary;
use crate::math::gauss::{gauss_nodes, gauss_weights, golub_welsch, UnitRule};
use crate::math::rys::{in_far_range, rys_root, rys_weight, series_of, MAX_RYS_ROOTS, RysTables};
use crate::scalar::{filled, fraction, ratio, Real, Scalar};

verus! {

/// The number of nodes of the rule that discretizes the measure.
pub const GL_POINTS: usize = 128;

/// A discrete measure.
pub struct Measure<T> {
    pub x: Seq<T>,
    pub w: Seq<T>,
}

/// The squared norm of a polynomial over the first `n` points, and that with `x`.
pub open spec fn moments_of<T: Scalar>(mu: Measure<T>, p: Seq<T>, n: int) -> (T, T)
    decreases n,
{
    if n <= 0 {
        (T::count(0), T::count(0))
    } else {
        let before = moments_of(mu, p, n - 1);
        let wp = T::prod(T::prod(mu.w[n - 1], p[n - 1]), p[n - 1]);
        (T::sum(before.0, wp), T::sum(before.1, T::prod(mu.x[n - 1], wp)))
    }
}

/// An orthogonal polynomial at the points, the one before it, its squared norm, and its
/// recurrence coefficients.
#[verifier::ext_equal]
pub struct Level<T> {
    pub prev: Seq<T>,
    pub curr: Seq<T>,
    pub norm: T,
    pub alpha: T,
    pub beta: T,
}

/// The next polynomial at the points.
pub open spec fn next_values<T: Scalar>(mu: Measure<T>, q: Level<T>) -> Seq<T> {
    Seq::new(
        mu.x.len(),
        |m: int|
            T::diff(
                T::prod(T::diff(mu.x[m], q.alpha), q.curr[m]),
                T::prod(q.beta, q.prev[m]),
            ),
    )
}

/// The orthogonal polynomial of degree `k`.
pub open spec fn level<T: Scalar>(mu: Measure<T>, k: int) -> Level<T>
    decreases k,
{
    if k <= 0 {
        let curr = Seq::new(mu.x.len(), |m: int| T::count(1));
        let (norm, xnorm) = moments_of(mu, curr, mu.x.len() as int);
        Level {
            prev: Seq::new(mu.x.len(), |m: int| T::count(0)),
            curr,
            norm,
            alpha: T::quot(xnorm, norm),
            beta: norm,
        }
    } else {
        let q = level(mu, k - 1);
        let curr = next_values(mu, q);
        let (norm, xnorm) = moments_of(mu, curr, mu.x.len() as int);
        Level {
            prev: q.curr,
            curr,
            norm,
            alpha: T::quot(xnorm, norm),
            beta: T::quot(norm, q.norm),
        }
    }
}

fn moments<T: Scalar>(x: &Vec<T>, w: &Vec<T>, p: &Vec<T>) -> (r: (T, T))
    requires
        w@.len() == x@.len(),
        p@.len() == x@.len(),
    ensures
        r == moments_of(Measure { x: x@, w: w@ }, p@, x@.len() as int),
{
    let mut norm = T::from_count(0);
    let mut xnorm = T::from_count(0);
    let mut m: usize = 0;
    while m < x.len()
        invariant
            m <= x@.len(),
            w@.len() == x@.len(),
            p@.len() == x@.len(),
            (norm, xnorm) == moments_of(Measure { x: x@, w: w@ }, p@, m as int),
        decreases x@.len() - m,
    {
        let wp = w[m].times(p[m]).times(p[m]);
        norm = norm.plus(wp);
        xnorm = xnorm.plus(x[m].times(wp));
        m = m + 1;
    }
    (norm, xnorm)
}

/// The recurrence coefficients of the first `n` orthogonal polynomials of a measure.
pub open spec fn recurrence_alpha<T: Scalar>(mu: Measure<T>, n: int) -> Seq<T> {
    Seq::new(n as nat, |k: int| level(mu, k).alpha)
}

/// The recurrence coefficients of the first `n` orthogonal polynomials of a measure.
pub open spec fn recurrence_beta<T: Scalar>(mu: Measure<T>, n: int) -> Seq<T> {
    Seq::new(n as nat, |k: int| level(mu, k).beta)
}

/// The recurrence coefficients of the first `n` orthogonal polynomials over a discrete
/// measure.
pub fn stieltjes<T: Scalar>(n: usize, x: &Vec<T>, w: &Vec<T>) -> (r: (Vec<T>, Vec<T>))
    requires
        n >= 1,
        w@.len() == x@.len(),
    ensures
        r.0@ == recurrence_alpha(Measure { x: x@, w: w@ }, n as int),
        r.1@ == recurrence_beta(Measure { x: x@, w: w@ }, n as int),
{
    let ghost mu = Measure { x: x@, w: w@ };
    let mut p_prev = filled(x.len(), T::from_count(0));
    let mut p_curr = filled(x.len(), T::from_count(1));
    let mut alpha: Vec<T> = Vec::new();
    let mut beta: Vec<T> = Vec::new();
    assert(p_prev@ =~= level(mu, 0).prev);
    assert(p_curr@ =~= level(mu, 0).curr);
    let (first, xnorm) = moments(x, w, &p_curr);
    let mut norm = first;
    beta.push(norm);
    alpha.push(xnorm.over(norm));
    let mut k: usize = 1;
    while k < n
        invariant
            1 <= k <= n,
            w@.len() == x@.len(),
            mu == (Measure { x: x@, w: w@ }),
            p_prev@ == level(mu, k - 1).prev,
            p_curr@ == level(mu, k - 1).curr,
            p_prev@.len() == x@.len(),
            p_curr@.len() == x@.len(),
            norm == level(mu, k - 1).norm,
            alpha@.len() == k,
            beta@.len() == k,
            forall|i: int| 0 <= i < k ==> #[trigger] alpha@[i] == level(mu, i).alpha,
            forall|i: int| 0 <= i < k ==> #[trigger] beta@[i] == level(mu, i).beta,
        decreases n - k,
    {
        let a = alpha[k - 1];
        let b = beta[k - 1];
        let mut p_next: Vec<T> = Vec::new();
        let mut m: usize = 0;
        while m < x.len()
            invariant
                m <= x@.len(),
                mu.x == x@,
                k >= 1,
                a == level(mu, k - 1).alpha,
                b == level(mu, k - 1).beta,
                p_prev@ == level(mu, k - 1).prev,
                p_curr@ == level(mu, k - 1).curr,
                p_prev@.len() == x@.len(),
                p_curr@.len() == x@.len(),
                p_next@.len() == m,
                forall|i: int|
                    0 <= i < m ==> #[trigger] p_next@[i] == next_values(mu, level(mu, k - 1))[i],
            decreases x@.len() - m,
        {
            p_next.push(x[m].minus(a).times(p_curr[m]).minus(b.times(p_prev[m])));
            m = m + 1;
        }
        assert(p_next@ =~= next_values(mu, level(mu, k - 1)));
        let (nn, xn) = moments(x, w, &p_next);
        alpha.push(xn.over(nn));
        beta.push(nn.over(norm));
        norm = nn;
        p_prev = p_curr;
        p_curr = p_next;
        k = k + 1;
    }
    assert(alpha@ =~= recurrence_alpha(mu, n as int));
    assert(beta@ =~= recurrence_beta(mu, n as int));
    (alpha, beta)
}

/// The measure of the quadrature for the parameter `t`, discretized by a rule.
pub open spec fn rys_measure<T: Real>(nodes: Seq<T>, weights: Seq<T>, t: T) -> Measure<T> {
    Measure {
        x: Seq::new(nodes.len(), |m: int| T::prod(nodes[m], nodes[m])),
        w: Seq::new(
            nodes.len(),
            |m: int|
                T::prod(
                    weights[m],
                    T::expo(T::prod(T::neg(t), T::prod(nodes[m], nodes[m]))),
                ),
        ),
    }
}

/// The roots by the procedure of Stieltjes.
pub open spec fn finite_roots<T: Real>(rule: UnitRule<T>, n: int, t: T) -> Seq<T> {
    let mu = rys_measure(rule.nodes@, rule.weights@, t);
    gauss_nodes(recurrence_alpha(mu, n), recurrence_beta(mu, n))
}

/// The weights by the procedure of Stieltjes.
pub open spec fn finite_weights<T: Real>(rule: UnitRule<T>, n: int, t: T) -> Seq<T> {
    let mu = rys_measure(rule.nodes@, rule.weights@, t);
    gauss_weights(recurrence_alpha(mu, n), recurrence_beta(mu, n))
}

fn finite_branch<T: Real>(rule: &UnitRule<T>, n: usize, t: T) -> (r: (Vec<T>, Vec<T>))
    requires
        n >= 1,
        rule.weights@.len() == rule.nodes@.len(),
    ensures
        r.0@ == finite_roots(*rule, n as int, t),
        r.1@ == finite_weights(*rule, n as int, t),
        r.0@.len() == n,
        r.1@.len() == n,
{
    let ghost mu = rys_measure(rule.nodes@, rule.weights@, t);
    let mut x: Vec<T> = Vec::new();
    let mut w: Vec<T> = Vec::new();
    let mut m: usize = 0;
    while m < rule.nodes.len()
        invariant
            m <= rule.nodes@.len(),
            rule.weights@.len() == rule.nodes@.len(),
            mu == rys_measure(rule.nodes@, rule.weights@, t),
            x@.len() == m,
            w@.len() == m,
            forall|i: int| 0 <= i < m ==> #[trigger] x@[i] == mu.x[i],
            forall|i: int| 0 <= i < m ==> #[trigger] w@[i] == mu.w[i],
        decreases rule.nodes@.len() - m,
    {
        let u = rule.nodes[m];
        let xm = u.times(u);
        x.push(xm);
        w.push(rule.weights[m].times(t.negated().times(xm).exp()));
        m = m + 1;
    }
    assert(x@ =~= mu.x);
    assert(w@ =~= mu.w);
    let (alpha, beta) = stieltjes(n, &x, &w);
    golub_welsch(&alpha, &beta)
}

/// The recurrence coefficients of the measure `x^(-1/2) exp(-x)` on the half line.
pub open spec fn half_line_alpha<T: Real>(n: int) -> Seq<T> {
    Seq::new(
        n as nat,
        |k: int|
            T::sum(
                T::sum(
                    T::prod(T::count(2), T::count(k as u64)),
                    T::neg(fraction(1, 2)),
                ),
                T::count(1),
            ),
    )
}

/// The recurrence coefficients of the measure `x^(-1/2) exp(-x)` on the half line.
pub open spec fn half_line_beta<T: Real>(n: int) -> Seq<T> {
    Seq::new(
        n as nat,
        |k: int|
            if k == 0 {
                T::root(T::circle())
            } else {
                T::prod(
                    T::count(k as u64),
                    T::sum(T::count(k as u64), T::neg(fraction(1, 2))),
                )
            },
    )
}

/// The nodes of the half-line measure.
pub open spec fn half_line_nodes<T: Real>(n: int) -> Seq<T> {
    gauss_nodes(half_line_alpha::<T>(n), half_line_beta::<T>(n))
}

/// The weights of the half-line measure.
pub open spec fn half_line_weights<T: Real>(n: int) -> Seq<T> {
    gauss_weights(half_line_alpha::<T>(n), half_line_beta::<T>(n))
}

/// The nodes and weights of the half-line measure.
pub fn laguerre_half_nodes<T: Real>(n: usize) -> (r: (Vec<T>, Vec<T>))
    requires
        n >= 1,
    ensures
        r.0@ == half_line_nodes::<T>(n as int),
        r.1@ == half_line_weights::<T>(n as int),
        r.0@.len() == n,
        r.1@.len() == n,
{
    let half = ratio::<T>(1, 2).negated();
    let mut a: Vec<T> = Vec::new();
    let mut b: Vec<T> = Vec::new();
    let mut k: usize = 0;
    while k < n
        invariant
            k <= n,
            half == T::neg(fraction::<T>(1, 2)),
            a@.len() == k,
            b@.len() == k,
            forall|i: int| 0 <= i < k ==> #[trigger] a@[i] == half_line_alpha::<T>(n as int)[i],
            forall|i: int| 0 <= i < k ==> #[trigger] b@[i] == half_line_beta::<T>(n as int)[i],
        decreases n - k,
    {
        let kf = T::from_count(k as u64);
        a.push(T::from_count(2).times(kf).plus(half).plus(T::from_count(1)));
        if k == 0 {
            b.push(T::pi().sqrt());
        } else {
            b.push(kf.times(kf.plus(half)));
        }
        k = k + 1;
    }
    assert(a@ =~= half_line_alpha::<T>(n as int));
    assert(b@ =~= half_line_beta::<T>(n as int));
    golub_welsch(&a, &b)
}

/// Root `i` of `n` for the parameter `t`, without series.
pub open spec fn reference_root<T: Real>(rule: UnitRule<T>, n: int, t: T, i: int) -> T {
    if in_far_range(n, t) {
        T::prod(half_line_nodes::<T>(n)[i], T::quot(T::count(1), t))
    } else {
        finite_roots(rule, n, t)[i]
    }
}

/// Weight `i` of `n` for the parameter `t`, without series.
pub open spec fn reference_weight<T: Real>(rule: UnitRule<T>, n: int, t: T, i: int) -> T {
    if in_far_range(n, t) {
        T::prod(half_line_weights::<T>(n)[i], T::quot(fraction(1, 2), T::root(t)))
    } else {
        finite_weights(rule, n, t)[i]
    }
}

/// Copy two lists to the heads of two others.
fn copy_heads<T: Scalar>(
    from: &Vec<T>,
    from_weights: &Vec<T>,
    roots: &mut [T],
    weights: &mut [T],
)
    requires
        from@.len() == from_weights@.len(),
        old(roots)@.len() >= from@.len(),
        old(weights)@.len() >= from@.len(),
    ensures
        final(roots)@.len() == old(roots)@.len(),
        final(weights)@.len() == old(weights)@.len(),
        forall|i: int|
            0 <= i < old(roots)@.len() ==> #[trigger] final(roots)@[i] == (if i < from@.len() {
                from@[i]
            } else {
                old(roots)@[i]
            }),
        forall|i: int|
            0 <= i < old(weights)@.len() ==> #[trigger] final(weights)@[i] == (if i < from@.len() {
                from_weights@[i]
            } else {
                old(weights)@[i]
            }),
{
    let ghost (r0, w0) = (roots@, weights@);
    let mut i: usize = 0;
    while i < from.len()
        invariant
            i <= from@.len(),
            from@.len() == from_weights@.len(),
            roots@.len() == r0.len(),
            weights@.len() == w0.len(),
            r0.len() >= from@.len(),
            w0.len() >= from@.len(),
            forall|k: int|
                0 <= k < r0.len() ==> #[trigger] roots@[k] == (if k < i {
                    from@[k]
                } else {
                    r0[k]
                }),
            forall|k: int|
                0 <= k < w0.len() ==> #[trigger] weights@[k] == (if k < i {
                    from_weights@[k]
                } else {
                    w0[k]
                }),
        decreases from@.len() - i,
    {
        roots[i] = from[i];
        weights[i] = from_weights[i];
        i = i + 1;
    }
}

/// The roots and weights by the procedure of Stieltjes, whatever the parameter.
pub fn rys_finite_reference<T: Real>(
    rule: &UnitRule<T>,
    n: usize,
    t: T,
    roots: &mut [T],
    weights: &mut [T],
)
    requires
        1 <= n <= MAX_RYS_ROOTS,
        rule.is_rule(GL_POINTS as int),
        old(roots)@.len() >= n,
        old(weights)@.len() >= n,
    ensures
        final(roots)@.len() == old(roots)@.len(),
        final(weights)@.len() == old(weights)@.len(),
        forall|i: int|
            0 <= i < n ==> #[trigger] final(roots)@[i] == finite_roots(*rule, n as int, t)[i],
        forall|i: int|
            0 <= i < n ==> #[trigger] final(weights)@[i] == finite_weights(*rule, n as int, t)[i],
        forall|i: int| n <= i < old(roots)@.len() ==> #[trigger] final(roots)@[i] == old(roots)@[i],
        forall|i: int|
            n <= i < old(weights)@.len() ==> #[trigger] final(weights)@[i] == old(weights)@[i],
{
    let (x, w) = finite_branch(rule, n, t);
    copy_heads(&x, &w, roots, weights);
}

/// The roots and weights of the `n`-point quadrature for the parameter `t`, without
/// series.
pub fn rys_roots_weights_reference<T: Real>(
    rule: &UnitRule<T>,
    n: usize,
    t: T,
    roots: &mut [T],
    weights: &mut [T],
)
    requires
        1 <= n <= MAX_RYS_ROOTS,
        rule.is_rule(GL_POINTS as int),
        old(roots)@.len() >= n,
        old(weights)@.len() >= n,
    ensures
        final(roots)@.len() == old(roots)@.len(),
        final(weights)@.len() == old(weights)@.len(),
        forall|i: int|
            0 <= i < n ==> #[trigger] final(roots)@[i] == reference_root(*rule, n as int, t, i),
        forall|i: int|
            0 <= i < n ==> #[trigger] final(weights)@[i] == reference_weight(*rule, n as int, t, i),
        forall|i: int| n <= i < old(roots)@.len() ==> #[trigger] final(roots)@[i] == old(roots)@[i],
        forall|i: int|
            n <= i < old(weights)@.len() ==> #[trigger] final(weights)@[i] == old(weights)@[i],
{
    if asymptotic_boundary::<T>(2 * n - 1).at_most(t) {
        let (xi, om) = laguerre_half_nodes::<T>(n);
        let inv_t = T::from_count(1).over(t);
        let scale = ratio::<T>(1, 2).over(t.sqrt());
        let mut x: Vec<T> = Vec::new();
        let mut w: Vec<T> = Vec::new();
        let mut i: usize = 0;
        while i < n
            invariant
                i <= n,
                in_far_range(n as int, t),
                xi@ == half_line_nodes::<T>(n as int),
                om@ == half_line_weights::<T>(n as int),
                xi@.len() == n,
                om@.len() == n,
                inv_t == T::quot(T::count(1), t),
                scale == T::quot(fraction::<T>(1, 2), T::root(t)),
                x@.len() == i,
                w@.len() == i,
                forall|k: int|
                    0 <= k < i ==> #[trigger] x@[k] == reference_root(*rule, n as int, t, k),
                forall|k: int|
                    0 <= k < i ==> #[trigger] w@[k] == reference_weight(*rule, n as int, t, k),
            decreases n - i,
        {
            x.push(xi[i].times(inv_t));
            w.push(om[i].times(scale));
            i = i + 1;
        }
        copy_heads(&x, &w, roots, weights);
    } else {
        rys_finite_reference(rule, n, t, roots, weights);
    }
}

impl<T: Real> RysTables<T> {
    /// Whether the tables hold the nodes and weights of the half-line measure.
    pub open spec fn holds_half_line(self) -> bool {
        &&& forall|k: int|
            0 <= k < MAX_RYS_ROOTS ==> (#[trigger] self.nodes@[k])@ == half_line_nodes::<T>(k + 1)
        &&& forall|k: int|
            0 <= k < MAX_RYS_ROOTS ==> (#[trigger] self.node_weights@[k])@ == half_line_weights::<
                T,
            >(k + 1)
    }

    /// The tables with the given series, and the half-line measure.
    pub fn new(root_coeffs: Vec<Vec<Vec<T>>>, weight_coeffs: Vec<Vec<Vec<T>>>) -> (r: Self)
        requires
            root_coeffs@.len() == MAX_RYS_ROOTS,
            weight_coeffs@.len() == MAX_RYS_ROOTS,
            forall|k: int|
                0 <= k < MAX_RYS_ROOTS ==> series_of((#[trigger] root_coeffs@[k])@, k + 1),
            forall|k: int|
                0 <= k < MAX_RYS_ROOTS ==> series_of((#[trigger] weight_coeffs@[k])@, k + 1),
            forall|k: int|
                0 <= k < MAX_RYS_ROOTS ==> (#[trigger] root_coeffs@[k])@.len()
                    == weight_coeffs@[k]@.len(),
        ensures
            r.valid(),
            r.root_coeffs == root_coeffs,
            r.weight_coeffs == weight_coeffs,
    {
        let mut nodes: Vec<Vec<T>> = Vec::new();
        let mut node_weights: Vec<Vec<T>> = Vec::new();
        let mut k: usize = 0;
        while k < MAX_RYS_ROOTS
            invariant
                k <= MAX_RYS_ROOTS,
                nodes@.len() == k,
                node_weights@.len() == k,
                forall|i: int|
                    0 <= i < k ==> (#[trigger] nodes@[i])@ == half_line_nodes::<T>(i + 1),
                forall|i: int|
                    0 <= i < k ==> (#[trigger] node_weights@[i])@ == half_line_weights::<T>(i + 1),
                forall|i: int| 0 <= i < k ==> (#[trigger] nodes@[i])@.len() == i + 1,
                forall|i: int| 0 <= i < k ==> (#[trigger] node_weights@[i])@.len() == i + 1,
            decreases MAX_RYS_ROOTS - k,
        {
            let (x, w) = laguerre_half_nodes::<T>(k + 1);
            nodes.push(x);
            node_weights.push(w);
            k = k + 1;
        }
        RysTables { root_coeffs, weight_coeffs, nodes, node_weights }
    }
}

/// From the asymptotic boundary on the series play no part: both ways give the same roots
/// and weights.
pub proof fn law_far_range_is_shared<T: Real>(
    tables: RysTables<T>,
    rule: UnitRule<T>,
    n: int,
    t: T,
    i: int,
)
    requires
        tables.valid(),
        1 <= n <= MAX_RYS_ROOTS,
        0 <= i < n,
        in_far_range(n, t),
    ensures
        rys_root(tables, n, t, i) == reference_root(rule, n, t, i),
        rys_weight(tables, n, t, i) == reference_weight(rule, n, t, i),
{
    assert(tables.nodes@[n - 1]@ == half_line_nodes::<T>(n));
    assert(tables.node_weights@[n - 1]@ == half_line_weights::<T>(n));
}

} // verus!
