//! Electron repulsion over four primitives by Rys quadrature.
//!
//! With the product centers `P` (exponent `p = a+b`) and `Q` (`q = c+d`),
//! `rho = pq/(p+q)` and `T = rho |P-Q|^2`:
//!
//! ```text
//!   (ab|cd) = 2 pi^(5/2)/(p q sqrt(p+q)) K_ab K_cd sum_r w_r Ix_r Iy_r Iz_r,
//! ```
//!
//! where `x_r`, `w_r` are the roots and weights for `T`. The factors along one axis
//! come from a vertical recurrence that raises the combined powers on the two sides
//! from `(0, 0)`, and two horizontal recurrences that split them over the centers.
//!
//! The kernel `erf(omega r)/r` uses the same recurrences, with the roots and weights
//! for `s T` scaled by `s` and `sqrt(s)`, `s = omega^2/(rho + omega^2)`.
use vstd::prelude::*;

use crate::engine::hrr::lemma_shell_counts;
use crate::engine::os::Prim;
use crate::engine::os_eri::MAX_L;
use crate::engine::pairs::{
    combine, coulomb_constant, difference, dist2, norm2, square, two_pi_2_5, weighted_center, Vec3,
};
use crate::engine::triples::lemma_small_degree;
use crate::flat::{
    added, cell, lemma_added_step, lemma_cell_distinct, lemma_cell_in_range, lemma_pair_in_range,
    lemma_pair_order, lemma_quad_in_range, lemma_quad_order, lemma_quad_parts, pair, quad,
    quad_parts,
};
use crate::math::am::{
    cart_components, cart_count, component_at, is_component, lemma_listed_components, n_cart,
    powers, Powers,
};
use crate::math::boys::attenuation;
use crate::math::rys::{rys_root, rys_roots_weights, rys_weight, MAX_RYS_ROOTS, RysTables};
use crate::scalar::{filled, Real, Scalar};

verus! {

/// What the recurrences along one axis run on.
#[derive(Clone, Copy, Debug)]
pub struct AxisInput<T> {
    /// Shift of the bra recurrence.
    pub c00: T,
    /// Shift of the ket recurrence.
    pub cp0: T,
    /// Weight of the second bra neighbour.
    pub b10: T,
    /// Weight of the second ket neighbour.
    pub b01: T,
    /// Weight of the neighbour that mixes bra and ket.
    pub b00: T,
    /// Displacement of the bra centers.
    pub ab: T,
    /// Displacement of the ket centers.
    pub cd: T,
}

/// The factor with combined powers `n` on the bra and `m` on the ket:
///
/// ```text
///   g(n, 0) = c00 g(n-1, 0) + (n-1) b10 g(n-2, 0)
///   g(n, m) = cp0 g(n, m-1) + (m-1) b01 g(n, m-2) + n b00 g(n-1, m-1)
/// ```
pub open spec fn combined_factor<T: Scalar>(x: AxisInput<T>, n: int, m: int) -> T
    decreases m, n,
{
    if m <= 0 {
        if n <= 0 {
            T::count(1)
        } else if n == 1 {
            x.c00
        } else {
            T::sum(
                T::prod(x.c00, combined_factor(x, n - 1, m)),
                T::prod(
                    T::prod(T::count((n - 1) as u64), x.b10),
                    combined_factor(x, n - 2, m),
                ),
            )
        }
    } else {
        let first = T::prod(x.cp0, combined_factor(x, n, m - 1));
        let second = if m >= 2 {
            T::sum(
                first,
                T::prod(
                    T::prod(T::count((m - 1) as u64), x.b01),
                    combined_factor(x, n, m - 2),
                ),
            )
        } else {
            first
        };
        if n >= 1 {
            T::sum(
                second,
                T::prod(T::prod(T::count(n as u64), x.b00), combined_factor(x, n - 1, m - 1)),
            )
        } else {
            second
        }
    }
}

/// The factor with powers `i` and `j` on the bra centers and `m` on the ket.
pub open spec fn bra_factor<T: Scalar>(x: AxisInput<T>, i: int, j: int, m: int) -> T
    decreases j,
{
    if j <= 0 {
        combined_factor(x, i, m)
    } else {
        T::sum(bra_factor(x, i + 1, j - 1, m), T::prod(x.ab, bra_factor(x, i, j - 1, m)))
    }
}

/// The factor with powers `i`, `j`, `k`, `l` on the four centers.
pub open spec fn axis_factor<T: Scalar>(x: AxisInput<T>, i: int, j: int, k: int, l: int) -> T
    decreases l,
{
    if l <= 0 {
        bra_factor(x, i, j, k)
    } else {
        T::sum(axis_factor(x, i, j, k + 1, l - 1), T::prod(x.cd, axis_factor(x, i, j, k, l - 1)))
    }
}

/// The factors with combined powers up to `nbra` and `nket`, row by row.
#[verifier::spinoff_prover]
fn combined_factors<T: Scalar>(x: AxisInput<T>, nbra: usize, nket: usize) -> (g: Vec<T>)
    requires
        nbra <= 12,
        nket <= 12,
    ensures
        g@.len() == (nbra + 1) * (nket + 1),
        forall|n: int, m: int|
            0 <= n <= nbra && 0 <= m <= nket ==> #[trigger] g@[pair(n, nket + 1, m)]
                == combined_factor(x, n, m),
{
    let s: usize = nket + 1;
    let ghost (nb, w) = (nbra as int, nket + 1);
    assert((nbra + 1) * (nket + 1) <= 169) by (nonlinear_arith)
        requires
            nbra <= 12,
            nket <= 12,
    ;
    let mut g = filled((nbra + 1) * s, T::from_count(0));
    proof {
        lemma_pair_in_range(0, nb + 1, w, 0);
    }
    g[0] = T::from_count(1);
    let mut n: usize = 1;
    while n <= nbra
        invariant
            1 <= n <= nbra + 1,
            nbra <= 12,
            nket <= 12,
            s == nket + 1,
            nb == nbra,
            w == s,
            (nbra + 1) * (nket + 1) <= 169,
            g@.len() == (nbra + 1) * (nket + 1),
            forall|r: int|
                0 <= r < n ==> #[trigger] g@[pair(r, w, 0)] == combined_factor(x, r, 0),
        decreases nbra + 1 - n,
    {
        proof {
            lemma_pair_in_range(n as int, nb + 1, w, 0);
            lemma_pair_in_range(n - 1, nb + 1, w, 0);
            assert(g@[pair(n - 1, w, 0)] == combined_factor(x, n - 1, 0));
        }
        let v = if n == 1 {
            x.c00
        } else {
            proof {
                lemma_pair_in_range(n - 2, nb + 1, w, 0);
                assert(g@[pair(n - 2, w, 0)] == combined_factor(x, n - 2, 0));
            }
            x.c00.times(g[(n - 1) * s]).plus(
                T::from_count((n - 1) as u64).times(x.b10).times(g[(n - 2) * s]),
            )
        };
        let ghost before = g@;
        g[n * s] = v;
        proof {
            assert(v == combined_factor(x, n as int, 0));
            assert forall|r: int| 0 <= r < n + 1 implies #[trigger] g@[pair(r, w, 0)]
                == combined_factor(x, r, 0) by {
                lemma_pair_in_range(r, nb + 1, w, 0);
                lemma_pair_order(r, 0, n as int, 0, w);
                assert(before[pair(r, w, 0)] == g@[pair(r, w, 0)] || r == n);
            }
        }
        n = n + 1;
    }
    let mut m: usize = 0;
    while m < nket
        invariant
            m <= nket,
            nbra <= 12,
            nket <= 12,
            s == nket + 1,
            nb == nbra,
            w == s,
            (nbra + 1) * (nket + 1) <= 169,
            g@.len() == (nbra + 1) * (nket + 1),
            forall|r: int, c: int|
                0 <= r <= nb && 0 <= c <= m ==> #[trigger] g@[pair(r, w, c)] == combined_factor(
                    x,
                    r,
                    c,
                ),
        decreases nket - m,
    {
        let mut n: usize = 0;
        while n <= nbra
            invariant
                n <= nbra + 1,
                m < nket,
                nbra <= 12,
                nket <= 12,
                s == nket + 1,
                nb == nbra,
                w == s,
                (nbra + 1) * (nket + 1) <= 169,
                g@.len() == (nbra + 1) * (nket + 1),
                forall|r: int, c: int|
                    0 <= r <= nb && 0 <= c && (c <= m || (c == m + 1 && r < n))
                        ==> #[trigger] g@[pair(r, w, c)] == combined_factor(x, r, c),
            decreases nbra + 1 - n,
        {
            proof {
                lemma_pair_in_range(n as int, nb + 1, w, m as int);
                lemma_pair_in_range(n as int, nb + 1, w, m + 1);
                assert(g@[pair(n as int, w, m as int)] == combined_factor(x, n as int, m as int));
            }
            let mut term = x.cp0.times(g[n * s + m]);
            if m >= 1 {
                proof {
                    lemma_pair_in_range(n as int, nb + 1, w, m - 1);
                    assert(g@[pair(n as int, w, m - 1)] == combined_factor(x, n as int, m - 1));
                }
                term = term.plus(T::from_count(m as u64).times(x.b01).times(g[n * s + (m - 1)]));
            }
            if n >= 1 {
                proof {
                    lemma_pair_in_range(n - 1, nb + 1, w, m as int);
                    assert(g@[pair(n - 1, w, m as int)] == combined_factor(x, n - 1, m as int));
                }
                term = term.plus(T::from_count(n as u64).times(x.b00).times(g[(n - 1) * s + m]));
            }
            let ghost before = g@;
            g[n * s + (m + 1)] = term;
            proof {
                assert(term == combined_factor(x, n as int, m + 1));
                assert forall|r: int, c: int|
                    0 <= r <= nb && 0 <= c && (c <= m || (c == m + 1 && r < n + 1)) implies #[trigger] g@[pair(
                    r,
                    w,
                    c,
                )] == combined_factor(x, r, c) by {
                    lemma_pair_in_range(r, nb + 1, w, c);
                    lemma_pair_order(r, c, n as int, m + 1, w);
                    assert(before[pair(r, w, c)] == g@[pair(r, w, c)] || (r == n && c == m + 1));
                }
            }
            n = n + 1;
        }
        m = m + 1;
    }
    g
}

/// The factors with powers up to `j <= lb` on the second bra center, as a table of
/// shape `(nbra + 1, lb + 1, nket + 1)` filled where `i + j <= nbra`.
#[verifier::spinoff_prover]
#[verifier::rlimit(30)]
fn bra_factors<T: Scalar>(
    x: AxisInput<T>,
    nbra: usize,
    lb: usize,
    nket: usize,
    g: &Vec<T>,
) -> (h: Vec<T>)
    requires
        nbra <= 12,
        lb <= nbra,
        nket <= 12,
        g@.len() == (nbra + 1) * (nket + 1),
        forall|n: int, m: int|
            0 <= n <= nbra && 0 <= m <= nket ==> #[trigger] g@[pair(n, nket + 1, m)]
                == combined_factor(x, n, m),
    ensures
        h@.len() == (nbra + 1) * (lb + 1) * (nket + 1),
        forall|i: int, j: int, m: int|
            0 <= i && 0 <= j <= lb && i + j <= nbra && 0 <= m <= nket ==> #[trigger] h@[cell(
                i,
                lb + 1,
                j,
                nket + 1,
                m,
            )] == bra_factor(x, i, j, m),
{
    let ghost (nb, u, w) = (nbra as int, lb + 1, nket + 1);
    let (n1, s): (usize, usize) = (lb + 1, nket + 1);
    assert((nbra + 1) * (lb + 1) <= 169) by (nonlinear_arith)
        requires
            nbra <= 12,
            lb <= 12,
    ;
    assert((nbra + 1) * (lb + 1) * (nket + 1) <= 169 * 13) by (nonlinear_arith)
        requires
            (nbra + 1) * (lb + 1) <= 169,
            nket <= 12,
    ;
    assert((nbra + 1) * (nket + 1) <= 169) by (nonlinear_arith)
        requires
            nbra <= 12,
            nket <= 12,
    ;
    let mut h = filled((nbra + 1) * n1 * s, T::from_count(0));
    let mut i: usize = 0;
    while i <= nbra
        invariant
            i <= nbra + 1,
            nbra <= 12,
            lb <= nbra,
            nket <= 12,
            nb == nbra,
            u == lb + 1,
            n1 == u,
            w == nket + 1,
            s == w,
            (nb + 1) * u * w <= 169 * 13,
            (nb + 1) * w <= 169,
            g@.len() == (nb + 1) * w,
            h@.len() == (nb + 1) * u * w,
            forall|n: int, m: int|
                0 <= n <= nb && 0 <= m < w ==> #[trigger] g@[pair(n, w, m)] == combined_factor(
                    x,
                    n,
                    m,
                ),
            forall|r: int, m: int|
                0 <= r < i && 0 <= m < w ==> #[trigger] h@[cell(r, u, 0, w, m)] == bra_factor(
                    x,
                    r,
                    0,
                    m,
                ),
        decreases nbra + 1 - i,
    {
        let mut m: usize = 0;
        while m <= nket
            invariant
                i <= nbra,
                m <= nket + 1,
                nbra <= 12,
                lb <= nbra,
                nket <= 12,
                nb == nbra,
                u == lb + 1,
                n1 == u,
                w == nket + 1,
                s == w,
                (nb + 1) * u * w <= 169 * 13,
                (nb + 1) * w <= 169,
                g@.len() == (nb + 1) * w,
                h@.len() == (nb + 1) * u * w,
                forall|n: int, m: int|
                    0 <= n <= nb && 0 <= m < w ==> #[trigger] g@[pair(n, w, m)] == combined_factor(
                        x,
                        n,
                        m,
                    ),
                forall|r: int, c: int|
                    0 <= r <= i && 0 <= c < w && (r < i || c < m) ==> #[trigger] h@[cell(
                        r,
                        u,
                        0,
                        w,
                        c,
                    )] == bra_factor(x, r, 0, c),
            decreases nket + 1 - m,
        {
            proof {
                lemma_pair_in_range(i as int, nb + 1, w, m as int);
                lemma_cell_in_range(i as int, nb + 1, u, 0, w, m as int);
                assert(g@[pair(i as int, w, m as int)] == combined_factor(x, i as int, m as int));
            }
            let ghost before = h@;
            h[(i * n1) * s + m] = g[i * s + m];
            proof {
                assert forall|r: int, c: int|
                    0 <= r <= i && 0 <= c < w && (r < i || c < m + 1) implies #[trigger] h@[cell(
                    r,
                    u,
                    0,
                    w,
                    c,
                )] == bra_factor(x, r, 0, c) by {
                    lemma_cell_in_range(r, nb + 1, u, 0, w, c);
                    lemma_cell_distinct(r, 0, c, i as int, 0, m as int, u, w);
                    assert(before[cell(r, u, 0, w, c)] == h@[cell(r, u, 0, w, c)] || (r == i && c
                        == m));
                }
            }
            m = m + 1;
        }
        i = i + 1;
    }
    let mut j: usize = 1;
    while j <= lb
        invariant
            1 <= j <= lb + 1,
            nbra <= 12,
            lb <= nbra,
            nket <= 12,
            nb == nbra,
            u == lb + 1,
            n1 == u,
            w == nket + 1,
            s == w,
            (nb + 1) * u * w <= 169 * 13,
            h@.len() == (nb + 1) * u * w,
            forall|r: int, q: int, c: int|
                0 <= r && 0 <= q < j && r + q <= nb && 0 <= c < w ==> #[trigger] h@[cell(
                    r,
                    u,
                    q,
                    w,
                    c,
                )] == bra_factor(x, r, q, c),
        decreases lb + 1 - j,
    {
        let mut i: usize = 0;
        while i <= nbra - j
            invariant
                1 <= j <= lb,
                i <= nbra - j + 1,
                nbra <= 12,
                lb <= nbra,
                nket <= 12,
                nb == nbra,
                u == lb + 1,
                n1 == u,
                w == nket + 1,
                s == w,
                (nb + 1) * u * w <= 169 * 13,
                h@.len() == (nb + 1) * u * w,
                forall|r: int, q: int, c: int|
                    0 <= r && 0 <= q && r + q <= nb && 0 <= c < w && (q < j || (q == j && r < i))
                        ==> #[trigger] h@[cell(r, u, q, w, c)] == bra_factor(x, r, q, c),
            decreases nbra - j + 1 - i,
        {
            let mut m: usize = 0;
            while m <= nket
                invariant
                    1 <= j <= lb,
                    i <= nbra - j,
                    m <= nket + 1,
                    nbra <= 12,
                    lb <= nbra,
                    nket <= 12,
                    nb == nbra,
                    u == lb + 1,
                    n1 == u,
                    w == nket + 1,
                    s == w,
                    (nb + 1) * u * w <= 169 * 13,
                    h@.len() == (nb + 1) * u * w,
                    forall|r: int, q: int, c: int|
                        0 <= r && 0 <= q && r + q <= nb && 0 <= c < w && (q < j || (q == j && (r < i
                            || (r == i && c < m)))) ==> #[trigger] h@[cell(r, u, q, w, c)]
                            == bra_factor(x, r, q, c),
                decreases nket + 1 - m,
            {
                proof {
                    lemma_cell_in_range(i as int, nb + 1, u, j as int, w, m as int);
                    lemma_cell_in_range(i + 1, nb + 1, u, j - 1, w, m as int);
                    lemma_cell_in_range(i as int, nb + 1, u, j - 1, w, m as int);
                    assert(h@[cell(i + 1, u, j - 1, w, m as int)] == bra_factor(
                        x,
                        i + 1,
                        j - 1,
                        m as int,
                    ));
                    assert(h@[cell(i as int, u, j - 1, w, m as int)] == bra_factor(
                        x,
                        i as int,
                        j - 1,
                        m as int,
                    ));
                }
                let v = h[((i + 1) * n1 + (j - 1)) * s + m].plus(
                    x.ab.times(h[(i * n1 + (j - 1)) * s + m]),
                );
                let ghost before = h@;
                h[(i * n1 + j) * s + m] = v;
                proof {
                    assert(v == bra_factor(x, i as int, j as int, m as int));
                    assert forall|r: int, q: int, c: int|
                        0 <= r && 0 <= q && r + q <= nb && 0 <= c < w && (q < j || (q == j && (r < i
                            || (r == i && c < m + 1)))) implies #[trigger] h@[cell(r, u, q, w, c)]
                        == bra_factor(x, r, q, c) by {
                        lemma_cell_in_range(r, nb + 1, u, q, w, c);
                        lemma_cell_distinct(r, q, c, i as int, j as int, m as int, u, w);
                        assert(before[cell(r, u, q, w, c)] == h@[cell(r, u, q, w, c)] || (r == i
                            && q == j && c == m));
                    }
                }
                m = m + 1;
            }
            i = i + 1;
        }
        j = j + 1;
    }
    h
}

/// The factors with powers `i` and `j` on the bra, as a table of shape
/// `(nket + 1, ld + 1)` filled where `k + l <= nket`.
#[verifier::spinoff_prover]
fn ket_factors<T: Scalar>(
    x: AxisInput<T>,
    i: usize,
    j: usize,
    nbra: usize,
    lb: usize,
    nket: usize,
    ld: usize,
    h: &Vec<T>,
) -> (t: Vec<T>)
    requires
        nbra <= 12,
        lb <= nbra,
        nket <= 12,
        ld <= nket,
        j <= lb,
        i + j <= nbra,
        h@.len() == (nbra + 1) * (lb + 1) * (nket + 1),
        forall|i: int, j: int, m: int|
            0 <= i && 0 <= j <= lb && i + j <= nbra && 0 <= m <= nket ==> #[trigger] h@[cell(
                i,
                lb + 1,
                j,
                nket + 1,
                m,
            )] == bra_factor(x, i, j, m),
    ensures
        t@.len() == (nket + 1) * (ld + 1),
        forall|k: int, l: int|
            0 <= k && 0 <= l <= ld && k + l <= nket ==> #[trigger] t@[pair(k, ld + 1, l)]
                == axis_factor(x, i as int, j as int, k, l),
{
    let ghost (u, w, v) = (lb + 1, nket + 1, ld + 1);
    let ghost (ii, jj) = (i as int, j as int);
    let (n1, s, n3): (usize, usize, usize) = (lb + 1, nket + 1, ld + 1);
    assert((nket + 1) * (ld + 1) <= 169) by (nonlinear_arith)
        requires
            nket <= 12,
            ld <= 12,
    ;
    let mut t = filled(s * n3, T::from_count(0));
    let mut k: usize = 0;
    while k <= nket
        invariant
            k <= nket + 1,
            nbra <= 12,
            lb <= nbra,
            nket <= 12,
            ld <= nket,
            j <= lb,
            i + j <= nbra,
            ii == i,
            jj == j,
            u == lb + 1,
            n1 == u,
            w == nket + 1,
            s == w,
            v == ld + 1,
            n3 == v,
            w * v <= 169,
            h@.len() == (nbra + 1) * u * w,
            t@.len() == w * v,
            forall|i: int, j: int, m: int|
                0 <= i && 0 <= j < u && i + j <= nbra && 0 <= m < w ==> #[trigger] h@[cell(
                    i,
                    u,
                    j,
                    w,
                    m,
                )] == bra_factor(x, i, j, m),
            forall|r: int|
                0 <= r < k ==> #[trigger] t@[pair(r, v, 0)] == axis_factor(x, ii, jj, r, 0),
        decreases nket + 1 - k,
    {
        proof {
            lemma_cell_in_range(ii, nbra + 1, u, jj, w, k as int);
            lemma_pair_in_range(k as int, w, v, 0);
            assert(h@[cell(ii, u, jj, w, k as int)] == bra_factor(x, ii, jj, k as int));
            assert(pair(ii, u, jj) <= 169) by (nonlinear_arith)
                requires
                    0 <= ii <= 12,
                    0 <= jj <= 12,
                    u <= 13,
                    pair(ii, u, jj) == ii * u + jj,
            ;
            assert(pair(ii, u, jj) * w <= 169 * 13) by (nonlinear_arith)
                requires
                    0 <= pair(ii, u, jj) <= 169,
                    0 <= w <= 13,
            ;
        }
        let ghost before = t@;
        t[k * n3] = h[(i * n1 + j) * s + k];
        proof {
            assert forall|r: int| 0 <= r < k + 1 implies #[trigger] t@[pair(r, v, 0)]
                == axis_factor(x, ii, jj, r, 0) by {
                lemma_pair_in_range(r, w, v, 0);
                lemma_pair_order(r, 0, k as int, 0, v);
                assert(before[pair(r, v, 0)] == t@[pair(r, v, 0)] || r == k);
            }
        }
        k = k + 1;
    }
    let mut l: usize = 1;
    while l <= ld
        invariant
            1 <= l <= ld + 1,
            nket <= 12,
            ld <= nket,
            ii == i,
            jj == j,
            w == nket + 1,
            v == ld + 1,
            n3 == v,
            w * v <= 169,
            t@.len() == w * v,
            forall|r: int, c: int|
                0 <= r && 0 <= c < l && r + c <= nket ==> #[trigger] t@[pair(r, v, c)]
                    == axis_factor(x, ii, jj, r, c),
        decreases ld + 1 - l,
    {
        let mut k: usize = 0;
        while k <= nket - l
            invariant
                1 <= l <= ld,
                k <= nket - l + 1,
                nket <= 12,
                ld <= nket,
                ii == i,
                jj == j,
                w == nket + 1,
                v == ld + 1,
                n3 == v,
                w * v <= 169,
                t@.len() == w * v,
                forall|r: int, c: int|
                    0 <= r && 0 <= c && r + c <= nket && (c < l || (c == l && r < k))
                        ==> #[trigger] t@[pair(r, v, c)] == axis_factor(x, ii, jj, r, c),
            decreases nket - l + 1 - k,
        {
            proof {
                lemma_pair_in_range(k as int, w, v, l as int);
                lemma_pair_in_range(k + 1, w, v, l - 1);
                lemma_pair_in_range(k as int, w, v, l - 1);
                assert(t@[pair(k + 1, v, l - 1)] == axis_factor(x, ii, jj, k + 1, l - 1));
                assert(t@[pair(k as int, v, l - 1)] == axis_factor(x, ii, jj, k as int, l - 1));
            }
            let value = t[(k + 1) * n3 + (l - 1)].plus(x.cd.times(t[k * n3 + (l - 1)]));
            let ghost before = t@;
            t[k * n3 + l] = value;
            proof {
                assert(value == axis_factor(x, ii, jj, k as int, l as int));
                assert forall|r: int, c: int|
                    0 <= r && 0 <= c && r + c <= nket && (c < l || (c == l && r < k + 1)) implies #[trigger] t@[pair(
                    r,
                    v,
                    c,
                )] == axis_factor(x, ii, jj, r, c) by {
                    lemma_pair_in_range(r, w, v, c);
                    lemma_pair_order(r, c, k as int, l as int, v);
                    assert(before[pair(r, v, c)] == t@[pair(r, v, c)] || (r == k && c == l));
                }
            }
            k = k + 1;
        }
        l = l + 1;
    }
    t
}

/// Whether `tab` holds the factors of all powers up to the angular momenta `l`, as a
/// table of four axes.
pub open spec fn factors_listed<T: Scalar>(
    tab: Seq<T>,
    x: AxisInput<T>,
    la: int,
    lb: int,
    lc: int,
    ld: int,
) -> bool {
    &&& tab.len() == (la + 1) * (lb + 1) * (lc + 1) * (ld + 1)
    &&& forall|i: int, j: int, k: int, l: int|
        0 <= i <= la && 0 <= j <= lb && 0 <= k <= lc && 0 <= l <= ld ==> #[trigger] tab[quad(
            i,
            lb + 1,
            j,
            lc + 1,
            k,
            ld + 1,
            l,
        )] == axis_factor(x, i, j, k, l)
}

/// Bounds on the size of a table of four axes.
proof fn lemma_axis_sizes(la: int, lb: int, lc: int, ld: int)
    requires
        0 <= la <= 6,
        0 <= lb <= 6,
        0 <= lc <= 6,
        0 <= ld <= 6,
    ensures
        1 <= (la + 1) * (lb + 1) <= 49,
        1 <= (la + 1) * (lb + 1) * (lc + 1) <= 343,
        1 <= (la + 1) * (lb + 1) * (lc + 1) * (ld + 1) <= 2401,
{
    let (p, q) = ((la + 1) * (lb + 1), (la + 1) * (lb + 1) * (lc + 1));
    assert(1 <= (la + 1) * (lb + 1) <= 49) by (nonlinear_arith)
        requires
            0 <= la <= 6,
            0 <= lb <= 6,
    ;
    assert(1 <= p * (lc + 1) <= 343) by (nonlinear_arith)
        requires
            1 <= p <= 49,
            0 <= lc <= 6,
    ;
    assert(1 <= q * (ld + 1) <= 2401) by (nonlinear_arith)
        requires
            1 <= q <= 343,
            0 <= ld <= 6,
    ;
}

/// The factors of all powers up to the given angular momenta along one axis.
#[verifier::spinoff_prover]
#[verifier::rlimit(40)]
pub fn build_axis<T: Scalar>(x: AxisInput<T>, la: usize, lb: usize, lc: usize, ld: usize) -> (tab:
    Vec<T>)
    requires
        la <= MAX_L,
        lb <= MAX_L,
        lc <= MAX_L,
        ld <= MAX_L,
    ensures
        factors_listed(tab@, x, la as int, lb as int, lc as int, ld as int),
{
    let nbra: usize = la + lb;
    let nket: usize = lc + ld;
    let g = combined_factors(x, nbra, nket);
    let h = bra_factors(x, nbra, lb, nket, &g);
    let ghost (na, nb, nc, nd) = (la + 1, lb + 1, lc + 1, ld + 1);
    let (sb, sc, sd): (usize, usize, usize) = (lb + 1, lc + 1, ld + 1);
    proof {
        lemma_axis_sizes(la as int, lb as int, lc as int, ld as int);
    }
    let mut tab = filled((la + 1) * sb * sc * sd, T::from_count(0));
    let mut i: usize = 0;
    while i <= la
        invariant
            i <= la + 1,
            la <= 6,
            lb <= 6,
            lc <= 6,
            ld <= 6,
            nbra == la + lb,
            nket == lc + ld,
            na == la + 1,
            nb == lb + 1,
            nc == lc + 1,
            nd == ld + 1,
            sb == nb,
            sc == nc,
            sd == nd,
            na * nb * nc * nd <= 2401,
            tab@.len() == na * nb * nc * nd,
            h@.len() == (nbra + 1) * (lb + 1) * (nket + 1),
            forall|i: int, j: int, m: int|
                0 <= i && 0 <= j <= lb && i + j <= nbra && 0 <= m <= nket ==> #[trigger] h@[cell(
                    i,
                    lb + 1,
                    j,
                    nket + 1,
                    m,
                )] == bra_factor(x, i, j, m),
            forall|p: int, q: int, r: int, t: int|
                0 <= p < i && 0 <= q < nb && 0 <= r < nc && 0 <= t < nd ==> #[trigger] tab@[quad(
                    p,
                    nb,
                    q,
                    nc,
                    r,
                    nd,
                    t,
                )] == axis_factor(x, p, q, r, t),
        decreases la + 1 - i,
    {
        let mut j: usize = 0;
        while j <= lb
            invariant
                i <= la,
                j <= lb + 1,
                la <= 6,
                lb <= 6,
                lc <= 6,
                ld <= 6,
                nbra == la + lb,
                nket == lc + ld,
                na == la + 1,
                nb == lb + 1,
                nc == lc + 1,
                nd == ld + 1,
                sb == nb,
                sc == nc,
                sd == nd,
                na * nb * nc * nd <= 2401,
                tab@.len() == na * nb * nc * nd,
                h@.len() == (nbra + 1) * (lb + 1) * (nket + 1),
                forall|i: int, j: int, m: int|
                    0 <= i && 0 <= j <= lb && i + j <= nbra && 0 <= m <= nket ==> #[trigger] h@[cell(
                        i,
                        lb + 1,
                        j,
                        nket + 1,
                        m,
                    )] == bra_factor(x, i, j, m),
                forall|p: int, q: int, r: int, t: int|
                    0 <= p <= i && 0 <= q < nb && 0 <= r < nc && 0 <= t < nd && (p < i || q < j)
                        ==> #[trigger] tab@[quad(p, nb, q, nc, r, nd, t)] == axis_factor(
                        x,
                        p,
                        q,
                        r,
                        t,
                    ),
            decreases lb + 1 - j,
        {
            let tk = ket_factors(x, i, j, nbra, lb, nket, ld, &h);
            let mut k: usize = 0;
            while k <= lc
                invariant
                    i <= la,
                    j <= lb,
                    k <= lc + 1,
                    la <= 6,
                    lb <= 6,
                    lc <= 6,
                    ld <= 6,
                    nket == lc + ld,
                    na == la + 1,
                    nb == lb + 1,
                    nc == lc + 1,
                    nd == ld + 1,
                    sb == nb,
                    sc == nc,
                    sd == nd,
                    na * nb * nc * nd <= 2401,
                    tab@.len() == na * nb * nc * nd,
                    tk@.len() == (nket + 1) * (ld + 1),
                    forall|k: int, l: int|
                        0 <= k && 0 <= l <= ld && k + l <= nket ==> #[trigger] tk@[pair(
                            k,
                            ld + 1,
                            l,
                        )] == axis_factor(x, i as int, j as int, k, l),
                    forall|p: int, q: int, r: int, t: int|
                        0 <= p <= i && 0 <= q < nb && 0 <= r < nc && 0 <= t < nd && (p < i || q < j
                            || (q == j && r < k)) ==> #[trigger] tab@[quad(
                            p,
                            nb,
                            q,
                            nc,
                            r,
                            nd,
                            t,
                        )] == axis_factor(x, p, q, r, t),
                decreases lc + 1 - k,
            {
                let mut l: usize = 0;
                while l <= ld
                    invariant
                        i <= la,
                        j <= lb,
                        k <= lc,
                        l <= ld + 1,
                        la <= 6,
                        lb <= 6,
                        lc <= 6,
                        ld <= 6,
                        nket == lc + ld,
                        na == la + 1,
                        nb == lb + 1,
                        nc == lc + 1,
                        nd == ld + 1,
                        sb == nb,
                        sc == nc,
                        sd == nd,
                        na * nb * nc * nd <= 2401,
                        tab@.len() == na * nb * nc * nd,
                        tk@.len() == (nket + 1) * (ld + 1),
                        forall|k: int, l: int|
                            0 <= k && 0 <= l <= ld && k + l <= nket ==> #[trigger] tk@[pair(
                                k,
                                ld + 1,
                                l,
                            )] == axis_factor(x, i as int, j as int, k, l),
                        forall|p: int, q: int, r: int, t: int|
                            0 <= p <= i && 0 <= q < nb && 0 <= r < nc && 0 <= t < nd && (p < i || q
                                < j || (q == j && (r < k || (r == k && t < l))))
                                ==> #[trigger] tab@[quad(p, nb, q, nc, r, nd, t)] == axis_factor(
                                x,
                                p,
                                q,
                                r,
                                t,
                            ),
                    decreases ld + 1 - l,
                {
                    let ghost (pi, pj, pk, pl) = (i as int, j as int, k as int, l as int);
                    proof {
                        lemma_quad_in_range(pi, na, pj, nb, pk, nc, pl, nd);
                        lemma_pair_in_range(pk, nket + 1, nd, pl);
                        assert(tk@[pair(pk, ld + 1, pl)] == axis_factor(x, pi, pj, pk, pl));
                        assert(k * nd <= 49) by (nonlinear_arith)
                            requires
                                0 <= k <= 6,
                                0 <= nd <= 7,
                        ;
                    }
                    let ghost before = tab@;
                    tab[((i * sb + j) * sc + k) * sd + l] = tk[k * sd + l];
                    proof {
                        assert forall|p: int, q: int, r: int, t: int|
                            0 <= p <= i && 0 <= q < nb && 0 <= r < nc && 0 <= t < nd && (p < i || q
                                < j || (q == j && (r < k || (r == k && t < l + 1)))) implies #[trigger] tab@[quad(
                            p,
                            nb,
                            q,
                            nc,
                            r,
                            nd,
                            t,
                        )] == axis_factor(x, p, q, r, t) by {
                            lemma_quad_in_range(p, na, q, nb, r, nc, t, nd);
                            lemma_quad_order(p, q, r, t, pi, pj, pk, pl, nb, nc, nd);
                            assert(before[quad(p, nb, q, nc, r, nd, t)] == tab@[quad(
                                p,
                                nb,
                                q,
                                nc,
                                r,
                                nd,
                                t,
                            )] || (p == pi && q == pj && r == pk && t == pl));
                        }
                    }
                    l = l + 1;
                }
                k = k + 1;
            }
            j = j + 1;
        }
        i = i + 1;
    }
    tab
}

/// What four primitives give the quadrature, apart from its roots.
#[derive(Clone, Copy, Debug)]
pub struct Geometry<T> {
    /// Bra exponent.
    pub p: T,
    /// Ket exponent.
    pub q: T,
    /// `p + q`.
    pub pq: T,
    /// `pq / (p + q)`.
    pub rho: T,
    /// `P - Q`.
    pub pq_vec: Vec3<T>,
    /// `P - A`.
    pub pa: Vec3<T>,
    /// `Q - C`.
    pub qc: Vec3<T>,
    /// `A - B`.
    pub ab: Vec3<T>,
    /// `C - D`.
    pub cd: Vec3<T>,
    /// `2 pi^(5/2)/(p q sqrt(p+q)) K_ab K_cd`.
    pub pref: T,
    /// `rho |P-Q|^2`.
    pub t: T,
}

/// The overlap factor of two primitives of total exponent `p`.
pub open spec fn overlap_factor<T: Real>(a: Prim<T>, b: Prim<T>, p: T) -> T {
    T::expo(
        T::prod(
            T::neg(T::quot(T::prod(a.exp, b.exp), p)),
            square(difference(a.center, b.center)),
        ),
    )
}

/// What four primitives give the quadrature.
pub open spec fn geometry_of<T: Real>(a: Prim<T>, b: Prim<T>, c: Prim<T>, d: Prim<T>) -> Geometry<
    T,
> {
    let p = T::sum(a.exp, b.exp);
    let q = T::sum(c.exp, d.exp);
    let pq = T::sum(p, q);
    let rho = T::quot(T::prod(p, q), pq);
    let pc = weighted_center(a.exp, a.center, b.exp, b.center, p);
    let qc = weighted_center(c.exp, c.center, d.exp, d.center, q);
    Geometry {
        p,
        q,
        pq,
        rho,
        pq_vec: difference(pc, qc),
        pa: difference(pc, a.center),
        qc: difference(qc, c.center),
        ab: difference(a.center, b.center),
        cd: difference(c.center, d.center),
        pref: T::prod(
            T::prod(
                T::quot(coulomb_constant::<T>(), T::prod(T::prod(p, q), T::root(pq))),
                overlap_factor(a, b, p),
            ),
            overlap_factor(c, d, q),
        ),
        t: T::prod(rho, square(difference(pc, qc))),
    }
}

/// What four primitives give the quadrature.
fn geometry<T: Real>(a: Prim<T>, b: Prim<T>, c: Prim<T>, d: Prim<T>) -> (r: Geometry<T>)
    ensures
        r == geometry_of(a, b, c, d),
{
    let p = a.exp.plus(b.exp);
    let q = c.exp.plus(d.exp);
    let p_ctr = combine(a.exp, a.center, b.exp, b.center, p);
    let q_ctr = combine(c.exp, c.center, d.exp, d.center, q);
    let kab = a.exp.times(b.exp).over(p).negated().times(dist2(a.center, b.center)).exp();
    let kcd = c.exp.times(d.exp).over(q).negated().times(dist2(c.center, d.center)).exp();
    let pq = p.plus(q);
    let rho = p.times(q).over(pq);
    let pq_vec = crate::engine::pairs::sub(p_ctr, q_ctr);
    let t = rho.times(norm2(pq_vec));
    let pref = two_pi_2_5::<T>().over(p.times(q).times(pq.sqrt())).times(kab).times(kcd);
    Geometry {
        p,
        q,
        pq,
        rho,
        pq_vec,
        pa: crate::engine::pairs::sub(p_ctr, a.center),
        qc: crate::engine::pairs::sub(q_ctr, c.center),
        ab: crate::engine::pairs::sub(a.center, b.center),
        cd: crate::engine::pairs::sub(c.center, d.center),
        pref,
        t,
    }
}

/// Number of roots for four angular momenta.
pub open spec fn root_count(la: int, lb: int, lc: int, ld: int) -> int {
    (la + lb + lc + ld) / 2 + 1
}

/// Root `r` of `n` for the kernel that `omega` chooses.
pub open spec fn kernel_root<T: Real>(
    tables: RysTables<T>,
    x: Geometry<T>,
    omega: Option<T>,
    n: int,
    r: int,
) -> T {
    match omega {
        None => rys_root(tables, n, x.t, r),
        Some(w) => {
            let s = attenuation(x.rho, w);
            T::prod(rys_root(tables, n, T::prod(s, x.t), r), s)
        },
    }
}

/// Weight `r` of `n` for the kernel that `omega` chooses.
pub open spec fn kernel_weight<T: Real>(
    tables: RysTables<T>,
    x: Geometry<T>,
    omega: Option<T>,
    n: int,
    r: int,
) -> T {
    match omega {
        None => rys_weight(tables, n, x.t, r),
        Some(w) => {
            let s = attenuation(x.rho, w);
            T::prod(rys_weight(tables, n, T::prod(s, x.t), r), T::root(s))
        },
    }
}

/// The recurrences along `axis` for one root.
pub open spec fn axis_input<T: Scalar>(x: Geometry<T>, root: T, axis: int) -> AxisInput<T> {
    let cq = T::quot(T::prod(root, x.q), x.pq);
    let cp = T::quot(T::prod(root, x.p), x.pq);
    AxisInput {
        c00: T::diff(x.pa[axis], T::prod(cq, x.pq_vec[axis])),
        cp0: T::sum(x.qc[axis], T::prod(cp, x.pq_vec[axis])),
        b10: T::quot(T::diff(T::count(1), cq), T::prod(T::count(2), x.p)),
        b01: T::quot(T::diff(T::count(1), cp), T::prod(T::count(2), x.q)),
        b00: T::quot(root, T::prod(T::count(2), x.pq)),
        ab: x.ab[axis],
        cd: x.cd[axis],
    }
}

/// Number of component quadruples of four shells.
pub open spec fn quartet_size(la: int, lb: int, lc: int, ld: int) -> int {
    cart_count(la) * cart_count(lb) * cart_count(lc) * cart_count(ld)
}

/// The component quadruple at index `k` of the block of four shells.
pub open spec fn quadruple_at(la: int, lb: int, lc: int, ld: int, k: int) -> (
    Powers,
    Powers,
    Powers,
    Powers,
) {
    let (ia, ib, ic, id) = quad_parts(k, cart_count(lb), cart_count(lc), cart_count(ld));
    (component_at(la, ia), component_at(lb, ib), component_at(lc, ic), component_at(ld, id))
}

/// The product of the factors along the three axes for one root.
pub open spec fn root_value<T: Scalar>(
    x: Geometry<T>,
    root: T,
    ca: Powers,
    cb: Powers,
    cc: Powers,
    cd: Powers,
) -> T {
    T::prod(
        T::prod(
            axis_factor(axis_input(x, root, 0), ca.0, cb.0, cc.0, cd.0),
            axis_factor(axis_input(x, root, 1), ca.1, cb.1, cc.1, cd.1),
        ),
        axis_factor(axis_input(x, root, 2), ca.2, cb.2, cc.2, cd.2),
    )
}

/// What root `r` adds, by index in the block.
pub open spec fn root_entries<T: Real>(
    tables: RysTables<T>,
    s: (Prim<T>, Prim<T>, Prim<T>, Prim<T>),
    omega: Option<T>,
    scale: T,
    r: int,
) -> spec_fn(int) -> T {
    |k: int|
        {
            let (la, lb, lc, ld) = (s.0.l as int, s.1.l as int, s.2.l as int, s.3.l as int);
            let x = geometry_of(s.0, s.1, s.2, s.3);
            let n = root_count(la, lb, lc, ld);
            let (ca, cb, cc, cd) = quadruple_at(la, lb, lc, ld, k);
            T::prod(
                T::prod(T::prod(scale, x.pref), kernel_weight(tables, x, omega, n, r)),
                root_value(x, kernel_root(tables, x, omega, n, r), ca, cb, cc, cd),
            )
        }
}

/// `old` with what the first `n` roots add, one root after another.
pub open spec fn repelled<T: Real>(
    tables: RysTables<T>,
    old: Seq<T>,
    s: (Prim<T>, Prim<T>, Prim<T>, Prim<T>),
    omega: Option<T>,
    scale: T,
    n: int,
) -> Seq<T>
    decreases n,
{
    if n <= 0 {
        old
    } else {
        added(
            repelled(tables, old, s, omega, scale, n - 1),
            quartet_size(s.0.l as int, s.1.l as int, s.2.l as int, s.3.l as int),
            root_entries(tables, s, omega, scale, n - 1),
        )
    }
}

/// `old` with the repulsion of four primitives added.
pub open spec fn repulsion_added<T: Real>(
    tables: RysTables<T>,
    old: Seq<T>,
    s: (Prim<T>, Prim<T>, Prim<T>, Prim<T>),
    omega: Option<T>,
    scale: T,
) -> Seq<T> {
    repelled(
        tables,
        old,
        s,
        omega,
        scale,
        root_count(s.0.l as int, s.1.l as int, s.2.l as int, s.3.l as int),
    )
}

/// Bounds on the size of a block of four shells.
pub proof fn lemma_quartet_sizes(la: int, lb: int, lc: int, ld: int)
    requires
        0 <= la <= 6,
        0 <= lb <= 6,
        0 <= lc <= 6,
        0 <= ld <= 6,
    ensures
        1 <= cart_count(la) <= 28,
        1 <= cart_count(lb) <= 28,
        1 <= cart_count(lc) <= 28,
        1 <= cart_count(ld) <= 28,
        1 <= cart_count(la) * cart_count(lb) <= 784,
        1 <= cart_count(la) * cart_count(lb) * cart_count(lc) <= 21952,
        1 <= quartet_size(la, lb, lc, ld) <= 614656,
{
    lemma_shell_counts(la);
    lemma_shell_counts(lb);
    lemma_shell_counts(lc);
    lemma_shell_counts(ld);
    let (a, b, c, d) = (cart_count(la), cart_count(lb), cart_count(lc), cart_count(ld));
    let (p, q) = (a * b, a * b * c);
    assert(1 <= a * b <= 784) by (nonlinear_arith)
        requires
            1 <= a <= 28,
            1 <= b <= 28,
    ;
    assert(1 <= p * c <= 21952) by (nonlinear_arith)
        requires
            1 <= p <= 784,
            1 <= c <= 28,
    ;
    assert(1 <= q * d <= 614656) by (nonlinear_arith)
        requires
            1 <= q <= 21952,
            1 <= d <= 28,
    ;
}

/// The factor of the given powers from a table of four axes.
fn factor_of<T: Scalar>(
    tab: &Vec<T>,
    Ghost(x): Ghost<AxisInput<T>>,
    l: [usize; 4],
    i: usize,
    j: usize,
    k: usize,
    m: usize,
) -> (r: T)
    requires
        factors_listed(tab@, x, l[0] as int, l[1] as int, l[2] as int, l[3] as int),
        l[0] <= 6,
        l[1] <= 6,
        l[2] <= 6,
        l[3] <= 6,
        i <= l[0],
        j <= l[1],
        k <= l[2],
        m <= l[3],
    ensures
        r == axis_factor(x, i as int, j as int, k as int, m as int),
{
    proof {
        lemma_axis_sizes(l[0] as int, l[1] as int, l[2] as int, l[3] as int);
        lemma_quad_in_range(
            i as int,
            l[0] + 1,
            j as int,
            l[1] + 1,
            k as int,
            l[2] + 1,
            m as int,
            l[3] + 1,
        );
        assert(tab@[quad(i as int, l[1] + 1, j as int, l[2] + 1, k as int, l[3] + 1, m as int)]
            == axis_factor(x, i as int, j as int, k as int, m as int));
    }
    tab[((i * (l[1] + 1) + j) * (l[2] + 1) + k) * (l[3] + 1) + m]
}

/// Add what one root gives to all component quadruples.
#[verifier::spinoff_prover]
#[verifier::rlimit(60)]
fn add_root<T: Real>(
    s: (Prim<T>, Prim<T>, Prim<T>, Prim<T>),
    x: &Geometry<T>,
    root: T,
    pw: T,
    Ghost(g): Ghost<spec_fn(int) -> T>,
    out: &mut [T],
)
    requires
        s.0.l <= MAX_L,
        s.1.l <= MAX_L,
        s.2.l <= MAX_L,
        s.3.l <= MAX_L,
        *x == geometry_of(s.0, s.1, s.2, s.3),
        old(out)@.len() >= quartet_size(s.0.l as int, s.1.l as int, s.2.l as int, s.3.l as int),
        forall|k: int|
            #[trigger] g(k) == T::prod(
                pw,
                root_value(
                    *x,
                    root,
                    quadruple_at(s.0.l as int, s.1.l as int, s.2.l as int, s.3.l as int, k).0,
                    quadruple_at(s.0.l as int, s.1.l as int, s.2.l as int, s.3.l as int, k).1,
                    quadruple_at(s.0.l as int, s.1.l as int, s.2.l as int, s.3.l as int, k).2,
                    quadruple_at(s.0.l as int, s.1.l as int, s.2.l as int, s.3.l as int, k).3,
                ),
            ),
    ensures
        final(out)@ == added(
            old(out)@,
            quartet_size(s.0.l as int, s.1.l as int, s.2.l as int, s.3.l as int),
            g,
        ),
{
    let l: [usize; 4] = [s.0.l, s.1.l, s.2.l, s.3.l];
    let ghost (la, lb, lc, ld) = (s.0.l as int, s.1.l as int, s.2.l as int, s.3.l as int);
    proof {
        lemma_quartet_sizes(la, lb, lc, ld);
        lemma_small_degree(la);
        lemma_small_degree(lb);
        lemma_small_degree(lc);
        lemma_small_degree(ld);
    }
    let b00 = root.over(T::from_count(2).times(x.pq));
    let cq = root.times(x.q).over(x.pq);
    let cp = root.times(x.p).over(x.pq);
    let one = T::from_count(1);
    let b10 = one.minus(cq).over(T::from_count(2).times(x.p));
    let b01 = one.minus(cp).over(T::from_count(2).times(x.q));
    let mut tabs: Vec<Vec<T>> = Vec::new();
    let mut axis: usize = 0;
    while axis < 3
        invariant
            axis <= 3,
            tabs@.len() == axis,
            la <= MAX_L,
            lb <= MAX_L,
            lc <= MAX_L,
            ld <= MAX_L,
            l[0] == la,
            l[1] == lb,
            l[2] == lc,
            l[3] == ld,
            cq == T::quot(T::prod(root, x.q), x.pq),
            cp == T::quot(T::prod(root, x.p), x.pq),
            b00 == T::quot(root, T::prod(T::count(2), x.pq)),
            b10 == T::quot(T::diff(T::count(1), cq), T::prod(T::count(2), x.p)),
            b01 == T::quot(T::diff(T::count(1), cp), T::prod(T::count(2), x.q)),
            forall|k: int|
                0 <= k < axis ==> factors_listed(
                    (#[trigger] tabs@[k])@,
                    axis_input(*x, root, k),
                    la,
                    lb,
                    lc,
                    ld,
                ),
        decreases 3 - axis,
    {
        let c00 = x.pa[axis].minus(cq.times(x.pq_vec[axis]));
        let cp0 = x.qc[axis].plus(cp.times(x.pq_vec[axis]));
        let input = AxisInput { c00, cp0, b10, b01, b00, ab: x.ab[axis], cd: x.cd[axis] };
        assert(input == axis_input(*x, root, axis as int));
        tabs.push(build_axis(input, l[0], l[1], l[2], l[3]));
        axis = axis + 1;
    }
    let comps_a = cart_components(l[0]);
    let comps_b = cart_components(l[1]);
    let comps_c = cart_components(l[2]);
    let comps_d = cart_components(l[3]);
    let (na, nb, nc, nd) = (n_cart(l[0]), n_cart(l[1]), n_cart(l[2]), n_cart(l[3]));
    let ghost old_out = out@;
    proof {
        lemma_listed_components(comps_a@, la);
        lemma_listed_components(comps_b@, lb);
        lemma_listed_components(comps_c@, lc);
        lemma_listed_components(comps_d@, ld);
        assert(added(old_out, 0, g) =~= old_out);
        assert(factors_listed(tabs@[0]@, axis_input(*x, root, 0), la, lb, lc, ld));
        assert(factors_listed(tabs@[1]@, axis_input(*x, root, 1), la, lb, lc, ld));
        assert(factors_listed(tabs@[2]@, axis_input(*x, root, 2), la, lb, lc, ld));
    }
    let ix = &tabs[0];
    let iy = &tabs[1];
    let iz = &tabs[2];
    let size: usize = na * nb * nc * nd;
    let mut ia: usize = 0;
    let mut ib: usize = 0;
    let mut ic: usize = 0;
    let mut id: usize = 0;
    let mut idx: usize = 0;
    proof {
        lemma_quad_origin(nb as int, nc as int, nd as int);
    }
    while idx < size
        invariant
            idx <= size,
            size == quartet_size(la, lb, lc, ld),
            size <= 614656,
            la <= MAX_L,
            lb <= MAX_L,
            lc <= MAX_L,
            ld <= MAX_L,
            l[0] == la,
            l[1] == lb,
            l[2] == lc,
            l[3] == ld,
            la == s.0.l,
            lb == s.1.l,
            lc == s.2.l,
            ld == s.3.l,
            na == cart_count(la),
            nb == cart_count(lb),
            nc == cart_count(lc),
            nd == cart_count(ld),
            1 <= nb <= 28,
            1 <= nc <= 28,
            1 <= nd <= 28,
            1 <= na <= 28,
            comps_a@.len() == na,
            comps_b@.len() == nb,
            comps_c@.len() == nc,
            comps_d@.len() == nd,
            forall|i: int| 0 <= i < na ==> #[trigger] powers(comps_a@[i]) == component_at(la, i),
            forall|i: int| 0 <= i < nb ==> #[trigger] powers(comps_b@[i]) == component_at(lb, i),
            forall|i: int| 0 <= i < nc ==> #[trigger] powers(comps_c@[i]) == component_at(lc, i),
            forall|i: int| 0 <= i < nd ==> #[trigger] powers(comps_d@[i]) == component_at(ld, i),
            factors_listed(ix@, axis_input(*x, root, 0), la, lb, lc, ld),
            factors_listed(iy@, axis_input(*x, root, 1), la, lb, lc, ld),
            factors_listed(iz@, axis_input(*x, root, 2), la, lb, lc, ld),
            forall|k: int|
                #[trigger] g(k) == T::prod(
                    pw,
                    root_value(
                        *x,
                        root,
                        quadruple_at(la, lb, lc, ld, k).0,
                        quadruple_at(la, lb, lc, ld, k).1,
                        quadruple_at(la, lb, lc, ld, k).2,
                        quadruple_at(la, lb, lc, ld, k).3,
                    ),
                ),
            idx < size ==> ia < na,
            ib < nb,
            ic < nc,
            id < nd,
            idx == quad(ia as int, nb as int, ib as int, nc as int, ic as int, nd as int, id as int),
            old_out.len() >= size,
            out@ == added(old_out, idx as int, g),
        decreases size - idx,
    {
        let ca = comps_a[ia];
        let cb = comps_b[ib];
        let cc = comps_c[ic];
        let cd = comps_d[id];
        proof {
            lemma_quad_parts(
                ia as int,
                nb as int,
                ib as int,
                nc as int,
                ic as int,
                nd as int,
                id as int,
            );
            crate::math::am::law_every_position_is_taken(la, ia as int);
            crate::math::am::law_every_position_is_taken(lb, ib as int);
            crate::math::am::law_every_position_is_taken(lc, ic as int);
            crate::math::am::law_every_position_is_taken(ld, id as int);
            assert(powers(ca) == component_at(la, ia as int));
            assert(powers(cb) == component_at(lb, ib as int));
            assert(powers(cc) == component_at(lc, ic as int));
            assert(powers(cd) == component_at(ld, id as int));
            assert(is_component(powers(ca), la));
            assert(is_component(powers(cb), lb));
            assert(is_component(powers(cc), lc));
            assert(is_component(powers(cd), ld));
        }
        let v = factor_of(ix, Ghost(axis_input(*x, root, 0)), l, ca[0], cb[0], cc[0], cd[0]).times(
            factor_of(iy, Ghost(axis_input(*x, root, 1)), l, ca[1], cb[1], cc[1], cd[1]),
        ).times(factor_of(iz, Ghost(axis_input(*x, root, 2)), l, ca[2], cb[2], cc[2], cd[2]));
        out[idx] = out[idx].plus(pw.times(v));
        proof {
            assert(T::prod(pw, v) == g(idx as int));
            lemma_added_step(old_out, idx as int, g);
        }
        let ghost start = (ia as int, ib as int, ic as int, id as int);
        if id + 1 < nd {
            id = id + 1;
        } else {
            id = 0;
            if ic + 1 < nc {
                ic = ic + 1;
            } else {
                ic = 0;
                if ib + 1 < nb {
                    ib = ib + 1;
                } else {
                    ib = 0;
                    ia = ia + 1;
                }
            }
        }
        proof {
            lemma_next_quad(start.0, nb as int, start.1, nc as int, start.2, nd as int, start.3);
            if ia >= na {
                assert(ia == na && ib == 0 && ic == 0 && id == 0);
                assert(idx + 1 == size) by {
                    assert(quad(na as int, nb as int, 0, nc as int, 0, nd as int, 0) == na * nb * nc
                        * nd) by (nonlinear_arith)
                        requires
                            quad(na as int, nb as int, 0, nc as int, 0, nd as int, 0) == ((na * nb
                                + 0) * nc + 0) * nd + 0,
                    ;
                }
            }
        }
        idx = idx + 1;
    }
}

/// The index after that of `(a, b, c, d)` is that of the quadruple that follows.
proof fn lemma_next_quad(a: int, nb: int, b: int, nc: int, c: int, nd: int, d: int)
    requires
        0 <= a,
        0 <= b < nb,
        0 <= c < nc,
        0 <= d < nd,
    ensures
        quad(a, nb, b, nc, c, nd, d) + 1 == (if d + 1 < nd {
            quad(a, nb, b, nc, c, nd, d + 1)
        } else if c + 1 < nc {
            quad(a, nb, b, nc, c + 1, nd, 0)
        } else if b + 1 < nb {
            quad(a, nb, b + 1, nc, 0, nd, 0)
        } else {
            quad(a + 1, nb, 0, nc, 0, nd, 0)
        }),
{
    let r = pair(a, nb, b);
    let q = pair(r, nc, c);
    assert(q * nd + nd == (q + 1) * nd) by (nonlinear_arith);
    assert(r * nc + nc == (r + 1) * nc) by (nonlinear_arith);
    assert(a * nb + nb == (a + 1) * nb) by (nonlinear_arith);
}

/// The index of the first quadruple.
proof fn lemma_quad_origin(nb: int, nc: int, nd: int)
    ensures
        quad(0, nb, 0, nc, 0, nd, 0) == 0,
{
    assert(0 * nb == 0 && 0 * nc == 0 && 0 * nd == 0) by (nonlinear_arith);
}

/// Repulsion keeps the length of a block.
pub proof fn lemma_repelled_len<T: Real>(
    tables: RysTables<T>,
    old: Seq<T>,
    s: (Prim<T>, Prim<T>, Prim<T>, Prim<T>),
    omega: Option<T>,
    scale: T,
    n: int,
)
    ensures
        repelled(tables, old, s, omega, scale, n).len() == old.len(),
    decreases n,
{
    if n > 0 {
        lemma_repelled_len(tables, old, s, omega, scale, n - 1);
    }
}

/// Add the repulsion of four primitives, of the kernel that `omega` chooses.
#[verifier::spinoff_prover]
#[verifier::rlimit(30)]
fn eri_into_impl<T: Real>(
    tables: &RysTables<T>,
    s: (Prim<T>, Prim<T>, Prim<T>, Prim<T>),
    attenuation_by: Option<T>,
    scale: T,
    out: &mut [T],
)
    requires
        tables.valid(),
        s.0.l <= MAX_L,
        s.1.l <= MAX_L,
        s.2.l <= MAX_L,
        s.3.l <= MAX_L,
        old(out)@.len() >= quartet_size(s.0.l as int, s.1.l as int, s.2.l as int, s.3.l as int),
    ensures
        final(out)@ == repulsion_added(*tables, old(out)@, s, attenuation_by, scale),
{
    let x = geometry(s.0, s.1, s.2, s.3);
    let nroots: usize = (s.0.l + s.1.l + s.2.l + s.3.l) / 2 + 1;
    let ghost n = nroots as int;
    let mut roots = filled(MAX_RYS_ROOTS, T::from_count(0));
    let mut wts = filled(MAX_RYS_ROOTS, T::from_count(0));
    match attenuation_by {
        None => {
            rys_roots_weights(tables, nroots, x.t, roots.as_mut_slice(), wts.as_mut_slice());
        },
        Some(omega) => {
            let sa = omega.times(omega).over(x.rho.plus(omega.times(omega)));
            let st = sa.times(x.t);
            rys_roots_weights(tables, nroots, st, roots.as_mut_slice(), wts.as_mut_slice());
            let sqrt_s = sa.sqrt();
            let mut r: usize = 0;
            while r < nroots
                invariant
                    r <= nroots <= MAX_RYS_ROOTS,
                    n == nroots,
                    roots@.len() == MAX_RYS_ROOTS,
                    wts@.len() == MAX_RYS_ROOTS,
                    attenuation_by == Some(omega),
                    sa == attenuation(x.rho, omega),
                    st == T::prod(sa, x.t),
                    sqrt_s == T::root(sa),
                    forall|k: int|
                        0 <= k < r ==> #[trigger] roots@[k] == kernel_root(
                            *tables,
                            x,
                            attenuation_by,
                            n,
                            k,
                        ),
                    forall|k: int|
                        0 <= k < r ==> #[trigger] wts@[k] == kernel_weight(
                            *tables,
                            x,
                            attenuation_by,
                            n,
                            k,
                        ),
                    forall|k: int|
                        r <= k < nroots ==> #[trigger] roots@[k] == rys_root(*tables, n, st, k),
                    forall|k: int|
                        r <= k < nroots ==> #[trigger] wts@[k] == rys_weight(*tables, n, st, k),
                decreases nroots - r,
            {
                roots[r] = roots[r].times(sa);
                wts[r] = wts[r].times(sqrt_s);
                r = r + 1;
            }
        },
    }
    let ghost old_out = out@;
    let mut r: usize = 0;
    while r < nroots
        invariant
            r <= nroots <= MAX_RYS_ROOTS,
            n == nroots,
            n == root_count(s.0.l as int, s.1.l as int, s.2.l as int, s.3.l as int),
            s.0.l <= MAX_L,
            s.1.l <= MAX_L,
            s.2.l <= MAX_L,
            s.3.l <= MAX_L,
            x == geometry_of(s.0, s.1, s.2, s.3),
            roots@.len() == MAX_RYS_ROOTS,
            wts@.len() == MAX_RYS_ROOTS,
            forall|k: int|
                0 <= k < nroots ==> #[trigger] roots@[k] == kernel_root(
                    *tables,
                    x,
                    attenuation_by,
                    n,
                    k,
                ),
            forall|k: int|
                0 <= k < nroots ==> #[trigger] wts@[k] == kernel_weight(
                    *tables,
                    x,
                    attenuation_by,
                    n,
                    k,
                ),
            old_out.len() >= quartet_size(
                s.0.l as int,
                s.1.l as int,
                s.2.l as int,
                s.3.l as int,
            ),
            out@ == repelled(*tables, old_out, s, attenuation_by, scale, r as int),
        decreases nroots - r,
    {
        let pw = scale.times(x.pref).times(wts[r]);
        let ghost g = root_entries(*tables, s, attenuation_by, scale, r as int);
        proof {
            lemma_repelled_len(*tables, old_out, s, attenuation_by, scale, r as int);
        }
        add_root(s, &x, roots[r], pw, Ghost(g), out);
        r = r + 1;
    }
}

/// Add `scale (ab|cd)` of the kernel `1/r` over four primitives to all component
/// quadruples of the block `out`.
pub fn coulomb_into<T: Real>(
    tables: &RysTables<T>,
    a: Prim<T>,
    b: Prim<T>,
    c: Prim<T>,
    d: Prim<T>,
    scale: T,
    out: &mut [T],
)
    requires
        tables.valid(),
        a.l <= MAX_L,
        b.l <= MAX_L,
        c.l <= MAX_L,
        d.l <= MAX_L,
        old(out)@.len() >= quartet_size(a.l as int, b.l as int, c.l as int, d.l as int),
    ensures
        final(out)@ == repulsion_added(*tables, old(out)@, (a, b, c, d), None, scale),
{
    eri_into_impl(tables, (a, b, c, d), None, scale, out);
}

/// Add `scale (ab|cd)` of the kernel `erf(omega r)/r` over four primitives to all
/// component quadruples of the block `out`.
pub fn erf_coulomb_into<T: Real>(
    tables: &RysTables<T>,
    a: Prim<T>,
    b: Prim<T>,
    c: Prim<T>,
    d: Prim<T>,
    omega: T,
    scale: T,
    out: &mut [T],
)
    requires
        tables.valid(),
        a.l <= MAX_L,
        b.l <= MAX_L,
        c.l <= MAX_L,
        d.l <= MAX_L,
        old(out)@.len() >= quartet_size(a.l as int, b.l as int, c.l as int, d.l as int),
    ensures
        final(out)@ == repulsion_added(*tables, old(out)@, (a, b, c, d), Some(omega), scale),
{
    eri_into_impl(tables, (a, b, c, d), Some(omega), scale, out);
}

} // verus!
