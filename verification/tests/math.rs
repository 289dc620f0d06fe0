use std::f64::consts::PI;

use integral::math::am::{cart_components, n_cart};
use integral::math::boys::{
    asymptotic_boundary, boys, boys_array, boys_array2, boys_array4, boys_array_erf,
    boys_reference, BoysTable, BOYS_MAX_M,
};
use integral::math::gauss::{golub_welsch, tridiagonal_ql, UnitRule};
use integral::math::norm::{cart_norm, cart_unit_factor, double_factorial, shell_norm};
use integral::math::rys::{rys_roots_weights, RysTables, MAX_RYS_ROOTS};
use integral::math::rys_reference::{
    laguerre_half_nodes, rys_finite_reference, rys_roots_weights_reference, stieltjes, GL_POINTS,
};
use integral::math::solid_harmonics::{
    c2s_matrix, m_order, monomial_to_raw_factor, racah_real_solid_harmonic_coeff,
    raw_self_overlap,
};
use integral::scalar::{Lanes, Real, Scalar};

#[derive(Clone, Copy, Debug, PartialEq)]
struct R(f64);

impl Scalar for R {
    fn count(n: u64) -> Self {
        R(n as f64)
    }
    fn sum(a: Self, b: Self) -> Self {
        R(a.0 + b.0)
    }
    fn diff(a: Self, b: Self) -> Self {
        R(a.0 - b.0)
    }
    fn prod(a: Self, b: Self) -> Self {
        R(a.0 * b.0)
    }
    fn quot(a: Self, b: Self) -> Self {
        R(a.0 / b.0)
    }
    fn neg(a: Self) -> Self {
        R(-a.0)
    }
    fn from_count(n: u64) -> Self {
        R(n as f64)
    }
    fn plus(self, o: Self) -> Self {
        R(self.0 + o.0)
    }
    fn minus(self, o: Self) -> Self {
        R(self.0 - o.0)
    }
    fn times(self, o: Self) -> Self {
        R(self.0 * o.0)
    }
    fn over(self, o: Self) -> Self {
        R(self.0 / o.0)
    }
    fn negated(self) -> Self {
        R(-self.0)
    }
}

impl Real for R {
    fn root(a: Self) -> Self {
        R(a.0.sqrt())
    }
    fn expo(a: Self) -> Self {
        R(a.0.exp())
    }
    fn magnitude(a: Self) -> Self {
        R(a.0.abs())
    }
    fn circle() -> Self {
        R(std::f64::consts::PI)
    }
    fn lt(a: Self, b: Self) -> bool {
        a.0 < b.0
    }
    fn le(a: Self, b: Self) -> bool {
        a.0 <= b.0
    }
    fn nearest(a: Self) -> usize {
        a.0.round() as usize
    }
    fn raised(a: Self, n: u64) -> Self {
        R(a.0.powi(n as i32))
    }
    fn rational(a: Self, n: u64, d: u64) -> Self {
        R(a.0.powf(n as f64 / d as f64))
    }
    fn whole(a: Self) -> usize {
        a.0 as usize
    }
    fn hypotenuse(a: Self, b: Self) -> Self {
        R(a.0.hypot(b.0))
    }
    fn signed(a: Self, b: Self) -> Self {
        R(a.0.copysign(b.0))
    }
    fn cosine(a: Self) -> Self {
        R(a.0.cos())
    }
    fn finite(a: Self) -> bool {
        a.0.is_finite()
    }
    fn gap() -> Self {
        R(f64::EPSILON)
    }
    fn sqrt(self) -> Self {
        R(self.0.sqrt())
    }
    fn exp(self) -> Self {
        R(self.0.exp())
    }
    fn abs(self) -> Self {
        R(self.0.abs())
    }
    fn pi() -> Self {
        R(std::f64::consts::PI)
    }
    fn less(self, o: Self) -> bool {
        self.0 < o.0
    }
    fn at_most(self, o: Self) -> bool {
        self.0 <= o.0
    }
    fn round(self) -> usize {
        self.0.round() as usize
    }
    fn powi(self, n: u64) -> Self {
        R(self.0.powi(n as i32))
    }
    fn powf(self, n: u64, d: u64) -> Self {
        R(self.0.powf(n as f64 / d as f64))
    }
    fn trunc(self) -> usize {
        self.0 as usize
    }
    fn hypot(self, b: Self) -> Self {
        R(self.0.hypot(b.0))
    }
    fn copysign(self, b: Self) -> Self {
        R(self.0.copysign(b.0))
    }
    fn cos(self) -> Self {
        R(self.0.cos())
    }
    fn is_finite(self) -> bool {
        self.0.is_finite()
    }
    fn epsilon() -> Self {
        R(f64::EPSILON)
    }
}

/// Series of degree 14 on `pieces` subintervals, fitted to the reference quadrature for
/// the numbers of roots up to `top`; constants for the others.
fn rys_tables(top: usize, pieces: usize) -> RysTables<R> {
    let rule = UnitRule::<R>::new(GL_POINTS);
    let deg = 14usize;
    let mut roots = Vec::new();
    let mut weights = Vec::new();
    for n in 1..=MAX_RYS_ROOTS {
        let mut rr = Vec::new();
        let mut ww = Vec::new();
        if n > top {
            for _ in 0..n {
                rr.push(vec![R(0.0)]);
                ww.push(vec![R(0.0)]);
            }
        } else {
            let t_hi = asymptotic_boundary::<R>(2 * n - 1).0;
            let width = t_hi / pieces as f64;
            for s in 0..pieces {
                let a = s as f64 * width;
                let m = deg + 1;
                let mut fr = vec![vec![0.0; m]; n];
                let mut fw = vec![vec![0.0; m]; n];
                for j in 0..m {
                    let xi = (PI * (j as f64 + 0.5) / m as f64).cos();
                    let t = a + 0.5 * width * (xi + 1.0);
                    let mut x = [R(0.0); MAX_RYS_ROOTS];
                    let mut w = [R(0.0); MAX_RYS_ROOTS];
                    rys_finite_reference(&rule, n, R(t), &mut x, &mut w);
                    for i in 0..n {
                        fr[i][j] = x[i].0;
                        fw[i][j] = w[i].0;
                    }
                }
                for i in 0..n {
                    let mut cr = Vec::new();
                    let mut cw = Vec::new();
                    for k in 0..m {
                        let mut sr = 0.0;
                        let mut sw = 0.0;
                        for j in 0..m {
                            let c = (PI * k as f64 * (j as f64 + 0.5) / m as f64).cos();
                            sr += fr[i][j] * c;
                            sw += fw[i][j] * c;
                        }
                        cr.push(R(2.0 * sr / m as f64));
                        cw.push(R(2.0 * sw / m as f64));
                    }
                    rr.push(cr);
                    ww.push(cw);
                }
            }
        }
        roots.push(rr);
        weights.push(ww);
    }
    RysTables::new(roots, weights)
}

fn boys_values(table: &BoysTable<R>, m_max: usize, t: f64) -> Vec<f64> {
    let mut out = vec![R(0.0); m_max + 1];
    boys_array(table, m_max, R(t), &mut out);
    out.iter().map(|x| x.0).collect()
}

fn boys_erf_values(table: &BoysTable<R>, m_max: usize, t: f64, rho: f64, omega: f64) -> Vec<f64> {
    let mut out = vec![R(0.0); m_max + 1];
    boys_array_erf(table, m_max, R(t), R(rho), R(omega), &mut out);
    out.iter().map(|x| x.0).collect()
}

fn boys_quadrature_all(t: f64) -> [f64; 9] {
    let n: usize = 1_000_000;
    let h = 1.0 / n as f64;
    let term = |m: usize, x: f64, et: f64| x.powi(2 * m as i32) * et;
    let (et0, et1) = ((-t * 0.0 * 0.0).exp(), (-t * 1.0 * 1.0).exp());
    let mut sum: [f64; 9] = std::array::from_fn(|m| term(m, 0.0, et0) + term(m, 1.0, et1));
    let mut comp = [0.0f64; 9];
    for i in 1..n {
        let x = i as f64 * h;
        let et = (-t * x * x).exp();
        let weight = if i % 2 == 0 { 2.0 } else { 4.0 };
        let x2 = x * x;
        let mut power = 1.0;
        for m in 0..9 {
            let y = weight * power * et - comp[m];
            let new = sum[m] + y;
            comp[m] = (new - sum[m]) - y;
            sum[m] = new;
            power *= x2;
        }
    }
    std::array::from_fn(|m| sum[m] * h / 3.0)
}

#[test]
fn value_at_zero_is_reciprocal_odd() {
    let table = BoysTable::<R>::new();
    let out = boys_values(&table, 8, 0.0);
    for (m, &fm) in out.iter().enumerate() {
        let expected = 1.0 / (2 * m + 1) as f64;
        assert!((fm - expected).abs() < 1e-15, "m={m}: {fm} vs {expected}");
    }
}

#[test]
fn table_matches_reference_across_grid() {
    let table = BoysTable::<R>::new();
    let mut worst = 0.0f64;
    let mut refv = [R(0.0); BOYS_MAX_M + 1];
    let mut t = 0.0f64;
    while t <= 93.0 + 20.0 {
        for m_max in [0usize, 1, 2, 4, 8, 12, 16, 20, 24] {
            let tab = boys_values(&table, m_max, t);
            boys_reference(m_max, R(t), &mut refv[..=m_max]);
            for m in 0..=m_max {
                let rel = (tab[m] - refv[m].0).abs() / refv[m].0.abs().max(1e-300);
                worst = worst.max(rel);
                assert!(
                    rel < 1e-12,
                    "m={m} T={t}: table {} vs ref {} (rel {rel:e})",
                    tab[m],
                    refv[m].0
                );
            }
        }
        t += 0.037;
    }
    assert!(
        worst < 1e-12,
        "worst table-vs-reference rel error {worst:e}"
    );
}

#[test]
fn f0_at_one_matches_known_value() {
    let table = BoysTable::<R>::new();
    assert!((boys(&table, 0, R(1.0)).0 - 0.746_824_132_812_427_1).abs() < 1e-14);
}

#[test]
fn matches_quadrature_across_regimes() {
    let table = BoysTable::<R>::new();
    let ts = [
        0.0, 1e-6, 0.01, 0.25, 0.5, 1.0, 2.5, 5.0, 10.0, 20.0, 30.0, 34.9, 35.0, 35.1, 50.0,
        100.0,
    ];
    for &t in &ts {
        let out = boys_values(&table, 8, t);
        let quad = boys_quadrature_all(t);
        for (m, &fm) in out.iter().enumerate() {
            let q = quad[m];
            let err = (fm - q).abs() / q.abs().max(1e-300);
            assert!(err < 1e-9, "m={m} T={t}: boys={fm} quad={q} relerr={err:e}");
        }
    }
}

#[test]
fn satisfies_upward_recurrence() {
    let table = BoysTable::<R>::new();
    for &t in &[0.3f64, 3.0, 15.0, 37.0, 80.0] {
        let out = boys_values(&table, 8, t);
        let et = (-t).exp();
        for m in 0..8 {
            let lhs = (2 * m + 1) as f64 * out[m];
            let rhs = 2.0 * t * out[m + 1] + et;
            assert!(
                (lhs - rhs).abs() < 1e-12 * lhs.abs().max(1.0),
                "T={t} m={m}"
            );
        }
    }
}

fn boys_erf_quadrature(m: usize, t: f64, rho: f64, omega: f64) -> f64 {
    let s = omega * omega / (rho + omega * omega);
    let upper = s.sqrt();
    let n: usize = 200_000;
    let h = upper / n as f64;
    let f = |x: f64| x.powi(2 * m as i32) * (-t * x * x).exp();
    let mut sum = f(0.0) + f(upper);
    for i in 1..n {
        let w = if i % 2 == 0 { 2.0 } else { 4.0 };
        sum += w * f(i as f64 * h);
    }
    sum * h / 3.0
}

#[test]
fn erf_matches_truncated_quadrature() {
    let table = BoysTable::<R>::new();
    for &t in &[0.0, 0.3, 2.5, 12.0, 40.0] {
        for &omega in &[0.2, 0.5, 1.0, 4.0] {
            let rho = 0.9;
            let out = boys_erf_values(&table, 6, t, rho, omega);
            for (m, &fm) in out.iter().enumerate() {
                let q = boys_erf_quadrature(m, t, rho, omega);
                let err = (fm - q).abs() / q.abs().max(1e-300);
                assert!(err < 1e-9, "m={m} T={t} omega={omega}: {fm} vs {q} ({err:e})");
            }
        }
    }
}

#[test]
fn erf_limits_and_bounds() {
    let table = BoysTable::<R>::new();
    let rho = 1.3;
    for &t in &[0.0, 1.0, 20.0] {
        let plain = boys_values(&table, 8, t);
        let large = boys_erf_values(&table, 8, t, rho, 1e8);
        for m in 0..=8 {
            assert!(
                (large[m] - plain[m]).abs() < 1e-7 * plain[m],
                "limit m={m} T={t}"
            );
        }
        let att = boys_erf_values(&table, 8, t, rho, 0.5);
        for m in 0..=8 {
            assert!(att[m] > 0.0 && att[m] < plain[m], "bounds m={m} T={t}");
        }
    }
}

#[test]
fn erf_satisfies_recurrence() {
    let table = BoysTable::<R>::new();
    let (rho, omega) = (0.8f64, 0.6f64);
    let s = omega * omega / (rho + omega * omega);
    for &t in &[0.4, 3.0, 25.0] {
        let out = boys_erf_values(&table, 8, t, rho, omega);
        let est = (-s * t).exp();
        for m in 0..8 {
            let lhs = (2 * m + 1) as f64 * out[m];
            let rhs = 2.0 * t * out[m + 1] + s.powf(m as f64 + 0.5) * est;
            assert!(
                (lhs - rhs).abs() < 1e-12 * lhs.abs().max(1e-300),
                "T={t} m={m}"
            );
        }
    }
}

#[test]
fn monotonic_decreasing_in_m() {
    let table = BoysTable::<R>::new();
    for &t in &[0.0, 1.0, 25.0, 60.0] {
        let out = boys_values(&table, 8, t);
        for m in 0..8 {
            assert!(out[m] > out[m + 1], "T={t} m={m}");
        }
    }
}

#[test]
fn large_t_matches_asymptotic_closed_form() {
    let table = BoysTable::<R>::new();
    let odd_df = |m: usize| -> f64 {
        let mut p = 1.0;
        let mut i = 2 * m as i64 - 1;
        while i > 1 {
            p *= i as f64;
            i -= 2;
        }
        p
    };
    let sqrt_pi = PI.sqrt();
    for &t in &[1e3_f64, 1e4, 1e6, 1e8] {
        assert_eq!((-t).exp(), 0.0, "expected e^-T underflow at T={t}");
        let out = boys_values(&table, 24, t);
        for (m, &got) in out.iter().enumerate() {
            let expect = odd_df(m) / 2f64.powi(m as i32 + 1) * sqrt_pi * t.powf(-(m as f64 + 0.5));
            let rel = (got - expect).abs() / expect.abs().max(1e-300);
            assert!(rel < 1e-12, "F_{m}({t}) = {got} vs {expect} (rel {rel:e})");
        }
    }
}

#[test]
fn lanes_are_the_single_ladders() {
    let table = BoysTable::<R>::new();
    let ts = [0.0, 0.4, 17.3, 140.0];
    let mut four = [Lanes::<R>::from_count(0); 9];
    boys_array4(
        &table,
        8,
        Lanes {
            x0: R(ts[0]),
            x1: R(ts[1]),
            x2: R(ts[2]),
            x3: R(ts[3]),
        },
        &mut four,
    );
    for (lane, &t) in ts.iter().enumerate() {
        let single = boys_values(&table, 8, t);
        for m in 0..=8 {
            assert_eq!(four[m].lane(lane).0, single[m], "lane {lane} m={m}");
        }
    }
    let (mut o0, mut o1) = ([R(0.0); 5], [R(0.0); 5]);
    boys_array2(&table, 4, R(0.4), R(17.3), &mut o0, &mut o1);
    for m in 0..=4 {
        assert_eq!(o0[m].0, boys_values(&table, 4, 0.4)[m]);
        assert_eq!(o1[m].0, boys_values(&table, 4, 17.3)[m]);
    }
}

fn odd(n: i64) -> f64 {
    double_factorial::<R>(n).0
}

#[test]
fn double_factorial_small_values() {
    assert_eq!(odd(-1), 1.0);
    assert_eq!(odd(0), 1.0);
    assert_eq!(odd(1), 1.0);
    assert_eq!(odd(3), 3.0);
    assert_eq!(odd(5), 15.0);
    assert_eq!(odd(7), 105.0);
}

fn self_overlap_closed_form(alpha: f64, lx: usize, ly: usize, lz: usize) -> f64 {
    let l = (lx + ly + lz) as i32;
    let df = odd(2 * lx as i64 - 1) * odd(2 * ly as i64 - 1) * odd(2 * lz as i64 - 1);
    df / (4.0 * alpha).powi(l) * (PI / (2.0 * alpha)).powf(1.5)
}

#[test]
fn normalized_primitive_has_unit_self_overlap() {
    for &alpha in &[0.1, 0.8, 1.0, 3.3, 25.0] {
        for &(lx, ly, lz) in &[(0, 0, 0), (1, 0, 0), (0, 1, 1), (2, 0, 0), (1, 1, 1)] {
            let n = cart_norm(R(alpha), lx, ly, lz).0;
            let s = n * n * self_overlap_closed_form(alpha, lx, ly, lz);
            assert!(
                (s - 1.0).abs() < 1e-13,
                "alpha={alpha} l=({lx}{ly}{lz}) s={s}"
            );
        }
    }
}

#[test]
fn tight_core_normalization_is_stable() {
    for &alpha in &[1e3, 1e5, 1e7, 1e8, 1e9] {
        for &(lx, ly, lz) in &[(0, 0, 0), (5, 0, 0), (6, 0, 0), (2, 2, 2), (3, 2, 1)] {
            let n = cart_norm(R(alpha), lx, ly, lz).0;
            assert!(
                n.is_finite() && n > 0.0,
                "N non-finite at alpha={alpha} l=({lx}{ly}{lz}): {n}"
            );
            let s = n * n * self_overlap_closed_form(alpha, lx, ly, lz);
            assert!(
                (s - 1.0).abs() < 1e-12,
                "alpha={alpha} l=({lx}{ly}{lz}) self-overlap={s}"
            );
        }
    }
}

#[test]
fn shell_norm_is_that_of_the_stretched_component() {
    for l in 0..=6 {
        assert_eq!(shell_norm(R(0.7), l).0, cart_norm(R(0.7), l, 0, 0).0);
    }
    assert_eq!(cart_unit_factor::<R>(2, 0, 0).0, 1.0);
    assert!((cart_unit_factor::<R>(1, 1, 0).0 - 3.0f64.sqrt()).abs() < 1e-15);
    assert!((cart_unit_factor::<R>(1, 1, 1).0 - 15.0f64.sqrt()).abs() < 1e-14);
}

fn quadrature(tables: &RysTables<R>, n: usize, t: f64) -> (Vec<f64>, Vec<f64>) {
    let mut roots = [R(0.0); MAX_RYS_ROOTS];
    let mut wts = [R(0.0); MAX_RYS_ROOTS];
    rys_roots_weights(tables, n, R(t), &mut roots, &mut wts);
    (
        roots[..n].iter().map(|x| x.0).collect(),
        wts[..n].iter().map(|x| x.0).collect(),
    )
}

fn reference(rule: &UnitRule<R>, n: usize, t: f64) -> (Vec<f64>, Vec<f64>) {
    let mut roots = [R(0.0); MAX_RYS_ROOTS];
    let mut wts = [R(0.0); MAX_RYS_ROOTS];
    rys_roots_weights_reference(rule, n, R(t), &mut roots, &mut wts);
    (
        roots[..n].iter().map(|x| x.0).collect(),
        wts[..n].iter().map(|x| x.0).collect(),
    )
}

fn moment_residual(tables: &RysTables<R>, table: &BoysTable<R>, n: usize, t: f64) -> f64 {
    let (roots, wts) = quadrature(tables, n, t);
    let fm = boys_values(table, 2 * n - 1, t);
    let mut worst = 0.0_f64;
    for (k, &fk) in fm.iter().enumerate().take(2 * n) {
        let mut q = 0.0;
        for (&wi, &ri) in wts.iter().zip(roots.iter()).take(n) {
            q += wi * ri.powi(k as i32);
        }
        let rel = (q - fk).abs() / fk.abs().max(1e-300);
        worst = worst.max(rel);
    }
    worst
}

#[test]
fn nodes_in_unit_interval_and_weights_positive() {
    let tables = rys_tables(MAX_RYS_ROOTS, 40);
    for &t in &[0.0, 1.0, 13.0, 80.0, 500.0] {
        for n in 1..=MAX_RYS_ROOTS {
            let (roots, wts) = quadrature(&tables, n, t);
            for i in 0..n {
                assert!(
                    roots[i] > 0.0 && roots[i] < 1.0,
                    "node {i} out of (0,1) at n={n} T={t}: {}",
                    roots[i]
                );
                assert!(
                    wts[i] > 0.0,
                    "weight {i} not positive at n={n} T={t}: {}",
                    wts[i]
                );
                if i > 0 {
                    assert!(
                        roots[i] > roots[i - 1],
                        "nodes not ascending at n={n} T={t}"
                    );
                }
            }
        }
    }
}

#[test]
fn reproduces_boys_moments_low_order() {
    let tables = rys_tables(6, 40);
    let table = BoysTable::<R>::new();
    for &t in &[0.0, 1e-4, 0.5, 2.0, 7.0, 20.0] {
        for n in 1..=6 {
            let r = moment_residual(&tables, &table, n, t);
            assert!(r < 1e-11, "moment residual {r:e} at n={n} T={t}");
        }
    }
}

#[test]
fn reproduces_boys_moments_large_t_branch() {
    let tables = rys_tables(0, 1);
    let table = BoysTable::<R>::new();
    for &t in &[120.0, 300.0, 1000.0] {
        for n in 1..=MAX_RYS_ROOTS {
            let r = moment_residual(&tables, &table, n, t);
            assert!(r < 1e-10, "large-T moment residual {r:e} at n={n} T={t}");
        }
    }
}

#[test]
fn one_point_quadrature_is_mean_and_mass() {
    let tables = rys_tables(1, 40);
    let table = BoysTable::<R>::new();
    for &t in &[0.3, 5.0] {
        let (roots, wts) = quadrature(&tables, 1, t);
        let fm = boys_values(&table, 1, t);
        assert!((roots[0] - fm[1] / fm[0]).abs() < 1e-14);
        assert!((wts[0] - fm[0]).abs() < 1e-14);
    }
}

#[test]
fn interp_matches_reference_full_grid() {
    let tables = rys_tables(MAX_RYS_ROOTS, 40);
    let rule = UnitRule::<R>::new(GL_POINTS);
    let mut worst = 0.0_f64;
    let mut at = (0usize, 0.0f64);
    for n in 1..=MAX_RYS_ROOTS {
        let t_hi = asymptotic_boundary::<R>(2 * n - 1).0;
        let steps = 600usize;
        for k in 0..steps {
            let t = t_hi * (k as f64) / (steps as f64);
            let (rp, wp) = quadrature(&tables, n, t);
            let (rr, wr) = reference(&rule, n, t);
            for i in 0..n {
                let e = (rp[i] - rr[i]).abs().max((wp[i] - wr[i]).abs());
                if e > worst {
                    worst = e;
                    at = (n, t);
                }
            }
        }
    }
    assert!(worst < 1e-13, "interp vs reference {worst:.3e} at {at:?}");
}

#[test]
fn large_t_branch_is_bit_identical_to_reference() {
    let tables = rys_tables(0, 1);
    let rule = UnitRule::<R>::new(GL_POINTS);
    for n in 1..=MAX_RYS_ROOTS {
        let seam = asymptotic_boundary::<R>(2 * n - 1).0;
        for &t in &[seam, seam + 1.0, 120.0, 300.0, 1000.0] {
            let (rp, wp) = quadrature(&tables, n, t);
            let (rr, wr) = reference(&rule, n, t);
            for i in 0..n {
                assert_eq!(rp[i], rr[i], "root {i} differs at n={n} T={t}");
                assert_eq!(wp[i], wr[i], "weight {i} differs at n={n} T={t}");
            }
        }
    }
}

#[test]
fn production_invariants_dense_grid() {
    let tables = rys_tables(MAX_RYS_ROOTS, 40);
    for n in 1..=MAX_RYS_ROOTS {
        let t_hi = asymptotic_boundary::<R>(2 * n - 1).0;
        for k in 0..=500 {
            let t = 1.3 * t_hi * (k as f64) / 500.0;
            let (roots, wts) = quadrature(&tables, n, t);
            for i in 0..n {
                assert!(
                    roots[i] > 0.0 && roots[i] < 1.0,
                    "node {i} out of (0,1) at n={n} T={t}: {}",
                    roots[i]
                );
                assert!(wts[i] > 0.0, "weight {i} <= 0 at n={n} T={t}: {}", wts[i]);
                if i > 0 {
                    assert!(roots[i] > roots[i - 1], "nodes not ascending n={n} T={t}");
                }
            }
        }
    }
}

#[test]
fn moment_property_holds_full_grid() {
    let tables = rys_tables(MAX_RYS_ROOTS, 40);
    let table = BoysTable::<R>::new();
    let mut worst = 0.0_f64;
    let mut at = (0usize, 0.0f64);
    for n in 1..=MAX_RYS_ROOTS {
        let t_hi = asymptotic_boundary::<R>(2 * n - 1).0;
        for k in 0..=260 {
            let t = 1.2 * t_hi * (k as f64) / 260.0;
            let r = moment_residual(&tables, &table, n, t);
            if r > worst {
                worst = r;
                at = (n, t);
            }
        }
    }
    assert!(worst < 1e-9, "moment residual {worst:.3e} at {at:?}");
}

#[test]
fn two_point_matrix_has_its_known_eigenvalues() {
    let mut d = vec![R(2.0), R(2.0)];
    let mut e = vec![R(1.0), R(0.0)];
    let mut z = vec![R(1.0), R(0.0)];
    tridiagonal_ql(&mut d, &mut e, &mut z);
    let mut values = [d[0].0, d[1].0];
    if values[1] < values[0] {
        values.swap(0, 1);
    }
    assert!((values[0] - 1.0).abs() < 1e-14 && (values[1] - 3.0).abs() < 1e-14);
    assert!((z[0].0 * z[0].0 - 0.5).abs() < 1e-14 && (z[1].0 * z[1].0 - 0.5).abs() < 1e-14);
}

#[test]
fn one_coefficient_gives_one_node() {
    let (x, w) = golub_welsch(&vec![R(0.25)], &vec![R(3.0)]);
    assert_eq!((x[0].0, w[0].0), (0.25, 3.0));
    let (x, w) = golub_welsch(&vec![R(0.5), R(0.5)], &vec![R(1.0), R(1.0 / 12.0)]);
    assert!(x[0].0 < x[1].0);
    assert!((x[0].0 - (0.5 - 0.5 / 3.0f64.sqrt())).abs() < 1e-14);
    assert!((w[0].0 - 0.5).abs() < 1e-14 && (w[1].0 - 0.5).abs() < 1e-14);
}

#[test]
fn discrete_measure_of_two_points() {
    let (alpha, beta) = stieltjes(2, &vec![R(0.0), R(1.0)], &vec![R(1.0), R(1.0)]);
    assert_eq!((alpha[0].0, beta[0].0), (0.5, 2.0));
    assert_eq!((alpha[1].0, beta[1].0), (0.5, 0.25));
}

#[test]
fn half_line_measure_has_its_mass_and_mean() {
    let (x, w) = laguerre_half_nodes::<R>(1);
    assert_eq!((x[0].0, w[0].0), (0.5, PI.sqrt()));
    for n in 1..=MAX_RYS_ROOTS {
        let (x, w) = laguerre_half_nodes::<R>(n);
        let mass: f64 = w.iter().map(|v| v.0).sum();
        let mean: f64 = x.iter().zip(&w).map(|(u, v)| u.0 * v.0).sum();
        assert!((mass - PI.sqrt()).abs() < 1e-12, "n={n}: {mass}");
        assert!((mean - 0.5 * PI.sqrt()).abs() < 1e-12, "n={n}: {mean}");
    }
}

#[test]
fn unit_rule_integrates_powers() {
    let rule = UnitRule::<R>::new(12);
    for k in 0..24 {
        let s: f64 = rule
            .nodes
            .iter()
            .zip(&rule.weights)
            .map(|(x, w)| w.0 * x.0.powi(k))
            .sum();
        assert!((s - 1.0 / (k + 1) as f64).abs() < 1e-13, "k={k}: {s}");
    }
    for i in 1..12 {
        assert!(rule.nodes[i - 1].0 < rule.nodes[i].0);
    }
}

#[test]
fn dz2_matches_known_unnormalized_form() {
    let c = |lx, ly, lz| racah_real_solid_harmonic_coeff::<R>(2, 0, lx, ly, lz).0;
    assert!((c(0, 0, 2) - 1.0).abs() < 1e-14);
    assert!((c(2, 0, 0) + 0.5).abs() < 1e-14);
    assert!((c(0, 2, 0) + 0.5).abs() < 1e-14);
    assert!(c(1, 1, 0).abs() < 1e-14);
    assert!(c(1, 0, 1).abs() < 1e-14);
    assert!(c(0, 1, 1).abs() < 1e-14);
}

#[test]
fn p_shell_is_identity_up_to_order() {
    let c: Vec<f64> = c2s_matrix::<R>(1).iter().map(|x| x.0).collect();
    let row = |r: usize| &c[r * 3..r * 3 + 3];
    assert!((row(0)[0].abs() - 1.0).abs() < 1e-13);
    assert!(row(0)[1].abs() < 1e-13 && row(0)[2].abs() < 1e-13);
    assert!((row(1)[1].abs() - 1.0).abs() < 1e-13);
    assert!((row(2)[2].abs() - 1.0).abs() < 1e-13);
}

#[test]
fn spherical_functions_are_orthonormal_against_raw_overlap() {
    for l in 0..=6 {
        let c: Vec<f64> = c2s_matrix::<R>(l).iter().map(|x| x.0).collect();
        let comps = cart_components(l);
        let ncart = n_cart(l);
        let nsph = 2 * l + 1;
        let mut s = vec![0.0; ncart * ncart];
        for (i, ci) in comps.iter().enumerate() {
            for (j, cj) in comps.iter().enumerate() {
                s[i * ncart + j] = raw_self_overlap::<R>(l, *ci, *cj).0;
            }
        }
        for p in 0..nsph {
            for q in 0..nsph {
                let mut g = 0.0;
                for i in 0..ncart {
                    let mut si = 0.0;
                    for j in 0..ncart {
                        si += s[i * ncart + j] * c[q * ncart + j];
                    }
                    g += c[p * ncart + i] * si;
                }
                let expect = if p == q { 1.0 } else { 0.0 };
                assert!(
                    (g - expect).abs() < 1e-12,
                    "l={l} G[{p},{q}]={g} expected {expect}"
                );
            }
        }
    }
}

#[test]
fn rotation_changes_sides_of_an_overlap_with_the_opposite_sign() {
    for l in 1..=5usize {
        let comps = cart_components(l);
        let at = |x: i64, y: i64, z: usize| {
            comps
                .iter()
                .position(|c| c[0] as i64 == x && c[1] as i64 == y && c[2] == z)
        };
        let f: Vec<f64> = (0..comps.len()).map(|k| (1.0 + k as f64).sin()).collect();
        let g: Vec<f64> = (0..comps.len()).map(|k| (2.0 * k as f64).cos()).collect();
        let rotated = |f: &Vec<f64>| -> Vec<f64> {
            comps
                .iter()
                .map(|c| {
                    let (x, y) = (c[0] as i64, c[1] as i64);
                    let up = at(x - 1, y + 1, c[2]).map_or(0.0, |k| f[k]);
                    let down = at(x + 1, y - 1, c[2]).map_or(0.0, |k| f[k]);
                    (y + 1) as f64 * up - (x + 1) as f64 * down
                })
                .collect()
        };
        let overlap = |p: &Vec<f64>, q: &Vec<f64>| {
            let mut acc = 0.0;
            for (i, ci) in comps.iter().enumerate() {
                for (j, cj) in comps.iter().enumerate() {
                    acc += p[i] * q[j] * raw_self_overlap::<R>(l, *ci, *cj).0;
                }
            }
            acc
        };
        let (left, right) = (overlap(&rotated(&f), &g), overlap(&f, &rotated(&g)));
        assert!(left.abs() > 1e-6);
        assert!((left + right).abs() < 1e-12 * (1.0 + left.abs()), "l={l}");
    }
}

#[test]
fn matrix_shape_and_component_counts() {
    for l in 0..=6 {
        let c = c2s_matrix::<R>(l);
        assert_eq!(c.len(), (2 * l + 1) * n_cart(l));
        assert_eq!(m_order(l).len(), 2 * l + 1);
    }
}

#[test]
fn monomial_to_raw_factor_values() {
    let factor = |l| monomial_to_raw_factor::<R>(l).0;
    assert_eq!(factor(0), 1.0);
    assert_eq!(factor(1), 1.0);
    assert!((factor(2) - (4.0 * PI / 5.0).sqrt()).abs() < 1e-14);
    assert!((factor(6) - (4.0 * PI / 13.0).sqrt()).abs() < 1e-14);
}

#[test]
fn orders_of_low_degrees() {
    assert_eq!(m_order(0), vec![0]);
    assert_eq!(m_order(1), vec![1, -1, 0]);
    assert_eq!(m_order(2), vec![-2, -1, 0, 1, 2]);
}
