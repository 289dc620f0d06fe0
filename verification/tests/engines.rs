use std::f64::consts::PI;

use integral::ecp::harmonics::{omega2, sphere_monomial, Rsh};
use integral::ecp::radial::{gauss_legendre, gl_nodes, msb_scaled, radial_type1};
use integral::engine::deriv::{accumulate_center_derivative, AxisDeriv};
use integral::engine::grid_pair::{GridCoulombPair, GridCoulombScratch};
use integral::engine::nuclear::{nuclear_into, pvp_nuclear_into};
use integral::engine::operator::{operator_into, Operator};
use integral::engine::os::{dipole_into, kinetic_into, overlap_into, Prim};
use integral::engine::os_eri::{
    coulomb_shell_batch4_into_scratch, coulomb_shell_into, coulomb_shell_into_scratch,
    EriBatch4Scratch, EriScratch,
};
use integral::engine::pairs::{combine, dist2, surviving_pair_count, ShellRef};
use integral::engine::rys::{coulomb_into, erf_coulomb_into};
use integral::math::am::n_cart;
use integral::math::boys::{asymptotic_boundary, boys, boys_array, BoysTable};
use integral::math::gauss::UnitRule;
use integral::math::norm::cart_norm;
use integral::math::rys::{RysTables, MAX_RYS_ROOTS};
use integral::math::rys_reference::{rys_finite_reference, GL_POINTS};
use integral::scalar::{Real, Scalar};

#[derive(Clone, Copy, Debug, PartialEq)]
struct R(f64);

impl Scalar for R {
    fn count(n: u64) -> Self {
        R(n as f64)
    }
    fn sum(a: Self, b: Self) -> Self {
        R(a.0 + b.0)
    }
    fn diff(a: Self, b: Self) -> Self {
        R(a.0 - b.0)
    }
    fn prod(a: Self, b: Self) -> Self {
        R(a.0 * b.0)
    }
    fn quot(a: Self, b: Self) -> Self {
        R(a.0 / b.0)
    }
    fn neg(a: Self) -> Self {
        R(-a.0)
    }
    fn from_count(n: u64) -> Self {
        R(n as f64)
    }
    fn plus(self, o: Self) -> Self {
        R(self.0 + o.0)
    }
    fn minus(self, o: Self) -> Self {
        R(self.0 - o.0)
    }
    fn times(self, o: Self) -> Self {
        R(self.0 * o.0)
    }
    fn over(self, o: Self) -> Self {
        R(self.0 / o.0)
    }
    fn negated(self) -> Self {
        R(-self.0)
    }
}

impl Real for R {
    fn root(a: Self) -> Self {
        R(a.0.sqrt())
    }
    fn expo(a: Self) -> Self {
        R(a.0.exp())
    }
    fn magnitude(a: Self) -> Self {
        R(a.0.abs())
    }
    fn circle() -> Self {
        R(std::f64::consts::PI)
    }
    fn lt(a: Self, b: Self) -> bool {
        a.0 < b.0
    }
    fn le(a: Self, b: Self) -> bool {
        a.0 <= b.0
    }
    fn nearest(a: Self) -> usize {
        a.0.round() as usize
    }
    fn raised(a: Self, n: u64) -> Self {
        R(a.0.powi(n as i32))
    }
    fn rational(a: Self, n: u64, d: u64) -> Self {
        R(a.0.powf(n as f64 / d as f64))
    }
    fn whole(a: Self) -> usize {
        a.0 as usize
    }
    fn hypotenuse(a: Self, b: Self) -> Self {
        R(a.0.hypot(b.0))
    }
    fn signed(a: Self, b: Self) -> Self {
        R(a.0.copysign(b.0))
    }
    fn cosine(a: Self) -> Self {
        R(a.0.cos())
    }
    fn finite(a: Self) -> bool {
        a.0.is_finite()
    }
    fn gap() -> Self {
        R(f64::EPSILON)
    }
    fn sqrt(self) -> Self {
        R(self.0.sqrt())
    }
    fn exp(self) -> Self {
        R(self.0.exp())
    }
    fn abs(self) -> Self {
        R(self.0.abs())
    }
    fn pi() -> Self {
        R(std::f64::consts::PI)
    }
    fn less(self, o: Self) -> bool {
        self.0 < o.0
    }
    fn at_most(self, o: Self) -> bool {
        self.0 <= o.0
    }
    fn round(self) -> usize {
        self.0.round() as usize
    }
    fn powi(self, n: u64) -> Self {
        R(self.0.powi(n as i32))
    }
    fn powf(self, n: u64, d: u64) -> Self {
        R(self.0.powf(n as f64 / d as f64))
    }
    fn trunc(self) -> usize {
        self.0 as usize
    }
    fn hypot(self, b: Self) -> Self {
        R(self.0.hypot(b.0))
    }
    fn copysign(self, b: Self) -> Self {
        R(self.0.copysign(b.0))
    }
    fn cos(self) -> Self {
        R(self.0.cos())
    }
    fn is_finite(self) -> bool {
        self.0.is_finite()
    }
    fn epsilon() -> Self {
        R(f64::EPSILON)
    }
}

/// Series of degree 14 on `pieces` subintervals, fitted to the reference quadrature for
/// the numbers of roots up to `top`; constants for the others.
fn rys_tables(top: usize, pieces: usize) -> RysTables<R> {
    let rule = UnitRule::<R>::new(GL_POINTS);
    let deg = 14usize;
    let mut roots = Vec::new();
    let mut weights = Vec::new();
    for n in 1..=MAX_RYS_ROOTS {
        let mut rr = Vec::new();
        let mut ww = Vec::new();
        if n > top {
            for _ in 0..n {
                rr.push(vec![R(0.0)]);
                ww.push(vec![R(0.0)]);
            }
        } else {
            let t_hi = asymptotic_boundary::<R>(2 * n - 1).0;
            let width = t_hi / pieces as f64;
            for s in 0..pieces {
                let a = s as f64 * width;
                let m = deg + 1;
                let mut fr = vec![vec![0.0; m]; n];
                let mut fw = vec![vec![0.0; m]; n];
                for j in 0..m {
                    let xi = (PI * (j as f64 + 0.5) / m as f64).cos();
                    let t = a + 0.5 * width * (xi + 1.0);
                    let mut x = [R(0.0); MAX_RYS_ROOTS];
                    let mut w = [R(0.0); MAX_RYS_ROOTS];
                    rys_finite_reference(&rule, n, R(t), &mut x, &mut w);
                    for i in 0..n {
                        fr[i][j] = x[i].0;
                        fw[i][j] = w[i].0;
                    }
                }
                for i in 0..n {
                    let mut cr = Vec::new();
                    let mut cw = Vec::new();
                    for k in 0..m {
                        let mut sr = 0.0;
                        let mut sw = 0.0;
                        for j in 0..m {
                            let c = (PI * k as f64 * (j as f64 + 0.5) / m as f64).cos();
                            sr += fr[i][j] * c;
                            sw += fw[i][j] * c;
                        }
                        cr.push(R(2.0 * sr / m as f64));
                        cw.push(R(2.0 * sw / m as f64));
                    }
                    rr.push(cr);
                    ww.push(cw);
                }
            }
        }
        roots.push(rr);
        weights.push(ww);
    }
    RysTables::new(roots, weights)
}

fn v(c: [f64; 3]) -> [R; 3] {
    [R(c[0]), R(c[1]), R(c[2])]
}

fn rs(x: &[f64]) -> Vec<R> {
    x.iter().map(|&y| R(y)).collect()
}

fn fs(x: &[R]) -> Vec<f64> {
    x.iter().map(|y| y.0).collect()
}

fn prim(exp: f64, center: [f64; 3], l: usize) -> Prim<R> {
    Prim::new(R(exp), v(center), l)
}

fn zeros(n: usize) -> Vec<R> {
    vec![R(0.0); n]
}

fn norm_s(alpha: f64) -> f64 {
    cart_norm(R(alpha), 0, 0, 0).0
}

fn overlap(a: Prim<R>, b: Prim<R>, scale: f64) -> Vec<f64> {
    let mut out = zeros(n_cart(a.l) * n_cart(b.l));
    overlap_into(a, b, R(scale), &mut out);
    fs(&out)
}

#[test]
fn s_s_overlap_matches_analytic() {
    let (a, b) = (1.2, 0.8);
    let scale = norm_s(a) * norm_s(b);
    let out = overlap(
        prim(a, [0.0, 0.0, 0.0], 0),
        prim(b, [0.0, 0.0, 1.3], 0),
        scale,
    );
    let p = a + b;
    let mu = a * b / p;
    let r2 = 1.3_f64.powi(2);
    let raw = (PI / p).powf(1.5) * (-mu * r2).exp();
    let expected = norm_s(a) * norm_s(b) * raw;
    assert!(
        (out[0] - expected).abs() < 1e-13,
        "{} vs {}",
        out[0],
        expected
    );
}

#[test]
fn same_center_normalized_s_overlap_is_one() {
    let a = 0.9;
    let c = [0.2, -0.4, 0.5];
    let out = overlap(prim(a, c, 0), prim(a, c, 0), norm_s(a) * norm_s(a));
    assert!((out[0] - 1.0).abs() < 1e-13, "{}", out[0]);
}

#[test]
fn s_s_kinetic_matches_analytic() {
    let (a, b) = (1.1, 0.7);
    let mut t = zeros(1);
    kinetic_into(
        prim(a, [0.0, 0.0, 0.0], 0),
        prim(b, [0.0, 0.6, 0.0], 0),
        R(1.0),
        &mut t,
    );
    let p = a + b;
    let mu = a * b / p;
    let r2 = 0.6_f64.powi(2);
    let s_ss = (PI / p).powf(1.5) * (-mu * r2).exp();
    let expected = mu * (3.0 - 2.0 * mu * r2) * s_ss;
    assert!(
        (t[0].0 - expected).abs() < 1e-13,
        "{} vs {}",
        t[0].0,
        expected
    );
}

#[test]
fn nuclear_s_s_matches_analytic() {
    let table = BoysTable::<R>::new();
    let (a, b) = (1.3, 0.9);
    let c = [0.0, 0.0, 0.4];
    let mut out = zeros(1);
    nuclear_into(
        &table,
        prim(a, [0.0, 0.0, 0.0], 0),
        prim(b, [0.0, 0.0, 1.0], 0),
        &[(v(c), R(1.0))],
        R(1.0),
        &mut out,
    );
    let p = a + b;
    let mu = a * b / p;
    let pcenter = (a * 0.0 + b * 1.0) / p;
    let r2 = 1.0_f64.powi(2);
    let pc2 = (pcenter - 0.4).powi(2);
    let expected = -(2.0 * PI / p) * (-mu * r2).exp() * boys(&table, 0, R(p * pc2)).0;
    assert!(
        (out[0].0 - expected).abs() < 1e-13,
        "{} vs {}",
        out[0].0,
        expected
    );
}

#[test]
fn blocks_are_transpose_symmetric() {
    let table = BoysTable::<R>::new();
    let pa = prim(1.4, [0.1, 0.0, -0.2], 0);
    let pb = prim(0.6, [0.0, 0.5, 0.3], 0);
    let charges = [
        (v([0.2, -0.1, 0.4]), R(3.0)),
        (v([-0.3, 0.2, 0.0]), R(1.0)),
    ];
    for (la, lb) in [(1, 0), (1, 1), (2, 1), (2, 2)] {
        let a = Prim { l: la, ..pa };
        let b = Prim { l: lb, ..pb };
        let (na, nb) = (n_cart(la), n_cart(lb));
        for kind in 0..3 {
            let mut fwd = zeros(na * nb);
            let mut rev = zeros(nb * na);
            match kind {
                0 => {
                    overlap_into(a, b, R(1.0), &mut fwd);
                    overlap_into(b, a, R(1.0), &mut rev);
                }
                1 => {
                    kinetic_into(a, b, R(1.0), &mut fwd);
                    kinetic_into(b, a, R(1.0), &mut rev);
                }
                _ => {
                    nuclear_into(&table, a, b, &charges, R(1.0), &mut fwd);
                    nuclear_into(&table, b, a, &charges, R(1.0), &mut rev);
                }
            }
            for i in 0..na {
                for j in 0..nb {
                    let f = fwd[i * nb + j].0;
                    let r = rev[j * na + i].0;
                    assert!(
                        (f - r).abs() < 1e-12 * f.abs().max(1.0),
                        "kind={kind} (la={la},lb={lb}) [{i},{j}]: {f} vs {r}"
                    );
                }
            }
        }
    }
}

#[test]
fn grid_pair_matches_negated_nuclear() {
    let table = BoysTable::<R>::new();
    let a_c = [0.1, -0.3, 0.2];
    let b_c = [-0.4, 0.5, 0.7];
    let prim_pairs = [(1.3, 0.9, 0.8), (0.5, 0.9, -0.4), (1.3, 0.3, 1.1)];
    let points = [[0.3, 0.2, -0.5], [-1.0, 0.4, 0.9], [0.1, -0.3, 0.2]];
    for (la, lb) in [(0, 0), (1, 0), (2, 1), (3, 2), (4, 4)] {
        let given: Vec<(R, R, R)> = prim_pairs
            .iter()
            .map(|&(a, b, s)| (R(a), R(b), R(s)))
            .collect();
        let pair = GridCoulombPair::new(la, lb, v(a_c), v(b_c), &given);
        let (na, nb) = pair.dims();
        let mut scratch = GridCoulombScratch::new();
        let mut got = zeros(na * nb);
        for &c in &points {
            pair.eval_into(&table, v(c), &mut scratch, &mut got);
            let mut reference = zeros(na * nb);
            for &(alpha, beta, scale) in &prim_pairs {
                nuclear_into(
                    &table,
                    prim(alpha, a_c, la),
                    prim(beta, b_c, lb),
                    &[(v(c), R(1.0))],
                    R(scale),
                    &mut reference,
                );
            }
            let peak = reference.iter().fold(0.0_f64, |m, x| m.max(x.0.abs()));
            for (idx, (g, r)) in got.iter().zip(&reference).enumerate() {
                let want = -r.0;
                let g = g.0;
                assert!(
                    (g - want).abs() <= 1e-12 * want.abs().max(1e-3 * peak),
                    "(la={la},lb={lb}) elem {idx}: {g} vs {want}"
                );
            }
        }
    }
}

#[test]
fn dipole_same_center_s_is_position_times_overlap() {
    let a = 1.0;
    let r = [0.3, -0.2, 0.7];
    let o = [0.1, 0.1, 0.1];
    let scale = norm_s(a) * norm_s(a);
    let (mut dx, mut dy, mut dz) = (zeros(1), zeros(1), zeros(1));
    dipole_into(
        prim(a, r, 0),
        prim(a, r, 0),
        v(o),
        R(scale),
        &mut dx,
        &mut dy,
        &mut dz,
    );
    assert!((dx[0].0 - (r[0] - o[0])).abs() < 1e-13, "{}", dx[0].0);
    assert!((dy[0].0 - (r[1] - o[1])).abs() < 1e-13, "{}", dy[0].0);
    assert!((dz[0].0 - (r[2] - o[2])).abs() < 1e-13, "{}", dz[0].0);
}

fn shell_ref<'a>(center: [f64; 3], l: usize, exps: &'a [R], coeffs: &'a [R]) -> ShellRef<'a, R> {
    ShellRef {
        center: v(center),
        l,
        exps,
        coeffs,
    }
}

fn closed_form_ssss(table: &BoysTable<R>, attenuation: Option<f64>) -> f64 {
    let (ac, bc) = (v([0.0, 0.0, 0.0]), v([0.0, 0.0, 0.7]));
    let (cc, dc) = (v([0.4, 0.0, 0.0]), v([0.0, 0.6, 0.2]));
    let p = 0.8 + 1.3;
    let q = 0.5 + 1.1;
    let pcen = combine(R(0.8), ac, R(1.3), bc, R(p));
    let qcen = combine(R(0.5), cc, R(1.1), dc, R(q));
    let kab = (-(0.8 * 1.3 / p) * dist2(ac, bc).0).exp();
    let kcd = (-(0.5 * 1.1 / q) * dist2(cc, dc).0).exp();
    let rho = p * q / (p + q);
    let t = rho * dist2(pcen, qcen).0;
    let s = match attenuation {
        None => 1.0,
        Some(omega) => omega * omega / (rho + omega * omega),
    };
    let mut fm = [R(0.0); 1];
    boys_array(table, 0, R(s * t), &mut fm);
    2.0 * PI * PI * PI.sqrt() / (p * q * (p + q).sqrt()) * kab * kcd * s.sqrt() * fm[0].0
}

fn four_s() -> [Prim<R>; 4] {
    [
        prim(0.8, [0.0, 0.0, 0.0], 0),
        prim(1.3, [0.0, 0.0, 0.7], 0),
        prim(0.5, [0.4, 0.0, 0.0], 0),
        prim(1.1, [0.0, 0.6, 0.2], 0),
    ]
}

#[test]
fn os_eri_ssss_matches_closed_form() {
    let table = BoysTable::<R>::new();
    let one = [R(1.0)];
    let mut out = [R(0.0); 1];
    coulomb_shell_into(
        &table,
        shell_ref([0.0, 0.0, 0.0], 0, &[R(0.8)], &one),
        shell_ref([0.0, 0.0, 0.7], 0, &[R(1.3)], &one),
        shell_ref([0.4, 0.0, 0.0], 0, &[R(0.5)], &one),
        shell_ref([0.0, 0.6, 0.2], 0, &[R(1.1)], &one),
        &mut out,
    );
    let expect = closed_form_ssss(&table, None);
    assert!(
        (out[0].0 - expect).abs() < 1e-14 * expect.abs(),
        "ssss {} vs {}",
        out[0].0,
        expect
    );
}

#[test]
fn rys_ssss_matches_closed_form() {
    let table = BoysTable::<R>::new();
    let tables = rys_tables(1, 40);
    let [a, b, c, d] = four_s();
    let mut out = [R(0.0); 1];
    coulomb_into(&tables, a, b, c, d, R(1.0), &mut out);
    let expect = closed_form_ssss(&table, None);
    assert!(
        (out[0].0 - expect).abs() < 1e-14 * expect.abs(),
        "ssss {} vs {}",
        out[0].0,
        expect
    );
}

#[test]
fn scale_and_accumulate() {
    let tables = rys_tables(1, 40);
    let [a, b, c, d] = four_s();
    let mut one = [R(0.0); 1];
    coulomb_into(&tables, a, b, c, d, R(1.0), &mut one);
    let mut acc = [R(0.0); 1];
    coulomb_into(&tables, a, b, c, d, R(2.0), &mut acc);
    coulomb_into(&tables, a, b, c, d, R(3.0), &mut acc);
    assert!((acc[0].0 - 5.0 * one[0].0).abs() < 1e-12 * one[0].0.abs());
}

#[test]
fn erf_ssss_matches_closed_form() {
    let table = BoysTable::<R>::new();
    let tables = rys_tables(1, 40);
    let [a, b, c, d] = four_s();
    for omega in [0.2, 0.7, 1.5, 30.0] {
        let mut out = [R(0.0); 1];
        erf_coulomb_into(&tables, a, b, c, d, R(omega), R(1.0), &mut out);
        let expect = closed_form_ssss(&table, Some(omega));
        assert!(
            (out[0].0 - expect).abs() < 1e-13 * expect.abs(),
            "erf ssss omega={omega}: {} vs {}",
            out[0].0,
            expect
        );
    }
}

#[test]
fn erf_large_omega_reproduces_coulomb_primitive() {
    let tables = rys_tables(3, 40);
    let a = prim(0.9, [0.1, 0.0, 0.0], 1);
    let b = prim(0.7, [0.0, 0.2, 0.0], 2);
    let c = prim(1.2, [0.0, 0.0, 0.3], 0);
    let d = prim(0.6, [0.2, 0.1, 0.0], 1);
    let n = 3 * 6 * 3;
    let mut coul = zeros(n);
    coulomb_into(&tables, a, b, c, d, R(1.0), &mut coul);
    let mut erf = zeros(n);
    erf_coulomb_into(&tables, a, b, c, d, R(1e6), R(1.0), &mut erf);
    let scale_ref = coul.iter().fold(0.0f64, |m, x| m.max(x.0.abs()));
    for (x, y) in erf.iter().zip(coul.iter()) {
        let (x, y) = (x.0, y.0);
        assert!(
            (x - y).abs() <= 1e-10 * y.abs().max(1e-3 * scale_ref),
            "large omega: {x} vs {y}"
        );
    }
}

#[test]
fn bra_ket_exchange_primitive() {
    let tables = rys_tables(1, 40);
    let a = prim(0.9, [0.1, 0.0, 0.0], 1);
    let b = prim(0.7, [0.0, 0.2, 0.0], 0);
    let c = prim(1.2, [0.0, 0.0, 0.3], 0);
    let d = prim(0.6, [0.2, 0.1, 0.0], 0);
    let mut abcd = zeros(3);
    coulomb_into(&tables, a, b, c, d, R(1.0), &mut abcd);
    let mut cdab = zeros(3);
    coulomb_into(&tables, c, d, a, b, R(1.0), &mut cdab);
    for i in 0..3 {
        assert!(
            (abcd[i].0 - cdab[i].0).abs() < 1e-13 * abcd[i].0.abs().max(1e-300),
            "bra-ket exchange mismatch at {i}: {} vs {}",
            abcd[i].0,
            cdab[i].0
        );
    }
}

fn assert_cross_engine_close(os: &[R], rys: &[R], tag: &str) {
    let (atol, rtol) = (1e-11, 1e-10);
    for (o, r) in os.iter().zip(rys.iter()) {
        let (o, r) = (o.0, r.0);
        assert!(
            (o - r).abs() <= atol + rtol * r.abs(),
            "{tag} recurrence vs quadrature: {o} vs {r} ({:e})",
            (o - r).abs()
        );
    }
}

#[test]
fn matches_rys_engine_primitive_sweep() {
    let table = BoysTable::<R>::new();
    let tables = rys_tables(7, 40);
    let ca = [0.0, 0.0, 0.0];
    let cb = [0.5, -0.3, 0.2];
    let cc = [-0.4, 0.6, -0.1];
    let cd = [0.2, 0.4, 0.8];
    let (ea, eb, ec, ed) = (0.9, 1.3, 0.7, 1.1);
    let quartets = [
        (0usize, 0usize, 0usize, 0usize),
        (1, 0, 0, 0),
        (0, 0, 1, 0),
        (1, 1, 0, 0),
        (1, 0, 1, 0),
        (1, 1, 1, 1),
        (2, 0, 0, 0),
        (2, 1, 0, 0),
        (2, 1, 2, 1),
        (0, 1, 2, 3),
        (2, 2, 3, 3),
        (3, 0, 0, 1),
        (4, 4, 4, 1),
        (6, 6, 1, 0),
        (3, 3, 3, 3),
    ];
    let one = [R(1.0)];
    for (la, lb, lc, ld) in quartets {
        let mut os = zeros(n_cart(la) * n_cart(lb) * n_cart(lc) * n_cart(ld));
        coulomb_shell_into(
            &table,
            shell_ref(ca, la, &[R(ea)], &one),
            shell_ref(cb, lb, &[R(eb)], &one),
            shell_ref(cc, lc, &[R(ec)], &one),
            shell_ref(cd, ld, &[R(ed)], &one),
            &mut os,
        );
        let mut rys = zeros(os.len());
        coulomb_into(
            &tables,
            prim(ea, ca, la),
            prim(eb, cb, lb),
            prim(ec, cc, lc),
            prim(ed, cd, ld),
            R(1.0),
            &mut rys,
        );
        assert_cross_engine_close(&os, &rys, &format!("({la}{lb}|{lc}{ld})"));
    }
}

#[test]
fn contracted_quartet_matches_rys_sum() {
    let table = BoysTable::<R>::new();
    let tables = rys_tables(3, 40);
    let ca = [0.0, 0.0, 0.0];
    let cb = [0.6, -0.2, 0.1];
    let cc = [-0.3, 0.5, -0.2];
    let cd = [0.2, 0.3, 0.7];
    let (la, lb, lc, ld) = (1usize, 1usize, 2usize, 0usize);
    let ax = rs(&[1.4, 0.45]);
    let acf = rs(&[0.6, 0.5]);
    let bx = rs(&[0.9, 0.3]);
    let bcf = rs(&[0.55, 0.5]);
    let cx = rs(&[1.1, 0.4]);
    let ccf = rs(&[0.7, 0.4]);
    let dx = rs(&[0.8]);
    let dcf = rs(&[1.0]);
    let mut os = zeros(n_cart(la) * n_cart(lb) * n_cart(lc) * n_cart(ld));
    coulomb_shell_into(
        &table,
        shell_ref(ca, la, &ax, &acf),
        shell_ref(cb, lb, &bx, &bcf),
        shell_ref(cc, lc, &cx, &ccf),
        shell_ref(cd, ld, &dx, &dcf),
        &mut os,
    );
    let mut rys = zeros(os.len());
    for (ea, wa) in ax.iter().zip(acf.iter()) {
        for (eb, wb) in bx.iter().zip(bcf.iter()) {
            for (ec, wc) in cx.iter().zip(ccf.iter()) {
                for (ed, wd) in dx.iter().zip(dcf.iter()) {
                    coulomb_into(
                        &tables,
                        Prim::new(*ea, v(ca), la),
                        Prim::new(*eb, v(cb), lb),
                        Prim::new(*ec, v(cc), lc),
                        Prim::new(*ed, v(cd), ld),
                        R(wa.0 * wb.0 * wc.0 * wd.0),
                        &mut rys,
                    );
                }
            }
        }
    }
    for (o, r) in os.iter().zip(rys.iter()) {
        let (o, r) = (o.0, r.0);
        assert!(
            (o - r).abs() <= 1e-10 * r.abs().max(1e-12),
            "contracted recurrence vs quadrature: {o} vs {r}"
        );
    }
}

#[test]
fn batched_lanes_are_the_single_quartets() {
    let table = BoysTable::<R>::new();
    let exps = [rs(&[1.4, 0.45]), rs(&[0.9, 0.3]), rs(&[1.1, 0.4]), rs(&[0.8, 0.2])];
    let cfs = rs(&[0.6, 0.5]);
    let centers = [
        [0.0, 0.0, 0.0],
        [0.6, -0.2, 0.1],
        [-0.3, 0.5, -0.2],
        [0.2, 0.3, 0.7],
    ];
    for ls in [[0, 0, 0, 0], [1, 1, 1, 0], [2, 1, 1, 1], [2, 2, 2, 2]] {
        let lane = |k: usize| -> [ShellRef<R>; 4] {
            std::array::from_fn(|p| {
                shell_ref(centers[(p + k) % 4], ls[p], &exps[(p + 2 * k) % 4], &cfs)
            })
        };
        let quartets = [lane(0), lane(1), lane(2), lane(3)];
        let n: usize = ls.iter().map(|&l| n_cart(l)).product();
        let mut outs: Vec<Vec<R>> = vec![zeros(n); 4];
        let mut scratch = EriBatch4Scratch::new();
        coulomb_shell_batch4_into_scratch(&mut scratch, &table, &quartets, &mut outs);
        for k in 0..4 {
            let [a, b, c, d] = quartets[k];
            let mut single = zeros(n);
            let mut s = EriScratch::new();
            coulomb_shell_into_scratch(&mut s, &table, a, b, c, d, &mut single);
            for (x, y) in outs[k].iter().zip(&single) {
                assert!(
                    (x.0 - y.0).abs() <= 1e-13 * y.0.abs().max(1e-3),
                    "lane {k}: {} vs {}",
                    x.0,
                    y.0
                );
            }
        }
    }
}

#[test]
fn far_apart_pairs_are_left_out() {
    let one = [R(1.0)];
    let near = shell_ref([0.0, 0.0, 0.0], 0, &[R(1.0)], &one);
    let far = shell_ref([0.0, 0.0, 60.0], 0, &[R(1.0)], &one);
    assert_eq!(surviving_pair_count(near, near), 1);
    assert_eq!(surviving_pair_count(near, far), 0);
    let table = BoysTable::<R>::new();
    let mut out = [R(7.0)];
    coulomb_shell_into(&table, near, far, near, near, &mut out);
    assert_eq!(out[0].0, 7.0);
}

#[test]
fn momentum_dressed_attraction_of_equal_s_shells() {
    let table = BoysTable::<R>::new();
    let a = prim(1.0, [0.0, 0.0, 0.0], 0);
    let mut out = zeros(1);
    pvp_nuclear_into(&table, a, a, &[(v([0.0, 0.0, 0.0]), R(1.0))], R(1.0), &mut out);
    let expect = -4.0 * 2.0 * PI / (2.0 * 2.0) ;
    assert!((out[0].0 - expect).abs() < 1e-12, "{} vs {expect}", out[0].0);
}

fn desc(l: usize, cart_axis: usize, outer: usize, inner: usize) -> AxisDeriv {
    AxisDeriv {
        l,
        cart_axis,
        outer,
        inner,
    }
}

fn derive(
    d: AxisDeriv,
    scale: f64,
    raised: &[f64],
    lowered: Option<&[f64]>,
    out: &mut Vec<f64>,
) {
    let mut o = rs(out);
    match lowered {
        None => accumulate_center_derivative(d, R(scale), &rs(raised), None, &mut o),
        Some(low) => {
            let low = rs(low);
            accumulate_center_derivative(d, R(scale), &rs(raised), Some(&low), &mut o)
        }
    }
    *out = fs(&o);
}

#[test]
fn s_function_derivative_is_raise_only() {
    let raised = vec![10.0, 20.0, 30.0];
    let mut out = vec![0.0; 1];
    derive(desc(0, 0, 1, 1), 1.0, &raised, None, &mut out);
    assert_eq!(out[0], 10.0);
    let mut outy = vec![0.0; 1];
    derive(desc(0, 1, 1, 1), 1.0, &raised, None, &mut outy);
    assert_eq!(outy[0], 20.0);
}

#[test]
fn p_function_derivative_has_raise_and_lower() {
    let d = vec![1.0, 2.0, 3.0, 4.0, 5.0, 6.0];
    let s = vec![7.0];
    let mut out = vec![0.0; 3];
    derive(desc(1, 0, 1, 1), 1.0, &d, Some(&s), &mut out);
    assert_eq!(out[0], 1.0 - 7.0);
    assert_eq!(out[1], 2.0);
    assert_eq!(out[2], 3.0);
}

#[test]
fn scale_multiplies_and_accumulates() {
    let raised = vec![10.0, 0.0, 0.0];
    let mut out = vec![0.0; 1];
    derive(desc(0, 0, 1, 1), 2.0, &raised, None, &mut out);
    derive(desc(0, 0, 1, 1), 3.0, &raised, None, &mut out);
    assert_eq!(out[0], (2.0 + 3.0) * 10.0);
}

#[test]
fn outer_indexing_places_correctly() {
    let raised = vec![1.0, 0.0, 0.0, 2.0, 0.0, 0.0];
    let mut out = vec![0.0; 2];
    derive(desc(0, 0, 2, 1), 1.0, &raised, None, &mut out);
    assert_eq!(out, vec![1.0, 2.0]);
}

#[test]
fn inner_indexing_places_correctly() {
    let raised = vec![11.0, 12.0, 21.0, 22.0, 31.0, 32.0];
    let mut out = vec![0.0; 2];
    derive(desc(0, 0, 1, 2), 1.0, &raised, None, &mut out);
    assert_eq!(out, vec![11.0, 12.0]);
}

fn apply(op: &Operator<R>, a: Prim<R>, b: Prim<R>) -> (Vec<f64>, Vec<f64>) {
    let n = n_cart(a.l) * n_cart(b.l);
    let (mut re, mut im) = (zeros(n), zeros(n));
    operator_into(op, a, b, R(1.0), &mut re, &mut im);
    (fs(&re), fs(&im))
}

#[test]
fn identity_is_overlap() {
    let a = prim(1.1, [0.0, 0.0, 0.0], 1);
    let b = prim(0.7, [0.3, -0.2, 0.5], 1);
    let s = overlap(a, b, 1.0);
    let (re, im) = apply(&Operator::identity(), a, b);
    for k in 0..9 {
        assert!((re[k] - s[k]).abs() < 1e-14, "{} vs {}", re[k], s[k]);
        assert_eq!(im[k], 0.0);
    }
}

#[test]
fn dipole_about_ket_center_is_pure_raise() {
    let a = prim(1.0, [0.1, 0.0, 0.0], 0);
    let bc = [0.4, -0.2, 0.3];
    let b = prim(0.8, bc, 0);
    let (re, im) = apply(&Operator::dipole(0, v(bc)), a, b);
    let raise = overlap(a, prim(0.8, bc, 1), 1.0);
    assert!((re[0] - raise[0]).abs() < 1e-14);
    assert_eq!(im[0], 0.0);
}

#[test]
fn momentum_same_center_s_is_zero() {
    let c = [0.2, 0.1, -0.3];
    let (re, im) = apply(&Operator::momentum(0), prim(1.0, c, 0), prim(1.0, c, 0));
    assert_eq!(re[0], 0.0);
    assert!(im[0].abs() < 1e-14, "im={}", im[0]);
}

#[test]
fn half_p_dot_p_is_kinetic() {
    let a = prim(1.3, [0.0, 0.0, 0.0], 2);
    let b = prim(0.6, [0.4, -0.3, 0.5], 2);
    let mut t = zeros(36);
    kinetic_into(a, b, R(1.0), &mut t);
    let (re, im) = apply(&Operator::kinetic(), a, b);
    for k in 0..36 {
        assert!(
            (re[k] - t[k].0).abs() < 1e-12,
            "k={k}: {} vs {}",
            re[k],
            t[k].0
        );
        assert_eq!(im[k], 0.0);
    }
}

#[test]
fn degree_is_max_factors() {
    let zero = v([0.0; 3]);
    assert_eq!(Operator::<R>::identity().degree(), 0);
    assert_eq!(Operator::dipole(0, zero).degree(), 1);
    assert_eq!(Operator::<R>::momentum(1).degree(), 1);
    assert_eq!(Operator::quadrupole(0, 1, zero).degree(), 2);
    assert_eq!(Operator::<R>::kinetic().degree(), 2);
    assert_eq!(Operator::angular_momentum(2, zero).degree(), 2);
}

#[test]
fn rsh_orthonormal() {
    let rsh = Rsh::<R>::new(8);
    for l1 in 0..=8usize {
        for l2 in 0..=8usize {
            for m1 in -(l1 as i32)..=l1 as i32 {
                for m2 in -(l2 as i32)..=l2 as i32 {
                    let s = omega2(rsh.poly(l1, m1), rsh.poly(l2, m2), [0, 0, 0]).0;
                    let expect = if l1 == l2 && m1 == m2 { 1.0 } else { 0.0 };
                    assert!((s - expect).abs() < 1e-12, "<{l1},{m1}|{l2},{m2}> = {s}");
                }
            }
        }
    }
}

#[test]
fn gauss_legendre_integrates_polynomials() {
    for &n in &[8usize, 64, 128] {
        let gl: Vec<(f64, f64)> = gauss_legendre::<R>(n)
            .iter()
            .map(|&(x, w)| (x.0, w.0))
            .collect();
        let s0: f64 = gl.iter().map(|&(_, w)| w).sum();
        let s2: f64 = gl.iter().map(|&(x, w)| w * x * x).sum();
        let s6: f64 = gl.iter().map(|&(x, w)| w * x.powi(6)).sum();
        assert!((s0 - 2.0).abs() < 1e-14, "n={n} sum {s0}");
        assert!((s2 - 2.0 / 3.0).abs() < 1e-14, "n={n}");
        assert!((s6 - 2.0 / 7.0).abs() < 1e-14, "n={n}");
    }
}

fn bessel(x: f64, lmax: usize) -> Vec<f64> {
    let mut out = zeros(lmax + 1);
    msb_scaled(R(x), lmax, &mut out);
    fs(&out)
}

#[test]
fn scaled_bessel_consistency() {
    let m = bessel(0.0, 12);
    assert_eq!(m[0], 1.0);
    for &x in &m[1..] {
        assert_eq!(x, 0.0);
    }
    let m = bessel(5.0, 12);
    for lam in 1..12 {
        let lhs = m[lam - 1] - m[lam + 1];
        let rhs = (2 * lam + 1) as f64 / 5.0 * m[lam];
        assert!((lhs - rhs).abs() < 1e-15 * m[0], "lambda={lam}");
    }
    let x = 90.0_f64;
    let series = bessel(x, 12);
    let e2 = (-2.0 * x).exp();
    let mut rec = [0.0; 13];
    rec[0] = (1.0 - e2) / (2.0 * x);
    rec[1] = ((x - 1.0) + (x + 1.0) * e2) / (2.0 * x * x);
    for lam in 2..=12 {
        rec[lam] = rec[lam - 2] - (2 * lam - 1) as f64 / x * rec[lam - 1];
    }
    for lam in 0..=12 {
        assert!(
            (series[lam] - rec[lam]).abs() < 1e-12 * rec[lam].abs(),
            "lambda={lam}: {} vs {}",
            series[lam],
            rec[lam]
        );
    }
    for &x in &[0.3, 4.0, 40.0, 99.0, 150.0] {
        let m = bessel(x, 2);
        let exact = (1.0 - (-2.0 * x).exp()) / (2.0 * x);
        assert!((m[0] - exact).abs() < 1e-14, "x={x}");
    }
}

#[test]
fn radial_type1_matches_simpson() {
    let nodes = gl_nodes::<R>();
    let mut mb = zeros(5);
    for &(alpha, k) in &[(1.7_f64, 0.0_f64), (1.7, 3.0), (24.0, 11.0), (0.4, 1.2)] {
        let q = radial_type1(&nodes, R(alpha), R(k), R(0.0), 1, 4, &mut mb);
        let n = 80_000;
        let h = 40.0 / n as f64;
        let mut acc = [0.0; 25];
        for i in 0..=n {
            let w = if i == 0 || i == n {
                1.0
            } else if i % 2 == 1 {
                4.0
            } else {
                2.0
            };
            let r = i as f64 * h;
            let b = bessel(k * r, 4);
            for lam in 0..=4usize {
                for s in 0..=4usize {
                    acc[lam * 5 + s] +=
                        w * (r.powi(1 + s as i32) * ((k - alpha * r) * r).exp() * b[lam]);
                }
            }
        }
        for lam in 0..=4usize {
            for s in 0..=4usize {
                let got = q[lam * 5 + s].0;
                let want = acc[lam * 5 + s] * h / 3.0;
                assert!(
                    (got - want).abs() < 1e-10 * (1.0 + want.abs()),
                    "alpha={alpha} k={k} lambda={lam} s={s}: {got} vs {want}"
                );
            }
        }
    }
}

#[test]
fn sphere_monomial_closed_forms() {
    let four_pi = 4.0 * PI;
    let m = |i, j, k| sphere_monomial::<R>(i, j, k).0;
    assert!((m(0, 0, 0) - four_pi).abs() < 1e-14);
    assert!((m(2, 0, 0) - four_pi / 3.0).abs() < 1e-14);
    assert!((m(2, 2, 0) - four_pi / 15.0).abs() < 1e-15);
    assert!((m(4, 0, 0) - four_pi / 5.0).abs() < 1e-14);
    assert_eq!(m(1, 2, 0), 0.0);
    assert_eq!(m(2, 3, 1), 0.0);
}
