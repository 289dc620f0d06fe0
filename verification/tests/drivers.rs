use std::f64::consts::PI;

use integral::direct::{DirectBuffers, DirectContractor, DirectWorkspace};
use integral::ecp::side::{Ecp, EcpPrimitive};
use integral::engine::operator::{Factor, Operator, Term};
use integral::eri_builder::EriBuilder;
use integral::error::IntegralError;
use integral::integrals::{select_engine, Engine};
use integral::math::boys::{asymptotic_boundary, BoysTable};
use integral::math::gauss::UnitRule;
use integral::math::rys::{RysTables, MAX_RYS_ROOTS};
use integral::math::rys_reference::{rys_finite_reference, GL_POINTS};
use integral::quartet::{EriKernel, Tables};
use integral::scalar::{Real, Scalar};
use integral::shell::{Basis, Shell};

#[derive(Clone, Copy, Debug, PartialEq)]
struct R(f64);

impl Scalar for R {
    fn count(n: u64) -> Self {
        R(n as f64)
    }
    fn sum(a: Self, b: Self) -> Self {
        R(a.0 + b.0)
    }
    fn diff(a: Self, b: Self) -> Self {
        R(a.0 - b.0)
    }
    fn prod(a: Self, b: Self) -> Self {
        R(a.0 * b.0)
    }
    fn quot(a: Self, b: Self) -> Self {
        R(a.0 / b.0)
    }
    fn neg(a: Self) -> Self {
        R(-a.0)
    }
    fn from_count(n: u64) -> Self {
        R(n as f64)
    }
    fn plus(self, o: Self) -> Self {
        R(self.0 + o.0)
    }
    fn minus(self, o: Self) -> Self {
        R(self.0 - o.0)
    }
    fn times(self, o: Self) -> Self {
        R(self.0 * o.0)
    }
    fn over(self, o: Self) -> Self {
        R(self.0 / o.0)
    }
    fn negated(self) -> Self {
        R(-self.0)
    }
}

impl Real for R {
    fn root(a: Self) -> Self {
        R(a.0.sqrt())
    }
    fn expo(a: Self) -> Self {
        R(a.0.exp())
    }
    fn magnitude(a: Self) -> Self {
        R(a.0.abs())
    }
    fn circle() -> Self {
        R(std::f64::consts::PI)
    }
    fn lt(a: Self, b: Self) -> bool {
        a.0 < b.0
    }
    fn le(a: Self, b: Self) -> bool {
        a.0 <= b.0
    }
    fn nearest(a: Self) -> usize {
        a.0.round() as usize
    }
    fn raised(a: Self, n: u64) -> Self {
        R(a.0.powi(n as i32))
    }
    fn rational(a: Self, n: u64, d: u64) -> Self {
        R(a.0.powf(n as f64 / d as f64))
    }
    fn whole(a: Self) -> usize {
        a.0 as usize
    }
    fn hypotenuse(a: Self, b: Self) -> Self {
        R(a.0.hypot(b.0))
    }
    fn signed(a: Self, b: Self) -> Self {
        R(a.0.copysign(b.0))
    }
    fn cosine(a: Self) -> Self {
        R(a.0.cos())
    }
    fn finite(a: Self) -> bool {
        a.0.is_finite()
    }
    fn gap() -> Self {
        R(f64::EPSILON)
    }
    fn sqrt(self) -> Self {
        R(self.0.sqrt())
    }
    fn exp(self) -> Self {
        R(self.0.exp())
    }
    fn abs(self) -> Self {
        R(self.0.abs())
    }
    fn pi() -> Self {
        R(std::f64::consts::PI)
    }
    fn less(self, o: Self) -> bool {
        self.0 < o.0
    }
    fn at_most(self, o: Self) -> bool {
        self.0 <= o.0
    }
    fn round(self) -> usize {
        self.0.round() as usize
    }
    fn powi(self, n: u64) -> Self {
        R(self.0.powi(n as i32))
    }
    fn powf(self, n: u64, d: u64) -> Self {
        R(self.0.powf(n as f64 / d as f64))
    }
    fn trunc(self) -> usize {
        self.0 as usize
    }
    fn hypot(self, b: Self) -> Self {
        R(self.0.hypot(b.0))
    }
    fn copysign(self, b: Self) -> Self {
        R(self.0.copysign(b.0))
    }
    fn cos(self) -> Self {
        R(self.0.cos())
    }
    fn is_finite(self) -> bool {
        self.0.is_finite()
    }
    fn epsilon() -> Self {
        R(f64::EPSILON)
    }
}

/// Series of degree 14 on `pieces` subintervals, fitted to the reference quadrature for
/// the numbers of roots up to `top`; constants for the others.
fn rys_tables(top: usize, pieces: usize) -> RysTables<R> {
    let rule = UnitRule::<R>::new(GL_POINTS);
    let deg = 14usize;
    let mut roots = Vec::new();
    let mut weights = Vec::new();
    for n in 1..=MAX_RYS_ROOTS {
        let mut rr = Vec::new();
        let mut ww = Vec::new();
        if n > top {
            for _ in 0..n {
                rr.push(vec![R(0.0)]);
                ww.push(vec![R(0.0)]);
            }
        } else {
            let t_hi = asymptotic_boundary::<R>(2 * n - 1).0;
            let width = t_hi / pieces as f64;
            for s in 0..pieces {
                let a = s as f64 * width;
                let m = deg + 1;
                let mut fr = vec![vec![0.0; m]; n];
                let mut fw = vec![vec![0.0; m]; n];
                for j in 0..m {
                    let xi = (PI * (j as f64 + 0.5) / m as f64).cos();
                    let t = a + 0.5 * width * (xi + 1.0);
                    let mut x = [R(0.0); MAX_RYS_ROOTS];
                    let mut w = [R(0.0); MAX_RYS_ROOTS];
                    rys_finite_reference(&rule, n, R(t), &mut x, &mut w);
                    for i in 0..n {
                        fr[i][j] = x[i].0;
                        fw[i][j] = w[i].0;
                    }
                }
                for i in 0..n {
                    let mut cr = Vec::new();
                    let mut cw = Vec::new();
                    for k in 0..m {
                        let mut sr = 0.0;
                        let mut sw = 0.0;
                        for j in 0..m {
                            let c = (PI * k as f64 * (j as f64 + 0.5) / m as f64).cos();
                            sr += fr[i][j] * c;
                            sw += fw[i][j] * c;
                        }
                        cr.push(R(2.0 * sr / m as f64));
                        cw.push(R(2.0 * sw / m as f64));
                    }
                    rr.push(cr);
                    ww.push(cw);
                }
            }
        }
        roots.push(rr);
        weights.push(ww);
    }
    RysTables::new(roots, weights)
}

fn tables(top: usize) -> Tables<R> {
    Tables {
        boys: BoysTable::new(),
        rys: rys_tables(top, 40),
    }
}

fn v(c: [f64; 3]) -> [R; 3] {
    [R(c[0]), R(c[1]), R(c[2])]
}

fn rs(x: &[f64]) -> Vec<R> {
    x.iter().map(|&y| R(y)).collect()
}

fn fs(x: &[R]) -> Vec<f64> {
    x.iter().map(|y| y.0).collect()
}

fn cart(l: usize, c: [f64; 3], exps: &[f64], cfs: &[f64]) -> Shell<R> {
    Shell::new(l, v(c), rs(exps), rs(cfs)).unwrap()
}

fn sph(l: usize, c: [f64; 3], exps: &[f64], cfs: &[f64]) -> Shell<R> {
    Shell::new_spherical(l, v(c), rs(exps), rs(cfs)).unwrap()
}

fn mixed_basis() -> Basis<R> {
    Basis::new(vec![
        cart(0, [0.0, 0.0, 0.0], &[1.4, 0.5], &[0.6, 0.5]),
        cart(1, [0.6, -0.3, 0.2], &[0.9], &[1.0]),
        cart(1, [0.6, -0.3, 0.2], &[0.4], &[1.0]),
        sph(2, [-0.4, 0.7, -0.1], &[1.1], &[1.0]),
    ])
}

fn aux_basis() -> Basis<R> {
    Basis::new(vec![
        cart(0, [0.1, 0.2, 0.0], &[0.7], &[1.0]),
        sph(2, [0.6, -0.3, 0.2], &[0.8, 0.3], &[0.5, 0.4]),
        cart(1, [0.1, 0.2, 0.0], &[0.5], &[1.0]),
    ])
}

/// Two shells on each of two centers, the second center at `c`.
fn pair_basis(c: [f64; 3]) -> Basis<R> {
    Basis::new(vec![
        cart(0, [0.0, 0.1, 0.0], &[1.2, 0.4], &[0.5, 0.6]),
        sph(2, [0.0, 0.1, 0.0], &[0.8], &[1.0]),
        cart(1, c, &[0.7], &[1.0]),
        cart(0, c, &[0.5], &[1.0]),
    ])
}

const SECOND: [f64; 3] = [0.5, -0.2, 0.8];

fn moved(axis: usize, by: f64) -> [f64; 3] {
    let mut c = SECOND;
    c[axis] += by;
    c
}

/// The shell of every function.
fn shell_of(basis: &Basis<R>) -> Vec<usize> {
    let mut of = vec![];
    for (s, shell) in basis.shells.iter().enumerate() {
        of.extend(vec![s; shell.n_func()]);
    }
    of
}

fn assert_close(got: f64, want: f64, tol: f64, what: &str) {
    assert!(
        (got - want).abs() <= tol * want.abs().max(1.0),
        "{what}: {got} vs {want}"
    );
}

/// A fixed list of varied numbers.
fn varied(n: usize) -> Vec<f64> {
    (0..n)
        .map(|k| ((k * 37 + 11) % 101) as f64 / 50.0 - 1.0)
        .collect()
}

fn symmetric_density(n: usize, seed: usize) -> Vec<f64> {
    let mut d = vec![0.0; n * n];
    for i in 0..n {
        for j in 0..=i {
            let x = ((i * 17 + j * 29 + seed * 7) % 31) as f64 / 15.0 - 1.0;
            d[i * n + j] = x;
            d[j * n + i] = x;
        }
    }
    d
}

#[test]
fn write_coverage_exactly_once_and_disjoint() {
    let basis = mixed_basis();
    let tables = tables(5);
    let builder = EriBuilder::new(&basis, &tables);
    let n4 = builder.output_len();
    let mut owner = vec![-1i64; n4];
    for p in 0..builder.bra_pairs().len() {
        let mut out = vec![R(f64::NAN); n4];
        let mut tasks = builder.partition(&mut out);
        let rows = tasks[p].rows.ij.len() + tasks[p].rows.ji.len();
        builder.fill(&mut tasks[p]);
        drop(tasks);
        let written = out.iter().filter(|x| !x.0.is_nan()).count();
        let places = rows * builder.nao * builder.nao;
        assert_eq!(written, places, "bra pair {p} does not fill its rows");
        for (idx, x) in out.iter().enumerate() {
            if !x.0.is_nan() {
                assert_eq!(
                    owner[idx], -1,
                    "element {idx} written twice: now by bra pair {p}, previously by {}",
                    owner[idx]
                );
                owner[idx] = p as i64;
            }
        }
    }
    let unwritten = owner.iter().filter(|&&o| o == -1).count();
    assert_eq!(unwritten, 0, "{unwritten} output elements never written");
}

#[test]
fn partition_claims_every_row_once() {
    let basis = mixed_basis();
    let tables = tables(0);
    let builder = EriBuilder::new(&basis, &tables);
    let mut out = vec![R(0.0); builder.output_len()];
    let tasks = builder.partition(&mut out);
    let nao = builder.nao;
    let total_rows: usize = tasks
        .iter()
        .map(|t| t.rows.ij.len() + t.rows.ji.len())
        .sum();
    assert_eq!(total_rows, nao * nao, "bra pairs do not cover all rows");
    assert_eq!(tasks.len(), builder.bra_pairs().len());
    for (t, p) in tasks.iter().zip(builder.bra_pairs()) {
        assert_eq!(t.bra(), *p);
    }
}

#[test]
fn serial_build_matches_basis_eri_tolerance() {
    let basis = mixed_basis();
    let tables = tables(5);
    let reference = fs(&basis.eri(&tables));
    let built = fs(&EriBuilder::new(&basis, &tables).build());
    assert_eq!(reference.len(), built.len());
    let peak = reference.iter().fold(0.0_f64, |m, &x| m.max(x.abs()));
    let floor = 1e-3 * peak;
    let mut worst_sig = 0.0_f64;
    let mut worst_abs = 0.0_f64;
    for (&r, &b) in reference.iter().zip(&built) {
        let dv = (r - b).abs();
        worst_abs = worst_abs.max(dv);
        if r.abs() >= floor {
            worst_sig = worst_sig.max(dv / r.abs());
        }
    }
    assert!(
        worst_sig < 1e-11,
        "worst significant relative diff {worst_sig:e}"
    );
    assert!(
        worst_abs < 1e-11 * peak.max(1.0) + 1e-12,
        "worst absolute diff {worst_abs:e} (peak {peak:e})"
    );
}

#[test]
fn repulsion_tensor_has_the_eight_symmetries() {
    let basis = mixed_basis();
    let n = basis.nao();
    let of = shell_of(&basis);
    let ordered = |a: usize, b: usize| (of[a].max(of[b]), of[a].min(of[b]));
    let t = fs(&basis.eri(&tables(5)));
    let at = |a: usize, b: usize, c: usize, d: usize| t[((a * n + b) * n + c) * n + d];
    for a in 0..n {
        for b in 0..n {
            for c in 0..n {
                for d in 0..n {
                    let x = at(a, b, c, d);
                    for y in [
                        at(b, a, c, d),
                        at(a, b, d, c),
                        at(b, a, d, c),
                        at(c, d, a, b),
                        at(d, c, a, b),
                        at(c, d, b, a),
                        at(d, c, b, a),
                    ] {
                        assert_close(y, x, 1e-13, "symmetry");
                    }
                    if of[a] != of[b] {
                        assert_eq!(x, at(b, a, c, d));
                    }
                    if of[c] != of[d] {
                        assert_eq!(x, at(a, b, d, c));
                    }
                    if ordered(a, b) != ordered(c, d) {
                        assert_eq!(x, at(c, d, a, b));
                    }
                }
            }
        }
    }
}

#[test]
fn blocks_are_parts_of_the_tensor() {
    let basis = mixed_basis();
    let tables = tables(5);
    let n = basis.nao();
    let offs = basis.offsets();
    let t = basis.eri(&tables);
    let (i, j, k, l) = (3, 2, 1, 0);
    let block = basis.eri_block(&tables, i, j, k, l);
    let dims: Vec<usize> = [i, j, k, l]
        .iter()
        .map(|&s| basis.shells[s].n_func())
        .collect();
    assert_eq!(block.len(), dims.iter().product::<usize>());
    let mut at = 0;
    for a in 0..dims[0] {
        for b in 0..dims[1] {
            for c in 0..dims[2] {
                for d in 0..dims[3] {
                    let idx = (((offs[i] + a) * n + offs[j] + b) * n + offs[k] + c) * n
                        + offs[l]
                        + d;
                    assert_eq!(block[at], t[idx]);
                    at += 1;
                }
            }
        }
    }
}

#[test]
fn engines_agree() {
    let basis = mixed_basis();
    let tables = tables(5);
    let os = fs(&basis.eri_with(&tables, Engine::OsHgp));
    let rys = fs(&basis.eri_with(&tables, Engine::Rys));
    for (o, r) in os.iter().zip(&rys) {
        assert_close(*o, *r, 1e-11, "engines");
    }
    assert_eq!(select_engine(0, 0, 1_000_000), Engine::OsHgp);
    assert_eq!(select_engine(12, 12, 1_000_000), Engine::Rys);
    assert_eq!(Engine::default(), Engine::Auto);
}

#[test]
fn wide_attenuation_is_the_bare_kernel() {
    let basis = mixed_basis();
    let tables = tables(5);
    let bare = fs(&basis.eri_with(&tables, Engine::Rys));
    let wide = fs(&basis.eri_kernel(&tables, EriKernel::Erf { omega: R(1e7) }));
    let narrow = fs(&basis.eri_kernel(&tables, EriKernel::Erf { omega: R(0.3) }));
    for (w, b) in wide.iter().zip(&bare) {
        assert_close(*w, *b, 1e-10, "wide");
    }
    assert!(narrow[0] > 0.0 && narrow[0] < bare[0]);
    let coulomb = fs(&basis.eri_kernel(&tables, EriKernel::Coulomb));
    assert_eq!(coulomb, fs(&basis.eri(&tables)));
    let built = fs(&EriBuilder::new(&basis, &tables)
        .kernel(EriKernel::Erf { omega: R(0.3) })
        .build());
    for (x, y) in built.iter().zip(&narrow) {
        assert_close(*x, *y, 1e-11, "builder");
    }
}

#[test]
fn bounds_dominate_blocks_and_screening_drops_the_small_ones() {
    let mut shells = mixed_basis().shells;
    shells.push(cart(0, [0.0, 0.0, 9.0], &[1.5], &[1.0]));
    let basis = Basis::new(shells);
    let tables = tables(5);
    let nsh = basis.shells.len();
    let q = fs(&basis.schwarz_bounds(&tables));
    for i in 0..nsh {
        for j in 0..nsh {
            assert_close(q[i * nsh + j], q[j * nsh + i], 1e-13, "bounds");
            for k in 0..nsh {
                for l in 0..nsh {
                    let peak = fs(&basis.eri_block(&tables, i, j, k, l))
                        .iter()
                        .fold(0.0_f64, |m, x| m.max(x.abs()));
                    assert!(peak <= q[i * nsh + j] * q[k * nsh + l] * (1.0 + 1e-8) + 1e-13);
                }
            }
        }
    }
    let full = basis.eri(&tables);
    let (all, none) = basis.eri_screened(&tables, R(0.0));
    assert_eq!(all, full);
    assert_eq!(none.shell_quartets_skipped, 0);
    assert_eq!(none.shell_quartets_total, 120);
    assert_eq!(none.skipped_fraction().0, 0.0);
    let (part, stats) = basis.eri_screened(&tables, R(1e-8));
    assert!(stats.shell_quartets_skipped > 0);
    assert!(stats.shell_quartets_skipped < stats.shell_quartets_total);
    assert_eq!(
        stats.skipped_fraction().0,
        stats.shell_quartets_skipped as f64 / 120.0
    );
    for (x, y) in part.iter().zip(&full) {
        assert!(x.0 == y.0 || (x.0 == 0.0 && y.0.abs() < 1e-8));
    }
    let (gone, stats) = basis.eri_screened(&tables, R(1e9));
    assert!(gone.iter().all(|x| x.0 == 0.0));
    assert_eq!(stats.shell_quartets_skipped, 120);
    let empty = Basis::<R>::new(vec![]);
    assert_eq!(empty.eri(&tables).len(), 0);
    assert_eq!(
        empty
            .eri_screened(&tables, R(0.0))
            .1
            .skipped_fraction()
            .0,
        0.0
    );
}

#[test]
fn fitted_integrals_agree_with_each_other() {
    let basis = mixed_basis();
    let aux = aux_basis();
    let tables = tables(4);
    let naux = aux.nao();
    let metric = fs(&aux.eri_2c(&tables));
    for i in 0..naux {
        assert!(metric[i * naux + i] > 0.0);
        for j in 0..naux {
            assert_eq!(metric[i * naux + j], metric[j * naux + i]);
        }
    }
    let other = fs(&aux.eri_2c_with(&tables, Engine::OsHgp));
    for (x, y) in metric.iter().zip(&other) {
        assert_close(*x, *y, 1e-11, "metric");
    }
    let wide = fs(&aux.eri_2c_kernel(&tables, EriKernel::Erf { omega: R(1e7) }));
    for (x, y) in metric.iter().zip(&wide) {
        assert_close(*x, *y, 1e-9, "metric kernel");
    }
    let bounds = fs(&aux.schwarz_aux_bounds(&tables));
    let offs = aux.offsets();
    for (p, &b) in bounds.iter().enumerate() {
        for k in offs[p]..offs[p] + aux.shells[p].n_func() {
            assert!(metric[k * naux + k].abs().sqrt() <= b * (1.0 + 1e-12));
        }
    }
    let n = basis.nao();
    let moffs = basis.offsets();
    let builder = basis.eri_3c_builder(&aux, &tables);
    assert_eq!(builder.output_len(), n * n * naux);
    assert_eq!(builder.bra_pairs().len(), 10);
    let whole = builder.build();
    for i in 0..basis.shells.len() {
        for j in 0..=i {
            for p in 0..aux.shells.len() {
                let block = basis.eri_3c_block(&tables, &aux, i, j, p);
                let (ni, nj, np) = (
                    basis.shells[i].n_func(),
                    basis.shells[j].n_func(),
                    aux.shells[p].n_func(),
                );
                assert_eq!(block.len(), ni * nj * np);
                for a in 0..ni {
                    for b in 0..nj {
                        for c in 0..np {
                            let x = block[(a * nj + b) * np + c].0;
                            let (mu, nu, k) = (moffs[i] + a, moffs[j] + b, offs[p] + c);
                            assert_close(whole[(mu * n + nu) * naux + k].0, x, 1e-12, "3c");
                            if i != j {
                                assert_eq!(
                                    whole[(mu * n + nu) * naux + k],
                                    whole[(nu * n + mu) * naux + k]
                                );
                            }
                        }
                    }
                }
            }
        }
    }
    let mut out = vec![R(f64::NAN); builder.output_len()];
    let mut tasks = builder.partition(&mut out);
    for task in tasks.iter_mut() {
        builder.fill(task);
    }
    drop(tasks);
    assert_eq!(out, whole);
}

#[test]
fn one_electron_matrices() {
    let basis = mixed_basis();
    let table = BoysTable::<R>::new();
    let n = basis.nao();
    assert_eq!(n, 12);
    assert_eq!(basis.offsets(), vec![0, 1, 4, 7]);
    let s = fs(&basis.overlap());
    for k in 1..n {
        assert_close(s[k * n + k], 1.0, 1e-12, "self overlap");
    }
    let t = fs(&basis.kinetic());
    let charges = [(v([0.1, 0.2, 0.3]), R(2.0)), (v([0.6, -0.3, 0.2]), R(1.0))];
    let w = fs(&basis.nuclear(&table, &charges));
    let pvp = fs(&basis.pvp_charges(&table, &charges));
    let d = basis.dipole(v([0.2, 0.0, -0.1]));
    for m in [&s, &t, &w, &pvp, &fs(&d[0]), &fs(&d[1]), &fs(&d[2])] {
        assert_eq!(m.len(), n * n);
        for i in 0..n {
            for j in 0..n {
                assert_close(m[i * n + j], m[j * n + i], 1e-13, "symmetry");
            }
        }
    }
    for i in 0..n {
        for j in 0..n {
            assert_eq!(pvp[i * n + j], pvp[j * n + i]);
        }
        assert!(t[i * n + i] > 0.0 && w[i * n + i] < 0.0 && pvp[i * n + i] < 0.0);
    }
    let id = basis.int1e(&Operator::identity()).unwrap();
    let kin = basis.int1e(&Operator::kinetic()).unwrap();
    assert_eq!(id.nao(), n);
    for k in 0..n * n {
        assert_close(id.real_values()[k].0, s[k], 1e-13, "identity");
        assert_close(kin.real_values()[k].0, t[k], 1e-12, "kinetic");
    }
    assert_eq!(id.max_abs_imag().0, 0.0);
    assert_close(kin.max_abs_real().0, fs(kin.real_values()).iter().fold(0.0_f64, |m, x| m.max(x.abs())), 0.0, "peak");
    for (axis, dx) in d.iter().enumerate() {
        let op = basis
            .int1e(&Operator::dipole(axis, v([0.2, 0.0, -0.1])))
            .unwrap();
        for k in 0..n * n {
            assert_close(op.real_values()[k].0, dx[k].0, 1e-12, "dipole");
        }
        let p = basis.int1e(&Operator::momentum(axis)).unwrap();
        assert_eq!(p.max_abs_real().0, 0.0);
        let im = fs(p.imag());
        for i in 0..n {
            for j in 0..n {
                assert_close(im[i * n + j], -im[j * n + i], 1e-12, "momentum");
            }
        }
        let l = basis
            .int1e(&Operator::angular_momentum(axis, v([0.2, 0.0, -0.1])))
            .unwrap();
        assert_eq!(l.max_abs_real().0, 0.0);
        assert!(l.max_abs_imag().0 > 0.1);
        let im = fs(l.imag());
        for i in 0..n {
            for j in 0..n {
                assert_close(im[i * n + j], -im[j * n + i], 1e-12, "angular momentum");
            }
        }
    }
    let unit = fs(&basis.pvp(&table));
    assert_eq!(unit.len(), n * n);
}

#[test]
fn products_of_factors_are_applied_right_to_left() {
    let basis = Basis::new(vec![
        cart(0, [0.0, 0.0, 0.0], &[0.9], &[1.0]),
        cart(1, [0.3, -0.1, 0.2], &[0.6], &[1.0]),
    ]);
    let o = v([0.0; 3]);
    let term = |c: f64, f: Vec<Factor>| Operator::new(vec![Term::new(R(c), f)], o);
    let xp = basis
        .int1e(&term(1.0, vec![Factor::R(0), Factor::P(0)]))
        .unwrap();
    let px = basis
        .int1e(&term(1.0, vec![Factor::P(0), Factor::R(0)]))
        .unwrap();
    let s = basis.overlap();
    for k in 0..16 {
        assert_close(
            xp.imag()[k].0 - px.imag()[k].0,
            s[k].0,
            1e-12,
            "commutator",
        );
    }
}

#[test]
fn shells_that_cannot_be_made() {
    let c = v([0.0; 3]);
    assert_eq!(
        Shell::new(0, c, rs(&[1.0, 2.0]), rs(&[1.0])).err(),
        Some(IntegralError::MismatchedContraction {
            exponents: 2,
            coefficients: 1
        })
    );
    assert_eq!(
        Shell::new(7, c, rs(&[1.0]), rs(&[1.0])).err(),
        Some(IntegralError::AngularMomentumTooHigh { l: 7, max: 6 })
    );
    assert_eq!(
        Shell::new_spherical(2, c, rs(&[]), rs(&[])).err(),
        Some(IntegralError::EmptyContraction)
    );
}

#[test]
fn requests_that_are_refused() {
    let table = BoysTable::<R>::new();
    let tables = tables(1);
    let high = Basis::new(vec![
        cart(0, [0.0; 3], &[1.0], &[1.0]),
        cart(6, [0.0; 3], &[1.0], &[1.0]),
    ]);
    let too_high = IntegralError::AngularMomentumTooHighForGradient { l: 6, max: 5 };
    assert_eq!(high.overlap_grad().err(), Some(too_high));
    assert_eq!(high.kinetic_grad().err(), Some(too_high));
    assert_eq!(high.nuclear_grad(&table, &[]).err(), Some(too_high));
    assert_eq!(high.eri_grad(&tables).err(), Some(too_high));
    assert_eq!(
        high.int1e(&Operator::dipole(0, v([0.0; 3]))).err(),
        Some(IntegralError::OperatorMomentumTooHigh {
            l: 6,
            degree: 1,
            max: 6
        })
    );
    let basis = pair_basis(SECOND);
    let n = basis.nao();
    let off = v([3.0, 0.0, 0.0]);
    assert_eq!(
        basis.nuclear_grad(&table, &[(off, R(1.0))]).err(),
        Some(IntegralError::ChargeNotOnAtom { center: off })
    );
    assert_eq!(
        basis.eri_grad_contract(&tables, &[]).err(),
        Some(IntegralError::GammaLengthMismatch {
            expected: n * n * n * n,
            got: 0
        })
    );
    assert_eq!(
        basis.eri_2c_grad_contract(&tables, &[R(0.0)]).err(),
        Some(IntegralError::GammaLengthMismatch {
            expected: n * n,
            got: 1
        })
    );
    assert_eq!(
        basis.eri_3c_grad_contract(&tables, &basis, &[R(0.0)]).err(),
        Some(IntegralError::GammaLengthMismatch {
            expected: n * n * n,
            got: 1
        })
    );
    let strange = Basis::new(vec![cart(0, [3.0, 0.0, 0.0], &[1.0], &[1.0])]);
    assert_eq!(
        basis.eri_3c_grad_contract(&tables, &strange, &[]).err(),
        Some(IntegralError::ChargeNotOnAtom { center: off })
    );
    let fewer = Basis::new(vec![cart(0, [0.0, 0.1, 0.0], &[1.0], &[1.0])]);
    assert_eq!(
        basis.eri_3c_grad_contract(&tables, &fewer, &[]).err(),
        Some(IntegralError::ChargeNotOnAtom { center: v(SECOND) })
    );
    let turned = Basis::new(vec![
        cart(0, SECOND, &[1.0], &[1.0]),
        cart(0, [0.0, 0.1, 0.0], &[1.0], &[1.0]),
    ]);
    assert_eq!(
        basis.eri_3c_grad_contract(&tables, &turned, &[]).err(),
        Some(IntegralError::ChargeNotOnAtom { center: v(SECOND) })
    );
    assert_eq!(
        basis.ecp_grad_contract(&[], &[R(0.0)]).err(),
        Some(IntegralError::GammaLengthMismatch {
            expected: n * n,
            got: 1
        })
    );
    let five = Basis::new(vec![cart(5, [0.0; 3], &[1.0], &[1.0])]);
    assert_eq!(
        five.ecp_grad_contract(&[], &vec![R(0.0); 21 * 21]).err(),
        Some(IntegralError::AngularMomentumTooHighForGradient { l: 5, max: 4 })
    );
}

fn difference(f: &dyn Fn([f64; 3]) -> f64, axis: usize) -> f64 {
    let h = 1e-3;
    let d1 = (f(moved(axis, h)) - f(moved(axis, -h))) / (2.0 * h);
    let d2 = (f(moved(axis, 2.0 * h)) - f(moved(axis, -2.0 * h))) / (4.0 * h);
    (4.0 * d1 - d2) / 3.0
}

#[test]
fn matrix_gradients_are_the_differences() {
    let table = BoysTable::<R>::new();
    let basis = pair_basis(SECOND);
    let n = basis.nao();
    assert_eq!(basis.shell_atom(), vec![0, 0, 1, 1]);
    assert_eq!(basis.atoms(), vec![v([0.0, 0.1, 0.0]), v(SECOND)]);
    let charges = |c: [f64; 3]| [(v([0.0, 0.1, 0.0]), R(3.0)), (v(c), R(1.0))];
    let s = basis.overlap_grad().unwrap();
    let t = basis.kinetic_grad().unwrap();
    let w = basis.nuclear_grad(&table, &charges(SECOND)).unwrap();
    for g in [&s, &t, &w] {
        assert_eq!((g.natom(), g.nao()), (2, n));
        assert!(g.max_translational_residual().0 < 1e-12);
        for axis in 0..3 {
            let b = g.block(1, axis);
            for i in 0..n {
                for j in 0..n {
                    assert_close(b[i * n + j].0, b[j * n + i].0, 1e-13, "symmetry");
                }
            }
        }
    }
    for axis in 0..3 {
        for k in [1, 6, 7, 8, n * 6 + 3, n * 2 + 8, n * n - 1] {
            let fs_ = |c: [f64; 3]| pair_basis(c).overlap()[k].0;
            let ft = |c: [f64; 3]| pair_basis(c).kinetic()[k].0;
            let fw = |c: [f64; 3]| pair_basis(c).nuclear(&table, &charges(c))[k].0;
            assert_close(s.block(1, axis)[k].0, difference(&fs_, axis), 1e-8, "overlap");
            assert_close(t.block(1, axis)[k].0, difference(&ft, axis), 1e-8, "kinetic");
            assert_close(w.block(1, axis)[k].0, difference(&fw, axis), 1e-8, "nuclear");
        }
    }
}

#[test]
fn tensor_gradient_and_its_contraction() {
    let tables = tables(5);
    let small = |c: [f64; 3]| {
        Basis::new(vec![
            cart(0, [0.0, 0.1, 0.0], &[1.2, 0.4], &[0.5, 0.6]),
            cart(1, c, &[0.7], &[1.0]),
        ])
    };
    let basis = small(SECOND);
    let n = basis.nao();
    let g = basis.eri_grad(&tables).unwrap();
    assert_eq!((g.natom(), g.nao()), (2, n));
    assert!(g.max_translational_residual().0 < 1e-12);
    for axis in 0..3 {
        for k in [1, 5, 18, 20, 73, 255] {
            let f = |c: [f64; 3]| small(c).eri(&tables)[k].0;
            assert_close(g.block(1, axis)[k].0, difference(&f, axis), 1e-8, "tensor");
        }
    }
    let gamma = varied(n * n * n * n);
    let force = basis.eri_grad_contract(&tables, &rs(&gamma)).unwrap();
    assert_eq!(force.len(), 2);
    for axis in 0..3 {
        for atom in 0..2 {
            let want: f64 = g
                .block(atom, axis)
                .iter()
                .zip(&gamma)
                .map(|(x, y)| x.0 * y)
                .sum();
            assert_close(force[atom][axis].0, want, 1e-11, "contraction");
        }
        assert!((force[0][axis].0 + force[1][axis].0).abs() < 1e-11);
    }
    let by_os = basis
        .eri_grad_contract_with(&tables, Engine::OsHgp, &rs(&gamma))
        .unwrap();
    let wide = basis
        .eri_grad_contract_kernel(&tables, &rs(&gamma), EriKernel::Erf { omega: R(1e7) })
        .unwrap();
    for atom in 0..2 {
        for axis in 0..3 {
            assert_close(by_os[atom][axis].0, force[atom][axis].0, 1e-10, "engine");
            assert_close(wide[atom][axis].0, force[atom][axis].0, 1e-8, "kernel");
        }
    }
}

#[test]
fn fitted_forces_are_the_differences() {
    let tables = tables(4);
    let basis = pair_basis(SECOND);
    let n = basis.nao();
    let gamma2 = varied(n * n);
    let f2 = basis.eri_2c_grad_contract(&tables, &rs(&gamma2)).unwrap();
    for axis in 0..3 {
        let e = |c: [f64; 3]| -> f64 {
            pair_basis(c)
                .eri_2c(&tables)
                .iter()
                .zip(&gamma2)
                .map(|(x, y)| x.0 * y)
                .sum()
        };
        assert_close(f2[1][axis].0, difference(&e, axis), 1e-7, "metric force");
        assert!((f2[0][axis].0 + f2[1][axis].0).abs() < 1e-10);
    }
    let aux_at = |c: [f64; 3]| {
        Basis::new(vec![
            cart(1, [0.0, 0.1, 0.0], &[0.6], &[1.0]),
            cart(0, c, &[0.9], &[1.0]),
        ])
    };
    let aux = aux_at(SECOND);
    let gamma3 = varied(n * n * aux.nao());
    let f3 = basis
        .eri_3c_grad_contract(&tables, &aux, &rs(&gamma3))
        .unwrap();
    for axis in 0..3 {
        let e = |c: [f64; 3]| -> f64 {
            let b = pair_basis(c);
            let x = aux_at(c);
            b.eri_3c_builder(&x, &tables)
                .build()
                .iter()
                .zip(&gamma3)
                .map(|(x, y)| x.0 * y)
                .sum()
        };
        assert_close(f3[1][axis].0, difference(&e, axis), 1e-7, "fitted force");
        assert!((f3[0][axis].0 + f3[1][axis].0).abs() < 1e-10);
    }
}

fn contract_all(
    contractor: &DirectContractor<R>,
    densities: &[Vec<R>],
    threshold: f64,
    exchange: bool,
) -> Vec<(Vec<f64>, Vec<f64>)> {
    let n = contractor.nao();
    let refs: Vec<&[R]> = densities.iter().map(|d| d.as_slice()).collect();
    let bounds = contractor.density_shell_bounds(&refs);
    let bound_refs: Vec<&[R]> = bounds.iter().map(|b| b.as_slice()).collect();
    let mut js = vec![vec![R(0.0); n * n]; densities.len()];
    let mut ks = vec![vec![R(0.0); n * n]; densities.len()];
    {
        let mut outputs: Vec<DirectBuffers<R>> = js
            .iter_mut()
            .zip(ks.iter_mut())
            .map(|(j, k)| DirectBuffers {
                coulomb: j.as_mut_slice(),
                exchange: if exchange {
                    Some(k.as_mut_slice())
                } else {
                    None
                },
            })
            .collect();
        let mut workspace = DirectWorkspace::new();
        for &bra in contractor.bra_pairs() {
            contractor.accumulate_bra_pair(
                &mut workspace,
                bra,
                &refs,
                &bound_refs,
                R(threshold),
                exchange,
                &mut outputs,
            );
        }
    }
    js.iter().zip(&ks).map(|(j, k)| (fs(j), fs(k))).collect()
}

#[test]
fn direct_contraction_is_that_of_the_tensor() {
    let mut shells = mixed_basis().shells;
    for k in 0..6 {
        let z = 0.3 * k as f64;
        shells.push(cart(
            k % 2,
            [0.2 * k as f64, -0.1, z],
            &[0.8, 0.35],
            &[0.5, 0.5],
        ));
    }
    let basis = Basis::new(shells);
    let tables = tables(5);
    let n = basis.nao();
    let t = fs(&basis.eri(&tables));
    let ds = [symmetric_density(n, 1), symmetric_density(n, 5)];
    let given: Vec<Vec<R>> = ds.iter().map(|d| rs(d)).collect();
    let contractor = basis.direct_contractor(&tables);
    assert_eq!(contractor.nao(), n);
    let got = contract_all(&contractor, &given, 0.0, true);
    for (d, (j, k)) in ds.iter().zip(&got) {
        for a in 0..n {
            for b in 0..n {
                let mut jw = 0.0;
                let mut kw = 0.0;
                for c in 0..n {
                    for e in 0..n {
                        jw += t[((a * n + b) * n + c) * n + e] * d[c * n + e];
                        kw += t[((a * n + c) * n + b) * n + e] * d[c * n + e];
                    }
                }
                assert_close(j[a * n + b], jw, 1e-10, "coulomb");
                assert_close(k[a * n + b], kw, 1e-10, "exchange");
            }
        }
    }
    let plain = contract_all(&contractor, &given, 0.0, false);
    assert_eq!(plain[0].0, got[0].0);
    assert!(plain[0].1.iter().all(|&x| x == 0.0));
    let nothing = contract_all(&contractor, &given, 1e9, true);
    assert!(nothing[1].0.iter().all(|&x| x == 0.0));
    let by_rys = DirectContractor::with_engine(&basis, &tables, Engine::Rys);
    let other = contract_all(&by_rys, &given, 0.0, true);
    for (x, y) in other[0].1.iter().zip(&got[0].1) {
        assert_close(*x, *y, 1e-9, "engine");
    }
}

#[test]
fn shell_bounds_are_the_largest_magnitudes() {
    let basis = mixed_basis();
    let tables = tables(0);
    let contractor = basis.direct_contractor(&tables);
    let n = basis.nao();
    let nsh = basis.shells.len();
    let d = symmetric_density(n, 3);
    let offs = basis.offsets();
    let bounds = contractor.density_shell_bounds(&[&rs(&d)]);
    for i in 0..nsh {
        for j in 0..nsh {
            let mut want = 0.0_f64;
            for a in 0..basis.shells[i].n_func() {
                for b in 0..basis.shells[j].n_func() {
                    want = want.max(d[(offs[i] + a) * n + offs[j] + b].abs());
                }
            }
            assert_eq!(bounds[0][i * nsh + j].0, want);
        }
    }
}

#[test]
fn grid_values_are_negated_attractions() {
    let basis = mixed_basis();
    let table = BoysTable::<R>::new();
    let n = basis.nao();
    let of = shell_of(&basis);
    let points = [v([0.3, 0.2, -0.5]), v([0.6, -0.3, 0.2])];
    let g = basis.grid_coulomb(&table, &points);
    assert_eq!(g.len(), 2 * n * n);
    for (p, point) in points.iter().enumerate() {
        let w = basis.nuclear(&table, &[(*point, R(1.0))]);
        for i in 0..n {
            for j in 0..n {
                let x = g[(p * n + i) * n + j].0;
                assert_close(x, -w[i * n + j].0, 1e-12, "grid");
                if of[i] != of[j] {
                    assert_eq!(x, g[(p * n + j) * n + i].0);
                }
            }
        }
    }
    let alone = basis.grid_coulomb(&table, &points[1..]);
    assert_eq!(alone[..], g[n * n..]);
    let mut into = vec![R(5.0); 2 * n * n];
    basis.grid_coulomb_into(&table, &points, &mut into);
    assert_eq!(into, g);
    let wide = basis.grid_coulomb_kernel(&table, &points, EriKernel::Erf { omega: R(1e7) });
    for (x, y) in wide.iter().zip(&g) {
        assert_close(x.0, y.0, 1e-9, "wide");
    }
    let mut narrow = vec![R(0.0); 2 * n * n];
    basis.grid_coulomb_kernel_into(
        &table,
        &points,
        EriKernel::Erf { omega: R(0.4) },
        &mut narrow,
    );
    assert!(narrow[0].0 > 0.0 && narrow[0].0 < g[0].0);
}

fn core_potential() -> Ecp<R> {
    let p = |n: i32, zeta: f64, coef: f64| EcpPrimitive {
        n,
        zeta: R(zeta),
        coef: R(coef),
    };
    Ecp {
        atom: 1,
        n_core: 10,
        max_l: 2,
        local: vec![p(1, 1.7, -1.2), p(2, 0.9, 0.8), p(0, 2.5, 0.3)],
        semilocal: vec![vec![p(2, 1.1, 2.0)], vec![p(2, 0.8, -0.7), p(1, 1.4, 0.4)]],
    }
}

#[test]
fn effective_potential_is_symmetric_and_adds_up() {
    let basis = pair_basis(SECOND);
    let n = basis.nao();
    let ecp = core_potential();
    let m = fs(&basis.ecp(&[ecp.clone()]));
    assert_eq!(m.len(), n * n);
    assert!(m.iter().any(|x| x.abs() > 1e-3));
    for i in 0..n {
        for j in 0..n {
            assert_eq!(m[i * n + j], m[j * n + i]);
        }
    }
    assert!(fs(&basis.ecp(&[])).iter().all(|&x| x == 0.0));
    let mut idle = ecp.clone();
    idle.local = vec![];
    idle.semilocal = vec![];
    assert!(fs(&basis.ecp(&[idle.clone()])).iter().all(|&x| x == 0.0));
    assert_eq!(fs(&basis.ecp(&[ecp.clone(), idle])), m);
    let twice = fs(&basis.ecp(&[ecp.clone(), ecp]));
    for (x, y) in twice.iter().zip(&m) {
        assert_close(*x, 2.0 * y, 1e-12, "sum");
    }
}

#[test]
fn channels_without_terms_add_nothing_however_many() {
    let basis = pair_basis(SECOND);
    let ecp = core_potential();
    let m = fs(&basis.ecp(&[ecp.clone()]));
    let mut long = ecp.clone();
    long.semilocal.resize(40, vec![]);
    assert_eq!(fs(&basis.ecp(&[long])), m);
    let mut high = ecp;
    high.semilocal.resize(12, vec![]);
    high.semilocal[11] = high.semilocal[0].clone();
    let shifted = fs(&basis.ecp(&[high]));
    let n = basis.nao();
    assert_eq!(shifted.len(), n * n);
    assert_ne!(shifted, m);
    for i in 0..n {
        for j in 0..n {
            assert_eq!(shifted[i * n + j], shifted[j * n + i]);
            assert_close(shifted[i * n + j], m[i * n + j], 1e-3, "high channel");
        }
    }
}

#[test]
fn local_potential_at_its_own_center_has_a_closed_form() {
    let a = 0.7;
    let basis = Basis::new(vec![cart(0, [0.0; 3], &[a], &[1.0])]);
    let ecp = Ecp {
        atom: 0,
        n_core: 2,
        max_l: 0,
        local: vec![EcpPrimitive {
            n: 2,
            zeta: R(1.3),
            coef: R(2.0),
        }],
        semilocal: vec![],
    };
    let c = basis.shells[0].primitive_coeff(0).0;
    let want = c * c * 2.0 * (PI / (2.0 * a + 1.3)).powf(1.5);
    assert_close(basis.ecp(&[ecp])[0].0, want, 1e-12, "closed form");
}

#[test]
fn effective_potential_forces_are_the_differences() {
    let basis = pair_basis(SECOND);
    let n = basis.nao();
    let gamma = varied(n * n);
    let ecp = core_potential();
    let force = basis
        .ecp_grad_contract(&[ecp.clone()], &rs(&gamma))
        .unwrap();
    for axis in 0..3 {
        let e = |c: [f64; 3]| -> f64 {
            pair_basis(c)
                .ecp(&[ecp.clone()])
                .iter()
                .zip(&gamma)
                .map(|(x, y)| x.0 * y)
                .sum()
        };
        assert_close(force[1][axis].0, difference(&e, axis), 1e-7, "force");
        assert!((force[0][axis].0 + force[1][axis].0).abs() < 1e-11);
    }
    let none = basis.ecp_grad_contract(&[], &rs(&gamma)).unwrap();
    assert!(none.iter().all(|f| f.iter().all(|x| x.0 == 0.0)));
}

#[test]
fn effective_potential_forces_take_the_symmetric_part() {
    let basis = pair_basis(SECOND);
    let n = basis.nao();
    let gamma = varied(n * n);
    let turned: Vec<f64> = (0..n * n).map(|k| gamma[k % n * n + k / n]).collect();
    let even: Vec<f64> = gamma
        .iter()
        .zip(&turned)
        .map(|(x, y)| (x + y) / 2.0)
        .collect();
    let ecp = core_potential();
    let of = |g: &[f64]| basis.ecp_grad_contract(&[ecp.clone()], &rs(g)).unwrap();
    let (a, b, c) = (of(&gamma), of(&turned), of(&even));
    for atom in 0..2 {
        for axis in 0..3 {
            assert_close(a[atom][axis].0, b[atom][axis].0, 1e-12, "transposed");
            assert_close(a[atom][axis].0, c[atom][axis].0, 1e-12, "symmetric part");
        }
    }
}

#[test]
fn more_is_left_out_at_a_higher_threshold() {
    let basis = mixed_basis();
    let tables = tables(5);
    let mut before = 0;
    for tau in [-1.0_f64, 0.0, 1e-12, 1e-8, 1e-4, 1e-2, 1.0, 1e9] {
        let (_, stats) = basis.eri_screened(&tables, R(tau));
        assert!(stats.shell_quartets_skipped <= stats.shell_quartets_total);
        assert!(before <= stats.shell_quartets_skipped);
        before = stats.shell_quartets_skipped;
    }
    assert_eq!(before, 55);
}

#[test]
fn repulsion_gradients_add_up_to_zero_over_the_atoms() {
    let basis = pair_basis(SECOND);
    let tables = tables(6);
    let n = basis.nao();
    let g = basis.eri_grad(&tables).unwrap();
    for axis in 0..3 {
        let mut total = vec![0.0; n * n * n * n];
        for atom in 0..g.natom() {
            for (t, x) in total.iter_mut().zip(g.block(atom, axis)) {
                *t += x.0;
            }
        }
        assert!(total.iter().all(|x| x.abs() < 1e-11));
    }
    let balanced = |f: Vec<[R; 3]>| {
        for axis in 0..3 {
            let sum: f64 = f.iter().map(|x| x[axis].0).sum();
            assert!(sum.abs() < 1e-9);
            assert!(f.iter().any(|x| x[axis].0.abs() > 1e-6));
        }
    };
    let four = rs(&varied(n * n * n * n));
    balanced(basis.eri_grad_contract(&tables, &four).unwrap());
    balanced(basis.eri_grad_contract_with(&tables, Engine::OsHgp, &four).unwrap());
    balanced(basis.eri_grad_contract_with(&tables, Engine::Rys, &four).unwrap());
    balanced(basis.eri_2c_grad_contract(&tables, &rs(&varied(n * n))).unwrap());
    let three = rs(&varied(n * n * n));
    balanced(basis.eri_3c_grad_contract(&tables, &basis, &three).unwrap());
}
