use std::f64::consts::PI;

use integral::dense::{check_erf_omega, larger_of};
use integral::ecp::angular::{convolve, coord_coeffs};
use integral::ecp::harmonics::{binom, eval_poly, factorial, legendre_coeffs, Rsh};
use integral::engine::os_eri::{
    coulomb_shell_into_scratch, coulomb_shell_pairs_into_scratch, EriScratch,
};
use integral::engine::pairs::{shell_pair_data, ShellPairData, ShellRef};
use integral::engine::triples::{dec, inc, triple_table};
use integral::eri_batch::EriBatchQueue;
use integral::eri_builder::EriBuilder;
use integral::integrals::{select_engine, Engine};
use integral::math::boys::{asymptotic_boundary, BoysTable};
use integral::math::gauss::UnitRule;
use integral::math::rys::{RysTables, MAX_RYS_ROOTS};
use integral::math::rys_reference::{rys_finite_reference, GL_POINTS};
use integral::math::solid_harmonics::m_order;
use integral::offsets::starts;
use integral::quartet::{EriKernel, Tables};
use integral::queue::PendingQueue;
use integral::scalar::{Lanes, Real, Residue, Scalar};
use integral::shell::{Basis, Shell};
use integral::shell_pairs::{canonical_shell_pairs, tri_idx};
use integral::tensor::perm8;

#[derive(Clone, Copy, Debug, PartialEq)]
struct R(f64);

impl Scalar for R {
    fn count(n: u64) -> Self {
        R(n as f64)
    }
    fn sum(a: Self, b: Self) -> Self {
        R(a.0 + b.0)
    }
    fn diff(a: Self, b: Self) -> Self {
        R(a.0 - b.0)
    }
    fn prod(a: Self, b: Self) -> Self {
        R(a.0 * b.0)
    }
    fn quot(a: Self, b: Self) -> Self {
        R(a.0 / b.0)
    }
    fn neg(a: Self) -> Self {
        R(-a.0)
    }
    fn from_count(n: u64) -> Self {
        R(n as f64)
    }
    fn plus(self, o: Self) -> Self {
        R(self.0 + o.0)
    }
    fn minus(self, o: Self) -> Self {
        R(self.0 - o.0)
    }
    fn times(self, o: Self) -> Self {
        R(self.0 * o.0)
    }
    fn over(self, o: Self) -> Self {
        R(self.0 / o.0)
    }
    fn negated(self) -> Self {
        R(-self.0)
    }
}

impl Real for R {
    fn root(a: Self) -> Self {
        R(a.0.sqrt())
    }
    fn expo(a: Self) -> Self {
        R(a.0.exp())
    }
    fn magnitude(a: Self) -> Self {
        R(a.0.abs())
    }
    fn circle() -> Self {
        R(std::f64::consts::PI)
    }
    fn lt(a: Self, b: Self) -> bool {
        a.0 < b.0
    }
    fn le(a: Self, b: Self) -> bool {
        a.0 <= b.0
    }
    fn nearest(a: Self) -> usize {
        a.0.round() as usize
    }
    fn raised(a: Self, n: u64) -> Self {
        R(a.0.powi(n as i32))
    }
    fn rational(a: Self, n: u64, d: u64) -> Self {
        R(a.0.powf(n as f64 / d as f64))
    }
    fn whole(a: Self) -> usize {
        a.0 as usize
    }
    fn hypotenuse(a: Self, b: Self) -> Self {
        R(a.0.hypot(b.0))
    }
    fn signed(a: Self, b: Self) -> Self {
        R(a.0.copysign(b.0))
    }
    fn cosine(a: Self) -> Self {
        R(a.0.cos())
    }
    fn finite(a: Self) -> bool {
        a.0.is_finite()
    }
    fn gap() -> Self {
        R(f64::EPSILON)
    }
    fn sqrt(self) -> Self {
        R(self.0.sqrt())
    }
    fn exp(self) -> Self {
        R(self.0.exp())
    }
    fn abs(self) -> Self {
        R(self.0.abs())
    }
    fn pi() -> Self {
        R(std::f64::consts::PI)
    }
    fn less(self, o: Self) -> bool {
        self.0 < o.0
    }
    fn at_most(self, o: Self) -> bool {
        self.0 <= o.0
    }
    fn round(self) -> usize {
        self.0.round() as usize
    }
    fn powi(self, n: u64) -> Self {
        R(self.0.powi(n as i32))
    }
    fn powf(self, n: u64, d: u64) -> Self {
        R(self.0.powf(n as f64 / d as f64))
    }
    fn trunc(self) -> usize {
        self.0 as usize
    }
    fn hypot(self, b: Self) -> Self {
        R(self.0.hypot(b.0))
    }
    fn copysign(self, b: Self) -> Self {
        R(self.0.copysign(b.0))
    }
    fn cos(self) -> Self {
        R(self.0.cos())
    }
    fn is_finite(self) -> bool {
        self.0.is_finite()
    }
    fn epsilon() -> Self {
        R(f64::EPSILON)
    }
}

/// Series of degree 14 on `pieces` subintervals, fitted to the reference quadrature for
/// the numbers of roots up to `top`; constants for the others.
fn rys_tables(top: usize, pieces: usize) -> RysTables<R> {
    let rule = UnitRule::<R>::new(GL_POINTS);
    let deg = 14usize;
    let mut roots = Vec::new();
    let mut weights = Vec::new();
    for n in 1..=MAX_RYS_ROOTS {
        let mut rr = Vec::new();
        let mut ww = Vec::new();
        if n > top {
            for _ in 0..n {
                rr.push(vec![R(0.0)]);
                ww.push(vec![R(0.0)]);
            }
        } else {
            let t_hi = asymptotic_boundary::<R>(2 * n - 1).0;
            let width = t_hi / pieces as f64;
            for s in 0..pieces {
                let a = s as f64 * width;
                let m = deg + 1;
                let mut fr = vec![vec![0.0; m]; n];
                let mut fw = vec![vec![0.0; m]; n];
                for j in 0..m {
                    let xi = (PI * (j as f64 + 0.5) / m as f64).cos();
                    let t = a + 0.5 * width * (xi + 1.0);
                    let mut x = [R(0.0); MAX_RYS_ROOTS];
                    let mut w = [R(0.0); MAX_RYS_ROOTS];
                    rys_finite_reference(&rule, n, R(t), &mut x, &mut w);
                    for i in 0..n {
                        fr[i][j] = x[i].0;
                        fw[i][j] = w[i].0;
                    }
                }
                for i in 0..n {
                    let mut cr = Vec::new();
                    let mut cw = Vec::new();
                    for k in 0..m {
                        let mut sr = 0.0;
                        let mut sw = 0.0;
                        for j in 0..m {
                            let c = (PI * k as f64 * (j as f64 + 0.5) / m as f64).cos();
                            sr += fr[i][j] * c;
                            sw += fw[i][j] * c;
                        }
                        cr.push(R(2.0 * sr / m as f64));
                        cw.push(R(2.0 * sw / m as f64));
                    }
                    rr.push(cr);
                    ww.push(cw);
                }
            }
        }
        roots.push(rr);
        weights.push(ww);
    }
    RysTables::new(roots, weights)
}

fn v(c: [f64; 3]) -> [R; 3] {
    [R(c[0]), R(c[1]), R(c[2])]
}

fn cart(l: usize, c: [f64; 3], e: f64) -> Shell<R> {
    Shell::new(l, v(c), vec![R(e)], vec![R(1.0)]).unwrap()
}

fn tables(top: usize) -> Tables<R> {
    Tables {
        boys: BoysTable::new(),
        rys: rys_tables(top, 40),
    }
}

#[test]
fn pairs_stand_at_their_numbers() {
    let pairs = canonical_shell_pairs(7);
    assert_eq!(pairs.len(), 28);
    for (k, &(i, j)) in pairs.iter().enumerate() {
        assert!(j <= i && i < 7);
        assert_eq!(tri_idx(i, j), k);
    }
    assert_eq!(canonical_shell_pairs(0).len(), 0);
    assert_eq!(tri_idx(5, 3), 18);
}

#[test]
fn ranges_follow_one_another() {
    assert_eq!(starts(&vec![3, 0, 5, 1]), vec![0, 3, 3, 8, 9]);
    assert_eq!(starts(&vec![]), vec![0]);
}

#[test]
fn eight_orders_of_four_places() {
    let mut seen = vec![];
    for p in 0..8 {
        let mut r = perm8(p).to_vec();
        assert!(!seen.contains(&r));
        seen.push(r.clone());
        let together = |a: usize, b: usize| {
            let (x, y) = (r[a].min(r[b]), r[a].max(r[b]));
            (x, y) == (0, 1) || (x, y) == (2, 3)
        };
        assert!(together(0, 1) && together(2, 3));
        r.sort();
        assert_eq!(r, vec![0, 1, 2, 3]);
    }
}

#[test]
fn the_fourth_of_a_shape_releases_the_group() {
    let mut queue = PendingQueue::<(usize, u64)>::new();
    let (a, b) = ((1, 1, 2, 2), (0, 3, 2, 2));
    assert!(queue.push(a, (10, 1)).is_none());
    assert!(queue.push(b, (20, 1)).is_none());
    assert!(queue.push(a, (11, 1)).is_none());
    assert!(queue.push(a, (12, 1)).is_none());
    assert_eq!(
        queue.push(a, (13, 3)),
        Some([(10, 1), (11, 1), (12, 1), (13, 3)])
    );
    assert!(queue.push(a, (14, 1)).is_none());
    assert!(queue.push(b, (21, 1)).is_none());
    assert_eq!(queue.drain(), vec![(20, 1), (21, 1), (14, 1)]);
    assert!(queue.drain().is_empty());
    let mut quartets = EriBatchQueue::<R>::new();
    for k in 0..3 {
        assert!(quartets.push(a, [k, 0, 0, 0]).is_none());
    }
    assert_eq!(
        quartets.push(a, [3, 0, 0, 0]),
        Some([[0, 0, 0, 0], [1, 0, 0, 0], [2, 0, 0, 0], [3, 0, 0, 0]])
    );
    assert!(quartets.drain().is_empty());
}

#[test]
fn every_ket_pair_is_scheduled_once() {
    let shells: Vec<Shell<R>> = (0..9)
        .map(|k| cart(k % 3, [0.3 * k as f64, 0.1, -0.2], 0.5 + 0.1 * k as f64))
        .collect();
    let basis = Basis::new(shells);
    let tables = tables(0);
    let builder = EriBuilder::new(&basis, &tables);
    let n = builder.bra_pairs().len();
    let s = &builder.batch_schedule;
    assert_eq!(s.batch_offsets.len(), n + 1);
    assert_eq!(s.scalar_offsets.len(), n + 1);
    for b in 0..n {
        let mut times = vec![0; n];
        for group in &s.batches[s.batch_offsets[b]..s.batch_offsets[b + 1]] {
            for &k in group {
                times[k as usize] += 1;
            }
        }
        for &k in &s.scalars[s.scalar_offsets[b]..s.scalar_offsets[b + 1]] {
            times[k as usize] += 1;
        }
        assert!(times.iter().all(|&t| t == 1), "bra {b}: {times:?}");
    }
    assert!(!s.batches.is_empty());
}

#[test]
fn engine_thresholds() {
    assert_eq!(select_engine(2, 3, 0), Engine::Rys);
    assert_eq!(select_engine(2, 3, 1), Engine::OsHgp);
    assert_eq!(select_engine(3, 3, 2), Engine::Rys);
    assert_eq!(select_engine(3, 3, 3), Engine::OsHgp);
    assert_eq!(select_engine(7, 3, 15), Engine::Rys);
    assert_eq!(select_engine(7, 3, 16), Engine::OsHgp);
    assert_eq!(select_engine(8, 9, 1_000), Engine::Rys);
}

#[test]
fn attenuations_are_finite_and_positive() {
    assert!(check_erf_omega(R(0.3)));
    for bad in [0.0, -1.0, f64::NAN, f64::INFINITY] {
        assert!(!check_erf_omega(R(bad)));
    }
}

#[test]
fn larger_of_two_values() {
    assert_eq!(larger_of(R(1.0), R(2.0)).0, 2.0);
    assert_eq!(larger_of(R(2.0), R(1.0)).0, 2.0);
    assert_eq!(larger_of(R(f64::NAN), R(1.0)).0, 1.0);
    assert_eq!(larger_of(R(1.0), R(f64::NAN)).0, 1.0);
}

#[test]
fn residues_are_a_ring() {
    let values = [Residue(0), Residue(1), Residue(u64::MAX), Residue(0x1234_5678_9abc_def1)];
    let zero = Residue::from_count(0);
    for a in values {
        assert_eq!(a.plus(a.negated()), zero);
        assert_eq!(a.times(Residue::from_count(1)), a);
        for b in values {
            assert_eq!(a.plus(b), b.plus(a));
            assert_eq!(a.times(b), b.times(a));
            assert_eq!(a.minus(b), a.plus(b.negated()));
            for c in values {
                assert_eq!(a.times(b.plus(c)), a.times(b).plus(a.times(c)));
                assert_eq!(a.times(b).times(c), a.times(b.times(c)));
            }
        }
    }
    assert_ne!(Residue(3).over(Residue(5)), Residue(5).over(Residue(3)));
}

#[test]
fn lanes_never_mix() {
    let a = Lanes {
        x0: R(1.0),
        x1: R(2.0),
        x2: R(3.0),
        x3: R(4.0),
    };
    let b = Lanes {
        x0: R(5.0),
        x1: R(-6.0),
        x2: R(7.0),
        x3: R(0.5),
    };
    let s = a.times(b).plus(a).over(b).minus(b.negated());
    for k in 0..4 {
        let (x, y) = (a.lane(k).0, b.lane(k).0);
        assert_eq!(s.lane(k).0, (x * y + x) / y + y);
    }
}

#[test]
fn orders_and_components_are_one_to_one() {
    for l in 0..=6usize {
        let mut m = m_order(l);
        m.sort();
        let all: Vec<i64> = (-(l as i64)..=l as i64).collect();
        assert_eq!(m, all);
    }
}

#[test]
fn triples_are_listed_by_degree() {
    let tri = triple_table(4);
    assert_eq!(tri.len(), 35);
    for w in tri.windows(2) {
        assert!(w[0].iter().sum::<usize>() <= w[1].iter().sum::<usize>());
    }
    assert_eq!(dec(inc([1, 0, 2], 1), 1), [1, 0, 2]);
}

#[test]
fn harmonics_on_the_sphere() {
    let rsh = Rsh::<R>::new(5);
    let norm = (0.3f64 * 0.3 + 0.7 * 0.7 + 0.4 * 0.4).sqrt();
    let u = [0.3 / norm, -0.7 / norm, 0.4 / norm];
    for l in 0..=5usize {
        let mut sum = 0.0;
        for m in -(l as i32)..=l as i32 {
            let a = eval_poly(rsh.poly(l, m), v(u)).0;
            let b = eval_poly(rsh.poly(l, m), v([-u[0], -u[1], -u[2]])).0;
            let sign = if l % 2 == 0 { 1.0 } else { -1.0 };
            assert!((b - sign * a).abs() < 1e-13, "l={l} m={m}");
            sum += a * a;
        }
        let want = (2 * l + 1) as f64 / (4.0 * PI);
        assert!((sum - want).abs() < 1e-12, "l={l}: {sum} vs {want}");
    }
    let s = eval_poly(rsh.poly(0, 0), v([0.1, 0.2, 0.3])).0;
    assert!((s - (1.0 / (4.0 * PI)).sqrt()).abs() < 1e-15);
}

#[test]
fn small_combinatorics() {
    assert_eq!(binom::<R>(5, 2).0, 10.0);
    assert_eq!(factorial::<R>(5).0, 120.0);
    let p3: Vec<f64> = legendre_coeffs::<R>(3).iter().map(|x| x.0).collect();
    assert_eq!(p3, vec![0.0, -1.5, 0.0, 2.5]);
    let c: Vec<f64> = coord_coeffs(2, R(3.0)).iter().map(|x| x.0).collect();
    assert_eq!(c.len(), 3);
    let s = convolve(&vec![R(1.0), R(2.0)], &vec![R(3.0), R(4.0)]);
    assert_eq!(
        s.iter().map(|x| x.0).collect::<Vec<f64>>(),
        vec![3.0, 10.0, 8.0]
    );
}

#[test]
fn buffers_count_what_they_keep() {
    let table = BoysTable::<R>::new();
    let (e, one) = ([R(0.8)], [R(1.0)]);
    let shell = |l: usize| ShellRef {
        center: v([0.0, 0.1, 0.2]),
        l,
        exps: &e,
        coeffs: &one,
    };
    let (d, s) = (shell(2), shell(0));
    let mut scratch = EriScratch::<R>::new();
    assert_eq!(scratch.resident_f64(), 0);
    assert_eq!(scratch.largest_buffer_f64(), 0);
    let mut out = vec![R(0.0); 6 * 6];
    coulomb_shell_into_scratch(&mut scratch, &table, d, d, s, s, &mut out);
    assert_eq!(scratch.resident_f64(), 668);
    let largest = scratch.largest_buffer_f64();
    assert!(0 < largest && largest < 668);
    coulomb_shell_into_scratch(&mut scratch, &table, s, s, s, s, &mut [R(0.0)]);
    assert_eq!(scratch.resident_f64(), 668);
    assert_eq!(scratch.largest_buffer_f64(), largest);
    let data = shell_pair_data(d, d);
    assert_eq!(data.len(), 1);
    assert!(!data.is_empty());
}

#[test]
fn quartets_accumulate_and_no_pairs_add_nothing() {
    let table = BoysTable::<R>::new();
    let (e, one) = ([R(0.8), R(0.3)], [R(1.0), R(0.4)]);
    let shell = |l: usize, x: f64| ShellRef {
        center: v([x, 0.1, 0.2]),
        l,
        exps: &e,
        coeffs: &one,
    };
    let (p, s) = (shell(1, 0.0), shell(0, 0.7));
    let (bra, ket) = (shell_pair_data(p, s), shell_pair_data(s, p));
    let mut scratch = EriScratch::<R>::new();
    let mut once = vec![R(0.0); 9];
    coulomb_shell_pairs_into_scratch(&mut scratch, &table, p, s, s, p, &bra, &ket, &mut once);
    assert!(once.iter().any(|x| x.0 != 0.0));
    let mut twice = once.clone();
    coulomb_shell_pairs_into_scratch(&mut scratch, &table, p, s, s, p, &bra, &ket, &mut twice);
    for (x, y) in once.iter().zip(&twice) {
        assert_eq!(2.0 * x.0, y.0);
    }
    let none = ShellPairData { pairs: vec![] };
    assert!(none.is_empty());
    let mut kept = once.clone();
    coulomb_shell_pairs_into_scratch(&mut scratch, &table, p, s, s, p, &none, &ket, &mut kept);
    coulomb_shell_pairs_into_scratch(&mut scratch, &table, p, s, s, p, &bra, &none, &mut kept);
    assert_eq!(kept, once);
}

#[test]
fn fitted_block_of_a_wide_attenuation() {
    let basis = Basis::new(vec![
        cart(1, [0.0, 0.0, 0.0], 0.9),
        cart(0, [0.2, 0.4, -0.3], 0.6),
    ]);
    let tables = tables(3);
    let bare = basis.eri_3c_block(&tables, &basis, 0, 1, 0);
    let wide = basis.eri_3c_block_kernel(
        &tables,
        &basis,
        0,
        1,
        0,
        EriKernel::Erf { omega: R(1e7) },
    );
    let coulomb = basis.eri_3c_block_kernel(&tables, &basis, 0, 1, 0, EriKernel::Coulomb);
    assert_eq!(bare, coulomb);
    assert_eq!(bare.len(), 9);
    for (x, y) in wide.iter().zip(&bare) {
        assert!((x.0 - y.0).abs() < 1e-10);
    }
}

#[test]
fn hydrogen_molecule_in_a_minimal_basis() {
    let exps = vec![R(3.425250914), R(0.623913730), R(0.168855404)];
    let coef = vec![R(0.154328967), R(0.535328142), R(0.444634542)];
    let shell = |z: f64| Shell::new(0, v([0.0, 0.0, z]), exps.clone(), coef.clone()).unwrap();
    let basis = Basis::new(vec![shell(0.0), shell(1.4)]);
    let tables = tables(1);
    let close = |got: R, want: f64| assert!((got.0 - want).abs() < 5e-5, "{} vs {want}", got.0);
    assert_eq!(basis.nao(), 2);
    close(basis.overlap()[0], 1.0);
    close(basis.overlap()[1], 0.6593);
    close(basis.kinetic()[0], 0.7600);
    close(basis.kinetic()[1], 0.2365);
    let charges = [(v([0.0, 0.0, 0.0]), R(1.0)), (v([0.0, 0.0, 1.4]), R(1.0))];
    close(basis.nuclear(&tables.boys, &charges)[0], -1.8804);
    let eri = basis.eri(&tables);
    close(eri[0], 0.7746);
    close(eri[3], 0.5697);
    close(eri[1], 0.4441);
    close(eri[5], 0.2970);
}

#[test]
fn single_normalized_s_function() {
    let basis = Basis::new(vec![cart(0, [0.0, 0.0, 0.0], 0.8)]);
    let s = basis.overlap();
    assert_eq!(s.len(), 1);
    assert!((s[0].0 - 1.0).abs() < 1e-12);
}
