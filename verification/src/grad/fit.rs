//! Gradients of two- and three-center repulsion integrals, contracted with a density.
//!
//! The constant function that fills up a quartet does not move with any atom, so only
//! the other shells are differentiated.
use vstd::prelude::*;

use crate::df::{is_unit, unit_shells};
use crate::engine::os_eri::MAX_L;
use crate::engine::pairs::Vec3;
use crate::error::IntegralError;
use crate::flat::{cell, lemma_cell_in_range, lemma_pair_in_range, lemma_pair_parts, pair};
use crate::grad::contract::{are_forces, contraction_error, no_forces};
use crate::grad::force::{add_forces, force_after, piece, ForceJob, Piece};
use crate::integrals::Engine;
use crate::math::norm::primitive_norm;
use crate::math::solid_harmonics::vanishes;
use crate::offsets::{are_lengths, start};
use crate::one_electron::lemma_ranges_fit;
use crate::quartet::Tables;
use crate::scalar::{fraction, ratio, Real};
use crate::shell::{
    atom_of, coincide, distinct_centers, find_point, first_match, function_counts,
    law_every_shell_has_an_atom, lemma_function_counts, same_point, Basis, Shell, ShellKind,
};
use crate::shell_pairs::Prepared;
use crate::spherical::lemma_cell_parts;
use crate::tensor::total;

verus! {

/// The effective coefficient of the constant function.
pub open spec fn unit_effective<T: Real>() -> T {
    if vanishes(T::count(0)) {
        T::count(1)
    } else {
        T::prod(T::count(1), primitive_norm(T::count(0), 0, 0, 0))
    }
}

/// The constant function as a piece of a quartet.
pub open spec fn unit_piece<T: Real>(center: Vec3<T>) -> Piece<T> {
    (ShellKind::Cartesian, (0, (center, seq![T::count(0)], seq![unit_effective::<T>()])))
}

/// What a shell that is the constant function is as a piece of a quartet.
proof fn lemma_unit_piece<T: Real>(s: Shell<T>, center: Vec3<T>)
    requires
        is_unit(s, center),
    ensures
        piece(s) == unit_piece(center),
{
    assert(s.effectives() =~= seq![unit_effective::<T>()]);
}

/// The quartets of the contraction of a two-center gradient.
pub open spec fn metric_jobs<T: Real>(shells: Seq<Shell<T>>) -> spec_fn(int) -> ForceJob<T> {
    |n: int|
        {
            let lens = function_counts(shells);
            let nsh = shells.len() as int;
            let p = n / nsh;
            let q = n % nsh;
            ForceJob {
                shells: (
                    piece(shells[p]),
                    unit_piece(shells[p].center),
                    piece(shells[q]),
                    unit_piece(shells[q].center),
                ),
                atoms: (Some(atom_of(shells, p)), None, Some(atom_of(shells, q)), None),
                dims: (total(lens), 1, total(lens), 1),
                offs: (start(lens, p), 0, start(lens, q), 0),
            }
        }
}

/// The quartets of the contraction of a three-center gradient.
pub open spec fn fit_jobs<T: Real>(shells: Seq<Shell<T>>, aux: Seq<Shell<T>>) -> spec_fn(
    int,
) -> ForceJob<T> {
    |n: int|
        {
            let lens = function_counts(shells);
            let alens = function_counts(aux);
            let nsh = shells.len() as int;
            let nax = aux.len() as int;
            let i = n / nax / nsh;
            let j = n / nax % nsh;
            let p = n % nax;
            ForceJob {
                shells: (
                    piece(shells[i]),
                    piece(shells[j]),
                    piece(aux[p]),
                    unit_piece(aux[p].center),
                ),
                atoms: (
                    Some(atom_of(shells, i)),
                    Some(atom_of(shells, j)),
                    Some(atom_of(aux, p)),
                    None,
                ),
                dims: (total(lens), total(lens), total(alens), 1),
                offs: (start(lens, i), start(lens, j), start(alens, p), 0),
            }
        }
}

/// The first of `list` from number `k` on that is none of `other`; the number of them if
/// there is none.
pub open spec fn first_absent<T: Real>(list: Seq<Vec3<T>>, other: Seq<Vec3<T>>, k: int) -> int
    decreases list.len() - k,
{
    if k >= list.len() || first_match(other, list[k], 0) >= other.len() {
        k
    } else {
        first_absent(list, other, k + 1)
    }
}

/// The first place from number `k` on where two lists differ; the length of the shorter
/// if there is none.
pub open spec fn first_difference<T: Real>(a: Seq<Vec3<T>>, b: Seq<Vec3<T>>, k: int) -> int
    decreases a.len() - k,
{
    if k >= a.len() || k >= b.len() || !same_point(a[k], b[k]) {
        k
    } else {
        first_difference(a, b, k + 1)
    }
}

/// Whether two lists of points are the same.
pub open spec fn same_points<T: Real>(a: Seq<Vec3<T>>, b: Seq<Vec3<T>>) -> bool {
    a.len() == b.len() && first_difference(a, b, 0) >= a.len()
}

/// The point that shows that two lists differ: the first of the second that is not in the
/// first; else the first of the first that is not in the second; else the first of the
/// second that stands at another place.
pub open spec fn mismatch<T: Real>(main: Seq<Vec3<T>>, aux: Seq<Vec3<T>>) -> Vec3<T> {
    let a = first_absent(aux, main, 0);
    let m = first_absent(main, aux, 0);
    let d = first_difference(aux, main, 0);
    if a < aux.len() {
        aux[a]
    } else if m < main.len() {
        main[m]
    } else if d < aux.len() && d < main.len() {
        aux[d]
    } else {
        [fraction::<T>(0, 0), fraction::<T>(0, 0), fraction::<T>(0, 0)]
    }
}

/// The first of `list` that is none of `other`.
fn find_absent<T: Real>(list: &Vec<Vec3<T>>, other: &Vec<Vec3<T>>) -> (k: usize)
    ensures
        k == first_absent(list@, other@, 0),
        k <= list@.len(),
{
    let mut k: usize = 0;
    while k < list.len() && find_point(other, list[k]) < other.len()
        invariant
            k <= list@.len(),
            first_absent(list@, other@, 0) == first_absent(list@, other@, k as int),
        decreases list@.len() - k,
    {
        k = k + 1;
    }
    k
}

/// The first place where two lists differ.
fn find_difference<T: Real>(a: &Vec<Vec3<T>>, b: &Vec<Vec3<T>>) -> (k: usize)
    ensures
        k == first_difference(a@, b@, 0),
        k <= a@.len(),
{
    let mut k: usize = 0;
    while k < a.len() && k < b.len() && coincide(a[k], b[k])
        invariant
            k <= a@.len(),
            first_difference(a@, b@, 0) == first_difference(a@, b@, k as int),
        decreases a@.len() - k,
    {
        k = k + 1;
    }
    k
}

/// The point that shows that two lists differ.
fn first_mismatched_atom<T: Real>(main: &Vec<Vec3<T>>, aux: &Vec<Vec3<T>>) -> (c: Vec3<T>)
    ensures
        c == mismatch(main@, aux@),
{
    let a = find_absent(aux, main);
    if a < aux.len() {
        return aux[a];
    }
    let m = find_absent(main, aux);
    if m < main.len() {
        return main[m];
    }
    let d = find_difference(aux, main);
    if d < aux.len() && d < main.len() {
        return aux[d];
    }
    let none = ratio::<T>(0, 0);
    [none, none, none]
}

impl<T: Real> Basis<T> {
    /// The gradient of the metric, contracted with a density over two functions.
    #[verifier::spinoff_prover]
    #[verifier::rlimit(60)]
    pub fn eri_2c_grad_contract(&self, tables: &Tables<T>, gamma: &[T]) -> (r: Result<
        Vec<[T; 3]>,
        IntegralError<T>,
    >)
        requires
            tables.valid(),
            self.valid(),
            self.matrix_fits(),
        ensures
            match contraction_error(*self, self.size() * self.size(), gamma@.len() as int) {
                Some(e) => r == Err::<Vec<[T; 3]>, IntegralError<T>>(e),
                None => r is Ok && are_forces(
                    r->Ok_0@,
                    self.atom_total(),
                    metric_jobs(self.shells@),
                    tables.rys,
                    Engine::Auto,
                    None,
                    gamma@,
                    (self.shells@.len() * self.shells@.len()) as int,
                ),
            },
    {
        if let Err(e) = self.check_grad_l() {
            return Err(e);
        }
        let ghost shells = self.shells@;
        let ghost lens = function_counts(shells);
        proof {
            self.lemma_size_fits();
        }
        let n = self.nao();
        let nn: usize = n * n;
        if gamma.len() != nn {
            return Err(IntegralError::GammaLengthMismatch { expected: nn, got: gamma.len() });
        }
        let offs = self.offsets();
        let satom = self.shell_atom();
        let atoms = self.atoms();
        let prep = Prepared::new(&self.shells);
        let dummies = unit_shells(&self.shells);
        let units = Prepared::new(&dummies);
        let nsh = self.shells.len();
        let mut forces = no_forces(atoms.len());
        let ghost jobs = metric_jobs(shells);
        let ghost m = nsh as int;
        let dims = [n, 1, n, 1];
        assert(n * 1 * n * 1 == n * n) by (nonlinear_arith);
        assert(0 * m == 0) by (nonlinear_arith);
        let mut p: usize = 0;
        while p < nsh
            invariant
                p <= nsh,
                m == nsh,
                m == shells.len(),
                shells == self.shells@,
                lens == function_counts(shells),
                are_lengths(lens),
                lens.len() == shells.len(),
                tables.valid(),
                self.valid(),
                self.can_differentiate(),
                prep.valid(),
                prep.shells@ == shells,
                units.valid(),
                units.shells@.len() == m,
                forall|s: int|
                    0 <= s < m ==> is_unit(#[trigger] units.shells@[s], shells[s].center),
                n == total(lens),
                gamma@.len() == n * 1 * n * 1,
                dims == [n, 1, n, 1],
                offs@.len() == nsh,
                forall|s: int| 0 <= s < nsh ==> #[trigger] offs@[s] == start(lens, s),
                satom@.len() == nsh,
                forall|s: int| 0 <= s < nsh ==> #[trigger] satom@[s] == atom_of(shells, s),
                jobs == metric_jobs(shells),
                are_forces(
                    forces@,
                    self.atom_total(),
                    jobs,
                    tables.rys,
                    Engine::Auto,
                    None,
                    gamma@,
                    p * m,
                ),
            decreases nsh - p,
        {
            let mut q: usize = 0;
            while q < nsh
                invariant
                    p < nsh,
                    q <= nsh,
                    m == nsh,
                    m == shells.len(),
                    shells == self.shells@,
                    lens == function_counts(shells),
                    are_lengths(lens),
                    lens.len() == shells.len(),
                    tables.valid(),
                    self.valid(),
                    self.can_differentiate(),
                    prep.valid(),
                    prep.shells@ == shells,
                    units.valid(),
                    units.shells@.len() == m,
                    forall|s: int|
                        0 <= s < m ==> is_unit(#[trigger] units.shells@[s], shells[s].center),
                    n == total(lens),
                    gamma@.len() == n * 1 * n * 1,
                    dims == [n, 1, n, 1],
                    offs@.len() == nsh,
                    forall|s: int| 0 <= s < nsh ==> #[trigger] offs@[s] == start(lens, s),
                    satom@.len() == nsh,
                    forall|s: int| 0 <= s < nsh ==> #[trigger] satom@[s] == atom_of(shells, s),
                    jobs == metric_jobs(shells),
                    are_forces(
                        forces@,
                        self.atom_total(),
                        jobs,
                        tables.rys,
                        Engine::Auto,
                        None,
                        gamma@,
                        pair(p as int, m, q as int),
                    ),
                decreases nsh - q,
            {
                let ghost count = pair(p as int, m, q as int);
                let ghost job = jobs(count);
                proof {
                    lemma_pair_parts(p as int, m, q as int);
                    lemma_pair_in_range(p as int, m, m, q as int);
                    lemma_ranges_fit(lens, p as int);
                    lemma_ranges_fit(lens, q as int);
                    law_every_shell_has_an_atom(shells, p as int, m);
                    law_every_shell_has_an_atom(shells, q as int, m);
                    assert(shells[p as int].l < MAX_L && shells[q as int].l < MAX_L);
                    lemma_unit_piece(units.shells@[p as int], shells[p as int].center);
                    lemma_unit_piece(units.shells@[q as int], shells[q as int].center);
                }
                let s = [prep.side(p), units.side(p), prep.side(q), units.side(q)];
                let at = [Some(satom[p]), None, Some(satom[q]), None];
                let off = [offs[p], 0, offs[q], 0];
                assert(job.fits(gamma@)) by {
                    assert(job.count(0) == lens[p as int]);
                    assert(job.count(1) == 1);
                    assert(job.count(2) == lens[q as int]);
                    assert(job.count(3) == 1);
                }
                let ghost before = forces@;
                add_forces(
                    tables,
                    Engine::Auto,
                    None,
                    s,
                    at,
                    gamma,
                    dims,
                    off,
                    &mut forces,
                    Ghost(job),
                );
                proof {
                    assert forall|c: int, axis: int|
                        0 <= c < self.atom_total() && 0 <= axis
                            < 3 implies #[trigger] forces@[c][axis] == force_after(
                        jobs,
                        tables.rys,
                        Engine::Auto,
                        None,
                        gamma@,
                        c,
                        axis,
                        count + 1,
                    ) by {
                        assert(before[c][axis] == force_after(
                            jobs,
                            tables.rys,
                            Engine::Auto,
                            None,
                            gamma@,
                            c,
                            axis,
                            count,
                        ));
                    }
                }
                q = q + 1;
            }
            proof {
                assert(p * m + m == (p + 1) * m) by (nonlinear_arith);
            }
            p = p + 1;
        }
        Ok(forces)
    }

    /// Why a three-center gradient cannot be contracted, if it cannot: a shell that cannot
    /// be raised by one, different atoms, or a density of the wrong length.
    pub open spec fn fit_error(self, aux: Basis<T>, got: int) -> Option<IntegralError<T>> {
        let main_atoms = distinct_centers(self.shells@, self.shells@.len() as int);
        let aux_atoms = distinct_centers(aux.shells@, aux.shells@.len() as int);
        if !self.can_differentiate() {
            Some(self.grad_error())
        } else if !aux.can_differentiate() {
            Some(aux.grad_error())
        } else if !same_points(main_atoms, aux_atoms) {
            Some(IntegralError::ChargeNotOnAtom { center: mismatch(main_atoms, aux_atoms) })
        } else {
            contraction_error(self, self.size() * self.size() * aux.size(), got)
        }
    }

    /// The gradient of the integrals `(ij|P)`, contracted with a density over two functions
    /// and an auxiliary one. The auxiliary basis must sit on the same atoms.
    #[verifier::spinoff_prover]
    #[verifier::rlimit(80)]
    pub fn eri_3c_grad_contract(&self, tables: &Tables<T>, aux: &Basis<T>, gamma: &[T]) -> (r:
        Result<Vec<[T; 3]>, IntegralError<T>>)
        requires
            tables.valid(),
            self.valid(),
            aux.valid(),
            self.matrix_fits(),
            aux.size() <= usize::MAX,
            self.size() * self.size() * aux.size() <= usize::MAX,
        ensures
            match self.fit_error(*aux, gamma@.len() as int) {
                Some(e) => r == Err::<Vec<[T; 3]>, IntegralError<T>>(e),
                None => r is Ok && are_forces(
                    r->Ok_0@,
                    self.atom_total(),
                    fit_jobs(self.shells@, aux.shells@),
                    tables.rys,
                    Engine::Auto,
                    None,
                    gamma@,
                    (self.shells@.len() * self.shells@.len() * aux.shells@.len()) as int,
                ),
            },
    {
        if let Err(e) = self.check_grad_l() {
            return Err(e);
        }
        if let Err(e) = aux.check_grad_l() {
            return Err(e);
        }
        let atoms = self.atoms();
        let aux_atoms = aux.atoms();
        if atoms.len() != aux_atoms.len() || find_difference(&atoms, &aux_atoms) < atoms.len() {
            return Err(
                IntegralError::ChargeNotOnAtom {
                    center: first_mismatched_atom(&atoms, &aux_atoms),
                },
            );
        }
        let ghost shells = self.shells@;
        let ghost lens = function_counts(shells);
        let ghost ashells = aux.shells@;
        let ghost alens = function_counts(ashells);
        proof {
            self.lemma_size_fits();
            lemma_function_counts(ashells);
        }
        let n = self.nao();
        let na = aux.nao();
        let expected: usize = n * n * na;
        if gamma.len() != expected {
            return Err(
                IntegralError::GammaLengthMismatch { expected, got: gamma.len() },
            );
        }
        let offs = self.offsets();
        let aoffs = aux.offsets();
        let satom = self.shell_atom();
        let aatom = aux.shell_atom();
        let prep = Prepared::new(&self.shells);
        let aprep = Prepared::new(&aux.shells);
        let dummies = unit_shells(&aux.shells);
        let units = Prepared::new(&dummies);
        let nsh = self.shells.len();
        let nax = aux.shells.len();
        let mut forces = no_forces(atoms.len());
        let ghost jobs = fit_jobs(shells, ashells);
        let ghost (m, w) = (nsh as int, nax as int);
        let dims = [n, n, na, 1];
        assert(n * n * na * 1 == n * n * na) by (nonlinear_arith);
        assert(0 * m * w == 0) by (nonlinear_arith);
        let mut i: usize = 0;
        while i < nsh
            invariant
                i <= nsh,
                m == nsh,
                w == nax,
                m == shells.len(),
                w == ashells.len(),
                shells == self.shells@,
                ashells == aux.shells@,
                lens == function_counts(shells),
                alens == function_counts(ashells),
                are_lengths(lens),
                are_lengths(alens),
                lens.len() == shells.len(),
                alens.len() == ashells.len(),
                tables.valid(),
                self.valid(),
                aux.valid(),
                self.can_differentiate(),
                aux.can_differentiate(),
                self.atom_total() == aux.atom_total(),
                prep.valid(),
                prep.shells@ == shells,
                aprep.valid(),
                aprep.shells@ == ashells,
                units.valid(),
                units.shells@.len() == w,
                forall|s: int|
                    0 <= s < w ==> is_unit(#[trigger] units.shells@[s], ashells[s].center),
                n == total(lens),
                na == total(alens),
                gamma@.len() == n * n * na * 1,
                dims == [n, n, na, 1],
                offs@.len() == nsh,
                aoffs@.len() == nax,
                forall|s: int| 0 <= s < nsh ==> #[trigger] offs@[s] == start(lens, s),
                forall|s: int| 0 <= s < nax ==> #[trigger] aoffs@[s] == start(alens, s),
                satom@.len() == nsh,
                aatom@.len() == nax,
                forall|s: int| 0 <= s < nsh ==> #[trigger] satom@[s] == atom_of(shells, s),
                forall|s: int| 0 <= s < nax ==> #[trigger] aatom@[s] == atom_of(ashells, s),
                jobs == fit_jobs(shells, ashells),
                are_forces(
                    forces@,
                    self.atom_total(),
                    jobs,
                    tables.rys,
                    Engine::Auto,
                    None,
                    gamma@,
                    i * m * w,
                ),
            decreases nsh - i,
        {
            let mut j: usize = 0;
            while j < nsh
                invariant
                    i < nsh,
                    j <= nsh,
                    m == nsh,
                    w == nax,
                    m == shells.len(),
                    w == ashells.len(),
                    shells == self.shells@,
                    ashells == aux.shells@,
                    lens == function_counts(shells),
                    alens == function_counts(ashells),
                    are_lengths(lens),
                    are_lengths(alens),
                    lens.len() == shells.len(),
                    alens.len() == ashells.len(),
                    tables.valid(),
                    self.valid(),
                    aux.valid(),
                    self.can_differentiate(),
                    aux.can_differentiate(),
                    self.atom_total() == aux.atom_total(),
                    prep.valid(),
                    prep.shells@ == shells,
                    aprep.valid(),
                    aprep.shells@ == ashells,
                    units.valid(),
                    units.shells@.len() == w,
                    forall|s: int|
                        0 <= s < w ==> is_unit(#[trigger] units.shells@[s], ashells[s].center),
                    n == total(lens),
                    na == total(alens),
                    gamma@.len() == n * n * na * 1,
                    dims == [n, n, na, 1],
                    offs@.len() == nsh,
                    aoffs@.len() == nax,
                    forall|s: int| 0 <= s < nsh ==> #[trigger] offs@[s] == start(lens, s),
                    forall|s: int| 0 <= s < nax ==> #[trigger] aoffs@[s] == start(alens, s),
                    satom@.len() == nsh,
                    aatom@.len() == nax,
                    forall|s: int| 0 <= s < nsh ==> #[trigger] satom@[s] == atom_of(shells, s),
                    forall|s: int| 0 <= s < nax ==> #[trigger] aatom@[s] == atom_of(ashells, s),
                    jobs == fit_jobs(shells, ashells),
                    are_forces(
                        forces@,
                        self.atom_total(),
                        jobs,
                        tables.rys,
                        Engine::Auto,
                        None,
                        gamma@,
                        pair(i as int, m, j as int) * w,
                    ),
                decreases nsh - j,
            {
                let mut p: usize = 0;
                while p < nax
                    invariant
                        i < nsh,
                        j < nsh,
                        p <= nax,
                        m == nsh,
                        w == nax,
                        m == shells.len(),
                        w == ashells.len(),
                        shells == self.shells@,
                        ashells == aux.shells@,
                        lens == function_counts(shells),
                        alens == function_counts(ashells),
                        are_lengths(lens),
                        are_lengths(alens),
                        lens.len() == shells.len(),
                        alens.len() == ashells.len(),
                        tables.valid(),
                        self.valid(),
                        aux.valid(),
                        self.can_differentiate(),
                        aux.can_differentiate(),
                        self.atom_total() == aux.atom_total(),
                        prep.valid(),
                        prep.shells@ == shells,
                        aprep.valid(),
                        aprep.shells@ == ashells,
                        units.valid(),
                        units.shells@.len() == w,
                        forall|s: int|
                            0 <= s < w ==> is_unit(#[trigger] units.shells@[s], ashells[s].center),
                        n == total(lens),
                        na == total(alens),
                        gamma@.len() == n * n * na * 1,
                        dims == [n, n, na, 1],
                        offs@.len() == nsh,
                        aoffs@.len() == nax,
                        forall|s: int| 0 <= s < nsh ==> #[trigger] offs@[s] == start(lens, s),
                        forall|s: int| 0 <= s < nax ==> #[trigger] aoffs@[s] == start(alens, s),
                        satom@.len() == nsh,
                        aatom@.len() == nax,
                        forall|s: int| 0 <= s < nsh ==> #[trigger] satom@[s] == atom_of(shells, s),
                        forall|s: int| 0 <= s < nax ==> #[trigger] aatom@[s] == atom_of(ashells, s),
                        jobs == fit_jobs(shells, ashells),
                        are_forces(
                            forces@,
                            self.atom_total(),
                            jobs,
                            tables.rys,
                            Engine::Auto,
                            None,
                            gamma@,
                            cell(i as int, m, j as int, w, p as int),
                        ),
                    decreases nax - p,
                {
                    let ghost count = cell(i as int, m, j as int, w, p as int);
                    let ghost job = jobs(count);
                    proof {
                        lemma_cell_parts(i as int, m, j as int, w, p as int);
                        lemma_cell_in_range(i as int, m, m, j as int, w, p as int);
                        lemma_ranges_fit(lens, i as int);
                        lemma_ranges_fit(lens, j as int);
                        lemma_ranges_fit(alens, p as int);
                        law_every_shell_has_an_atom(shells, i as int, m);
                        law_every_shell_has_an_atom(shells, j as int, m);
                        law_every_shell_has_an_atom(ashells, p as int, w);
                        assert(shells[i as int].l < MAX_L && shells[j as int].l < MAX_L);
                        assert(ashells[p as int].l < MAX_L);
                        lemma_unit_piece(units.shells@[p as int], ashells[p as int].center);
                    }
                    let s = [prep.side(i), prep.side(j), aprep.side(p), units.side(p)];
                    let at = [Some(satom[i]), Some(satom[j]), Some(aatom[p]), None];
                    let off = [offs[i], offs[j], aoffs[p], 0];
                    assert(job.fits(gamma@)) by {
                        assert(job.count(0) == lens[i as int]);
                        assert(job.count(1) == lens[j as int]);
                        assert(job.count(2) == alens[p as int]);
                        assert(job.count(3) == 1);
                    }
                    let ghost before = forces@;
                    add_forces(
                        tables,
                        Engine::Auto,
                        None,
                        s,
                        at,
                        gamma,
                        dims,
                        off,
                        &mut forces,
                        Ghost(job),
                    );
                    proof {
                        assert forall|c: int, axis: int|
                            0 <= c < self.atom_total() && 0 <= axis
                                < 3 implies #[trigger] forces@[c][axis] == force_after(
                            jobs,
                            tables.rys,
                            Engine::Auto,
                            None,
                            gamma@,
                            c,
                            axis,
                            count + 1,
                        ) by {
                            assert(before[c][axis] == force_after(
                                jobs,
                                tables.rys,
                                Engine::Auto,
                                None,
                                gamma@,
                                c,
                                axis,
                                count,
                            ));
                        }
                    }
                    p = p + 1;
                }
                proof {
                    let q = pair(i as int, m, j as int);
                    assert(q * w + w == (q + 1) * w) by (nonlinear_arith);
                }
                j = j + 1;
            }
            proof {
                assert(pair(i as int, m, m) == (i + 1) * m) by (nonlinear_arith)
                    requires
                        pair(i as int, m, m) == i * m + m,
                ;
            }
            i = i + 1;
        }
        Ok(forces)
    }
}

} // verus!
