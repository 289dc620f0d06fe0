//! Gradients of repulsion integrals, contracted with a density.
use vstd::prelude::*;

use crate::dense::{attenuation_of, engine_of, is_kernel};
use crate::engine::os_eri::MAX_L;
use crate::error::IntegralError;
use crate::flat::{quad, quad_parts};
use crate::grad::force::{add_forces, force_after, piece, ForceJob};
use crate::integrals::Engine;
use crate::math::rys::RysTables;
use crate::offsets::{are_lengths, start};
use crate::one_electron::lemma_ranges_fit;
use crate::quartet::{EriKernel, Tables};
use crate::scalar::{Real, Scalar};
use crate::shell::{
    atom_of, function_counts, law_every_shell_has_an_atom, lemma_function_counts, Basis, Shell,
};
use crate::shell_pairs::Prepared;
use crate::tensor::{lemma_next, lemma_total_steps, total};

verus! {

/// No forces.
pub(crate) fn no_forces<T: Scalar>(n: usize) -> (f: Vec<[T; 3]>)
    ensures
        f@.len() == n,
        forall|c: int, axis: int|
            0 <= c < n && 0 <= axis < 3 ==> #[trigger] f@[c][axis] == T::count(0),
{
    let z = T::from_count(0);
    crate::scalar::filled(n, [z, z, z])
}

/// The next of four numbers below `n`, the last running fastest.
pub(crate) fn advance(i: usize, j: usize, k: usize, l: usize, n: usize) -> (r: (usize, usize, usize, usize))
    requires
        i < n,
        j < n,
        k < n,
        l < n,
    ensures
        quad(r.0 as int, n as int, r.1 as int, n as int, r.2 as int, n as int, r.3 as int) == quad(
            i as int,
            n as int,
            j as int,
            n as int,
            k as int,
            n as int,
            l as int,
        ) + 1,
        r.0 <= n,
        r.1 < n,
        r.2 < n,
        r.3 < n,
        r.0 == n ==> quad(
            r.0 as int,
            n as int,
            r.1 as int,
            n as int,
            r.2 as int,
            n as int,
            r.3 as int,
        ) == n * n * n * n,
{
    proof {
        let m = n as int;
        lemma_next(
            i as int,
            m,
            j as int,
            m,
            k as int,
            m,
            l as int,
            m,
            quad(i as int, m, j as int, m, k as int, m, l as int),
        );
    }
    if l + 1 < n {
        (i, j, k, l + 1)
    } else if k + 1 < n {
        (i, j, k + 1, 0)
    } else if j + 1 < n {
        (i, j + 1, 0, 0)
    } else {
        (i + 1, 0, 0, 0)
    }
}

/// The quartets of the contraction of a four-index gradient: all shells, the last
/// running fastest.
pub open spec fn repulsion_jobs<T: Real>(shells: Seq<Shell<T>>) -> spec_fn(int) -> ForceJob<T> {
    |n: int|
        {
            let lens = function_counts(shells);
            let nsh = shells.len() as int;
            let q = quad_parts(n, nsh, nsh, nsh);
            let size = total(lens);
            ForceJob {
                shells: (
                    piece(shells[q.0]),
                    piece(shells[q.1]),
                    piece(shells[q.2]),
                    piece(shells[q.3]),
                ),
                atoms: (
                    Some(atom_of(shells, q.0)),
                    Some(atom_of(shells, q.1)),
                    Some(atom_of(shells, q.2)),
                    Some(atom_of(shells, q.3)),
                ),
                dims: (size, size, size, size),
                offs: (
                    start(lens, q.0),
                    start(lens, q.1),
                    start(lens, q.2),
                    start(lens, q.3),
                ),
            }
        }
}

/// Whether the forces on all atoms are those of the first `n` quartets.
pub open spec fn are_forces<T: Real>(
    f: Seq<[T; 3]>,
    natom: int,
    jobs: spec_fn(int) -> ForceJob<T>,
    rys: RysTables<T>,
    engine: Engine,
    omega: Option<T>,
    gamma: Seq<T>,
    n: int,
) -> bool {
    &&& f.len() == natom
    &&& forall|c: int, axis: int|
        0 <= c < natom && 0 <= axis < 3 ==> #[trigger] f[c][axis] == force_after(
            jobs,
            rys,
            engine,
            omega,
            gamma,
            c,
            axis,
            n,
        )
}

/// The errors of a contraction with a density that must have `expected` entries.
pub open spec fn contraction_error<T: Real>(b: Basis<T>, expected: int, got: int) -> Option<
    IntegralError<T>,
> {
    if !b.can_differentiate() {
        Some(b.grad_error())
    } else if got != expected {
        Some(
            IntegralError::GammaLengthMismatch { expected: expected as usize, got: got as usize },
        )
    } else {
        None
    }
}

impl<T: Real> Basis<T> {
    /// The gradient of the repulsion tensor, contracted with a density over four
    /// functions.
    pub fn eri_grad_contract(&self, tables: &Tables<T>, gamma: &[T]) -> (r: Result<
        Vec<[T; 3]>,
        IntegralError<T>,
    >)
        requires
            tables.valid(),
            self.valid(),
            self.tensor_fits(),
        ensures
            self.is_contraction(r, tables.rys, Engine::Auto, None, gamma@),
    {
        self.eri_grad_contract_with(tables, Engine::Auto, gamma)
    }

    /// [`Basis::eri_grad_contract`] with the engine given.
    pub fn eri_grad_contract_with(&self, tables: &Tables<T>, engine: Engine, gamma: &[T]) -> (r:
        Result<Vec<[T; 3]>, IntegralError<T>>)
        requires
            tables.valid(),
            self.valid(),
            self.tensor_fits(),
        ensures
            self.is_contraction(r, tables.rys, engine, None, gamma@),
    {
        self.contract_gradient(tables, engine, None, gamma)
    }

    /// [`Basis::eri_grad_contract`] over the given kernel.
    pub fn eri_grad_contract_kernel(&self, tables: &Tables<T>, gamma: &[T], k: EriKernel<T>) -> (r:
        Result<Vec<[T; 3]>, IntegralError<T>>)
        requires
            tables.valid(),
            self.valid(),
            self.tensor_fits(),
            is_kernel(k),
        ensures
            self.is_contraction(
                r,
                tables.rys,
                engine_of(k, Engine::Auto),
                attenuation_of(k),
                gamma@,
            ),
    {
        match k {
            EriKernel::Coulomb => self.eri_grad_contract(tables, gamma),
            EriKernel::Erf { omega } => self.contract_gradient(
                tables,
                Engine::Rys,
                Some(omega),
                gamma,
            ),
        }
    }

    /// Whether `r` is the contraction of the gradient of the repulsion tensor with a
    /// density, or the error of one.
    pub open spec fn is_contraction(
        self,
        r: Result<Vec<[T; 3]>, IntegralError<T>>,
        rys: RysTables<T>,
        engine: Engine,
        omega: Option<T>,
        gamma: Seq<T>,
    ) -> bool {
        let n = self.size();
        let nsh = self.shells@.len();
        match contraction_error(self, n * n * n * n, gamma.len() as int) {
            Some(e) => r == Err::<Vec<[T; 3]>, IntegralError<T>>(e),
            None => r is Ok && are_forces(
                r->Ok_0@,
                self.atom_total(),
                repulsion_jobs(self.shells@),
                rys,
                engine,
                omega,
                gamma,
                (nsh * nsh * nsh * nsh) as int,
            ),
        }
    }

    /// The gradient of the repulsion tensor of a kernel, contracted with a density.
    #[verifier::spinoff_prover]
    #[verifier::rlimit(60)]
    fn contract_gradient(
        &self,
        tables: &Tables<T>,
        engine: Engine,
        omega: Option<T>,
        gamma: &[T],
    ) -> (r: Result<Vec<[T; 3]>, IntegralError<T>>)
        requires
            tables.valid(),
            self.valid(),
            self.tensor_fits(),
        ensures
            self.is_contraction(r, tables.rys, engine, omega, gamma@),
    {
        if let Err(e) = self.check_grad_l() {
            return Err(e);
        }
        let ghost shells = self.shells@;
        let ghost lens = function_counts(shells);
        proof {
            lemma_function_counts(shells);
            crate::offsets::lemma_start_grows(lens, 0, shells.len() as int);
            lemma_total_steps(self.size());
        }
        let n = self.nao();
        let n4: usize = n * n * n * n;
        if gamma.len() != n4 {
            return Err(IntegralError::GammaLengthMismatch { expected: n4, got: gamma.len() });
        }
        let offs = self.offsets();
        let satom = self.shell_atom();
        let atoms = self.atoms();
        let prep = Prepared::new(&self.shells);
        let nsh = self.shells.len();
        let mut forces = no_forces(atoms.len());
        let ghost jobs = repulsion_jobs(shells);
        let ghost m = nsh as int;
        let dims = [n, n, n, n];
        let (mut i, mut j, mut k, mut l): (usize, usize, usize, usize) = (0, 0, 0, 0);
        let ghost mut count: int = 0;
        proof {
            assert(quad(0, m, 0, m, 0, m, 0) == 0) by {
                assert(0 * m == 0) by (nonlinear_arith);
            }
            if m == 0 {
                assert(m * m * m * m == 0) by (nonlinear_arith)
                    requires
                        m == 0,
                ;
            }
        }
        while i < nsh
            invariant
                i <= nsh,
                nsh > 0 ==> j < nsh && k < nsh && l < nsh,
                m == nsh,
                m == shells.len(),
                shells == self.shells@,
                lens == function_counts(shells),
                are_lengths(lens),
                lens.len() == shells.len(),
                tables.valid(),
                self.valid(),
                self.can_differentiate(),
                prep.valid(),
                prep.shells@ == shells,
                n == total(lens),
                gamma@.len() == n * n * n * n,
                dims == [n, n, n, n],
                offs@.len() == nsh,
                forall|s: int| 0 <= s < nsh ==> #[trigger] offs@[s] == start(lens, s),
                satom@.len() == nsh,
                forall|s: int| 0 <= s < nsh ==> #[trigger] satom@[s] == atom_of(shells, s),
                jobs == repulsion_jobs(shells),
                count == quad(i as int, m, j as int, m, k as int, m, l as int),
                count <= m * m * m * m,
                i == nsh ==> count == m * m * m * m,
                are_forces(
                    forces@,
                    self.atom_total(),
                    jobs,
                    tables.rys,
                    engine,
                    omega,
                    gamma@,
                    count,
                ),
            decreases m * m * m * m - count,
        {
            let ghost job = jobs(count);
            proof {
                crate::flat::lemma_quad_parts(i as int, m, j as int, m, k as int, m, l as int);
                crate::flat::lemma_quad_in_range(
                    i as int,
                    m,
                    j as int,
                    m,
                    k as int,
                    m,
                    l as int,
                    m,
                );
                lemma_ranges_fit(lens, i as int);
                lemma_ranges_fit(lens, j as int);
                lemma_ranges_fit(lens, k as int);
                lemma_ranges_fit(lens, l as int);
                law_every_shell_has_an_atom(shells, i as int, m);
                law_every_shell_has_an_atom(shells, j as int, m);
                law_every_shell_has_an_atom(shells, k as int, m);
                law_every_shell_has_an_atom(shells, l as int, m);
                assert(shells[i as int].l < MAX_L && shells[j as int].l < MAX_L);
                assert(shells[k as int].l < MAX_L && shells[l as int].l < MAX_L);
            }
            let s = [prep.side(i), prep.side(j), prep.side(k), prep.side(l)];
            let at = [Some(satom[i]), Some(satom[j]), Some(satom[k]), Some(satom[l])];
            let off = [offs[i], offs[j], offs[k], offs[l]];
            assert(job.fits(gamma@)) by {
                assert(job.count(0) == lens[i as int]);
                assert(job.count(1) == lens[j as int]);
                assert(job.count(2) == lens[k as int]);
                assert(job.count(3) == lens[l as int]);
            }
            let ghost before = forces@;
            add_forces(
                tables,
                engine,
                omega,
                s,
                at,
                gamma,
                dims,
                off,
                &mut forces,
                Ghost(job),
            );
            let next = advance(i, j, k, l, nsh);
            i = next.0;
            j = next.1;
            k = next.2;
            l = next.3;
            proof {
                assert forall|c: int, axis: int|
                    0 <= c < self.atom_total() && 0 <= axis < 3 implies #[trigger] forces@[c][axis]
                    == force_after(
                    jobs,
                    tables.rys,
                    engine,
                    omega,
                    gamma@,
                    c,
                    axis,
                    count + 1,
                ) by {
                    assert(before[c][axis] == force_after(
                        jobs,
                        tables.rys,
                        engine,
                        omega,
                        gamma@,
                        c,
                        axis,
                        count,
                    ));
                }
                count = count + 1;
            }
        }
        Ok(forces)
    }
}

} // verus!
