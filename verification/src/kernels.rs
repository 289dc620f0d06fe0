//! A request over an attenuated kernel is answered over that kernel.
//!
//! The integrals of the attenuated kernel are sums over primitives of the values whose
//! meaning [`law_attenuated_integral`](crate::attenuation::law_attenuated_integral) gives.
use vstd::prelude::*;

use crate::dense::{blocks_of, is_tensor};
use crate::df::{fit_block, metric_block, metric_entries};
use crate::engine::os_eri::MAX_L;
use crate::engine::pairs::Vec3;
use crate::engine::rys::quadruple_at;
use crate::engine_agreement::lemma_block_sum;
use crate::eri_batch::shell_block;
use crate::error::IntegralError;
use crate::exact::is_ring;
use crate::grad::contract::{are_forces, contraction_error, repulsion_jobs};
use crate::grad::quadrature::{prims_at, prims_sum, quadrature_value};
use crate::grad::repulsion::total_momentum;
use crate::grid::is_grid;
use crate::integrals::Engine;
use crate::math::boys::BoysTable;
use crate::math::rys::RysTables;
use crate::one_electron::is_matrix;
use crate::quartet::{
    cart_block, cart_size, coefficient_at, lemma_quadrature_len, normalized, EriKernel, Four,
    ShellView, Tables,
};
use crate::scalar::Real;
use crate::shell::{function_counts, Basis, Shell, ShellKind};
use crate::spherical::component_block4;

verus! {

/// An entry of the block of four shells over the attenuated kernel is the sum over their
/// primitives of the attenuated integrals, times the coefficients, whichever engine is asked
/// for.
pub proof fn law_attenuated_block<T: Real>(
    rys: RysTables<T>,
    engine: Engine,
    omega: T,
    q: Four<T>,
    k: int,
)
    requires
        is_ring::<T>(),
        0 <= q.0.0 <= MAX_L && 0 <= q.1.0 <= MAX_L && 0 <= q.2.0 <= MAX_L && 0 <= q.3.0 <= MAX_L,
        0 <= k < cart_size(q),
    ensures
        ({
            let n = quadruple_at(q.0.0, q.1.0, q.2.0, q.3.0, k);
            let g = |i: (int, int, int, int)|
                T::prod(
                    coefficient_at(q, i.0, i.1, i.2, i.3),
                    quadrature_value(rys, Some(omega), prims_at(q, i), total_momentum(q), n),
                );
            cart_block(rys, engine, Some(omega), q)[k] == prims_sum(
                q,
                g,
                q.0.1.2.len() as int,
                0,
                0,
                0,
            )
        }),
{
    lemma_block_sum(rys, q, Some(omega), k, q.0.1.2.len() as int, 0, 0, 0);
}

/// The attenuated integrals of four shells: sums over their primitives.
pub open spec fn attenuated_integrals<T: Real>(
    rys: RysTables<T>,
    omega: T,
    q: Four<T>,
) -> Seq<T> {
    Seq::new(
        cart_size(q) as nat,
        |k: int|
            {
                let n = quadruple_at(q.0.0, q.1.0, q.2.0, q.3.0, k);
                prims_sum(
                    q,
                    |i: (int, int, int, int)|
                        T::prod(
                            coefficient_at(q, i.0, i.1, i.2, i.3),
                            quadrature_value(
                                rys,
                                Some(omega),
                                prims_at(q, i),
                                total_momentum(q),
                                n,
                            ),
                        ),
                    q.0.1.2.len() as int,
                    0,
                    0,
                    0,
                )
            },
    )
}

proof fn lemma_attenuated<T: Real>(rys: RysTables<T>, engine: Engine, omega: T, q: Four<T>)
    requires
        is_ring::<T>(),
        0 <= q.0.0 <= MAX_L && 0 <= q.1.0 <= MAX_L && 0 <= q.2.0 <= MAX_L && 0 <= q.3.0 <= MAX_L,
    ensures
        cart_block(rys, engine, Some(omega), q) == attenuated_integrals(rys, omega, q),
{
    let block = cart_block(rys, engine, Some(omega), q);
    let all = attenuated_integrals(rys, omega, q);
    lemma_quadrature_len(rys, q, Some(omega), q.0.1.2.len() as int, 0, 0, 0);
    assert forall|k: int| 0 <= k < cart_size(q) implies #[trigger] block[k] == all[k] by {
        law_attenuated_block(rys, engine, omega, q, k);
    }
    assert(block =~= all);
}

/// The constant function as a shell.
pub open spec fn constant<T: Real>(center: Vec3<T>) -> ShellView<T> {
    (0, (center, seq![T::count(0)], seq![T::count(1)]))
}

/// The blocks of four shells, of three and of two hold the attenuated integrals of the
/// shells, with the constant function in the places that are left, brought to their
/// components.
pub proof fn law_attenuated_blocks<T: Real>(
    rys: RysTables<T>,
    engine: Engine,
    omega: T,
    shells: Seq<Shell<T>>,
    i: int,
    j: int,
    k: int,
    l: int,
)
    requires
        is_ring::<T>(),
        shells[i].l <= MAX_L,
        shells[j].l <= MAX_L,
        shells[k].l <= MAX_L,
        shells[l].l <= MAX_L,
    ensures
        ({
            let (a, b) = (normalized(shells[i]), normalized(shells[j]));
            let (c, d) = (normalized(shells[k]), normalized(shells[l]));
            let one = |s: Shell<T>| constant::<T>(s.center);
            let shape = |s: Shell<T>| (s.kind, s.l as int);
            let flat = (ShellKind::Cartesian, 0int);
            &&& shell_block(rys, engine, Some(omega), shells, i, j, k, l) == component_block4(
                shape(shells[i]),
                shape(shells[j]),
                shape(shells[k]),
                shape(shells[l]),
                attenuated_integrals(rys, omega, (a, b, c, d)),
            )
            &&& fit_block(rys, engine, Some(omega), shells[i], shells[j], shells[k])
                == component_block4(
                shape(shells[i]),
                shape(shells[j]),
                shape(shells[k]),
                flat,
                attenuated_integrals(rys, omega, (a, b, c, one(shells[k]))),
            )
            &&& metric_block(rys, engine, Some(omega), shells[i], shells[k]) == component_block4(
                shape(shells[i]),
                flat,
                shape(shells[k]),
                flat,
                attenuated_integrals(rys, omega, (a, one(shells[i]), c, one(shells[k]))),
            )
        }),
{
    let (a, b) = (normalized(shells[i]), normalized(shells[j]));
    let (c, d) = (normalized(shells[k]), normalized(shells[l]));
    let (p, q) = (constant(shells[i].center), constant(shells[k].center));
    lemma_attenuated(rys, engine, omega, (a, b, c, d));
    lemma_attenuated(rys, engine, omega, (a, b, c, q));
    lemma_attenuated(rys, engine, omega, (a, p, c, q));
}

/// The repulsion tensor over the attenuated kernel holds its integrals.
pub proof fn law_attenuated_tensor<T: Real>(
    basis: &Basis<T>,
    tables: &Tables<T>,
    omega: T,
    r: Vec<T>,
)
    requires
        call_ensures(Basis::<T>::eri_kernel, (basis, tables, EriKernel::Erf { omega }), r),
    ensures
        is_tensor(
            r@,
            blocks_of(tables.rys, Engine::Rys, Some(omega), basis.shells@),
            None,
            function_counts(basis.shells@),
        ),
{
}

/// The metric over the attenuated kernel holds its integrals.
pub proof fn law_attenuated_metric<T: Real>(
    basis: &Basis<T>,
    tables: &Tables<T>,
    omega: T,
    r: Vec<T>,
)
    requires
        call_ensures(Basis::<T>::eri_2c_kernel, (basis, tables, EriKernel::Erf { omega }), r),
    ensures
        is_matrix(
            r@,
            metric_entries(tables.rys, Engine::Rys, Some(omega), basis.shells@),
            function_counts(basis.shells@),
        ),
{
}

/// The block of three shells over the attenuated kernel holds its integrals.
pub proof fn law_attenuated_fit<T: Real>(
    basis: &Basis<T>,
    tables: &Tables<T>,
    aux: &Basis<T>,
    ish: usize,
    jsh: usize,
    psh: usize,
    omega: T,
    r: Vec<T>,
)
    requires
        call_ensures(
            Basis::<T>::eri_3c_block_kernel,
            (basis, tables, aux, ish, jsh, psh, EriKernel::Erf { omega }),
            r,
        ),
    ensures
        r@ == fit_block(
            tables.rys,
            Engine::Rys,
            Some(omega),
            basis.shells@[ish as int],
            basis.shells@[jsh as int],
            aux.shells@[psh as int],
        ),
{
}

/// The forces of a density over the attenuated kernel are those of its integrals.
pub proof fn law_attenuated_forces<T: Real>(
    basis: &Basis<T>,
    tables: &Tables<T>,
    gamma: &[T],
    omega: T,
    r: Result<Vec<[T; 3]>, IntegralError<T>>,
)
    requires
        call_ensures(
            Basis::<T>::eri_grad_contract_kernel,
            (basis, tables, gamma, EriKernel::Erf { omega }),
            r,
        ),
        ({
            let n = basis.size();
            contraction_error(*basis, n * n * n * n, gamma@.len() as int) is None
        }),
    ensures
        r is Ok,
        ({
            let nsh = basis.shells@.len();
            are_forces(
                r->Ok_0@,
                basis.atom_total(),
                repulsion_jobs(basis.shells@),
                tables.rys,
                Engine::Rys,
                Some(omega),
                gamma@,
                (nsh * nsh * nsh * nsh) as int,
            )
        }),
{
}

/// The matrices of unit charges over the attenuated kernel hold its integrals.
pub proof fn law_attenuated_grid<T: Real>(
    basis: &Basis<T>,
    table: &BoysTable<T>,
    points: &[Vec3<T>],
    omega: T,
    r: Vec<T>,
)
    requires
        call_ensures(
            Basis::<T>::grid_coulomb_kernel,
            (basis, table, points, EriKernel::Erf { omega }),
            r,
        ),
    ensures
        is_grid(r@, points@, Some(omega), basis.shells@),
{
}

/// Without attenuation, the repulsion tensor, the metric and the matrices of unit charges
/// are those of the bare kernel.
pub proof fn law_bare_kernel<T: Real>(
    basis: &Basis<T>,
    tables: &Tables<T>,
    table: &BoysTable<T>,
    points: &[Vec3<T>],
    tensor: Vec<T>,
    metric: Vec<T>,
    grid: Vec<T>,
)
    requires
        call_ensures(Basis::<T>::eri_kernel, (basis, tables, EriKernel::Coulomb), tensor),
        call_ensures(Basis::<T>::eri_2c_kernel, (basis, tables, EriKernel::Coulomb), metric),
        call_ensures(
            Basis::<T>::grid_coulomb_kernel,
            (basis, table, points, EriKernel::Coulomb),
            grid,
        ),
    ensures
        is_tensor(
            tensor@,
            blocks_of(tables.rys, Engine::Auto, None, basis.shells@),
            None,
            function_counts(basis.shells@),
        ),
        is_matrix(
            metric@,
            metric_entries(tables.rys, Engine::Auto, None, basis.shells@),
            function_counts(basis.shells@),
        ),
        is_grid(grid@, points@, None, basis.shells@),
{
}

} // verus!
