//! The gradients of repulsion integrals add up to zero over the atoms.
use vstd::prelude::*;

use crate::engine::pairs::Vec3;
use crate::engine::rys::{lemma_quartet_sizes, quadruple_at};
use crate::engine::tower_contracted::{lemma_four_more, sum_of_four};
use crate::engine::triples::power;
use crate::exact::{
    counts_exactly, is_ring, lemma_ring_commute, lemma_ring_negatives, lemma_ring_sums,
    lemma_zero_sum, sum_before,
};
use crate::flat::{
    cell, lemma_cell_in_range, lemma_index_parts, lemma_quad_in_range, lemma_quad_index, pair,
    quad_parts,
};
use crate::grad::contract::repulsion_jobs;
use crate::grad::fit::{fit_jobs, metric_jobs, same_points, unit_piece};
use crate::grad::force::{force_after, piece, ForceJob};
use crate::grad::matrix::landed;
use crate::grad::one_electron::lemma_landed_sum;
use crate::grad::quadrature::lemma_flat_quadrature;
use crate::grad::quartet::{center_block, momenta_of};
use crate::grad::repulsion::{at_step, is_flat, lemma_flat_raised};
use crate::grad::repulsion_invariance::{
    add_to_zero, entries_at, is_exact, job_blocks, law_repulsion_derivatives_cancel,
    lemma_center_entry, shifted_value,
};
use crate::grad::tensor::{
    are_functions, entry_of, shell_gradient, shells_at, tensor_gradient, Quad,
};
use crate::integrals::Engine;
use crate::math::am::cart_count;
use crate::math::rys::RysTables;
use crate::quartet::{cart_size, normalized, recurs, Four};
use crate::scalar::{Real, Scalar};
use crate::shell::{atom_of, distinct_centers, function_counts, law_every_shell_has_an_atom, Shell};
use crate::spherical::{contracted_axis, row_sum, shell_matrix};
use crate::tensor::nth;

verus! {

/// The sums of four blocks that add up to zero, each entry times its entry of a density.
proof fn lemma_zero_dots<T: Real>(
    job: ForceJob<T>,
    rys: RysTables<T>,
    engine: Engine,
    omega: Option<T>,
    gamma: Seq<T>,
    axis: int,
    n: int,
)
    requires
        is_ring::<T>(),
        add_to_zero(job_blocks(job, rys, engine, omega, axis), job.size()),
        n <= job.size(),
    ensures
        ({
            let b = job_blocks(job, rys, engine, omega, axis);
            sum_of_four(
                (
                    job.dot(gamma, b.0, n),
                    job.dot(gamma, b.1, n),
                    job.dot(gamma, b.2, n),
                    job.dot(gamma, b.3, n),
                ),
            ) == T::count(0)
        }),
    decreases n,
{
    let b = job_blocks(job, rys, engine, omega, axis);
    lemma_ring_sums(T::count(0), T::count(0), T::count(0));
    if n > 0 {
        lemma_zero_dots(job, rys, engine, omega, gamma, axis, n - 1);
        let s = gamma[job.place(n - 1)];
        lemma_four_more(
            (
                job.dot(gamma, b.0, n - 1),
                job.dot(gamma, b.1, n - 1),
                job.dot(gamma, b.2, n - 1),
                job.dot(gamma, b.3, n - 1),
            ),
            entries_at(b, n - 1),
            s,
        );
        assert(sum_of_four(entries_at(b, n - 1)) == T::count(0));
        lemma_ring_sums(s, s, s);
    }
}

/// Whether a block holds `n` zeros.
spec fn is_nothing<T: Scalar>(b: Seq<T>, n: int) -> bool {
    b.len() == n && forall|k: int| 0 <= k < n ==> #[trigger] b[k] == T::count(0)
}

proof fn lemma_nothing_row<T: Scalar>(
    m: Seq<T>,
    b: Seq<T>,
    n: int,
    inner: int,
    o: int,
    r: int,
    i: int,
    c: int,
)
    requires
        is_ring::<T>(),
        c <= n,
        forall|x: int| 0 <= x < n ==> #[trigger] b[cell(o, n, x, inner, i)] == T::count(0),
    ensures
        row_sum(m, b, n, inner, o, r, i, c) == T::count(0),
    decreases c,
{
    if c > 0 {
        lemma_nothing_row(m, b, n, inner, o, r, i, c - 1);
        let s = m[pair(r, n, c - 1)];
        assert(b[cell(o, n, c - 1, inner, i)] == T::count(0));
        lemma_ring_sums(s, T::count(0), T::count(0));
        lemma_ring_sums(T::count(0), T::count(0), T::count(0));
    }
}

/// Contracting an axis of zeros gives zeros.
proof fn lemma_nothing_axis<T: Scalar>(
    m: Option<Seq<T>>,
    rows: int,
    b: Seq<T>,
    outer: int,
    n: int,
    inner: int,
)
    requires
        is_ring::<T>(),
        0 <= outer,
        1 <= rows,
        1 <= n,
        1 <= inner,
        m is None ==> rows == n,
        is_nothing(b, outer * n * inner),
    ensures
        is_nothing(contracted_axis(m, rows, b, outer, n, inner), outer * rows * inner),
{
    if let Some(t) = m {
        assert(0 <= outer * rows && 0 <= outer * rows * inner) by (nonlinear_arith)
            requires
                0 <= outer,
                1 <= rows,
                1 <= inner,
        ;
        let g = contracted_axis(m, rows, b, outer, n, inner);
        assert forall|k: int| 0 <= k < outer * rows * inner implies #[trigger] g[k] == T::count(
            0,
        ) by {
            lemma_index_parts(k, outer * rows, inner);
            lemma_index_parts(k / inner, outer, rows);
            let (o, r, i) = (k / inner / rows, k / inner % rows, k % inner);
            assert forall|x: int| 0 <= x < n implies #[trigger] b[cell(o, n, x, inner, i)]
                == T::count(0) by {
                lemma_cell_in_range(o, outer, n, x, inner, i);
            }
            lemma_nothing_row(t, b, n, inner, o, r, i, n);
        }
    }
}

/// A quartet does not change with the center of a constant function.
pub proof fn law_constant_function_feels_nothing<T: Real>(
    job: ForceJob<T>,
    rys: RysTables<T>,
    engine: Engine,
    omega: Option<T>,
    pos: int,
    axis: int,
    k: int,
)
    requires
        is_ring::<T>(),
        is_exact(rys, engine, omega, job.four()),
        0 <= pos < 4,
        is_flat(nth(job.four(), pos)),
        nth(job.four(), pos).0 == 0,
        0 <= axis < 3,
        0 <= k < job.size(),
    ensures
        job.block(rys, engine, omega, pos, axis)[k] == T::count(0),
{
    let q = job.four();
    let (la, lb, lc, ld) = momenta_of(q);
    let (na, nb, nc, nd) = (cart_count(la), cart_count(lb), cart_count(lc), cart_count(ld));
    let (fa, fb, fc, fd) = (job.count(0), job.count(1), job.count(2), job.count(3));
    lemma_quartet_sizes(la, lb, lc, ld);
    let b0 = center_block(rys, engine, omega, q, pos, axis);
    assert forall|i: int| 0 <= i < cart_size(q) implies #[trigger] b0[i] == T::count(0) by {
        let n = quadruple_at(la, lb, lc, ld, i);
        lemma_center_entry(rys, engine, omega, q, pos, axis, i);
        if omega is None && recurs(engine, q) {
            lemma_flat_raised(q, n, pos, axis);
        } else {
            lemma_flat_quadrature(rys, omega, q, pos, at_step(n, pos, axis, 1));
        }
        assert(power(nth(n, pos), axis) == 0);
        let low = shifted_value(rys, engine, omega, q, pos, false, at_step(n, pos, axis, -1));
        lemma_ring_commute(T::count(0), low);
        lemma_ring_sums(low, low, low);
        lemma_ring_negatives(T::count(0), T::count(0));
        lemma_ring_sums(T::count(0), T::count(0), T::count(0));
    }
    lemma_center_entry(rys, engine, omega, q, pos, axis, 0);
    let ma = shell_matrix::<T>(job.shells.0.0, la);
    let mb = shell_matrix::<T>(job.shells.1.0, lb);
    let mc = shell_matrix::<T>(job.shells.2.0, lc);
    let md = shell_matrix::<T>(job.shells.3.0, ld);
    assert(1 <= nb * nc * nd && 1 <= nc * nd && 1 * na * (nb * nc * nd) == na * nb * nc * nd)
        by (nonlinear_arith)
        requires
            1 <= nb,
            1 <= nc,
            1 <= nd,
    ;
    lemma_nothing_axis(ma, fa, b0, 1, na, nb * nc * nd);
    let b1 = contracted_axis(ma, fa, b0, 1, na, nb * nc * nd);
    assert(1 * fa * (nb * nc * nd) == fa * nb * (nc * nd) && 0 <= fa * fb && 0 <= fa * fb * fc)
        by (nonlinear_arith)
        requires
            1 <= fa,
            1 <= fb,
            1 <= fc,
    ;
    lemma_nothing_axis(mb, fb, b1, fa, nb, nc * nd);
    let b2 = contracted_axis(mb, fb, b1, fa, nb, nc * nd);
    assert(fa * fb * (nc * nd) == fa * fb * nc * nd) by (nonlinear_arith);
    lemma_nothing_axis(mc, fc, b2, fa * fb, nc, nd);
    let b3 = contracted_axis(mc, fc, b2, fa * fb, nc, nd);
    assert(fa * fb * fc * nd == fa * fb * fc * nd * 1);
    lemma_nothing_axis(md, fd, b3, fa * fb * fc, nd, 1);
    assert(fa * fb * fc * fd * 1 == job.size());
}

/// A sum of zeros, each times its entry of a density.
proof fn lemma_nothing_dot<T: Real>(job: ForceJob<T>, gamma: Seq<T>, b: Seq<T>, n: int)
    requires
        is_ring::<T>(),
        forall|k: int| 0 <= k < n ==> #[trigger] b[k] == T::count(0),
    ensures
        job.dot(gamma, b, n) == T::count(0),
    decreases n,
{
    if n > 0 {
        lemma_nothing_dot(job, gamma, b, n - 1);
        lemma_ring_sums(gamma[job.place(n - 1)], T::count(0), T::count(0));
        lemma_ring_sums(T::count(0), T::count(0), T::count(0));
    }
}

/// Whether the shell at `pos` of a quartet sits on an atom, or is a constant function.
pub open spec fn is_placed<T: Real>(job: ForceJob<T>, pos: int, natom: int) -> bool {
    match nth(job.atoms, pos) {
        Some(c) => 0 <= c < natom,
        None => is_flat(nth(job.four(), pos)) && nth(job.four(), pos).0 == 0,
    }
}

/// Whether the derivatives of a quartet add up to zero over the atoms.
pub open spec fn is_balanced<T: Real>(
    job: ForceJob<T>,
    rys: RysTables<T>,
    engine: Engine,
    omega: Option<T>,
    natom: int,
) -> bool {
    &&& is_exact(rys, engine, omega, job.four())
    &&& is_placed(job, 0, natom) && is_placed(job, 1, natom) && is_placed(job, 2, natom)
        && is_placed(job, 3, natom)
}

/// One more shell of a quartet differentiated.
proof fn lemma_shell_force<T: Real>(
    job: ForceJob<T>,
    before: spec_fn(int) -> T,
    rys: RysTables<T>,
    engine: Engine,
    omega: Option<T>,
    gamma: Seq<T>,
    natom: int,
    axis: int,
    n: int,
)
    requires
        is_ring::<T>(),
        is_balanced(job, rys, engine, omega, natom),
        0 <= axis < 3,
        1 <= n <= 4,
    ensures
        sum_before(|c: int| job.force(before(c), rys, engine, omega, gamma, c, axis, n), natom)
            == T::sum(
            sum_before(
                |c: int| job.force(before(c), rys, engine, omega, gamma, c, axis, n - 1),
                natom,
            ),
            job.dot(gamma, job.block(rys, engine, omega, n - 1, axis), job.size()),
        ),
{
    let f = |c: int| job.force(before(c), rys, engine, omega, gamma, c, axis, n - 1);
    let g = |c: int| job.force(before(c), rys, engine, omega, gamma, c, axis, n);
    let b = job.block(rys, engine, omega, n - 1, axis);
    let v = job.dot(gamma, b, job.size());
    assert(is_placed(job, n - 1, natom));
    lemma_ring_sums(v, v, v);
    match nth(job.atoms, n - 1) {
        Some(at) => {
            assert forall|c: int| #[trigger] g(c) == landed(f(c), at == c, T::count(1), v) by {}
            lemma_landed_sum(f, g, at, T::count(1), v, natom);
        },
        None => {
            assert forall|k: int| 0 <= k < job.size() implies #[trigger] b[k] == T::count(0) by {
                law_constant_function_feels_nothing(job, rys, engine, omega, n - 1, axis, k);
            }
            lemma_nothing_dot(job, gamma, b, job.size());
            assert(f =~= g);
            let s = sum_before(f, natom);
            lemma_ring_sums(s, s, s);
        },
    }
}

/// The forces of quartets that sit on the atoms, or on constant functions, add up to zero
/// where their engines are exact, in any commutative ring in which counts add up.
pub proof fn law_repulsion_forces_balance<T: Real>(
    jobs: spec_fn(int) -> ForceJob<T>,
    rys: RysTables<T>,
    engine: Engine,
    omega: Option<T>,
    gamma: Seq<T>,
    natom: int,
    axis: int,
    n: int,
)
    requires
        is_ring::<T>(),
        counts_exactly::<T>(),
        0 <= axis < 3,
        forall|i: int| 0 <= i < n ==> is_balanced(#[trigger] jobs(i), rys, engine, omega, natom),
    ensures
        sum_before(
            |c: int| force_after(jobs, rys, engine, omega, gamma, c, axis, n),
            natom,
        ) == T::count(0),
    decreases n,
{
    let g = |c: int| force_after(jobs, rys, engine, omega, gamma, c, axis, n);
    lemma_ring_sums(T::count(0), T::count(0), T::count(0));
    if n <= 0 {
        lemma_zero_sum(g, natom);
    } else {
        law_repulsion_forces_balance(jobs, rys, engine, omega, gamma, natom, axis, n - 1);
        let f = |c: int| force_after(jobs, rys, engine, omega, gamma, c, axis, n - 1);
        let job = jobs(n - 1);
        let h = |i: int| |c: int| job.force(f(c), rys, engine, omega, gamma, c, axis, i);
        let d = |i: int|
            job.dot(gamma, job.block(rys, engine, omega, i, axis), job.size());
        law_repulsion_derivatives_cancel(job, rys, engine, omega, axis);
        lemma_zero_dots(job, rys, engine, omega, gamma, axis, job.size());
        lemma_shell_force(job, f, rys, engine, omega, gamma, natom, axis, 1);
        lemma_shell_force(job, f, rys, engine, omega, gamma, natom, axis, 2);
        lemma_shell_force(job, f, rys, engine, omega, gamma, natom, axis, 3);
        lemma_shell_force(job, f, rys, engine, omega, gamma, natom, axis, 4);
        assert(h(0) =~= f);
        assert(h(4) =~= g);
        assert(sum_before(h(4), natom) == T::sum(
            T::sum(T::sum(T::sum(sum_before(f, natom), d(0)), d(1)), d(2)),
            d(3),
        ));
        lemma_ring_sums(d(0), d(1), d(2));
        lemma_ring_sums(T::sum(d(0), d(1)), d(2), d(3));
    }
}

/// Four shells of a basis.
pub open spec fn four_shells<T: Real>(shells: Seq<Shell<T>>, q: (int, int, int, int)) -> Four<T> {
    (
        normalized(shells[q.0]),
        normalized(shells[q.1]),
        normalized(shells[q.2]),
        normalized(shells[q.3]),
    )
}

/// One more shell of an integral differentiated.
proof fn lemma_next_shell<T: Real>(
    rys: RysTables<T>,
    engine: Engine,
    shells: Seq<Shell<T>>,
    natom: int,
    axis: int,
    f: Quad,
    n: int,
)
    requires
        is_ring::<T>(),
        are_functions(function_counts(shells), f),
        natom == distinct_centers(shells, shells.len() as int).len(),
        1 <= n <= 4,
    ensures
        sum_before(|c: int| tensor_gradient(rys, engine, shells, c, axis, f, n), natom) == T::sum(
            sum_before(|c: int| tensor_gradient(rys, engine, shells, c, axis, f, n - 1), natom),
            shell_gradient(rys, engine, shells, shells_at(f), n - 1, axis)[entry_of(
                function_counts(shells),
                f,
            )],
        ),
{
    let q = shells_at(f);
    let before = |c: int| tensor_gradient(rys, engine, shells, c, axis, f, n - 1);
    let after = |c: int| tensor_gradient(rys, engine, shells, c, axis, f, n);
    let v = shell_gradient(rys, engine, shells, q, n - 1, axis)[entry_of(
        function_counts(shells),
        f,
    )];
    let at = atom_of(shells, nth(q, n - 1));
    let one = T::count(1);
    law_every_shell_has_an_atom(shells, nth(q, n - 1), shells.len() as int);
    lemma_ring_sums(v, v, v);
    assert forall|c: int| #[trigger] after(c) == landed(before(c), at == c, one, v) by {}
    lemma_landed_sum(before, after, at, one, v, natom);
}

/// The derivatives of a repulsion integral with respect to all atoms add up to zero where
/// its engine is exact, in any commutative ring in which counts add up.
pub proof fn law_tensor_gradient_is_translation_invariant<T: Real>(
    rys: RysTables<T>,
    engine: Engine,
    shells: Seq<Shell<T>>,
    natom: int,
    axis: int,
    f: Quad,
)
    requires
        is_ring::<T>(),
        counts_exactly::<T>(),
        are_functions(function_counts(shells), f),
        is_exact(rys, engine, None, four_shells(shells, shells_at(f))),
        natom == distinct_centers(shells, shells.len() as int).len(),
        0 <= axis < 3,
    ensures
        sum_before(
            |c: int| tensor_gradient(rys, engine, shells, c, axis, f, 4),
            natom,
        ) == T::count(0),
{
    let lens = function_counts(shells);
    let q = shells_at(f);
    let job = ForceJob {
        shells: (
            piece(shells[q.0]),
            piece(shells[q.1]),
            piece(shells[q.2]),
            piece(shells[q.3]),
        ),
        atoms: (None, None, None, None),
        dims: (0, 0, 0, 0),
        offs: (0, 0, 0, 0),
    };
    law_repulsion_derivatives_cancel(job, rys, engine, None, axis);
    let k = entry_of(lens, f);
    lemma_quad_in_range(
        f.0.1,
        lens[f.0.0],
        f.1.1,
        lens[f.1.0],
        f.2.1,
        lens[f.2.0],
        f.3.1,
        lens[f.3.0],
    );
    let b = job_blocks(job, rys, engine, None, axis);
    assert(sum_of_four(entries_at(b, k)) == T::count(0));
    let v = |n: int| shell_gradient(rys, engine, shells, q, n, axis)[k];
    assert(entries_at(b, k) == (v(0), v(1), v(2), v(3)));
    lemma_ring_sums(T::count(0), v(0), v(0));
    lemma_ring_sums(v(0), v(0), v(0));
    lemma_zero_sum(|c: int| tensor_gradient(rys, engine, shells, c, axis, f, 0), natom);
    lemma_next_shell(rys, engine, shells, natom, axis, f, 1);
    lemma_next_shell(rys, engine, shells, natom, axis, f, 2);
    lemma_next_shell(rys, engine, shells, natom, axis, f, 3);
    lemma_next_shell(rys, engine, shells, natom, axis, f, 4);
    lemma_ring_sums(T::sum(v(0), v(1)), v(2), v(3));
}

/// The forces of a density over four functions add up to zero over the atoms, under the
/// same conditions on every quartet.
pub proof fn law_four_index_forces_balance<T: Real>(
    shells: Seq<Shell<T>>,
    rys: RysTables<T>,
    engine: Engine,
    omega: Option<T>,
    gamma: Seq<T>,
    natom: int,
    axis: int,
    n: int,
)
    requires
        is_ring::<T>(),
        counts_exactly::<T>(),
        0 <= axis < 3,
        natom == distinct_centers(shells, shells.len() as int).len(),
        n <= shells.len() * shells.len() * shells.len() * shells.len(),
        forall|i: int|
            0 <= i < n ==> is_exact(
                rys,
                engine,
                omega,
                (#[trigger] repulsion_jobs(shells)(i)).four(),
            ),
    ensures
        sum_before(
            |c: int|
                force_after(repulsion_jobs(shells), rys, engine, omega, gamma, c, axis, n),
            natom,
        ) == T::count(0),
{
    let jobs = repulsion_jobs(shells);
    let m = shells.len() as int;
    assert forall|i: int| 0 <= i < n implies is_balanced(
        #[trigger] jobs(i),
        rys,
        engine,
        omega,
        natom,
    ) by {
        lemma_quad_index(i, m, m, m, m);
        let q = quad_parts(i, m, m, m);
        law_every_shell_has_an_atom(shells, q.0, m);
        law_every_shell_has_an_atom(shells, q.1, m);
        law_every_shell_has_an_atom(shells, q.2, m);
        law_every_shell_has_an_atom(shells, q.3, m);
    }
    law_repulsion_forces_balance(jobs, rys, engine, omega, gamma, natom, axis, n);
}

/// The constant function has no exponent.
proof fn lemma_unit_is_flat<T: Real>(p: Vec3<T>)
    ensures
        is_flat(unit_piece(p).1),
        unit_piece(p).1.0 == 0,
{
}

/// The forces of a density over two functions of a fitting basis add up to zero over the
/// atoms, under the same conditions on every quartet.
pub proof fn law_two_center_forces_balance<T: Real>(
    shells: Seq<Shell<T>>,
    rys: RysTables<T>,
    engine: Engine,
    omega: Option<T>,
    gamma: Seq<T>,
    natom: int,
    axis: int,
    n: int,
)
    requires
        is_ring::<T>(),
        counts_exactly::<T>(),
        0 <= axis < 3,
        natom == distinct_centers(shells, shells.len() as int).len(),
        n <= shells.len() * shells.len(),
        forall|i: int|
            0 <= i < n ==> is_exact(
                rys,
                engine,
                omega,
                (#[trigger] metric_jobs(shells)(i)).four(),
            ),
    ensures
        sum_before(
            |c: int| force_after(metric_jobs(shells), rys, engine, omega, gamma, c, axis, n),
            natom,
        ) == T::count(0),
{
    let jobs = metric_jobs(shells);
    let m = shells.len() as int;
    assert forall|i: int| 0 <= i < n implies is_balanced(
        #[trigger] jobs(i),
        rys,
        engine,
        omega,
        natom,
    ) by {
        lemma_index_parts(i, m, m);
        law_every_shell_has_an_atom(shells, i / m, m);
        law_every_shell_has_an_atom(shells, i % m, m);
        lemma_unit_is_flat(shells[i / m].center);
        lemma_unit_is_flat(shells[i % m].center);
    }
    law_repulsion_forces_balance(jobs, rys, engine, omega, gamma, natom, axis, n);
}

/// The forces of a density over two functions and one of a fitting basis on the same atoms
/// add up to zero over the atoms, under the same conditions on every quartet.
pub proof fn law_three_center_forces_balance<T: Real>(
    shells: Seq<Shell<T>>,
    aux: Seq<Shell<T>>,
    rys: RysTables<T>,
    engine: Engine,
    omega: Option<T>,
    gamma: Seq<T>,
    natom: int,
    axis: int,
    n: int,
)
    requires
        is_ring::<T>(),
        counts_exactly::<T>(),
        0 <= axis < 3,
        natom == distinct_centers(shells, shells.len() as int).len(),
        same_points(
            distinct_centers(shells, shells.len() as int),
            distinct_centers(aux, aux.len() as int),
        ),
        n <= shells.len() * shells.len() * aux.len(),
        forall|i: int|
            0 <= i < n ==> is_exact(
                rys,
                engine,
                omega,
                (#[trigger] fit_jobs(shells, aux)(i)).four(),
            ),
    ensures
        sum_before(
            |c: int| force_after(fit_jobs(shells, aux), rys, engine, omega, gamma, c, axis, n),
            natom,
        ) == T::count(0),
{
    let jobs = fit_jobs(shells, aux);
    let (m, x) = (shells.len() as int, aux.len() as int);
    assert forall|i: int| 0 <= i < n implies is_balanced(
        #[trigger] jobs(i),
        rys,
        engine,
        omega,
        natom,
    ) by {
        lemma_index_parts(i, m * m, x);
        lemma_index_parts(i / x, m, m);
        law_every_shell_has_an_atom(shells, i / x / m, m);
        law_every_shell_has_an_atom(shells, i / x % m, m);
        law_every_shell_has_an_atom(aux, i % x, x);
        lemma_unit_is_flat(aux[i % x].center);
    }
    law_repulsion_forces_balance(jobs, rys, engine, omega, gamma, natom, axis, n);
}

} // verus!
