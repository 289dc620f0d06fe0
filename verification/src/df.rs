//! Two- and three-center repulsion integrals over an auxiliary basis.
//!
//! A two-center integral `(P|Q)` is the four-center integral `(P 1|Q 1)` and a
//! three-center one `(ij|P)` is `(ij|P 1)`, where `1` is the constant function: an `s`
//! shell of one primitive with exponent zero and coefficient one, which needs no
//! normalization. The quartet engines evaluate them as any other quartet.
use vstd::prelude::*;

use crate::dense::{attenuation_of, engine_of, is_kernel, larger, larger_of};
use crate::engine::pairs::Vec3;
use crate::flat::{lemma_pair_in_range, lemma_pair_order, pair};
use crate::integrals::Engine;
use crate::math::rys::RysTables;
use crate::offsets::{are_lengths, start};
use crate::one_electron::{
    is_matrix, lemma_placed, lemma_ranges_fit, lemma_transposed, place_block, place_transpose,
    transposed,
};
use crate::quartet::{
    cart_block, normalized, quartet_kernel_into, shown, EriKernel, QuartetScratch, ShellView, Side,
    Tables,
};
use crate::scalar::{filled, Real, Scalar};
use crate::shell::{effective_coeffs, function_counts, Basis, Shell, ShellKind};
use crate::shell_pairs::Prepared;
use crate::spherical::{component_block4, shell_transform};
use crate::tensor::{is_function, slot2, total, At};

verus! {

/// The constant function, as an `s` shell at `center`.
pub open spec fn unit_view<T: Scalar>(center: Vec3<T>) -> ShellView<T> {
    (0, (center, seq![T::count(0)], seq![T::count(1)]))
}

/// Whether `s` is the constant function as an `s` shell at `center`.
pub open spec fn is_unit<T: Real>(s: Shell<T>, center: Vec3<T>) -> bool {
    &&& s.l == 0
    &&& s.center == center
    &&& s.exponents@ == seq![T::count(0)]
    &&& s.coefficients@ == seq![T::count(1)]
    &&& s.kind == ShellKind::Cartesian
}

/// The constant function, as an `s` shell at `center`.
pub(crate) fn unit_s<T: Real>(center: Vec3<T>) -> (s: Shell<T>)
    ensures
        is_unit(s, center),
        s.valid(),
{
    let exponents = vec![T::from_count(0)];
    let coefficients = vec![T::from_count(1)];
    assert(exponents@ =~= seq![T::count(0)]);
    assert(coefficients@ =~= seq![T::count(1)]);
    Shell { l: 0, center, exponents, coefficients, kind: ShellKind::Cartesian }
}

/// The block `(p|q)` of two shells.
pub open spec fn metric_block<T: Real>(
    rys: RysTables<T>,
    engine: Engine,
    omega: Option<T>,
    p: Shell<T>,
    q: Shell<T>,
) -> Seq<T> {
    component_block4(
        (p.kind, p.l as int),
        (ShellKind::Cartesian, 0),
        (q.kind, q.l as int),
        (ShellKind::Cartesian, 0),
        cart_block(
            rys,
            engine,
            omega,
            (normalized(p), unit_view(p.center), normalized(q), unit_view(q.center)),
        ),
    )
}

/// The block `(ij|p)` of three shells.
pub open spec fn fit_block<T: Real>(
    rys: RysTables<T>,
    engine: Engine,
    omega: Option<T>,
    i: Shell<T>,
    j: Shell<T>,
    p: Shell<T>,
) -> Seq<T> {
    component_block4(
        (i.kind, i.l as int),
        (j.kind, j.l as int),
        (p.kind, p.l as int),
        (ShellKind::Cartesian, 0),
        cart_block(
            rys,
            engine,
            omega,
            (normalized(i), normalized(j), normalized(p), unit_view(p.center)),
        ),
    )
}

/// The entries of the metric: those of the block of the later and the earlier shell;
/// within one shell that of the later and the earlier component.
pub open spec fn metric_entries<T: Real>(
    rys: RysTables<T>,
    engine: Engine,
    omega: Option<T>,
    shells: Seq<Shell<T>>,
) -> spec_fn(At, At) -> T {
    |x: At, y: At|
        {
            let (p, q) = if x.0 > y.0 || (x.0 == y.0 && x.1 >= y.1) {
                (x, y)
            } else {
                (y, x)
            };
            metric_block(rys, engine, omega, shells[p.0], shells[q.0])[pair(
                p.1,
                shells[q.0].functions(),
                q.1,
            )]
        }
}

/// The metric is symmetric, entry by entry.
pub proof fn law_metric_is_symmetric<T: Real>(
    rys: RysTables<T>,
    engine: Engine,
    omega: Option<T>,
    shells: Seq<Shell<T>>,
    x: At,
    y: At,
)
    ensures
        metric_entries(rys, engine, omega, shells)(x, y) == metric_entries(
            rys,
            engine,
            omega,
            shells,
        )(y, x),
{
}

/// The constant functions at the centers of a list of shells.
pub(crate) fn unit_shells<T: Real>(shells: &Vec<Shell<T>>) -> (r: Vec<Shell<T>>)
    ensures
        r@.len() == shells@.len(),
        forall|s: int|
            0 <= s < r@.len() ==> is_unit(#[trigger] r@[s], shells@[s].center) && r@[s].valid(),
{
    let mut r: Vec<Shell<T>> = Vec::new();
    let mut s: usize = 0;
    while s < shells.len()
        invariant
            s <= shells@.len(),
            r@.len() == s,
            forall|k: int|
                0 <= k < s ==> is_unit(#[trigger] r@[k], shells@[k].center) && r@[k].valid(),
        decreases shells@.len() - s,
    {
        r.push(unit_s(shells[s].center));
        s = s + 1;
    }
    r
}

/// The constant function as a side of a quartet.
pub(crate) fn unit_side<'a, T: Real>(
    dummy: &'a Shell<T>,
    eff: &'a Vec<T>,
    mat: &'a Option<Vec<T>>,
) -> (r: Side<'a, T>)
    requires
        is_unit(*dummy, dummy.center),
        eff@ == seq![T::count(1)],
        mat is None,
    ensures
        r.valid(),
        *r.shell == *dummy,
        r.shown() == unit_view(dummy.center),
{
    Side { shell: dummy, eff, mat }
}

/// The block `(p|q)` of two shells, left in `scratch.block`.
fn metric_into<T: Real>(
    scratch: &mut QuartetScratch<T>,
    tables: &Tables<T>,
    engine: Engine,
    omega: Option<T>,
    p: Side<T>,
    q: Side<T>,
    dp: &Shell<T>,
    dq: &Shell<T>,
)
    requires
        tables.valid(),
        p.valid(),
        q.valid(),
        p.shown() == normalized(*p.shell),
        q.shown() == normalized(*q.shell),
        is_unit(*dp, p.shell.center),
        is_unit(*dq, q.shell.center),
    ensures
        final(scratch).block@ == metric_block(tables.rys, engine, omega, *p.shell, *q.shell),
        final(scratch).block@.len() == p.shell.functions() * q.shell.functions(),
{
    let one = vec![T::from_count(1)];
    assert(one@ =~= seq![T::count(1)]);
    let none: Option<Vec<T>> = None;
    let s = [p, unit_side(dp, &one, &none), q, unit_side(dq, &one, &none)];
    quartet_kernel_into(scratch, tables, engine, omega, s, None);
    proof {
        let (a, b) = (p.shell.functions(), q.shell.functions());
        assert(crate::math::am::cart_count(0) == 1);
        assert(a * 1 * b * 1 == a * b) by (nonlinear_arith);
    }
}

/// Replace the entries of a square block above its diagonal by those below it.
#[verifier::spinoff_prover]
pub(crate) fn mirror_lower<T: Copy>(block: &mut Vec<T>, n: usize)
    requires
        n <= 28,
        old(block)@.len() == n * n,
    ensures
        final(block)@.len() == old(block)@.len(),
        forall|r: int, c: int|
            0 <= r < n && 0 <= c < n ==> #[trigger] final(block)@[pair(r, n as int, c)] == (if r
                >= c {
                old(block)@[pair(r, n as int, c)]
            } else {
                old(block)@[pair(c, n as int, r)]
            }),
{
    let ghost was = block@;
    let ghost nn = n as int;
    assert(n * n <= 784) by (nonlinear_arith)
        requires
            n <= 28,
    ;
    let mut i: usize = 0;
    while i < n
        invariant
            i <= n <= 28,
            nn == n,
            n * n <= 784,
            was.len() == nn * nn,
            block@.len() == nn * nn,
            forall|r: int, c: int|
                0 <= r < nn && 0 <= c < nn ==> #[trigger] block@[pair(r, nn, c)] == (if r < c && c
                    < i {
                    was[pair(c, nn, r)]
                } else {
                    was[pair(r, nn, c)]
                }),
        decreases n - i,
    {
        let mut j: usize = 0;
        while j < i
            invariant
                j <= i < n <= 28,
                nn == n,
                n * n <= 784,
                was.len() == nn * nn,
                block@.len() == nn * nn,
                forall|r: int, c: int|
                    0 <= r < nn && 0 <= c < nn ==> #[trigger] block@[pair(r, nn, c)] == (if r < c
                        && (c < i || (c == i && r < j)) {
                        was[pair(c, nn, r)]
                    } else {
                        was[pair(r, nn, c)]
                    }),
            decreases i - j,
        {
            let ghost (pi, pj) = (i as int, j as int);
            proof {
                lemma_pair_in_range(pi, nn, nn, pj);
                lemma_pair_in_range(pj, nn, nn, pi);
                assert(block@[pair(pi, nn, pj)] == was[pair(pi, nn, pj)]);
            }
            let ghost before = block@;
            block[j * n + i] = block[i * n + j];
            proof {
                assert forall|r: int, c: int|
                    0 <= r < nn && 0 <= c < nn implies #[trigger] block@[pair(r, nn, c)] == (if r
                    < c && (c < i || (c == i && r < j + 1)) {
                    was[pair(c, nn, r)]
                } else {
                    was[pair(r, nn, c)]
                }) by {
                    lemma_pair_in_range(r, nn, nn, c);
                    lemma_pair_order(r, c, pj, pi, nn);
                    assert(before[pair(r, nn, c)] == block@[pair(r, nn, c)] || (r == pj && c
                        == pi));
                }
            }
            j = j + 1;
        }
        i = i + 1;
    }
}

/// The largest magnitude on the diagonal of a square block before row `m`, and zero.
pub open spec fn diagonal_of<T: Real>(block: Seq<T>, n: int, m: int) -> T
    decreases m,
{
    if m <= 0 {
        T::count(0)
    } else {
        larger(diagonal_of(block, n, m - 1), T::magnitude(block[pair(m - 1, n, m - 1)]))
    }
}

/// The bound of an auxiliary shell: the root of the largest `(m|m)`.
pub open spec fn aux_bound<T: Real>(rys: RysTables<T>, engine: Engine, p: Shell<T>) -> T {
    T::root(
        diagonal_of(metric_block(rys, engine, None, p, p), p.functions(), p.functions()),
    )
}

impl<T: Real> Basis<T> {
    /// The metric `(P|Q)` over the basis.
    #[must_use]
    pub fn eri_2c(&self, tables: &Tables<T>) -> (mat: Vec<T>)
        requires
            tables.valid(),
            self.valid(),
            self.matrix_fits(),
        ensures
            is_matrix(
                mat@,
                metric_entries(tables.rys, Engine::Auto, None, self.shells@),
                function_counts(self.shells@),
            ),
    {
        self.eri_2c_with(tables, Engine::Auto)
    }

    /// [`Basis::eri_2c`] with the engine given.
    #[must_use]
    pub fn eri_2c_with(&self, tables: &Tables<T>, engine: Engine) -> (mat: Vec<T>)
        requires
            tables.valid(),
            self.valid(),
            self.matrix_fits(),
        ensures
            is_matrix(
                mat@,
                metric_entries(tables.rys, engine, None, self.shells@),
                function_counts(self.shells@),
            ),
    {
        self.metric(tables, engine, None)
    }

    /// The metric over the given kernel. The plain kernel is that of
    /// [`Basis::eri_2c`].
    #[must_use]
    pub fn eri_2c_kernel(&self, tables: &Tables<T>, k: EriKernel<T>) -> (mat: Vec<T>)
        requires
            tables.valid(),
            self.valid(),
            self.matrix_fits(),
            is_kernel(k),
        ensures
            is_matrix(
                mat@,
                metric_entries(
                    tables.rys,
                    engine_of(k, Engine::Auto),
                    attenuation_of(k),
                    self.shells@,
                ),
                function_counts(self.shells@),
            ),
    {
        match k {
            EriKernel::Coulomb => self.eri_2c(tables),
            EriKernel::Erf { omega } => self.metric(tables, Engine::Rys, Some(omega)),
        }
    }

    /// The metric.
    #[verifier::spinoff_prover]
    #[verifier::rlimit(60)]
    fn metric(&self, tables: &Tables<T>, engine: Engine, omega: Option<T>) -> (mat: Vec<T>)
        requires
            tables.valid(),
            self.valid(),
            self.matrix_fits(),
        ensures
            is_matrix(
                mat@,
                metric_entries(tables.rys, engine, omega, self.shells@),
                function_counts(self.shells@),
            ),
    {
        let ghost lens = function_counts(self.shells@);
        let ghost shells = self.shells@;
        let ghost entries = metric_entries(tables.rys, engine, omega, shells);
        proof {
            self.lemma_size_fits();
        }
        let n = self.nao();
        let offs = self.offsets();
        let prep = Prepared::new(&self.shells);
        let dummies = unit_shells(&self.shells);
        let nsh = self.shells.len();
        let mut scratch = QuartetScratch::new();
        let mut mat = filled(n * n, T::from_count(0));
        let mut si: usize = 0;
        while si < nsh
            invariant
                si <= nsh,
                nsh == shells.len(),
                shells == self.shells@,
                lens == function_counts(shells),
                are_lengths(lens),
                tables.valid(),
                self.valid(),
                prep.valid(),
                prep.shells@ == shells,
                dummies@.len() == nsh,
                forall|s: int|
                    0 <= s < nsh ==> is_unit(#[trigger] dummies@[s], shells[s].center)
                        && dummies@[s].valid(),
                entries == metric_entries(tables.rys, engine, omega, shells),
                n == total(lens),
                n * n <= usize::MAX,
                offs@.len() == nsh,
                forall|s: int| 0 <= s < nsh ==> #[trigger] offs@[s] == start(lens, s),
                mat@.len() == n * n,
                forall|x: At, y: At|
                    is_function(lens, x) && is_function(lens, y) && x.0 < si && y.0 < si
                        ==> #[trigger] mat@[slot2(lens, x, y)] == entries(x, y),
            decreases nsh - si,
        {
            let mut sj: usize = 0;
            while sj <= si
                invariant
                    si < nsh,
                    sj <= si + 1,
                    nsh == shells.len(),
                    shells == self.shells@,
                    lens == function_counts(shells),
                    are_lengths(lens),
                    tables.valid(),
                    self.valid(),
                    prep.valid(),
                    prep.shells@ == shells,
                    dummies@.len() == nsh,
                    forall|s: int|
                        0 <= s < nsh ==> is_unit(#[trigger] dummies@[s], shells[s].center)
                            && dummies@[s].valid(),
                    entries == metric_entries(tables.rys, engine, omega, shells),
                    n == total(lens),
                    n * n <= usize::MAX,
                    offs@.len() == nsh,
                    forall|s: int| 0 <= s < nsh ==> #[trigger] offs@[s] == start(lens, s),
                    mat@.len() == n * n,
                    forall|x: At, y: At|
                        is_function(lens, x) && is_function(lens, y) && ((x.0 < si && y.0 < si) || (
                        x.0 == si && y.0 < sj) || (x.0 < sj && y.0 == si))
                            ==> #[trigger] mat@[slot2(lens, x, y)] == entries(x, y),
                decreases si + 1 - sj,
            {
                let (sa, sb) = (prep.side(si), prep.side(sj));
                let (na, nb) = (sa.shell.n_func(), sb.shell.n_func());
                assert(is_unit(dummies@[si as int], shells[si as int].center));
                assert(is_unit(dummies@[sj as int], shells[sj as int].center));
                metric_into(
                    &mut scratch,
                    tables,
                    engine,
                    omega,
                    sa,
                    sb,
                    &dummies[si],
                    &dummies[sj],
                );
                let ghost full = scratch.block@;
                let ghost before = mat@;
                proof {
                    lemma_ranges_fit(lens, si as int);
                    lemma_ranges_fit(lens, sj as int);
                    assert(offs@[si as int] == start(lens, si as int));
                    assert(offs@[sj as int] == start(lens, sj as int));
                    assert(na * nb <= 784) by (nonlinear_arith)
                        requires
                            na <= 28,
                            nb <= 28,
                    ;
                }
                if si == sj {
                    mirror_lower(&mut scratch.block, na);
                    place_block(
                        mat.as_mut_slice(),
                        0,
                        n,
                        offs[si],
                        offs[sj],
                        &scratch.block,
                        na,
                        nb,
                    );
                    proof {
                        let block = scratch.block@;
                        assert forall|x: At, y: At|
                            is_function(lens, x) && is_function(lens, y) && ((x.0 < si && y.0 < si)
                                || (x.0 == si && y.0 < sj + 1) || (x.0 < sj + 1 && y.0 == si)) implies #[trigger] mat@[slot2(
                            lens,
                            x,
                            y,
                        )] == entries(x, y) by {
                            lemma_placed(
                                before,
                                mat@,
                                lens,
                                si as int,
                                sj as int,
                                block,
                                0,
                                x,
                                y,
                            );
                            if x.0 == si && y.0 == si {
                                assert(block[pair(x.1, na as int, y.1)] == entries(x, y));
                            } else {
                                assert(before[slot2(lens, x, y)] == entries(x, y));
                            }
                        }
                    }
                } else {
                    place_block(
                        mat.as_mut_slice(),
                        0,
                        n,
                        offs[si],
                        offs[sj],
                        &scratch.block,
                        na,
                        nb,
                    );
                    let ghost between = mat@;
                    place_transpose(
                        mat.as_mut_slice(),
                        0,
                        n,
                        offs[sj],
                        offs[si],
                        &scratch.block,
                        na,
                        nb,
                    );
                    proof {
                        let t = transposed(full, na as int, nb as int);
                        assert forall|x: At, y: At|
                            is_function(lens, x) && is_function(lens, y) && ((x.0 < si && y.0 < si)
                                || (x.0 == si && y.0 < sj + 1) || (x.0 < sj + 1 && y.0 == si)) implies #[trigger] mat@[slot2(
                            lens,
                            x,
                            y,
                        )] == entries(x, y) by {
                            lemma_placed(
                                before,
                                between,
                                lens,
                                si as int,
                                sj as int,
                                full,
                                0,
                                x,
                                y,
                            );
                            lemma_placed(
                                between,
                                mat@,
                                lens,
                                sj as int,
                                si as int,
                                t,
                                0,
                                x,
                                y,
                            );
                            if x.0 == sj && y.0 == si {
                                lemma_transposed(full, na as int, nb as int, x.1, y.1);
                            } else if x.0 == si && y.0 == sj {
                                assert(full[pair(x.1, nb as int, y.1)] == entries(x, y));
                            } else {
                                assert(before[slot2(lens, x, y)] == entries(x, y));
                            }
                        }
                    }
                }
                sj = sj + 1;
            }
            si = si + 1;
        }
        mat
    }

    /// The block `(ij|P)` of two shells of the basis and one of `aux`.
    #[must_use]
    pub fn eri_3c_block(
        &self,
        tables: &Tables<T>,
        aux: &Basis<T>,
        ish: usize,
        jsh: usize,
        psh: usize,
    ) -> (block: Vec<T>)
        requires
            tables.valid(),
            self.valid(),
            aux.valid(),
            ish < self.shells@.len(),
            jsh < self.shells@.len(),
            psh < aux.shells@.len(),
        ensures
            block@ == fit_block(
                tables.rys,
                Engine::Auto,
                None,
                self.shells@[ish as int],
                self.shells@[jsh as int],
                aux.shells@[psh as int],
            ),
    {
        self.eri_3c_block_with(tables, Engine::Auto, aux, ish, jsh, psh)
    }

    /// [`Basis::eri_3c_block`] with the engine given.
    #[must_use]
    pub fn eri_3c_block_with(
        &self,
        tables: &Tables<T>,
        engine: Engine,
        aux: &Basis<T>,
        ish: usize,
        jsh: usize,
        psh: usize,
    ) -> (block: Vec<T>)
        requires
            tables.valid(),
            self.valid(),
            aux.valid(),
            ish < self.shells@.len(),
            jsh < self.shells@.len(),
            psh < aux.shells@.len(),
        ensures
            block@ == fit_block(
                tables.rys,
                engine,
                None,
                self.shells@[ish as int],
                self.shells@[jsh as int],
                aux.shells@[psh as int],
            ),
    {
        three_center(
            tables,
            engine,
            None,
            &self.shells[ish],
            &self.shells[jsh],
            &aux.shells[psh],
        )
    }

    /// The block `(ij|P)` over the given kernel.
    #[must_use]
    pub fn eri_3c_block_kernel(
        &self,
        tables: &Tables<T>,
        aux: &Basis<T>,
        ish: usize,
        jsh: usize,
        psh: usize,
        k: EriKernel<T>,
    ) -> (block: Vec<T>)
        requires
            tables.valid(),
            self.valid(),
            aux.valid(),
            ish < self.shells@.len(),
            jsh < self.shells@.len(),
            psh < aux.shells@.len(),
            is_kernel(k),
        ensures
            block@ == fit_block(
                tables.rys,
                engine_of(k, Engine::Auto),
                attenuation_of(k),
                self.shells@[ish as int],
                self.shells@[jsh as int],
                aux.shells@[psh as int],
            ),
    {
        match k {
            EriKernel::Coulomb => self.eri_3c_block(tables, aux, ish, jsh, psh),
            EriKernel::Erf { omega } => three_center(
                tables,
                Engine::Rys,
                Some(omega),
                &self.shells[ish],
                &self.shells[jsh],
                &aux.shells[psh],
            ),
        }
    }

    /// For every shell of the basis the root of the largest `(m|m)`.
    #[must_use]
    pub fn schwarz_aux_bounds(&self, tables: &Tables<T>) -> (r: Vec<T>)
        requires
            tables.valid(),
            self.valid(),
        ensures
            r@ == Seq::new(
                self.shells@.len(),
                |p: int| aux_bound(tables.rys, Engine::Auto, self.shells@[p]),
            ),
    {
        self.schwarz_aux_bounds_with(tables, Engine::Auto)
    }

    /// [`Basis::schwarz_aux_bounds`] with the engine given.
    #[must_use]
    pub fn schwarz_aux_bounds_with(&self, tables: &Tables<T>, engine: Engine) -> (r: Vec<T>)
        requires
            tables.valid(),
            self.valid(),
        ensures
            r@ == Seq::new(
                self.shells@.len(),
                |p: int| aux_bound(tables.rys, engine, self.shells@[p]),
            ),
    {
        let prep = Prepared::new(&self.shells);
        let mut scratch = QuartetScratch::new();
        let mut r: Vec<T> = Vec::new();
        let mut p: usize = 0;
        while p < self.shells.len()
            invariant
                p <= self.shells@.len(),
                tables.valid(),
                self.valid(),
                prep.valid(),
                prep.shells@ == self.shells@,
                r@.len() == p,
                forall|k: int|
                    0 <= k < p ==> #[trigger] r@[k] == aux_bound(
                        tables.rys,
                        engine,
                        self.shells@[k],
                    ),
            decreases self.shells@.len() - p,
        {
            let side = prep.side(p);
            let dummy = unit_s(side.shell.center);
            metric_into(&mut scratch, tables, engine, None, side, side, &dummy, &dummy);
            let np = side.shell.n_func();
            let mut mx = T::from_count(0);
            let mut m: usize = 0;
            assert(np * np <= 784) by (nonlinear_arith)
                requires
                    np <= 28,
            ;
            while m < np
                invariant
                    m <= np <= 28,
                    np * np <= 784,
                    scratch.block@.len() == np * np,
                    mx == diagonal_of(scratch.block@, np as int, m as int),
                decreases np - m,
            {
                proof {
                    lemma_pair_in_range(m as int, np as int, np as int, m as int);
                }
                mx = larger_of(mx, scratch.block[m * np + m].abs());
                m = m + 1;
            }
            r.push(mx.sqrt());
            p = p + 1;
        }
        assert(r@ =~= Seq::new(
            self.shells@.len(),
            |p: int| aux_bound(tables.rys, engine, self.shells@[p]),
        ));
        r
    }
}

/// The block `(ij|p)` of three shells.
fn three_center<T: Real>(
    tables: &Tables<T>,
    engine: Engine,
    omega: Option<T>,
    i: &Shell<T>,
    j: &Shell<T>,
    p: &Shell<T>,
) -> (block: Vec<T>)
    requires
        tables.valid(),
        i.valid(),
        j.valid(),
        p.valid(),
    ensures
        block@ == fit_block(tables.rys, engine, omega, *i, *j, *p),
        block@.len() == i.functions() * j.functions() * p.functions(),
{
    let (ei, ej, ep) = (effective_coeffs(i), effective_coeffs(j), effective_coeffs(p));
    let (mi, mj, mp) = (shell_transform(i), shell_transform(j), shell_transform(p));
    let si = Side { shell: i, eff: &ei, mat: &mi };
    let sj = Side { shell: j, eff: &ej, mat: &mj };
    let sp = Side { shell: p, eff: &ep, mat: &mp };
    let dummy = unit_s(p.center);
    let mut scratch = QuartetScratch::new();
    fit_into(&mut scratch, tables, engine, omega, si, sj, sp, &dummy);
    scratch.block
}

/// The block `(ij|p)` of three shells, left in `scratch.block`.
pub(crate) fn fit_into<T: Real>(
    scratch: &mut QuartetScratch<T>,
    tables: &Tables<T>,
    engine: Engine,
    omega: Option<T>,
    i: Side<T>,
    j: Side<T>,
    p: Side<T>,
    dummy: &Shell<T>,
)
    requires
        tables.valid(),
        i.valid(),
        j.valid(),
        p.valid(),
        i.shown() == normalized(*i.shell),
        j.shown() == normalized(*j.shell),
        p.shown() == normalized(*p.shell),
        is_unit(*dummy, p.shell.center),
    ensures
        final(scratch).block@ == fit_block(
            tables.rys,
            engine,
            omega,
            *i.shell,
            *j.shell,
            *p.shell,
        ),
        final(scratch).block@.len() == i.shell.functions() * j.shell.functions()
            * p.shell.functions(),
{
    let one = vec![T::from_count(1)];
    assert(one@ =~= seq![T::count(1)]);
    let none: Option<Vec<T>> = None;
    let s = [i, j, p, unit_side(dummy, &one, &none)];
    quartet_kernel_into(scratch, tables, engine, omega, s, None);
    proof {
        let n = i.shell.functions() * j.shell.functions() * p.shell.functions();
        assert(crate::math::am::cart_count(0) == 1);
        assert(dummy.functions() == 1);
        assert(n * 1 == n);
    }
}

} // verus!
