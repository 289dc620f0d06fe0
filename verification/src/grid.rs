//! The Coulomb matrices of unit charges at points of a grid.
use vstd::prelude::*;

use crate::dense::{attenuation_of, is_kernel};
use crate::engine::grid_pair::{
    grid_prim, point_entries, GridCoulombPair, GridCoulombScratch, GridPrim,
};
use crate::engine::os::block_size;
use crate::engine::pairs::{difference, Vec3};
use crate::flat::pair;
use crate::quartet::EriKernel;
use crate::math::boys::BoysTable;
use crate::offsets::{are_lengths, start};
use crate::one_electron::{
    lemma_placed, lemma_ranges_fit, lemma_transposed, place_block, place_transpose, transposed,
};
use crate::scalar::{filled, Real};
use crate::shell::{function_counts, Basis, Shell};
use crate::shell_pairs::Prepared;
use crate::spherical::{function_block2, transform_block2};
use crate::tensor::{is_function, lemma_slot2, ordered, slot2, total, At};

verus! {

/// Exponents and weights of the primitive pairs of two shells, in row-major order.
pub open spec fn weighted_pairs<T: Real>(a: Shell<T>, b: Shell<T>) -> Seq<(T, T, T)> {
    let nb = b.exponents@.len() as int;
    Seq::new(
        (a.exponents@.len() * nb) as nat,
        |k: int|
            (
                a.exponents@[k / nb],
                b.exponents@[k % nb],
                T::prod(a.effective(k / nb), b.effective(k % nb)),
            ),
    )
}

/// The primitive pairs of two shells.
pub open spec fn grid_prims<T: Real>(a: Shell<T>, b: Shell<T>) -> Seq<GridPrim<T>> {
    let pairs = weighted_pairs(a, b);
    Seq::new(pairs.len(), |k: int| grid_prim(a.center, b.center, pairs[k]))
}

/// The block of two shells at a point, of the kernel that `omega` chooses.
pub open spec fn grid_block<T: Real>(
    a: Shell<T>,
    b: Shell<T>,
    c: Vec3<T>,
    omega: Option<T>,
) -> Seq<T> {
    function_block2(
        a,
        b,
        Seq::new(
            block_size(a.l as int, b.l as int) as nat,
            point_entries(
                a.l as int,
                b.l as int,
                difference(a.center, b.center),
                grid_prims(a, b),
                c,
                omega,
            ),
        ),
    )
}

/// The entry of two functions at a point: that of the later shell and the earlier one.
pub open spec fn grid_entry<T: Real>(
    shells: Seq<Shell<T>>,
    c: Vec3<T>,
    omega: Option<T>,
    x: At,
    y: At,
) -> T {
    let (p, q) = ordered(x, y);
    grid_block(shells[p.0], shells[q.0], c, omega)[pair(p.1, shells[q.0].functions(), q.1)]
}

/// The matrices are symmetric in functions of different shells.
pub proof fn law_grid_is_symmetric<T: Real>(
    shells: Seq<Shell<T>>,
    c: Vec3<T>,
    omega: Option<T>,
    x: At,
    y: At,
)
    requires
        x.0 != y.0,
    ensures
        grid_entry(shells, c, omega, x, y) == grid_entry(shells, c, omega, y, x),
{
}

/// Whether `out` holds the matrices of the points, one after the other.
pub open spec fn is_grid<T: Real>(
    out: Seq<T>,
    points: Seq<Vec3<T>>,
    omega: Option<T>,
    shells: Seq<Shell<T>>,
) -> bool {
    let lens = function_counts(shells);
    let mm = total(lens) * total(lens);
    &&& out.len() == points.len() * mm
    &&& forall|g: int, x: At, y: At|
        0 <= g < points.len() && is_function(lens, x) && is_function(lens, y)
            ==> #[trigger] out[g * mm + slot2(lens, x, y)] == grid_entry(
            shells,
            points[g],
            omega,
            x,
            y,
        )
}

/// The entry of two functions depends on the matrix of its point alone.
pub proof fn law_points_are_independent<T: Real>(
    out: Seq<T>,
    points: Seq<Vec3<T>>,
    part: Seq<T>,
    from: int,
    to: int,
    omega: Option<T>,
    shells: Seq<Shell<T>>,
    g: int,
    x: At,
    y: At,
)
    requires
        0 <= from <= to <= points.len(),
        is_grid(out, points, omega, shells),
        is_grid(part, points.subrange(from, to), omega, shells),
        from <= g < to,
        is_function(function_counts(shells), x),
        is_function(function_counts(shells), y),
    ensures
        ({
            let lens = function_counts(shells);
            let mm = total(lens) * total(lens);
            part[(g - from) * mm + slot2(lens, x, y)] == out[g * mm + slot2(lens, x, y)]
        }),
{
    let lens = function_counts(shells);
    let mm = total(lens) * total(lens);
    assert(points.subrange(from, to)[g - from] == points[g]);
    assert(part[(g - from) * mm + slot2(lens, x, y)] == grid_entry(
        shells,
        points.subrange(from, to)[g - from],
        omega,
        x,
        y,
    ));
}

/// The primitive pairs of two shells.
fn weigh_pairs<T: Real>(a: &Shell<T>, ea: &Vec<T>, b: &Shell<T>, eb: &Vec<T>) -> (r: Vec<(T, T, T)>)
    requires
        a.valid(),
        b.valid(),
        ea@ == a.effectives(),
        eb@ == b.effectives(),
    ensures
        r@ == weighted_pairs(*a, *b),
{
    let mut r: Vec<(T, T, T)> = Vec::new();
    let na = a.exponents.len();
    let nb = b.exponents.len();
    let mut i: usize = 0;
    while i < na
        invariant
            i <= na,
            na == a.exponents@.len(),
            nb == b.exponents@.len(),
            a.valid(),
            b.valid(),
            ea@ == a.effectives(),
            eb@ == b.effectives(),
            r@.len() == i * nb,
            forall|k: int| 0 <= k < r@.len() ==> #[trigger] r@[k] == weighted_pairs(*a, *b)[k],
        decreases na - i,
    {
        let mut j: usize = 0;
        while j < nb
            invariant
                i < na,
                j <= nb,
                na == a.exponents@.len(),
                nb == b.exponents@.len(),
                a.valid(),
                b.valid(),
                ea@ == a.effectives(),
                eb@ == b.effectives(),
                r@.len() == pair(i as int, nb as int, j as int),
                forall|k: int| 0 <= k < r@.len() ==> #[trigger] r@[k] == weighted_pairs(*a, *b)[k],
            decreases nb - j,
        {
            proof {
                crate::flat::lemma_pair_parts(i as int, nb as int, j as int);
                crate::flat::lemma_pair_in_range(i as int, na as int, nb as int, j as int);
            }
            r.push((a.exponents[i], b.exponents[j], ea[i].times(eb[j])));
            j = j + 1;
        }
        assert(i * nb + nb == (i + 1) * nb) by (nonlinear_arith);
        i = i + 1;
    }
    r
}

/// Whether the matrices of the points before `g` hold the entries of shells `i` and `j`,
/// and those of all points the entries of the pairs of shells before them.
spec fn holds_pairs_before<T: Real>(
    out: Seq<T>,
    points: Seq<Vec3<T>>,
    omega: Option<T>,
    shells: Seq<Shell<T>>,
    i: int,
    j: int,
    g: int,
) -> bool {
    let lens = function_counts(shells);
    let mm = total(lens) * total(lens);
    forall|h: int, x: At, y: At|
        0 <= h < points.len() && is_function(lens, x) && is_function(lens, y) && {
            let p = ordered(x, y).0;
            let q = ordered(x, y).1;
            p.0 < i || (p.0 == i && (q.0 < j || (q.0 == j && h < g)))
        } ==> #[trigger] out[h * mm + slot2(lens, x, y)] == grid_entry(
            shells,
            points[h],
            omega,
            x,
            y,
        )
}

impl<T: Real> Basis<T> {
    /// Whether the matrices of `n` points can be indexed.
    pub open spec fn grid_fits(self, n: int) -> bool {
        self.matrix_fits() && n * (self.size() * self.size()) <= usize::MAX
    }

    /// The Coulomb matrices of unit charges at the points, one after the other.
    #[must_use]
    pub fn grid_coulomb(&self, table: &BoysTable<T>, points: &[Vec3<T>]) -> (out: Vec<T>)
        requires
            table.valid(),
            self.valid(),
            self.grid_fits(points@.len() as int),
        ensures
            is_grid(out@, points@, None, self.shells@),
    {
        proof {
            self.lemma_size_fits();
        }
        let nao = self.nao();
        let mut out = filled(points.len() * (nao * nao), T::from_count(0));
        self.grid_coulomb_into(table, points, out.as_mut_slice());
        out
    }

    /// [`Basis::grid_coulomb`] into a buffer.
    pub fn grid_coulomb_into(&self, table: &BoysTable<T>, points: &[Vec3<T>], out: &mut [T])
        requires
            table.valid(),
            self.valid(),
            self.grid_fits(points@.len() as int),
            old(out)@.len() == points@.len() * (self.size() * self.size()),
        ensures
            is_grid(final(out)@, points@, None, self.shells@),
    {
        self.grid_kernel_into(table, points, None, out);
    }

    /// [`Basis::grid_coulomb`] of the given kernel.
    #[must_use]
    pub fn grid_coulomb_kernel(
        &self,
        table: &BoysTable<T>,
        points: &[Vec3<T>],
        k: EriKernel<T>,
    ) -> (out: Vec<T>)
        requires
            table.valid(),
            self.valid(),
            self.grid_fits(points@.len() as int),
            is_kernel(k),
        ensures
            is_grid(out@, points@, attenuation_of(k), self.shells@),
    {
        proof {
            self.lemma_size_fits();
        }
        let nao = self.nao();
        let mut out = filled(points.len() * (nao * nao), T::from_count(0));
        self.grid_coulomb_kernel_into(table, points, k, out.as_mut_slice());
        out
    }

    /// [`Basis::grid_coulomb_kernel`] into a buffer.
    pub fn grid_coulomb_kernel_into(
        &self,
        table: &BoysTable<T>,
        points: &[Vec3<T>],
        k: EriKernel<T>,
        out: &mut [T],
    )
        requires
            table.valid(),
            self.valid(),
            self.grid_fits(points@.len() as int),
            is_kernel(k),
            old(out)@.len() == points@.len() * (self.size() * self.size()),
        ensures
            is_grid(final(out)@, points@, attenuation_of(k), self.shells@),
    {
        match k {
            EriKernel::Coulomb => self.grid_kernel_into(table, points, None, out),
            EriKernel::Erf { omega } => self.grid_kernel_into(table, points, Some(omega), out),
        }
    }

    /// Fill the matrices of all points with the block of shells `si` and `sj`.
    #[verifier::spinoff_prover]
    #[verifier::rlimit(60)]
    fn fill_pair(
        &self,
        table: &BoysTable<T>,
        points: &[Vec3<T>],
        omega: Option<T>,
        prep: &Prepared<T>,
        offs: &Vec<usize>,
        nao: usize,
        si: usize,
        sj: usize,
        scratch: &mut GridCoulombScratch<T>,
        out: &mut [T],
    )
        requires
            table.valid(),
            self.valid(),
            self.grid_fits(points@.len() as int),
            prep.valid(),
            prep.shells@ == self.shells@,
            offs@.len() == self.shells@.len(),
            forall|s: int| 0 <= s < offs@.len() ==> #[trigger] offs@[s] == self.offset(s),
            nao == self.size(),
            sj <= si < self.shells@.len(),
            old(out)@.len() == points@.len() * (self.size() * self.size()),
            holds_pairs_before(
                old(out)@,
                points@,
                omega,
                self.shells@,
                si as int,
                sj as int,
                0,
            ),
        ensures
            final(out)@.len() == old(out)@.len(),
            holds_pairs_before(
                final(out)@,
                points@,
                omega,
                self.shells@,
                si as int,
                sj + 1,
                0,
            ),
    {
        let ghost shells = self.shells@;
        let ghost lens = function_counts(shells);
        let ghost mm = total(lens) * total(lens);
        proof {
            self.lemma_size_fits();
            lemma_ranges_fit(lens, si as int);
            lemma_ranges_fit(lens, sj as int);
            assert(offs@[si as int] == start(lens, si as int));
            assert(offs@[sj as int] == start(lens, sj as int));
        }
        let (sa, sb) = (prep.side(si), prep.side(sj));
        let (a, b) = (sa.shell, sb.shell);
        let prim_pairs = weigh_pairs(a, sa.eff, b, sb.eff);
        let pair_of = GridCoulombPair::new(
            a.l,
            b.l,
            a.center,
            b.center,
            prim_pairs.as_slice(),
        );
        assert(pair_of.prims@ =~= grid_prims(*a, *b));
        let (na, nb) = pair_of.dims();
        let (naf, nbf) = (a.n_func(), b.n_func());
        proof {
            crate::engine::os::lemma_block_bounds(a.l as int, b.l as int);
            assert(naf * nbf <= 28 * 28) by (nonlinear_arith)
                requires
                    naf <= 28,
                    nbf <= 28,
            ;
        }
        let mut g: usize = 0;
        while g < points.len()
            invariant
                g <= points@.len(),
                table.valid(),
                self.valid(),
                pair_of.valid(),
                sa.valid(),
                sb.valid(),
                a == sa.shell,
                b == sb.shell,
                *a == shells[si as int],
                *b == shells[sj as int],
                pair_of.la == a.l,
                pair_of.lb == b.l,
                pair_of.ab == difference(a.center, b.center),
                pair_of.prims@ == grid_prims(*a, *b),
                na * nb == block_size(a.l as int, b.l as int),
                na == crate::math::am::cart_count(a.l as int),
                nb == crate::math::am::cart_count(b.l as int),
                na * nb <= usize::MAX,
                naf == lens[si as int],
                nbf == lens[sj as int],
                naf == a.functions(),
                nbf == b.functions(),
                naf * nbf <= 28 * 28,
                shells == self.shells@,
                lens == function_counts(shells),
                are_lengths(lens),
                mm == total(lens) * total(lens),
                nao == total(lens),
                nao * nao <= usize::MAX,
                points@.len() * mm <= usize::MAX,
                offs@.len() == shells.len(),
                forall|s: int| 0 <= s < offs@.len() ==> #[trigger] offs@[s] == start(lens, s),
                start(lens, si as int) + naf <= nao,
                start(lens, sj as int) + nbf <= nao,
                sj <= si < shells.len(),
                out@.len() == points@.len() * mm,
                holds_pairs_before(
                    out@,
                    points@,
                    omega,
                    shells,
                    si as int,
                    sj as int,
                    g as int,
                ),
            decreases points@.len() - g,
        {
            let c = points[g];
            let mut block = filled(na * nb, T::from_count(0));
            match omega {
                None => pair_of.eval_into(table, c, scratch, block.as_mut_slice()),
                Some(w) => pair_of.eval_erf_into(table, c, w, scratch, block.as_mut_slice()),
            }
            assert(block@ =~= Seq::new(
                block_size(a.l as int, b.l as int) as nat,
                point_entries(
                    a.l as int,
                    b.l as int,
                    difference(a.center, b.center),
                    grid_prims(*a, *b),
                    c,
                    omega,
                ),
            ));
            transform_block2(a, b, sa.mat, sb.mat, &mut block);
            assert(block@ == grid_block(*a, *b, c, omega));
            let ghost before = out@;
            proof {
                assert(g * mm + mm <= points@.len() * mm && 0 <= g * mm) by (nonlinear_arith)
                    requires
                        0 <= g < points@.len(),
                        mm >= 0,
                ;
                assert(offs@[si as int] == start(lens, si as int));
                assert(offs@[sj as int] == start(lens, sj as int));
            }
            let base: usize = g * (nao * nao);
            place_block(out, base, nao, offs[si], offs[sj], &block, naf, nbf);
            let ghost middle = out@;
            if si != sj {
                place_transpose(out, base, nao, offs[sj], offs[si], &block, naf, nbf);
            }
            proof {
                assert forall|h: int, x: At, y: At|
                    0 <= h < points@.len() && is_function(lens, x) && is_function(lens, y) && {
                        let p = ordered(x, y).0;
                        let q = ordered(x, y).1;
                        p.0 < si || (p.0 == si && (q.0 < sj || (q.0 == sj && h < g + 1)))
                    } implies #[trigger] out@[h * mm + slot2(lens, x, y)] == grid_entry(
                    shells,
                    points@[h],
                    omega,
                    x,
                    y,
                ) by {
                    let at = h * mm + slot2(lens, x, y);
                    lemma_slot2(lens, x, y, x, y);
                    assert(0 <= at < points@.len() * mm) by (nonlinear_arith)
                        requires
                            0 <= h < points@.len(),
                            0 <= slot2(lens, x, y) < mm,
                            at == h * mm + slot2(lens, x, y),
                    ;
                    if h != g {
                        assert(at < g * mm || at >= g * mm + mm) by (nonlinear_arith)
                            requires
                                h != g,
                                0 <= slot2(lens, x, y) < mm,
                                at == h * mm + slot2(lens, x, y),
                        ;
                        assert(middle[at] == before[at]);
                        assert(out@[at] == middle[at]);
                    } else {
                        lemma_placed(
                            before,
                            middle,
                            lens,
                            si as int,
                            sj as int,
                            block@,
                            base as int,
                            x,
                            y,
                        );
                        if si != sj {
                            lemma_placed(
                                middle,
                                out@,
                                lens,
                                sj as int,
                                si as int,
                                transposed(block@, naf as int, nbf as int),
                                base as int,
                                x,
                                y,
                            );
                            if x.0 == sj && y.0 == si {
                                lemma_transposed(
                                    block@,
                                    naf as int,
                                    nbf as int,
                                    x.1,
                                    y.1,
                                );
                            }
                        }
                    }
                }
            }
            g = g + 1;
        }
    }

    /// The matrices of the points of the kernel that `omega` chooses.
    fn grid_kernel_into(
        &self,
        table: &BoysTable<T>,
        points: &[Vec3<T>],
        omega: Option<T>,
        out: &mut [T],
    )
        requires
            table.valid(),
            self.valid(),
            self.grid_fits(points@.len() as int),
            old(out)@.len() == points@.len() * (self.size() * self.size()),
        ensures
            is_grid(final(out)@, points@, omega, self.shells@),
    {
        let ghost shells = self.shells@;
        proof {
            self.lemma_size_fits();
        }
        let nao = self.nao();
        let offs = self.offsets();
        let prep = Prepared::new(&self.shells);
        let nsh = self.shells.len();
        let mut scratch = GridCoulombScratch::new();
        let mut si: usize = 0;
        while si < nsh
            invariant
                si <= nsh,
                nsh == shells.len(),
                shells == self.shells@,
                table.valid(),
                self.valid(),
                self.grid_fits(points@.len() as int),
                prep.valid(),
                prep.shells@ == shells,
                offs@.len() == nsh,
                forall|s: int| 0 <= s < nsh ==> #[trigger] offs@[s] == self.offset(s),
                nao == self.size(),
                out@.len() == points@.len() * (self.size() * self.size()),
                holds_pairs_before(out@, points@, omega, shells, si as int, 0, 0),
            decreases nsh - si,
        {
            let mut sj: usize = 0;
            while sj <= si
                invariant
                    si < nsh,
                    sj <= si + 1,
                    nsh == shells.len(),
                    shells == self.shells@,
                    table.valid(),
                    self.valid(),
                    self.grid_fits(points@.len() as int),
                    prep.valid(),
                    prep.shells@ == shells,
                    offs@.len() == nsh,
                    forall|s: int| 0 <= s < nsh ==> #[trigger] offs@[s] == self.offset(s),
                    nao == self.size(),
                    out@.len() == points@.len() * (self.size() * self.size()),
                    holds_pairs_before(out@, points@, omega, shells, si as int, sj as int, 0),
                decreases si + 1 - sj,
            {
                self.fill_pair(
                    table,
                    points,
                    omega,
                    &prep,
                    &offs,
                    nao,
                    si,
                    sj,
                    &mut scratch,
                    out,
                );
                sj = sj + 1;
            }
            si = si + 1;
        }
    }
}

} // verus!
