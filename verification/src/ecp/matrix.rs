//! The matrix of effective core potentials.
use vstd::prelude::*;

use crate::df::mirror_lower;
use crate::direct::later_first;
use crate::ecp::angular::lemma_powers_at;
use crate::ecp::harmonics::{Rsh, MAX_DEGREE};
use crate::ecp::local::{local_before, local_pair, type1_into, with_local, LocalPair};
use crate::ecp::projected::{
    projected_before, projected_pair, tables_fit, type2_into, with_projected, ProjectedPair,
};
use crate::ecp::radial::{gl_nodes, legendre_rule, N_QUAD};
use crate::ecp::side::{shell_side, Ecp, EcpPrimitive, EcpSide, SideView};
use crate::engine::os::{block_size, lemma_block_bounds};
use crate::engine::pairs::Vec3;
use crate::flat::{lemma_cell_in_range, lemma_pair_in_range, pair};
use crate::grad::pair::zeros;
use crate::math::am::cart_count;
use crate::math::solid_harmonics::vanishes;
use crate::offsets::{are_lengths, start};
use crate::one_electron::{
    is_matrix, lemma_placed, lemma_ranges_fit, lemma_transposed, place_block, place_transpose,
    transposed,
};
use crate::scalar::{filled, Real, Scalar};
use crate::shell::{distinct_centers, function_counts, Basis, Shell};
use crate::shell_pairs::Prepared;
use crate::spherical::{contracted_axis, function_block2, row_sum, shell_matrix, transform_block2};
use crate::tensor::{is_function, slot2, total, At};

verus! {

/// A block with the local part of a potential and its first `n` projected parts added;
/// parts without terms are left out.
pub open spec fn with_channels<T: Real>(
    old: Seq<T>,
    a: SideView<T>,
    b: SideView<T>,
    ecp: Ecp<T>,
    nodes: Seq<(T, T)>,
    n: int,
) -> Seq<T>
    decreases n,
{
    if n <= 0 {
        with_local(old, a, b, ecp.local@, nodes)
    } else {
        let before = with_channels(old, a, b, ecp, nodes, n - 1);
        let prims = ecp.semilocal@[n - 1]@;
        if prims.len() == 0 {
            before
        } else {
            with_projected(before, n - 1, a, b, prims, nodes)
        }
    }
}

/// A block with a potential added.
pub open spec fn with_ecp<T: Real>(
    old: Seq<T>,
    a: SideView<T>,
    b: SideView<T>,
    ecp: Ecp<T>,
    nodes: Seq<(T, T)>,
) -> Seq<T> {
    with_channels(old, a, b, ecp, nodes, ecp.semilocal@.len() as int)
}

/// Whether the tables of the channels of a potential that have terms, between momenta `la`
/// and `lb`, have sizes that a `usize` holds.
pub open spec fn channels_fit<T>(ecp: Ecp<T>, la: int, lb: int) -> bool {
    forall|l: int|
        0 <= l < ecp.semilocal@.len() && ecp.semilocal@[l]@.len() > 0 ==> #[trigger] tables_fit(
            l,
            la,
            lb,
        )
}

/// Add a potential to the block of two sides.
pub(crate) fn ecp_sides_into<T: Real>(
    sa: &EcpSide<T>,
    sb: &EcpSide<T>,
    ecp: &Ecp<T>,
    rsh: &Rsh<T>,
    nodes: &Vec<(T, T)>,
    block: &mut Vec<T>,
)
    requires
        sa.valid(),
        sb.valid(),
        rsh.valid(),
        sa.l + sb.l <= rsh.top(),
        channels_fit(*ecp, sa.l as int, sb.l as int),
        ecp.semilocal@.len() > 0 ==> ecp.semilocal@.len() - 1 + sa.l <= rsh.top(),
        ecp.semilocal@.len() > 0 ==> ecp.semilocal@.len() - 1 + sb.l <= rsh.top(),
        old(block)@.len() == block_size(sa.l as int, sb.l as int),
    ensures
        final(block)@.len() == old(block)@.len(),
        final(block)@ == with_ecp(old(block)@, sa.shown(), sb.shown(), *ecp, nodes@),
{
    let ghost was = block@;
    type1_into(sa, sb, &ecp.local, rsh, nodes, block);
    let mut l: usize = 0;
    while l < ecp.semilocal.len()
        invariant
            l <= ecp.semilocal@.len(),
            sa.valid(),
            sb.valid(),
            rsh.valid(),
            channels_fit(*ecp, sa.l as int, sb.l as int),
            ecp.semilocal@.len() > 0 ==> ecp.semilocal@.len() - 1 + sa.l <= rsh.top(),
            ecp.semilocal@.len() > 0 ==> ecp.semilocal@.len() - 1 + sb.l <= rsh.top(),
            block@.len() == block_size(sa.l as int, sb.l as int),
            block@ == with_channels(was, sa.shown(), sb.shown(), *ecp, nodes@, l as int),
        decreases ecp.semilocal@.len() - l,
    {
        if ecp.semilocal[l].len() != 0 {
            assert(tables_fit(l as int, sa.l as int, sb.l as int));
            type2_into(l, &ecp.semilocal[l], sa, sb, rsh, nodes, block);
        }
        l = l + 1;
    }
}

/// The nodes of the radial rule.
pub open spec fn radial_nodes<T: Real>() -> Seq<(T, T)> {
    legendre_rule::<T>(N_QUAD as int)
}

/// The Cartesian block of two shells with the first `n` potentials added.
pub open spec fn with_ecps<T: Real>(
    a: Shell<T>,
    b: Shell<T>,
    atoms: Seq<Vec3<T>>,
    ecps: Seq<Ecp<T>>,
    n: int,
) -> Seq<T>
    decreases n,
{
    if n <= 0 {
        zeros(block_size(a.l as int, b.l as int))
    } else {
        let c = atoms[ecps[n - 1].atom as int];
        with_ecp(
            with_ecps(a, b, atoms, ecps, n - 1),
            shell_side(a, c),
            shell_side(b, c),
            ecps[n - 1],
            radial_nodes(),
        )
    }
}

/// The block of two shells over the potentials.
pub open spec fn ecp_block<T: Real>(
    a: Shell<T>,
    b: Shell<T>,
    atoms: Seq<Vec3<T>>,
    ecps: Seq<Ecp<T>>,
) -> Seq<T> {
    function_block2(a, b, with_ecps(a, b, atoms, ecps, ecps.len() as int))
}

/// The entry of two functions: that of the later and the earlier one.
pub open spec fn ecp_entries<T: Real>(shells: Seq<Shell<T>>, ecps: Seq<Ecp<T>>) -> spec_fn(
    At,
    At,
) -> T {
    |x: At, y: At|
        {
            let (p, q) = later_first(x, y);
            ecp_block(
                shells[p.0],
                shells[q.0],
                distinct_centers(shells, shells.len() as int),
                ecps,
            )[pair(p.1, shells[q.0].functions(), q.1)]
        }
}

/// The matrix is symmetric.
pub proof fn law_ecp_is_symmetric<T: Real>(
    shells: Seq<Shell<T>>,
    ecps: Seq<Ecp<T>>,
    x: At,
    y: At,
)
    ensures
        ecp_entries(shells, ecps)(x, y) == ecp_entries(shells, ecps)(y, x),
{
}

/// Whether no term of a potential has a coefficient other than zero.
pub open spec fn is_idle<T: Real>(ecp: Ecp<T>) -> bool {
    &&& forall|k: int| 0 <= k < ecp.local@.len() ==> vanishes((#[trigger] ecp.local@[k]).coef)
    &&& forall|l: int, k: int|
        0 <= l < ecp.semilocal@.len() && 0 <= k < ecp.semilocal@[l]@.len() ==> vanishes(
            (#[trigger] ecp.semilocal@[l]@[k]).coef,
        )
}

proof fn lemma_idle_local<T: Real>(
    x: LocalPair<T>,
    old: Seq<T>,
    prims: Seq<EcpPrimitive<T>>,
    nodes: Seq<(T, T)>,
    n: int,
)
    requires
        n <= prims.len(),
        forall|k: int| 0 <= k < prims.len() ==> vanishes((#[trigger] prims[k]).coef),
    ensures
        x.with_terms(old, prims, nodes, n) == old,
    decreases n,
{
    if n > 0 {
        lemma_idle_local(x, old, prims, nodes, n - 1);
        assert(vanishes(prims[n - 1].coef));
    }
}

proof fn lemma_idle_local_block<T: Real>(
    old: Seq<T>,
    a: SideView<T>,
    b: SideView<T>,
    prims: Seq<EcpPrimitive<T>>,
    nodes: Seq<(T, T)>,
    i: int,
    j: int,
)
    requires
        forall|k: int| 0 <= k < prims.len() ==> vanishes((#[trigger] prims[k]).coef),
    ensures
        local_before(old, a, b, prims, nodes, i, j) == old,
    decreases i, j,
{
    if j > 0 {
        lemma_idle_local_block(old, a, b, prims, nodes, i, j - 1);
        lemma_idle_local(
            local_pair(a, b, i, j - 1),
            old,
            prims,
            nodes,
            prims.len() as int,
        );
    } else if i > 0 {
        lemma_idle_local_block(old, a, b, prims, nodes, i - 1, b.exps.len() as int);
    }
}

proof fn lemma_idle_projected<T: Real>(
    x: ProjectedPair<T>,
    old: Seq<T>,
    prims: Seq<EcpPrimitive<T>>,
    nodes: Seq<(T, T)>,
    n: int,
)
    requires
        n <= prims.len(),
        forall|k: int| 0 <= k < prims.len() ==> vanishes((#[trigger] prims[k]).coef),
    ensures
        x.with_terms(old, prims, nodes, n) == old,
    decreases n,
{
    if n > 0 {
        lemma_idle_projected(x, old, prims, nodes, n - 1);
        assert(vanishes(prims[n - 1].coef));
    }
}

proof fn lemma_idle_projected_block<T: Real>(
    old: Seq<T>,
    l: int,
    a: SideView<T>,
    b: SideView<T>,
    prims: Seq<EcpPrimitive<T>>,
    nodes: Seq<(T, T)>,
    i: int,
    j: int,
)
    requires
        forall|k: int| 0 <= k < prims.len() ==> vanishes((#[trigger] prims[k]).coef),
    ensures
        projected_before(old, l, a, b, prims, nodes, i, j) == old,
    decreases i, j,
{
    if j > 0 {
        lemma_idle_projected_block(old, l, a, b, prims, nodes, i, j - 1);
        lemma_idle_projected(
            projected_pair(l, a, b, i, j - 1),
            old,
            prims,
            nodes,
            prims.len() as int,
        );
    } else if i > 0 {
        lemma_idle_projected_block(old, l, a, b, prims, nodes, i - 1, b.exps.len() as int);
    }
}

proof fn lemma_idle_channels<T: Real>(
    old: Seq<T>,
    a: SideView<T>,
    b: SideView<T>,
    ecp: Ecp<T>,
    nodes: Seq<(T, T)>,
    n: int,
)
    requires
        is_idle(ecp),
        n <= ecp.semilocal@.len(),
    ensures
        with_channels(old, a, b, ecp, nodes, n) == old,
    decreases n,
{
    if n <= 0 {
        lemma_idle_local_block(old, a, b, ecp.local@, nodes, a.exps.len() as int, 0);
    } else {
        lemma_idle_channels(old, a, b, ecp, nodes, n - 1);
        let prims = ecp.semilocal@[n - 1]@;
        assert forall|k: int| 0 <= k < prims.len() implies vanishes((#[trigger] prims[k]).coef) by {
            assert(vanishes(ecp.semilocal@[n - 1]@[k].coef));
        }
        lemma_idle_projected_block(old, n - 1, a, b, prims, nodes, a.exps.len() as int, 0);
    }
}

/// Potentials without a coefficient other than zero, or no potentials, leave the Cartesian
/// blocks zero.
pub proof fn law_idle_potentials_add_nothing<T: Real>(
    a: Shell<T>,
    b: Shell<T>,
    atoms: Seq<Vec3<T>>,
    ecps: Seq<Ecp<T>>,
    n: int,
)
    requires
        0 <= n <= ecps.len(),
        forall|e: int| 0 <= e < ecps.len() ==> is_idle(#[trigger] ecps[e]),
    ensures
        with_ecps(a, b, atoms, ecps, n) == zeros::<T>(block_size(a.l as int, b.l as int)),
    decreases n,
{
    if n > 0 {
        law_idle_potentials_add_nothing(a, b, atoms, ecps, n - 1);
        assert(is_idle(ecps[n - 1]));
        let c = atoms[ecps[n - 1].atom as int];
        lemma_idle_channels(
            zeros(block_size(a.l as int, b.l as int)),
            shell_side(a, c),
            shell_side(b, c),
            ecps[n - 1],
            radial_nodes(),
            ecps[n - 1].semilocal@.len() as int,
        );
    }
}

/// Whether zero stays zero: multiplied by anything, and added to itself.
pub open spec fn zero_stays<T: Scalar>() -> bool {
    &&& forall|a: T| #[trigger] T::prod(a, T::count(0)) == T::count(0)
    &&& T::sum(T::count(0), T::count(0)) == T::count(0)
}

proof fn lemma_zero_row<T: Scalar>(
    m: Seq<T>,
    outer: int,
    n: int,
    inner: int,
    o: int,
    r: int,
    i: int,
    c: int,
)
    requires
        zero_stays::<T>(),
        0 <= o < outer,
        0 <= i < inner,
        c <= n,
    ensures
        row_sum(m, zeros::<T>(outer * n * inner), n, inner, o, r, i, c) == T::count(0),
    decreases c,
{
    if c > 0 {
        lemma_zero_row(m, outer, n, inner, o, r, i, c - 1);
        lemma_cell_in_range(o, outer, n, c - 1, inner, i);
    }
}

proof fn lemma_zero_axis<T: Scalar>(
    m: Option<Seq<T>>,
    rows: int,
    outer: int,
    n: int,
    inner: int,
)
    requires
        zero_stays::<T>(),
        0 <= outer,
        0 <= rows,
        0 <= inner,
        m is None ==> rows == n,
    ensures
        contracted_axis(m, rows, zeros::<T>(outer * n * inner), outer, n, inner) == zeros::<T>(
            outer * rows * inner,
        ),
{
    if let Some(w) = m {
        let r = contracted_axis(m, rows, zeros::<T>(outer * n * inner), outer, n, inner);
        assert forall|k: int| 0 <= k < outer * rows * inner implies r[k] == T::count(0) by {
            lemma_powers_at(k, outer, rows, inner);
            lemma_zero_row(
                w,
                outer,
                n,
                inner,
                k / inner / rows,
                k / inner % rows,
                k % inner,
                n,
            );
        }
        assert(r =~= zeros::<T>(outer * rows * inner));
    }
}

/// Over potentials without a coefficient other than zero, or no potentials, the matrix is
/// zero, in any arithmetic in which zero stays zero.
pub proof fn law_idle_potentials_give_zero<T: Real>(
    shells: Seq<Shell<T>>,
    ecps: Seq<Ecp<T>>,
    x: At,
    y: At,
)
    requires
        zero_stays::<T>(),
        forall|s: int| 0 <= s < shells.len() ==> (#[trigger] shells[s]).valid(),
        forall|e: int| 0 <= e < ecps.len() ==> is_idle(#[trigger] ecps[e]),
        is_function(function_counts(shells), x),
        is_function(function_counts(shells), y),
    ensures
        ecp_entries(shells, ecps)(x, y) == T::count(0),
{
    let p = later_first(x, y).0;
    let q = later_first(x, y).1;
    let a = shells[p.0];
    let b = shells[q.0];
    assert(a.valid() && b.valid());
    let atoms = distinct_centers(shells, shells.len() as int);
    law_idle_potentials_add_nothing(a, b, atoms, ecps, ecps.len() as int);
    let (na, nb) = (cart_count(a.l as int), cart_count(b.l as int));
    let (fa, fb) = (a.functions(), b.functions());
    lemma_block_bounds(a.l as int, b.l as int);
    assert(block_size(a.l as int, b.l as int) == 1 * na * nb);
    lemma_zero_axis(shell_matrix::<T>(a.kind, a.l as int), fa, 1, na, nb);
    assert(1 * fa * nb == fa * nb * 1);
    lemma_zero_axis(shell_matrix::<T>(b.kind, b.l as int), fb, fa, nb, 1);
    assert(function_block2(a, b, zeros::<T>(1 * na * nb)) == zeros::<T>(fa * fb * 1));
    lemma_pair_in_range(p.1, fa, fb, q.1);
}

/// The highest angular momentum among the first `n` shells.
pub open spec fn highest_l<T>(shells: Seq<Shell<T>>, n: int) -> int
    decreases n,
{
    if n <= 0 {
        0
    } else if highest_l(shells, n - 1) < shells[n - 1].l {
        shells[n - 1].l as int
    } else {
        highest_l(shells, n - 1)
    }
}

/// The highest number of channels among the first `n` potentials.
pub open spec fn most_channels<T>(ecps: Seq<Ecp<T>>, n: int) -> int
    decreases n,
{
    if n <= 0 {
        0
    } else if most_channels(ecps, n - 1) < ecps[n - 1].semilocal@.len() {
        ecps[n - 1].semilocal@.len() as int
    } else {
        most_channels(ecps, n - 1)
    }
}

/// The highest angular momentum of the shells.
pub(crate) fn find_highest_l<T: Real>(shells: &Vec<Shell<T>>) -> (l: usize)
    requires
        forall|s: int| 0 <= s < shells@.len() ==> (#[trigger] shells@[s]).valid(),
    ensures
        l == highest_l(shells@, shells@.len() as int),
        l <= 6,
        forall|s: int| 0 <= s < shells@.len() ==> (#[trigger] shells@[s]).l <= l,
{
    let mut l: usize = 0;
    let mut n: usize = 0;
    while n < shells.len()
        invariant
            n <= shells@.len(),
            forall|s: int| 0 <= s < shells@.len() ==> (#[trigger] shells@[s]).valid(),
            l == highest_l(shells@, n as int),
            l <= 6,
            forall|s: int| 0 <= s < n ==> (#[trigger] shells@[s]).l <= l,
        decreases shells@.len() - n,
    {
        assert(shells@[n as int].valid());
        if l < shells[n].l {
            l = shells[n].l;
        }
        n = n + 1;
    }
    l
}

/// The highest number of channels of the potentials.
pub(crate) fn find_most_channels<T: Real>(ecps: &[Ecp<T>]) -> (c: usize)
    ensures
        c == most_channels(ecps@, ecps@.len() as int),
        forall|e: int| 0 <= e < ecps@.len() ==> (#[trigger] ecps@[e]).semilocal@.len() <= c,
        c == 0 || exists|e: int| 0 <= e < ecps@.len() && (#[trigger] ecps@[e]).semilocal@.len() == c,
{
    let mut c: usize = 0;
    let mut n: usize = 0;
    while n < ecps.len()
        invariant
            n <= ecps@.len(),
            c == most_channels(ecps@, n as int),
            forall|e: int| 0 <= e < n ==> (#[trigger] ecps@[e]).semilocal@.len() <= c,
            c == 0 || exists|e: int| 0 <= e < n && (#[trigger] ecps@[e]).semilocal@.len() == c,
        decreases ecps@.len() - n,
    {
        let have = ecps[n].semilocal.len();
        if c < have {
            c = have;
            assert(ecps@[n as int].semilocal@.len() == c);
        }
        n = n + 1;
    }
    c
}

impl<T: Real> Basis<T> {
    /// Whether the potentials are those of atoms of the basis, and the numbers that are
    /// counted for their channels fit: the highest degree of a harmonic an `i32`, and the
    /// sizes of the tables a `usize`.
    pub open spec fn ecps_fit(self, ecps: Seq<Ecp<T>>) -> bool {
        &&& forall|e: int|
            0 <= e < ecps.len() ==> (#[trigger] ecps[e]).atom < distinct_centers(
                self.shells@,
                self.shells@.len() as int,
            ).len()
        &&& forall|e: int|
            0 <= e < ecps.len() ==> (#[trigger] ecps[e]).semilocal@.len() - 1 + highest_l(
                self.shells@,
                self.shells@.len() as int,
            ) <= MAX_DEGREE
        &&& forall|e: int, i: int, j: int|
            0 <= e < ecps.len() && 0 <= i < self.shells@.len() && 0 <= j < self.shells@.len()
                ==> #[trigger] channels_fit(
                ecps[e],
                self.shells@[i].l as int,
                self.shells@[j].l as int,
            )
    }

    /// The block of two shells over the potentials.
    fn contract_ecps(
        &self,
        sa: &Shell<T>,
        ea: &Vec<T>,
        sb: &Shell<T>,
        eb: &Vec<T>,
        atoms: &Vec<Vec3<T>>,
        ecps: &[Ecp<T>],
        rsh: &Rsh<T>,
        nodes: &Vec<(T, T)>,
    ) -> (block: Vec<T>)
        requires
            sa.valid(),
            sb.valid(),
            ea@ == sa.effectives(),
            eb@ == sb.effectives(),
            rsh.valid(),
            sa.l + sb.l <= rsh.top(),
            nodes@ == radial_nodes::<T>(),
            atoms@ == distinct_centers(self.shells@, self.shells@.len() as int),
            self.ecps_fit(ecps@),
            forall|e: int|
                0 <= e < ecps@.len() ==> #[trigger] channels_fit(
                    ecps@[e],
                    sa.l as int,
                    sb.l as int,
                ),
            forall|e: int|
                0 <= e < ecps@.len() && (#[trigger] ecps@[e]).semilocal@.len() > 0
                    ==> ecps@[e].semilocal@.len() - 1 + sa.l <= rsh.top()
                    && ecps@[e].semilocal@.len() - 1 + sb.l <= rsh.top(),
        ensures
            block@ == with_ecps(*sa, *sb, atoms@, ecps@, ecps@.len() as int),
            block@.len() == block_size(sa.l as int, sb.l as int),
    {
        proof {
            lemma_block_bounds(sa.l as int, sb.l as int);
        }
        let (na, nb) = (sa.n_cart(), sb.n_cart());
        let mut block = filled(na * nb, T::from_count(0));
        assert(block@ =~= zeros(block_size(sa.l as int, sb.l as int)));
        let mut n: usize = 0;
        while n < ecps.len()
            invariant
                n <= ecps@.len(),
                sa.valid(),
                sb.valid(),
                ea@ == sa.effectives(),
                eb@ == sb.effectives(),
                rsh.valid(),
                sa.l + sb.l <= rsh.top(),
                nodes@ == radial_nodes::<T>(),
                atoms@ == distinct_centers(self.shells@, self.shells@.len() as int),
                self.ecps_fit(ecps@),
                forall|e: int|
                    0 <= e < ecps@.len() ==> #[trigger] channels_fit(
                        ecps@[e],
                        sa.l as int,
                        sb.l as int,
                    ),
                forall|e: int|
                    0 <= e < ecps@.len() && (#[trigger] ecps@[e]).semilocal@.len() > 0
                        ==> ecps@[e].semilocal@.len() - 1 + sa.l <= rsh.top()
                        && ecps@[e].semilocal@.len() - 1 + sb.l <= rsh.top(),
                block@ == with_ecps(*sa, *sb, atoms@, ecps@, n as int),
                block@.len() == block_size(sa.l as int, sb.l as int),
            decreases ecps@.len() - n,
        {
            let ecp = &ecps[n];
            assert(ecps@[n as int].atom < atoms@.len());
            assert(channels_fit(ecps@[n as int], sa.l as int, sb.l as int));
            let c = atoms[ecp.atom];
            let side_a = EcpSide {
                l: sa.l,
                cv: crate::engine::pairs::sub(sa.center, c),
                exps: &sa.exponents,
                wts: ea,
            };
            let side_b = EcpSide {
                l: sb.l,
                cv: crate::engine::pairs::sub(sb.center, c),
                exps: &sb.exponents,
                wts: eb,
            };
            assert(side_a.shown() == shell_side(*sa, c));
            assert(side_b.shown() == shell_side(*sb, c));
            ecp_sides_into(&side_a, &side_b, ecp, rsh, nodes, &mut block);
            n = n + 1;
        }
        block
    }

    /// The matrix of the sum of the potentials.
    #[verifier::spinoff_prover]
    #[verifier::rlimit(60)]
    #[must_use]
    pub fn ecp(&self, ecps: &[Ecp<T>]) -> (mat: Vec<T>)
        requires
            self.valid(),
            self.matrix_fits(),
            self.shells@.len() > 0 ==> self.ecps_fit(ecps@),
        ensures
            is_matrix(
                mat@,
                ecp_entries(self.shells@, ecps@),
                function_counts(self.shells@),
            ),
    {
        let ghost lens = function_counts(self.shells@);
        let ghost shells = self.shells@;
        let ghost entries = ecp_entries(shells, ecps@);
        proof {
            self.lemma_size_fits();
        }
        let n = self.nao();
        let offs = self.offsets();
        let atoms = self.atoms();
        let nsh = self.shells.len();
        let mut mat = filled(n * n, T::from_count(0));
        if nsh == 0 {
            return mat;
        }
        let lsh = find_highest_l(&self.shells);
        let lproj = find_most_channels(ecps);
        assert(lproj - 1 + lsh <= MAX_DEGREE);
        let low: usize = if lproj == 0 {
            lsh
        } else {
            lproj - 1 + lsh
        };
        let lam_max: usize = if low < 2 * lsh {
            2 * lsh
        } else {
            low
        };
        let rsh: Rsh<T> = Rsh::new(lam_max);
        let nodes = gl_nodes::<T>();
        let prep = Prepared::new(&self.shells);
        let mut si: usize = 0;
        while si < nsh
            invariant
                si <= nsh,
                nsh == shells.len(),
                nsh > 0,
                shells == self.shells@,
                lens == function_counts(shells),
                are_lengths(lens),
                self.valid(),
                self.ecps_fit(ecps@),
                atoms@ == distinct_centers(shells, shells.len() as int),
                prep.valid(),
                prep.shells@ == shells,
                rsh.valid(),
                nodes@ == radial_nodes::<T>(),
                forall|s: int| 0 <= s < nsh ==> (#[trigger] shells[s]).l <= lsh,
                2 * lsh <= rsh.top(),
                forall|e: int|
                    0 <= e < ecps@.len() && (#[trigger] ecps@[e]).semilocal@.len() > 0
                        ==> ecps@[e].semilocal@.len() - 1 + lsh <= rsh.top(),
                entries == ecp_entries(shells, ecps@),
                n == total(lens),
                n * n <= usize::MAX,
                offs@.len() == nsh,
                forall|s: int| 0 <= s < nsh ==> #[trigger] offs@[s] == start(lens, s),
                mat@.len() == n * n,
                forall|x: At, y: At|
                    is_function(lens, x) && is_function(lens, y) && x.0 < si && y.0 < si
                        ==> #[trigger] mat@[slot2(lens, x, y)] == entries(x, y),
            decreases nsh - si,
        {
            let mut sj: usize = 0;
            while sj <= si
                invariant
                    si < nsh,
                    sj <= si + 1,
                    nsh == shells.len(),
                    shells == self.shells@,
                    lens == function_counts(shells),
                    are_lengths(lens),
                    self.valid(),
                    self.ecps_fit(ecps@),
                    atoms@ == distinct_centers(shells, shells.len() as int),
                    prep.valid(),
                    prep.shells@ == shells,
                    rsh.valid(),
                    nodes@ == radial_nodes::<T>(),
                    forall|s: int| 0 <= s < nsh ==> (#[trigger] shells[s]).l <= lsh,
                    2 * lsh <= rsh.top(),
                    forall|e: int|
                        0 <= e < ecps@.len() && (#[trigger] ecps@[e]).semilocal@.len() > 0
                            ==> ecps@[e].semilocal@.len() - 1 + lsh <= rsh.top(),
                    entries == ecp_entries(shells, ecps@),
                    n == total(lens),
                    n * n <= usize::MAX,
                    offs@.len() == nsh,
                    forall|s: int| 0 <= s < nsh ==> #[trigger] offs@[s] == start(lens, s),
                    mat@.len() == n * n,
                    forall|x: At, y: At|
                        is_function(lens, x) && is_function(lens, y) && ((x.0 < si && y.0 < si)
                            || (x.0 == si && y.0 < sj) || (x.0 < sj && y.0 == si))
                            ==> #[trigger] mat@[slot2(lens, x, y)] == entries(x, y),
                decreases si + 1 - sj,
            {
                let (sa, sb) = (prep.side(si), prep.side(sj));
                let (a, b) = (sa.shell, sb.shell);
                assert(shells[si as int].l <= lsh);
                assert(shells[sj as int].l <= lsh);
                assert forall|e: int| 0 <= e < ecps@.len() implies #[trigger] channels_fit(
                    ecps@[e],
                    a.l as int,
                    b.l as int,
                ) by {
                    assert(channels_fit(
                        ecps@[e],
                        shells[si as int].l as int,
                        shells[sj as int].l as int,
                    ));
                }
                let mut block = self.contract_ecps(
                    a,
                    sa.eff,
                    b,
                    sb.eff,
                    &atoms,
                    ecps,
                    &rsh,
                    &nodes,
                );
                transform_block2(a, b, sa.mat, sb.mat, &mut block);
                let ghost direct = block@;
                let (na, nb) = (a.n_func(), b.n_func());
                let ghost before = mat@;
                proof {
                    lemma_ranges_fit(lens, si as int);
                    lemma_ranges_fit(lens, sj as int);
                    assert(offs@[si as int] == start(lens, si as int));
                    assert(offs@[sj as int] == start(lens, sj as int));
                    assert(na * nb <= 784) by (nonlinear_arith)
                        requires
                            na <= 28,
                            nb <= 28,
                    ;
                }
                if si == sj {
                    mirror_lower(&mut block, na);
                }
                place_block(
                    mat.as_mut_slice(),
                    0,
                    n,
                    offs[si],
                    offs[sj],
                    &block,
                    na,
                    nb,
                );
                let ghost middle = mat@;
                if si != sj {
                    place_transpose(
                        mat.as_mut_slice(),
                        0,
                        n,
                        offs[sj],
                        offs[si],
                        &block,
                        na,
                        nb,
                    );
                }
                proof {
                    assert forall|x: At, y: At|
                        is_function(lens, x) && is_function(lens, y) && ((x.0 < si && y.0 < si)
                            || (x.0 == si && y.0 < sj + 1) || (x.0 < sj + 1 && y.0 == si)) implies #[trigger] mat@[slot2(
                        lens,
                        x,
                        y,
                    )] == entries(x, y) by {
                        lemma_placed(
                            before,
                            middle,
                            lens,
                            si as int,
                            sj as int,
                            block@,
                            0,
                            x,
                            y,
                        );
                        if si != sj {
                            lemma_placed(
                                middle,
                                mat@,
                                lens,
                                sj as int,
                                si as int,
                                transposed(block@, na as int, nb as int),
                                0,
                                x,
                                y,
                            );
                            if x.0 == sj && y.0 == si {
                                lemma_transposed(block@, na as int, nb as int, x.1, y.1);
                            }
                        } else if x.0 == si && y.0 == si {
                            assert(block@[pair(x.1, na as int, y.1)] == (if x.1 >= y.1 {
                                direct[pair(x.1, na as int, y.1)]
                            } else {
                                direct[pair(y.1, na as int, x.1)]
                            }));
                        }
                    }
                }
                sj = sj + 1;
            }
            si = si + 1;
        }
        mat
    }
}

} // verus!
