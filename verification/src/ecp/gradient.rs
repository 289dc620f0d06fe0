//! The gradient of the matrix of effective core potentials, contracted with a density.
use vstd::prelude::*;

use crate::ecp::harmonics::Rsh;
use crate::ecp::matrix::{
    ecp_sides_into, find_highest_l, find_most_channels, radial_nodes, with_ecp,
};
use crate::ecp::projected::{lemma_small_tables, tables_fit};
use crate::ecp::radial::gl_nodes;
use crate::ecp::side::{shell_side, Ecp, EcpSide, SideView};
use crate::engine::deriv::lemma_neighbours;
use crate::engine::os::{block_size, lemma_block_bounds};
use crate::engine::pairs::{difference, Vec3};
use crate::engine::triples::{power, shifted};
use crate::error::IntegralError;
use crate::flat::{cell, lemma_index_parts, lemma_pair_in_range, lemma_pair_parts, pair};
use crate::grad::contract::no_forces;
use crate::exact::{
    adds_exactly, lemma_regrouped, lemma_same_sum, lemma_zero_sum, sum_before, takes_back,
};
use crate::grad::pair::zeros;
use crate::math::am::{
    cart_components, cart_count, cart_index, cart_position, component_at, is_component,
    lemma_listed_components, powers,
};
use crate::math::solid_harmonics::{is_zero, vanishes};
use crate::offsets::{are_lengths, law_ranges_are_disjoint, start};
use crate::one_electron::lemma_ranges_fit;
use crate::operator::{find_exceeding, first_exceeding};
use crate::scalar::{filled, Real, Scalar};
use crate::shell::{
    atom_of, distinct_centers, function_counts, law_every_shell_has_an_atom,
    lemma_function_counts, Basis, Shell,
};
use crate::shell_pairs::Prepared;
use crate::spherical::{function_block2, transform_block2};
use crate::tensor::total;

verus! {

/// The highest angular momentum of a shell that the gradient supports.
pub const MAX_ECP_GRAD_L: usize = 4;

/// The highest number of channels that the gradient supports.
pub const MAX_ECP_GRAD_PROJ: usize = 5;

/// A shell with its angular momentum raised, the weights multiplied by `2 alpha`.
pub open spec fn raised_side<T: Real>(s: Shell<T>, c: Vec3<T>) -> SideView<T> {
    SideView {
        l: s.l + 1,
        cv: difference(s.center, c),
        exps: s.exponents@,
        wts: Seq::new(
            s.exponents@.len(),
            |i: int| T::prod(T::prod(T::count(2), s.exponents@[i]), s.effective(i)),
        ),
    }
}

/// A shell with its angular momentum lowered.
pub open spec fn lowered_side<T: Real>(s: Shell<T>, c: Vec3<T>) -> SideView<T> {
    SideView {
        l: s.l - 1,
        cv: difference(s.center, c),
        exps: s.exponents@,
        wts: s.effectives(),
    }
}

/// The block of the raised shell.
pub open spec fn raised_block<T: Real>(
    a: Shell<T>,
    b: Shell<T>,
    c: Vec3<T>,
    ecp: Ecp<T>,
) -> Seq<T> {
    with_ecp(
        zeros(block_size(a.l + 1, b.l as int)),
        raised_side(a, c),
        shell_side(b, c),
        ecp,
        radial_nodes(),
    )
}

/// The block of the lowered shell.
pub open spec fn lowered_block<T: Real>(
    a: Shell<T>,
    b: Shell<T>,
    c: Vec3<T>,
    ecp: Ecp<T>,
) -> Seq<T> {
    with_ecp(
        zeros(block_size(a.l - 1, b.l as int)),
        lowered_side(a, c),
        shell_side(b, c),
        ecp,
        radial_nodes(),
    )
}

/// The derivative of entry `k` of a Cartesian block with respect to the center of its
/// first shell along `dir`.
pub open spec fn derivative_entry<T: Real>(
    a: Shell<T>,
    b: Shell<T>,
    c: Vec3<T>,
    ecp: Ecp<T>,
    dir: int,
    k: int,
) -> T {
    let nb = cart_count(b.l as int);
    let pa = component_at(a.l as int, k / nb);
    let up = raised_block(a, b, c, ecp)[pair(cart_position(shifted(pa, dir, 1)), nb, k % nb)];
    if power(pa, dir) > 0 {
        T::diff(
            up,
            T::prod(
                T::count(power(pa, dir) as u64),
                lowered_block(a, b, c, ecp)[pair(
                    cart_position(shifted(pa, dir, -1)),
                    nb,
                    k % nb,
                )],
            ),
        )
    } else {
        up
    }
}

/// The derivative of the block of two shells with respect to the center of the first.
pub open spec fn derivative_block<T: Real>(
    a: Shell<T>,
    b: Shell<T>,
    c: Vec3<T>,
    ecp: Ecp<T>,
    dir: int,
) -> Seq<T> {
    function_block2(
        a,
        b,
        Seq::new(
            block_size(a.l as int, b.l as int) as nat,
            |k: int| derivative_entry(a, b, c, ecp, dir, k),
        ),
    )
}

/// A density and its transpose in the block of shells `i` and `j`.
pub open spec fn symmetric_block<T: Scalar>(
    gamma: Seq<T>,
    lens: Seq<int>,
    i: int,
    j: int,
) -> Seq<T> {
    let n = total(lens);
    Seq::new(
        (lens[i] * lens[j]) as nat,
        |k: int|
            T::sum(
                gamma[pair(start(lens, i) + k / lens[j], n, start(lens, j) + k % lens[j])],
                gamma[pair(start(lens, j) + k % lens[j], n, start(lens, i) + k / lens[j])],
            ),
    )
}

/// Whether all entries vanish.
pub open spec fn is_null<T: Real>(s: Seq<T>) -> bool {
    forall|k: int| 0 <= k < s.len() ==> vanishes(#[trigger] s[k])
}

/// The sum of the first `n` products of two lists.
pub open spec fn dot_product<T: Scalar>(u: Seq<T>, v: Seq<T>, n: int) -> T
    decreases n,
{
    if n <= 0 {
        T::count(0)
    } else {
        T::sum(dot_product(u, v, n - 1), T::prod(u[n - 1], v[n - 1]))
    }
}

/// What the derivative of shells `i` and `j` over potential `e` contributes.
pub open spec fn ecp_term<T: Real>(
    shells: Seq<Shell<T>>,
    ecps: Seq<Ecp<T>>,
    gamma: Seq<T>,
    i: int,
    j: int,
    e: int,
    dir: int,
) -> T {
    let lens = function_counts(shells);
    let c = distinct_centers(shells, shells.len() as int)[ecps[e].atom as int];
    dot_product(
        derivative_block(shells[i], shells[j], c, ecps[e], dir),
        symmetric_block(gamma, lens, i, j),
        lens[i] * lens[j],
    )
}

/// The derivative with respect to atom `c` along `dir`, over the first `n` triples of two
/// shells and a potential; pairs of shells on which the density vanishes are left out.
/// What the first shell feels is taken from the atom of the potential.
pub open spec fn ecp_force<T: Real>(
    shells: Seq<Shell<T>>,
    ecps: Seq<Ecp<T>>,
    gamma: Seq<T>,
    c: int,
    dir: int,
    n: int,
) -> T
    decreases n,
{
    if n <= 0 {
        T::count(0)
    } else {
        let before = ecp_force(shells, ecps, gamma, c, dir, n - 1);
        let ne = ecps.len() as int;
        let i = (n - 1) / ne / (shells.len() as int);
        let j = (n - 1) / ne % (shells.len() as int);
        let e = (n - 1) % ne;
        if is_null(symmetric_block(gamma, function_counts(shells), i, j)) {
            before
        } else {
            moved(
                before,
                atom_of(shells, i) == c,
                ecps[e].atom == c,
                ecp_term(shells, ecps, gamma, i, j, e, dir),
            )
        }
    }
}

/// A value to which `v` is added if it is that of the shell's atom, and from which it is
/// taken if it is that of the potential's atom.
pub open spec fn moved<T: Scalar>(value: T, shell: bool, potential: bool, v: T) -> T {
    let there = if shell {
        T::sum(value, v)
    } else {
        value
    };
    if potential {
        T::diff(there, v)
    } else {
        there
    }
}

/// The number of triples of two shells and a potential.
pub open spec fn triples<T>(shells: Seq<Shell<T>>, ecps: Seq<Ecp<T>>) -> int {
    (shells.len() * shells.len() * ecps.len()) as int
}

/// Whether `f` holds the derivatives over the first `n` triples.
pub open spec fn are_ecp_forces<T: Real>(
    f: Seq<[T; 3]>,
    natom: int,
    shells: Seq<Shell<T>>,
    ecps: Seq<Ecp<T>>,
    gamma: Seq<T>,
    n: int,
) -> bool {
    &&& f.len() == natom
    &&& forall|c: int, dir: int|
        0 <= c < natom && 0 <= dir < 3 ==> #[trigger] f[c][dir] == ecp_force(
            shells,
            ecps,
            gamma,
            c,
            dir,
            n,
        )
}

/// Whether one density is the transpose of the other.
pub open spec fn are_transposed<T>(gamma: Seq<T>, other: Seq<T>, n: int) -> bool {
    forall|r: int, c: int|
        0 <= r < n && 0 <= c < n ==> #[trigger] other[pair(r, n, c)] == gamma[pair(c, n, r)]
}

/// The block of a density and that of its transpose agree.
proof fn lemma_block_of_transpose<T: Scalar>(
    gamma: Seq<T>,
    other: Seq<T>,
    lens: Seq<int>,
    i: int,
    j: int,
)
    requires
        forall|a: T, b: T| #[trigger] T::sum(a, b) == T::sum(b, a),
        are_lengths(lens),
        are_transposed(gamma, other, total(lens)),
        0 <= i < lens.len(),
        0 <= j < lens.len(),
    ensures
        symmetric_block(gamma, lens, i, j) == symmetric_block(other, lens, i, j),
{
    let n = total(lens);
    let (u, v) = (symmetric_block(gamma, lens, i, j), symmetric_block(other, lens, i, j));
    assert forall|k: int| 0 <= k < u.len() implies u[k] == v[k] by {
        lemma_index_parts(k, lens[i], lens[j]);
        law_ranges_are_disjoint(lens, i, k / lens[j], j, k % lens[j]);
        law_ranges_are_disjoint(lens, j, k % lens[j], i, k / lens[j]);
        let (r, c) = (start(lens, i) + k / lens[j], start(lens, j) + k % lens[j]);
        assert(other[pair(r, n, c)] == gamma[pair(c, n, r)]);
        assert(other[pair(c, n, r)] == gamma[pair(r, n, c)]);
        assert(T::sum(gamma[pair(r, n, c)], gamma[pair(c, n, r)]) == T::sum(
            gamma[pair(c, n, r)],
            gamma[pair(r, n, c)],
        ));
    }
    assert(u =~= v);
}

/// Only the symmetric part of the density counts: its transpose gives the same forces, for
/// sums that do not depend on the order of their terms.
pub proof fn law_ecp_forces_take_the_symmetric_part<T: Real>(
    shells: Seq<Shell<T>>,
    ecps: Seq<Ecp<T>>,
    gamma: Seq<T>,
    other: Seq<T>,
    c: int,
    dir: int,
    n: int,
)
    requires
        forall|a: T, b: T| #[trigger] T::sum(a, b) == T::sum(b, a),
        forall|s: int| 0 <= s < shells.len() ==> (#[trigger] shells[s]).valid(),
        are_transposed(gamma, other, total(function_counts(shells))),
        n <= triples(shells, ecps),
    ensures
        ecp_force(shells, ecps, gamma, c, dir, n) == ecp_force(shells, ecps, other, c, dir, n),
    decreases n,
{
    if n > 0 {
        law_ecp_forces_take_the_symmetric_part(shells, ecps, gamma, other, c, dir, n - 1);
        let (ns, ne) = (shells.len() as int, ecps.len() as int);
        lemma_function_counts(shells);
        lemma_index_parts(n - 1, ns * ns, ne);
        lemma_index_parts((n - 1) / ne, ns, ns);
        lemma_block_of_transpose(
            gamma,
            other,
            function_counts(shells),
            (n - 1) / ne / ns,
            (n - 1) / ne % ns,
        );
    }
}

/// Without potentials there are no forces.
pub proof fn law_no_potential_no_force<T: Real>(
    f: Seq<[T; 3]>,
    natom: int,
    shells: Seq<Shell<T>>,
    ecps: Seq<Ecp<T>>,
    gamma: Seq<T>,
    c: int,
    dir: int,
)
    requires
        ecps.len() == 0,
        are_ecp_forces(f, natom, shells, ecps, gamma, triples(shells, ecps)),
        0 <= c < natom,
        0 <= dir < 3,
    ensures
        f[c][dir] == T::count(0),
{
    assert(triples(shells, ecps) == 0) by (nonlinear_arith)
        requires
            triples(shells, ecps) == shells.len() * shells.len() * ecps.len(),
            ecps.len() == 0,
    ;
    assert(f[c][dir] == ecp_force(shells, ecps, gamma, c, dir, 0));
}

proof fn lemma_moved_sum<T: Scalar>(
    f: spec_fn(int) -> T,
    g: spec_fn(int) -> T,
    s: int,
    p: int,
    v: T,
    n: int,
)
    requires
        adds_exactly::<T>(),
        takes_back::<T>(),
        0 <= s,
        0 <= p,
        forall|c: int| #[trigger] g(c) == moved(f(c), s == c, p == c, v),
    ensures
        sum_before(g, n) == moved(sum_before(f, n), s < n, p < n, v),
    decreases n,
{
    if n > 0 {
        lemma_moved_sum(f, g, s, p, v, n - 1);
        let t = sum_before(f, n - 1);
        let w = f(n - 1);
        let m = T::neg(v);
        assert(g(n - 1) == moved(w, s == n - 1, p == n - 1, v));
        assert(T::diff(t, v) == T::sum(t, m));
        assert(T::diff(w, v) == T::sum(w, m));
        assert(T::diff(T::sum(t, v), v) == T::sum(T::sum(t, v), m));
        assert(T::diff(T::sum(w, v), v) == T::sum(T::sum(w, v), m));
        assert(T::diff(T::sum(t, w), v) == T::sum(T::sum(t, w), m));
        assert(T::diff(T::sum(T::sum(t, w), v), v) == T::sum(T::sum(T::sum(t, w), v), m));
        lemma_regrouped(t, v, w);
        lemma_regrouped(t, m, w);
        lemma_regrouped(t, w, v);
        lemma_regrouped(t, w, m);
        lemma_regrouped(T::sum(t, v), m, w);
        lemma_regrouped(T::sum(t, v), w, m);
        lemma_regrouped(t, T::sum(w, v), m);
        lemma_regrouped(T::sum(t, m), w, v);
        lemma_regrouped(T::sum(t, w), m, v);
    }
}

/// The derivatives with respect to all atoms sum to zero, in any arithmetic that adds
/// exactly and in which what was added can be taken back.
pub proof fn law_ecp_forces_balance<T: Real>(
    shells: Seq<Shell<T>>,
    ecps: Seq<Ecp<T>>,
    gamma: Seq<T>,
    natom: int,
    dir: int,
    n: int,
)
    requires
        adds_exactly::<T>(),
        takes_back::<T>(),
        natom == distinct_centers(shells, shells.len() as int).len(),
        0 <= n <= triples(shells, ecps),
        forall|e: int| 0 <= e < ecps.len() ==> (#[trigger] ecps[e]).atom < natom,
    ensures
        sum_before(|c: int| ecp_force(shells, ecps, gamma, c, dir, n), natom) == T::count(0),
    decreases n,
{
    let g = |c: int| ecp_force(shells, ecps, gamma, c, dir, n);
    if n <= 0 {
        lemma_zero_sum(g, natom);
    } else {
        law_ecp_forces_balance(shells, ecps, gamma, natom, dir, n - 1);
        let f = |c: int| ecp_force(shells, ecps, gamma, c, dir, n - 1);
        let ne = ecps.len() as int;
        let m = shells.len() as int;
        assert(0 <= m * m) by (nonlinear_arith);
        lemma_index_parts(n - 1, m * m, ne);
        lemma_index_parts((n - 1) / ne, m, m);
        let i = (n - 1) / ne / m;
        let j = (n - 1) / ne % m;
        let e = (n - 1) % ne;
        if is_null(symmetric_block(gamma, function_counts(shells), i, j)) {
            lemma_same_sum(f, g, natom);
        } else {
            let v = ecp_term(shells, ecps, gamma, i, j, e, dir);
            law_every_shell_has_an_atom(shells, i, m);
            assert(ecps[e].atom < natom);
            lemma_moved_sum(f, g, atom_of(shells, i), ecps[e].atom as int, v, natom);
            assert(T::diff(T::sum(T::count(0), v), v) == T::sum(
                T::sum(T::count(0), v),
                T::neg(v),
            ));
            lemma_regrouped(v, T::neg(v), v);
            assert(T::diff(v, v) == T::sum(v, T::neg(v)));
        }
    }
}

/// A component with one added to or taken from a power.
fn shift_component(c: [usize; 3], dir: usize, up: bool) -> (r: [usize; 3])
    requires
        dir < 3,
        c[0] <= 100,
        c[1] <= 100,
        c[2] <= 100,
        !up ==> c[dir as int] >= 1,
    ensures
        powers(r) == shifted(
            powers(c),
            dir as int,
            if up {
                1
            } else {
                -1
            },
        ),
{
    let v: usize = if up {
        c[dir] + 1
    } else {
        c[dir] - 1
    };
    if dir == 0 {
        [v, c[1], c[2]]
    } else if dir == 1 {
        [c[0], v, c[2]]
    } else {
        [c[0], c[1], v]
    }
}

/// The sum of the products of two lists.
fn dot_lists<T: Scalar>(u: &Vec<T>, v: &Vec<T>) -> (acc: T)
    requires
        u@.len() == v@.len(),
    ensures
        acc == dot_product(u@, v@, u@.len() as int),
{
    let mut acc = T::from_count(0);
    let mut n: usize = 0;
    while n < u.len()
        invariant
            n <= u@.len(),
            u@.len() == v@.len(),
            acc == dot_product(u@, v@, n as int),
        decreases u@.len() - n,
    {
        acc = acc.plus(u[n].times(v[n]));
        n = n + 1;
    }
    acc
}

/// The derivative of a Cartesian block from the blocks of the raised and the lowered
/// shell.
#[verifier::spinoff_prover]
fn combine_shift<T: Real>(
    a: &Shell<T>,
    b: &Shell<T>,
    bup: &Vec<T>,
    bdn: &Vec<T>,
    dir: usize,
    Ghost(c): Ghost<Vec3<T>>,
    Ghost(ecp): Ghost<Ecp<T>>,
) -> (out: Vec<T>)
    requires
        a.valid(),
        b.valid(),
        dir < 3,
        bup@ == raised_block(*a, *b, c, ecp),
        bup@.len() == block_size(a.l + 1, b.l as int),
        a.l > 0 ==> bdn@ == lowered_block(*a, *b, c, ecp) && bdn@.len() == block_size(
            a.l - 1,
            b.l as int,
        ),
    ensures
        out@ == Seq::new(
            block_size(a.l as int, b.l as int) as nat,
            |k: int| derivative_entry(*a, *b, c, ecp, dir as int, k),
        ),
{
    let (la, lb) = (a.l, b.l);
    proof {
        lemma_block_bounds(la as int, lb as int);
        lemma_block_bounds(la + 1, lb as int);
    }
    let comps = cart_components(la);
    proof {
        lemma_listed_components(comps@, la as int);
    }
    let nb = b.n_cart();
    let mut out: Vec<T> = Vec::new();
    let mut ia: usize = 0;
    while ia < comps.len()
        invariant
            ia <= comps@.len(),
            a.valid(),
            b.valid(),
            la == a.l,
            lb == b.l,
            dir < 3,
            nb == cart_count(lb as int),
            comps@.len() == cart_count(la as int),
            forall|i: int|
                0 <= i < comps@.len() ==> #[trigger] powers(comps@[i]) == component_at(
                    la as int,
                    i,
                ),
            forall|i: int|
                0 <= i < comps@.len() ==> is_component(#[trigger] powers(comps@[i]), la as int),
            bup@ == raised_block(*a, *b, c, ecp),
            bup@.len() == block_size(la + 1, lb as int),
            bup@.len() <= 351 * 351,
            la > 0 ==> bdn@ == lowered_block(*a, *b, c, ecp) && bdn@.len() == block_size(
                la - 1,
                lb as int,
            ),
            out@.len() == ia * nb,
            forall|k: int|
                0 <= k < out@.len() ==> #[trigger] out@[k] == derivative_entry(
                    *a,
                    *b,
                    c,
                    ecp,
                    dir as int,
                    k,
                ),
        decreases comps@.len() - ia,
    {
        let pa = comps[ia];
        assert(powers(comps@[ia as int]) == component_at(la as int, ia as int));
        assert(is_component(powers(comps@[ia as int]), la as int));
        assert(power(powers(pa), dir as int) == pa[dir as int]);
        proof {
            assert((la + 2) * (la + 3) <= 72) by (nonlinear_arith)
                requires
                    la <= 6,
            ;
            lemma_neighbours(la as int, powers(pa), dir as int);
        }
        let iu = cart_index(shift_component(pa, dir, true));
        let down = pa[dir] > 0;
        let id: usize = if down {
            cart_index(shift_component(pa, dir, false))
        } else {
            0
        };
        let mut ib: usize = 0;
        while ib < nb
            invariant
                ib <= nb,
                ia < comps@.len(),
                a.valid(),
                b.valid(),
                la == a.l,
                lb == b.l,
                dir < 3,
                nb == cart_count(lb as int),
                pa == comps@[ia as int],
                powers(pa) == component_at(la as int, ia as int),
                power(powers(pa), dir as int) == pa[dir as int],
                iu == cart_position(shifted(powers(pa), dir as int, 1)),
                0 <= iu < cart_count(la + 1),
                down == (pa[dir as int] > 0),
                down ==> id == cart_position(shifted(powers(pa), dir as int, -1)) && 0 <= id
                    < cart_count(la - 1) && la > 0,
                bup@ == raised_block(*a, *b, c, ecp),
                bup@.len() == block_size(la + 1, lb as int),
                bup@.len() <= 351 * 351,
                la > 0 ==> bdn@ == lowered_block(*a, *b, c, ecp) && bdn@.len() == block_size(
                    la - 1,
                    lb as int,
                ),
                out@.len() == pair(ia as int, nb as int, ib as int),
                forall|k: int|
                    0 <= k < out@.len() ==> #[trigger] out@[k] == derivative_entry(
                        *a,
                        *b,
                        c,
                        ecp,
                        dir as int,
                        k,
                    ),
            decreases nb - ib,
        {
            proof {
                lemma_pair_parts(ia as int, nb as int, ib as int);
                lemma_pair_in_range(iu as int, cart_count(la + 1), nb as int, ib as int);
            }
            let mut v = bup[iu * nb + ib];
            if down {
                proof {
                    lemma_pair_in_range(id as int, cart_count(la - 1), nb as int, ib as int);
                    lemma_block_bounds(la - 1, lb as int);
                }
                v = v.minus(T::from_count(pa[dir] as u64).times(bdn[id * nb + ib]));
            }
            out.push(v);
            ib = ib + 1;
        }
        assert(ia * nb + nb == (ia + 1) * nb) by (nonlinear_arith);
        ia = ia + 1;
    }
    assert(out@ =~= Seq::new(
        block_size(la as int, lb as int) as nat,
        |k: int| derivative_entry(*a, *b, c, ecp, dir as int, k),
    ));
    out
}

/// A density and its transpose in the block of two shells.
fn symmetrize_density<T: Scalar>(
    gamma: &[T],
    n: usize,
    oi: usize,
    ni: usize,
    oj: usize,
    nj: usize,
    Ghost(lens): Ghost<Seq<int>>,
    Ghost(i): Ghost<int>,
    Ghost(j): Ghost<int>,
) -> (gs: Vec<T>)
    requires
        gamma@.len() == n * n,
        n * n <= usize::MAX,
        n == total(lens),
        oi == start(lens, i),
        oj == start(lens, j),
        ni == lens[i],
        nj == lens[j],
        oi + ni <= n,
        oj + nj <= n,
        1 <= nj,
        ni <= 28,
        nj <= 28,
    ensures
        gs@ == symmetric_block(gamma@, lens, i, j),
{
    assert(ni * nj <= 784) by (nonlinear_arith)
        requires
            ni <= 28,
            nj <= 28,
    ;
    let mut gs: Vec<T> = Vec::new();
    let mut k: usize = 0;
    while k < ni * nj
        invariant
            k <= ni * nj,
            ni * nj <= 784,
            1 <= nj,
            gamma@.len() == n * n,
            n * n <= usize::MAX,
            n == total(lens),
            oi == start(lens, i),
            oj == start(lens, j),
            ni == lens[i],
            nj == lens[j],
            oi + ni <= n,
            oj + nj <= n,
            gs@.len() == k,
            forall|m: int| 0 <= m < k ==> #[trigger] gs@[m] == symmetric_block(gamma@, lens, i, j)[m],
        decreases ni * nj - k,
    {
        proof {
            lemma_index_parts(k as int, ni as int, nj as int);
        }
        let (r, c): (usize, usize) = (oi + k / nj, oj + k % nj);
        proof {
            lemma_pair_in_range(r as int, n as int, n as int, c as int);
            lemma_pair_in_range(c as int, n as int, n as int, r as int);
        }
        gs.push(gamma[r * n + c].plus(gamma[c * n + r]));
        k = k + 1;
    }
    assert(gs@ =~= symmetric_block(gamma@, lens, i, j));
    gs
}

/// Whether all entries vanish.
fn check_null<T: Real>(s: &Vec<T>) -> (r: bool)
    ensures
        r == is_null(s@),
{
    let mut k: usize = 0;
    while k < s.len()
        invariant
            k <= s@.len(),
            forall|m: int| 0 <= m < k ==> vanishes(#[trigger] s@[m]),
        decreases s@.len() - k,
    {
        if !is_zero(s[k]) {
            assert(!vanishes(s@[k as int]));
            return false;
        }
        k = k + 1;
    }
    true
}

/// Triples of a pair of shells that is left out change nothing.
proof fn lemma_left_out<T: Real>(
    shells: Seq<Shell<T>>,
    ecps: Seq<Ecp<T>>,
    gamma: Seq<T>,
    c: int,
    dir: int,
    i: int,
    j: int,
    e: int,
)
    requires
        0 <= i < shells.len(),
        0 <= j < shells.len(),
        0 <= e <= ecps.len(),
        is_null(symmetric_block(gamma, function_counts(shells), i, j)),
    ensures
        ecp_force(
            shells,
            ecps,
            gamma,
            c,
            dir,
            pair(pair(i, shells.len() as int, j), ecps.len() as int, e),
        ) == ecp_force(
            shells,
            ecps,
            gamma,
            c,
            dir,
            pair(pair(i, shells.len() as int, j), ecps.len() as int, 0),
        ),
    decreases e,
{
    if e > 0 {
        lemma_left_out(shells, ecps, gamma, c, dir, i, j, e - 1);
        let (m, ne) = (shells.len() as int, ecps.len() as int);
        let p = pair(i, m, j);
        lemma_pair_in_range(i, m, m, j);
        lemma_pair_in_range(p, m * m, ne, e - 1);
        lemma_pair_parts(p, ne, e - 1);
        lemma_pair_parts(i, m, j);
    }
}

/// Why no gradient can be made of a density with `got` entries, if so.
pub open spec fn ecp_error<T: Real>(b: Basis<T>, got: int) -> Option<IntegralError<T>> {
    let k = first_exceeding(b.shells@, 2, 0);
    if k < b.shells@.len() {
        Some(
            IntegralError::AngularMomentumTooHighForGradient {
                l: b.shells@[k].l,
                max: MAX_ECP_GRAD_L,
            },
        )
    } else if got != b.size() * b.size() {
        Some(
            IntegralError::GammaLengthMismatch {
                expected: (b.size() * b.size()) as usize,
                got: got as usize,
            },
        )
    } else {
        None
    }
}

impl<T: Real> Basis<T> {
    /// Whether the potentials are those of atoms of the basis, with no more channels than
    /// the gradient supports.
    pub open spec fn ecps_differentiable(self, ecps: Seq<Ecp<T>>) -> bool {
        &&& forall|e: int|
            0 <= e < ecps.len() ==> (#[trigger] ecps[e]).atom < distinct_centers(
                self.shells@,
                self.shells@.len() as int,
            ).len()
        &&& forall|e: int|
            0 <= e < ecps.len() ==> (#[trigger] ecps[e]).semilocal@.len() <= MAX_ECP_GRAD_PROJ
    }

    /// Add what two shells and a potential contribute.
    #[verifier::spinoff_prover]
    #[verifier::rlimit(60)]
    fn add_ecp_forces(
        &self,
        prep: &Prepared<T>,
        wup: &Vec<T>,
        ecps: &[Ecp<T>],
        e: usize,
        atoms: &Vec<Vec3<T>>,
        satom: &Vec<usize>,
        rsh: &Rsh<T>,
        nodes: &Vec<(T, T)>,
        gs: &Vec<T>,
        si: usize,
        sj: usize,
        grad: &mut Vec<[T; 3]>,
        Ghost(gamma): Ghost<Seq<T>>,
    )
        requires
            self.valid(),
            prep.valid(),
            prep.shells@ == self.shells@,
            si < self.shells@.len(),
            sj < self.shells@.len(),
            forall|s: int| 0 <= s < self.shells@.len() ==> (#[trigger] self.shells@[s]).l <= 4,
            e < ecps@.len(),
            self.ecps_differentiable(ecps@),
            atoms@ == distinct_centers(self.shells@, self.shells@.len() as int),
            satom@.len() == self.shells@.len(),
            forall|s: int|
                0 <= s < satom@.len() ==> #[trigger] satom@[s] == atom_of(self.shells@, s),
            rsh.valid(),
            forall|s: int|
                0 <= s < self.shells@.len() ==> 2 * ((#[trigger] self.shells@[s]).l + 1)
                    <= rsh.top(),
            self.shells@[si as int].l + 1 + self.shells@[sj as int].l <= rsh.top(),
            ecps@[e as int].semilocal@.len() > 0 ==> ecps@[e as int].semilocal@.len()
                + self.shells@[si as int].l <= rsh.top(),
            ecps@[e as int].semilocal@.len() > 0 ==> ecps@[e as int].semilocal@.len() - 1
                + self.shells@[sj as int].l <= rsh.top(),
            nodes@ == radial_nodes::<T>(),
            wup@ == raised_side(self.shells@[si as int], self.shells@[si as int].center).wts,
            gs@ == symmetric_block(gamma, function_counts(self.shells@), si as int, sj as int),
            !is_null(gs@),
            are_ecp_forces(
                old(grad)@,
                atoms@.len() as int,
                self.shells@,
                ecps@,
                gamma,
                cell(
                    si as int,
                    self.shells@.len() as int,
                    sj as int,
                    ecps@.len() as int,
                    e as int,
                ),
            ),
        ensures
            are_ecp_forces(
                final(grad)@,
                atoms@.len() as int,
                self.shells@,
                ecps@,
                gamma,
                cell(
                    si as int,
                    self.shells@.len() as int,
                    sj as int,
                    ecps@.len() as int,
                    e as int,
                ) + 1,
            ),
    {
        let ghost shells = self.shells@;
        let ghost lens = function_counts(shells);
        let ghost n0 = cell(
            si as int,
            shells.len() as int,
            sj as int,
            ecps@.len() as int,
            e as int,
        );
        let ecp = &ecps[e];
        proof {
            assert(ecps@[e as int].atom < atoms@.len());
            assert(ecps@[e as int].semilocal@.len() <= MAX_ECP_GRAD_PROJ);
            law_every_shell_has_an_atom(shells, si as int, shells.len() as int);
            lemma_function_counts(shells);
            let (m, ne) = (shells.len() as int, ecps@.len() as int);
            lemma_pair_in_range(si as int, m, m, sj as int);
            lemma_pair_in_range(pair(si as int, m, sj as int), m * m, ne, e as int);
            lemma_pair_parts(pair(si as int, m, sj as int), ne, e as int);
            lemma_pair_parts(si as int, m, sj as int);
        }
        let c = atoms[ecp.atom];
        let (sa, sb) = (prep.side(si), prep.side(sj));
        let (a, b) = (sa.shell, sb.shell);
        let la = a.l;
        assert(shells[si as int].l <= 4);
        assert(shells[sj as int].l <= 4);
        proof {
            lemma_block_bounds(la as int, b.l as int);
            lemma_block_bounds(la + 1, b.l as int);
        }
        let cav = crate::engine::pairs::sub(a.center, c);
        let cbv = crate::engine::pairs::sub(b.center, c);
        let side_b = EcpSide { l: b.l, cv: cbv, exps: &b.exponents, wts: sb.eff };
        assert(side_b.shown() == shell_side(*b, c));
        let ncb = b.n_cart();
        let up = EcpSide { l: la + 1, cv: cav, exps: &a.exponents, wts: wup };
        assert(up.shown() =~= raised_side(*a, c));
        let mut bup = filled(crate::math::am::n_cart(la + 1) * ncb, T::from_count(0));
        assert(bup@ =~= zeros(block_size(la + 1, b.l as int)));
        assert forall|l: int, s: int|
            0 <= l < ecp.semilocal@.len() && 0 <= s <= la + 1 implies #[trigger] tables_fit(
            l,
            s,
            b.l as int,
        ) by {
            lemma_small_tables(l, s, b.l as int);
        }
        ecp_sides_into(&up, &side_b, ecp, rsh, nodes, &mut bup);
        let mut bdn: Vec<T> = Vec::new();
        if la > 0 {
            proof {
                lemma_block_bounds(la - 1, b.l as int);
            }
            let down = EcpSide { l: la - 1, cv: cav, exps: &a.exponents, wts: sa.eff };
            assert(down.shown() =~= lowered_side(*a, c));
            bdn = filled(crate::math::am::n_cart(la - 1) * ncb, T::from_count(0));
            assert(bdn@ =~= zeros(block_size(la - 1, b.l as int)));
            ecp_sides_into(&down, &side_b, ecp, rsh, nodes, &mut bdn);
        }
        let at = satom[si];
        let ghost was = grad@;
        let mut dir: usize = 0;
        while dir < 3
            invariant
                dir <= 3,
                a.valid(),
                b.valid(),
                sa.valid(),
                sb.valid(),
                a == sa.shell,
                b == sb.shell,
                *a == shells[si as int],
                *b == shells[sj as int],
                la == a.l,
                si < shells.len(),
                sj < shells.len(),
                e < ecps@.len(),
                *ecp == ecps@[e as int],
                ecp.atom < atoms@.len(),
                at < atoms@.len(),
                at == atom_of(shells, si as int),
                lens == function_counts(shells),
                atoms@ == distinct_centers(shells, shells.len() as int),
                c == atoms@[ecp.atom as int],
                bup@ == raised_block(*a, *b, c, *ecp),
                bup@.len() == block_size(la + 1, b.l as int),
                la > 0 ==> bdn@ == lowered_block(*a, *b, c, *ecp) && bdn@.len() == block_size(
                    la - 1,
                    b.l as int,
                ),
                gs@ == symmetric_block(gamma, lens, si as int, sj as int),
                gs@.len() == a.functions() * b.functions(),
                a.functions() == lens[si as int],
                b.functions() == lens[sj as int],
                !is_null(gs@),
                n0 >= 0,
                n0 % (ecps@.len() as int) == e,
                n0 / (ecps@.len() as int) / (shells.len() as int) == si,
                n0 / (ecps@.len() as int) % (shells.len() as int) == sj,
                are_ecp_forces(was, atoms@.len() as int, shells, ecps@, gamma, n0),
                grad@.len() == atoms@.len(),
                forall|d: int, ax: int|
                    0 <= d < atoms@.len() && 0 <= ax < 3 ==> #[trigger] grad@[d][ax] == ecp_force(
                        shells,
                        ecps@,
                        gamma,
                        d,
                        ax,
                        if ax < dir {
                            n0 + 1
                        } else {
                            n0
                        },
                    ),
            decreases 3 - dir,
        {
            let mut df = combine_shift(a, b, &bup, &bdn, dir, Ghost(c), Ghost(*ecp));
            transform_block2(a, b, sa.mat, sb.mat, &mut df);
            assert(df@ == derivative_block(*a, *b, c, *ecp, dir as int));
            let v = dot_lists(&df, gs);
            assert(v == ecp_term(
                shells,
                ecps@,
                gamma,
                si as int,
                sj as int,
                e as int,
                dir as int,
            ));
            let ghost before = grad@;
            let mut f = grad[at];
            f[dir] = f[dir].plus(v);
            grad[at] = f;
            let mut h = grad[ecp.atom];
            h[dir] = h[dir].minus(v);
            grad[ecp.atom] = h;
            proof {
                assert forall|d: int, ax: int|
                    0 <= d < atoms@.len() && 0 <= ax < 3 implies #[trigger] grad@[d][ax]
                    == ecp_force(
                    shells,
                    ecps@,
                    gamma,
                    d,
                    ax,
                    if ax < dir + 1 {
                        n0 + 1
                    } else {
                        n0
                    },
                ) by {
                    assert(before[d][ax] == ecp_force(
                        shells,
                        ecps@,
                        gamma,
                        d,
                        ax,
                        if ax < dir {
                            n0 + 1
                        } else {
                            n0
                        },
                    ));
                }
            }
            dir = dir + 1;
        }
    }

    /// The gradient of the matrix of the potentials, contracted with a density: the
    /// derivatives with respect to the atoms.
    #[verifier::spinoff_prover]
    #[verifier::rlimit(60)]
    pub fn ecp_grad_contract(&self, ecps: &[Ecp<T>], gamma: &[T]) -> (r: Result<
        Vec<[T; 3]>,
        IntegralError<T>,
    >)
        requires
            self.valid(),
            self.matrix_fits(),
            ecp_error(*self, gamma@.len() as int) is None ==> self.ecps_differentiable(ecps@),
        ensures
            r is Err <==> ecp_error(*self, gamma@.len() as int) is Some,
            r matches Err(e) ==> Some(e) == ecp_error(*self, gamma@.len() as int),
            r matches Ok(f) ==> are_ecp_forces(
                f@,
                distinct_centers(self.shells@, self.shells@.len() as int).len() as int,
                self.shells@,
                ecps@,
                gamma@,
                triples(self.shells@, ecps@),
            ),
    {
        let ghost shells = self.shells@;
        let ghost lens = function_counts(shells);
        proof {
            self.lemma_size_fits();
            lemma_function_counts(shells);
        }
        let bad = find_exceeding(&self.shells, 2);
        if bad < self.shells.len() {
            return Err(
                IntegralError::AngularMomentumTooHighForGradient {
                    l: self.shells[bad].l,
                    max: MAX_ECP_GRAD_L,
                },
            );
        }
        let n = self.nao();
        if gamma.len() != n * n {
            return Err(
                IntegralError::GammaLengthMismatch { expected: n * n, got: gamma.len() },
            );
        }
        let atoms = self.atoms();
        let mut grad = no_forces::<T>(atoms.len());
        let nsh = self.shells.len();
        let ne = ecps.len();
        let ghost m = nsh as int;
        let ghost k = ne as int;
        proof {
            assert(m * m * 0 == 0);
            assert(0 * k == 0);
            assert(cell(0, m, 0, k, 0) == 0) by {
                assert(0 * m == 0);
                assert(0 * k == 0);
            }
        }
        if ne == 0 {
            return Ok(grad);
        }
        let offs = self.offsets();
        let satom = self.shell_atom();
        let lsh = find_highest_l(&self.shells);
        let lproj = find_most_channels(ecps);
        proof {
            assert forall|s: int| 0 <= s < shells.len() implies (#[trigger] shells[s]).l <= 4 by {
                assert(shells[s].l + 2 <= 6);
            }
        }
        let low: usize = if lproj == 0 {
            lsh + 1
        } else {
            lproj + lsh
        };
        let lam_max: usize = if low < 2 * (lsh + 1) {
            2 * (lsh + 1)
        } else {
            low
        };
        let rsh: Rsh<T> = Rsh::new(lam_max);
        let nodes = gl_nodes::<T>();
        let prep = Prepared::new(&self.shells);
        let mut si: usize = 0;
        while si < nsh
            invariant
                si <= nsh,
                nsh == shells.len(),
                ne == ecps@.len(),
                ne >= 1,
                m == nsh,
                k == ne,
                shells == self.shells@,
                lens == function_counts(shells),
                are_lengths(lens),
                self.valid(),
                self.ecps_differentiable(ecps@),
                atoms@ == distinct_centers(shells, shells.len() as int),
                prep.valid(),
                prep.shells@ == shells,
                rsh.valid(),
                nodes@ == radial_nodes::<T>(),
                forall|s: int| 0 <= s < nsh ==> (#[trigger] shells[s]).l <= lsh,
                forall|s: int| 0 <= s < nsh ==> (#[trigger] shells[s]).l <= 4,
                2 * (lsh + 1) <= rsh.top(),
                forall|e: int|
                    0 <= e < ecps@.len() && (#[trigger] ecps@[e]).semilocal@.len() > 0
                        ==> ecps@[e].semilocal@.len() + lsh <= rsh.top(),
                n == total(lens),
                n * n <= usize::MAX,
                gamma@.len() == n * n,
                offs@.len() == nsh,
                forall|s: int| 0 <= s < nsh ==> #[trigger] offs@[s] == start(lens, s),
                satom@.len() == nsh,
                forall|s: int| 0 <= s < nsh ==> #[trigger] satom@[s] == atom_of(shells, s),
                are_ecp_forces(
                    grad@,
                    atoms@.len() as int,
                    shells,
                    ecps@,
                    gamma@,
                    cell(si as int, m, 0, k, 0),
                ),
            decreases nsh - si,
        {
            let sa = prep.side(si);
            let mut wup: Vec<T> = Vec::new();
            let mut i: usize = 0;
            while i < sa.shell.exponents.len()
                invariant
                    i <= sa.shell.exponents@.len(),
                    sa.valid(),
                    sa.eff@ == sa.shell.effectives(),
                    wup@.len() == i,
                    forall|q: int|
                        0 <= q < i ==> #[trigger] wup@[q] == T::prod(
                            T::prod(T::count(2), sa.shell.exponents@[q]),
                            sa.shell.effective(q),
                        ),
                decreases sa.shell.exponents@.len() - i,
            {
                wup.push(T::from_count(2).times(sa.shell.exponents[i]).times(sa.eff[i]));
                i = i + 1;
            }
            assert(wup@ =~= raised_side(shells[si as int], shells[si as int].center).wts);
            let mut sj: usize = 0;
            while sj < nsh
                invariant
                    si < nsh,
                    sj <= nsh,
                    nsh == shells.len(),
                    ne == ecps@.len(),
                    ne >= 1,
                    m == nsh,
                    k == ne,
                    shells == self.shells@,
                    lens == function_counts(shells),
                    are_lengths(lens),
                    self.valid(),
                    self.ecps_differentiable(ecps@),
                    atoms@ == distinct_centers(shells, shells.len() as int),
                    prep.valid(),
                    prep.shells@ == shells,
                    rsh.valid(),
                    nodes@ == radial_nodes::<T>(),
                    forall|s: int| 0 <= s < nsh ==> (#[trigger] shells[s]).l <= lsh,
                    forall|s: int| 0 <= s < nsh ==> (#[trigger] shells[s]).l <= 4,
                    2 * (lsh + 1) <= rsh.top(),
                    forall|e: int|
                        0 <= e < ecps@.len() && (#[trigger] ecps@[e]).semilocal@.len() > 0
                            ==> ecps@[e].semilocal@.len() + lsh <= rsh.top(),
                    n == total(lens),
                    n * n <= usize::MAX,
                    gamma@.len() == n * n,
                    offs@.len() == nsh,
                    forall|s: int| 0 <= s < nsh ==> #[trigger] offs@[s] == start(lens, s),
                    satom@.len() == nsh,
                    forall|s: int| 0 <= s < nsh ==> #[trigger] satom@[s] == atom_of(shells, s),
                    wup@ == raised_side(shells[si as int], shells[si as int].center).wts,
                    are_ecp_forces(
                        grad@,
                        atoms@.len() as int,
                        shells,
                        ecps@,
                        gamma@,
                        cell(si as int, m, sj as int, k, 0),
                    ),
                decreases nsh - sj,
            {
                proof {
                    lemma_ranges_fit(lens, si as int);
                    lemma_ranges_fit(lens, sj as int);
                    assert(offs@[si as int] == start(lens, si as int));
                    assert(offs@[sj as int] == start(lens, sj as int));
                    assert(shells[si as int].valid() && shells[sj as int].valid());
                    assert(shells[si as int].l <= lsh && shells[sj as int].l <= lsh);
                    assert(shells[si as int].l <= 4 && shells[sj as int].l <= 4);
                }
                let (ni, nj) = (self.shells[si].n_func(), self.shells[sj].n_func());
                let gs = symmetrize_density(
                    gamma,
                    n,
                    offs[si],
                    ni,
                    offs[sj],
                    nj,
                    Ghost(lens),
                    Ghost(si as int),
                    Ghost(sj as int),
                );
                if check_null(&gs) {
                    proof {
                        assert forall|c: int, dir: int|
                            0 <= c < atoms@.len() && 0 <= dir < 3 implies #[trigger] grad@[c][dir]
                            == ecp_force(
                            shells,
                            ecps@,
                            gamma@,
                            c,
                            dir,
                            cell(si as int, m, sj as int, k, k),
                        ) by {
                            lemma_left_out(
                                shells,
                                ecps@,
                                gamma@,
                                c,
                                dir,
                                si as int,
                                sj as int,
                                k,
                            );
                        }
                    }
                } else {
                    let mut e: usize = 0;
                    while e < ne
                        invariant
                            si < nsh,
                            sj < nsh,
                            e <= ne,
                            nsh == shells.len(),
                            ne == ecps@.len(),
                            m == nsh,
                            k == ne,
                            shells == self.shells@,
                            lens == function_counts(shells),
                            self.valid(),
                            self.ecps_differentiable(ecps@),
                            atoms@ == distinct_centers(shells, shells.len() as int),
                            prep.valid(),
                            prep.shells@ == shells,
                            rsh.valid(),
                            nodes@ == radial_nodes::<T>(),
                            forall|s: int| 0 <= s < nsh ==> (#[trigger] shells[s]).l <= lsh,
                            forall|s: int| 0 <= s < nsh ==> (#[trigger] shells[s]).l <= 4,
                            2 * (lsh + 1) <= rsh.top(),
                            forall|q: int|
                                0 <= q < ecps@.len() && (#[trigger] ecps@[q]).semilocal@.len() > 0
                                    ==> ecps@[q].semilocal@.len() + lsh <= rsh.top(),
                            satom@.len() == nsh,
                            forall|s: int|
                                0 <= s < nsh ==> #[trigger] satom@[s] == atom_of(shells, s),
                            wup@ == raised_side(
                                shells[si as int],
                                shells[si as int].center,
                            ).wts,
                            gs@ == symmetric_block(gamma@, lens, si as int, sj as int),
                            !is_null(gs@),
                            are_ecp_forces(
                                grad@,
                                atoms@.len() as int,
                                shells,
                                ecps@,
                                gamma@,
                                cell(si as int, m, sj as int, k, e as int),
                            ),
                        decreases ne - e,
                    {
                        proof {
                            assert(shells[si as int].l <= lsh && shells[sj as int].l <= lsh);
                        }
                        self.add_ecp_forces(
                            &prep,
                            &wup,
                            ecps,
                            e,
                            &atoms,
                            &satom,
                            &rsh,
                            &nodes,
                            &gs,
                            si,
                            sj,
                            &mut grad,
                            Ghost(gamma@),
                        );
                        e = e + 1;
                    }
                }
                assert(cell(si as int, m, sj as int, k, k) == cell(si as int, m, sj + 1, k, 0))
                    by (nonlinear_arith)
                    requires
                        cell(si as int, m, sj as int, k, k) == (si * m + sj) * k + k,
                        cell(si as int, m, sj + 1, k, 0) == (si * m + (sj + 1)) * k + 0,
                ;
                sj = sj + 1;
            }
            assert(cell(si as int, m, m, k, 0) == cell(si + 1, m, 0, k, 0)) by (nonlinear_arith)
                requires
                    cell(si as int, m, m, k, 0) == (si * m + m) * k + 0,
                    cell(si + 1, m, 0, k, 0) == ((si + 1) * m + 0) * k + 0,
            ;
            si = si + 1;
        }
        assert(cell(m, m, 0, k, 0) == m * m * k);
        Ok(grad)
    }
}

} // verus!
