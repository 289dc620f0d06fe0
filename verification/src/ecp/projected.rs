//! The integrals of the projected parts of an effective core potential.
use vstd::prelude::*;

use crate::ecp::angular::{
    build_f2, coord_coeffs, gather, gathered, monomials, projected_table, shifted_powers,
};
use crate::ecp::harmonics::{Rsh, MAX_DEGREE};
use crate::ecp::radial::{radial_type2, Radial};
use crate::ecp::side::{
    center_exponent, direction, direction_of, is_left_out, is_pair_left_out, left_out,
    pair_left_out, EcpPrimitive, EcpSide, SideView,
};
use crate::engine::os::{block_size, lemma_block_bounds};
use crate::engine::pairs::{norm2, square, Vec3};
use crate::flat::{
    added, cell, lemma_added_step, lemma_cell_in_range, lemma_index_parts, lemma_pair_in_range,
    pair,
};
use crate::math::am::{
    cart_components, cart_count, component_at, is_component, lemma_listed_components, powers,
    Powers,
};
use crate::math::solid_harmonics::{is_zero, vanishes};
use crate::scalar::{filled, Real};

verus! {

/// The coefficients of a component about its center, by axis.
pub open spec fn component_powers<T: Real>(p: Powers, cv: Vec3<T>) -> (Seq<T>, Seq<T>, Seq<T>) {
    (shifted_powers(p.0, cv[0]), shifted_powers(p.1, cv[1]), shifted_powers(p.2, cv[2]))
}

/// The angular factors of component `i` of a side with the projector of degree `l`: by
/// order, degree and power.
pub open spec fn projected_factors<T: Real>(s: SideView<T>, l: int, u: Vec3<T>, i: int) -> Seq<T> {
    let d = s.l + 1;
    let nl = l + s.l + 1;
    let c = component_powers(component_at(s.l, i), s.cv);
    Seq::new(
        ((2 * l + 1) * nl * d) as nat,
        |j: int|
            gathered(
                c,
                projected_table(l, j / d / nl - l, s.l, j / d % nl, u),
                d,
                j % d,
                monomials(c),
            ),
    )
}

/// A pair of primitives over a projected part.
pub struct ProjectedPair<T> {
    pub l: int,
    pub a: SideView<T>,
    pub b: SideView<T>,
    pub aa: T,
    pub ab: T,
    pub w: T,
}

impl<T: Real> ProjectedPair<T> {
    /// The exponent at the center of the potential.
    pub open spec fn arg0(self) -> T {
        center_exponent(self.aa, square(self.a.cv), self.ab, square(self.b.cv))
    }

    /// The lengths of the two sides.
    pub open spec fn lengths(self) -> (T, T) {
        (
            T::prod(
                T::prod(T::count(2), self.aa),
                direction(self.a.cv, T::root(square(self.a.cv))).0,
            ),
            T::prod(
                T::prod(T::count(2), self.ab),
                direction(self.b.cv, T::root(square(self.b.cv))).0,
            ),
        )
    }

    /// Their sum.
    pub open spec fn length(self) -> T {
        T::sum(self.lengths().0, self.lengths().1)
    }

    /// The sum of the exponents.
    pub open spec fn asum(self) -> T {
        T::sum(self.aa, self.ab)
    }

    /// The numbers of degrees on the two sides.
    pub open spec fn degrees(self) -> (int, int) {
        (self.l + self.a.l + 1, self.l + self.b.l + 1)
    }

    /// The radial integral that factors `u` and `v` of the two sides meet.
    pub open spec fn radial(
        self,
        x: Radial<T>,
        nodes: Seq<(T, T)>,
        u: int,
        v: int,
    ) -> T {
        let (da, db) = (self.a.l + 1, self.b.l + 1);
        let (na, nb) = self.degrees();
        x.projected(
            nodes,
            self.lengths().0,
            self.lengths().1,
            u / da % na,
            v / db,
            u % da + v % db,
            nodes.len() as int,
        )
    }

    /// The sum `acc` with the first `n` factors of the second side that meet factor `u` of
    /// the first.
    pub open spec fn row(
        self,
        acc: T,
        ga: Seq<T>,
        gb: Seq<T>,
        x: Radial<T>,
        nodes: Seq<(T, T)>,
        u: int,
        n: int,
    ) -> T
        decreases n,
    {
        if n <= 0 {
            acc
        } else {
            let before = self.row(acc, ga, gb, x, nodes, u, n - 1);
            let (na, nb) = self.degrees();
            let mi = u / (self.a.l + 1) / na;
            let h = gb[pair(mi, nb * (self.b.l + 1), n - 1)];
            if vanishes(h) {
                before
            } else {
                T::sum(
                    before,
                    T::prod(T::prod(ga[u], h), self.radial(x, nodes, u, n - 1)),
                )
            }
        }
    }

    /// The sum over the first `n` factors of the first side with those of the second.
    pub open spec fn sum(
        self,
        ga: Seq<T>,
        gb: Seq<T>,
        x: Radial<T>,
        nodes: Seq<(T, T)>,
        n: int,
    ) -> T
        decreases n,
    {
        if n <= 0 {
            T::count(0)
        } else {
            let before = self.sum(ga, gb, x, nodes, n - 1);
            if vanishes(ga[n - 1]) {
                before
            } else {
                self.row(
                    before,
                    ga,
                    gb,
                    x,
                    nodes,
                    n - 1,
                    self.degrees().1 * (self.b.l + 1),
                )
            }
        }
    }

    /// The number of factors of the first side.
    pub open spec fn factor_count(self) -> int {
        (2 * self.l + 1) * self.degrees().0 * (self.a.l + 1)
    }

    /// The contribution of one term of the potential to entry `e` of a block.
    pub open spec fn term(self, ep: EcpPrimitive<T>, nodes: Seq<(T, T)>) -> spec_fn(int) -> T {
        |e: int|
            {
                let x = Radial {
                    alpha: T::sum(self.asum(), ep.zeta),
                    k: self.length(),
                    arg0: self.arg0(),
                    n: ep.n as int,
                };
                let ua = direction(self.a.cv, T::root(square(self.a.cv))).1;
                let ub = direction(self.b.cv, T::root(square(self.b.cv))).1;
                T::prod(
                    T::prod(
                        T::prod(self.w, ep.coef),
                        T::prod(T::prod(T::count(16), T::circle()), T::circle()),
                    ),
                    self.sum(
                        projected_factors(self.a, self.l, ua, e / cart_count(self.b.l)),
                        projected_factors(self.b, self.l, ub, e % cart_count(self.b.l)),
                        x,
                        nodes,
                        self.factor_count(),
                    ),
                )
            }
    }

    /// A block with the first `n` terms of the potential added.
    pub open spec fn with_terms(
        self,
        old: Seq<T>,
        prims: Seq<EcpPrimitive<T>>,
        nodes: Seq<(T, T)>,
        n: int,
    ) -> Seq<T>
        decreases n,
    {
        if n <= 0 {
            old
        } else {
            let before = self.with_terms(old, prims, nodes, n - 1);
            let ep = prims[n - 1];
            if left_out(ep, self.arg0(), self.length(), self.asum()) {
                before
            } else {
                added(before, block_size(self.a.l, self.b.l), self.term(ep, nodes))
            }
        }
    }

    /// A block with the potential added.
    pub open spec fn with_potential(
        self,
        old: Seq<T>,
        prims: Seq<EcpPrimitive<T>>,
        nodes: Seq<(T, T)>,
    ) -> Seq<T> {
        if pair_left_out(self.arg0(), self.length(), self.asum()) {
            old
        } else {
            self.with_terms(old, prims, nodes, prims.len() as int)
        }
    }
}

/// The pair of primitives `i` and `j` of two sides.
pub open spec fn projected_pair<T: Real>(
    l: int,
    a: SideView<T>,
    b: SideView<T>,
    i: int,
    j: int,
) -> ProjectedPair<T> {
    ProjectedPair { l, a, b, aa: a.exps[i], ab: b.exps[j], w: T::prod(a.wts[i], b.wts[j]) }
}

/// A block with the projected part of degree `l` added over the primitive pairs before
/// `(i, j)`.
pub open spec fn projected_before<T: Real>(
    old: Seq<T>,
    l: int,
    a: SideView<T>,
    b: SideView<T>,
    prims: Seq<EcpPrimitive<T>>,
    nodes: Seq<(T, T)>,
    i: int,
    j: int,
) -> Seq<T>
    decreases i, j,
{
    if j > 0 {
        projected_pair(l, a, b, i, j - 1).with_potential(
            projected_before(old, l, a, b, prims, nodes, i, j - 1),
            prims,
            nodes,
        )
    } else if i > 0 {
        projected_before(old, l, a, b, prims, nodes, i - 1, b.exps.len() as int)
    } else {
        old
    }
}

/// A block with the projected part of degree `l` added.
pub open spec fn with_projected<T: Real>(
    old: Seq<T>,
    l: int,
    a: SideView<T>,
    b: SideView<T>,
    prims: Seq<EcpPrimitive<T>>,
    nodes: Seq<(T, T)>,
) -> Seq<T> {
    projected_before(old, l, a, b, prims, nodes, a.exps.len() as int, 0)
}

/// The number of angular factors of a component of momentum `s` with the projector of
/// degree `l`.
pub open spec fn factors(l: int, s: int) -> int {
    (2 * l + 1) * (l + s + 1) * (s + 1)
}

/// The number of radial integrals between momenta `la` and `lb` with the projector of
/// degree `l`.
pub open spec fn radials(l: int, la: int, lb: int) -> int {
    (l + la + 1) * (l + lb + 1) * (la + lb + 1)
}

/// Whether the tables of the projector of degree `l` between momenta `la` and `lb` have
/// sizes that a `usize` holds.
pub open spec fn tables_fit(l: int, la: int, lb: int) -> bool {
    &&& factors(l, la) <= usize::MAX
    &&& factors(l, lb) <= usize::MAX
    &&& radials(l, la, lb) <= usize::MAX
}

/// Bounds on the numbers of factors.
proof fn lemma_factor_bounds(l: int, s: int)
    requires
        0 <= l,
        0 <= s,
        factors(l, s) <= usize::MAX,
    ensures
        ({
            let nl = l + s + 1;
            let d = s + 1;
            &&& 1 <= nl * d <= usize::MAX
            &&& 1 <= (2 * l + 1) * nl <= usize::MAX
            &&& 1 <= (2 * l + 1) * nl * d <= usize::MAX
            &&& (2 * l + 1) * nl * d == (2 * l + 1) * (nl * d)
        }),
{
    let nl = l + s + 1;
    let d = s + 1;
    let nm = 2 * l + 1;
    assert(nm * nl * d == nm * (nl * d)) by (nonlinear_arith);
    assert(1 <= nl * d <= nm * (nl * d)) by (nonlinear_arith)
        requires
            1 <= nl,
            1 <= d,
            1 <= nm,
    ;
    assert(1 <= nm * nl <= nm * nl * d) by (nonlinear_arith)
        requires
            1 <= nl,
            1 <= d,
            1 <= nm,
    ;
}

/// The tables of a few channels between low momenta fit.
pub(crate) proof fn lemma_small_tables(l: int, la: int, lb: int)
    requires
        0 <= l <= 7,
        0 <= la <= 7,
        0 <= lb <= 7,
    ensures
        tables_fit(l, la, lb),
{
    assert(factors(l, la) <= 15 * 15 * 8) by {
        assert((2 * l + 1) * (l + la + 1) <= 15 * 15) by (nonlinear_arith)
            requires
                0 <= l <= 7,
                0 <= la <= 7,
        ;
        lemma_below((2 * l + 1) * (l + la + 1), 225, la + 1, 8);
    }
    assert(factors(l, lb) <= 15 * 15 * 8) by {
        assert((2 * l + 1) * (l + lb + 1) <= 15 * 15) by (nonlinear_arith)
            requires
                0 <= l <= 7,
                0 <= lb <= 7,
        ;
        lemma_below((2 * l + 1) * (l + lb + 1), 225, lb + 1, 8);
    }
    assert(radials(l, la, lb) <= 15 * 15 * 15) by {
        assert((l + la + 1) * (l + lb + 1) <= 15 * 15) by (nonlinear_arith)
            requires
                0 <= l <= 7,
                0 <= la <= 7,
                0 <= lb <= 7,
        ;
        lemma_below((l + la + 1) * (l + lb + 1), 225, la + lb + 1, 15);
    }
}

proof fn lemma_below(x: int, most: int, y: int, top: int)
    by (nonlinear_arith)
    requires
        x <= most,
        0 <= most,
        0 <= y <= top,
    ensures
        x * y <= most * top,
{
}

/// The angular factors of the components of a side.
#[verifier::spinoff_prover]
pub(crate) fn build_g2<T: Real>(
    f: &Vec<Vec<T>>,
    s: &EcpSide<T>,
    l: usize,
    Ghost(u): Ghost<Vec3<T>>,
) -> (g: Vec<Vec<T>>)
    requires
        s.valid(),
        l <= MAX_DEGREE,
        factors(l as int, s.l as int) <= usize::MAX,
        f@.len() == (2 * l + 1) * (l + s.l + 1),
        forall|mi: int, lam: int|
            0 <= mi <= 2 * l && 0 <= lam <= l + s.l ==> (#[trigger] f@[pair(
                mi,
                l + s.l + 1,
                lam,
            )])@ == projected_table(l as int, mi - l, s.l as int, lam, u),
    ensures
        g@.len() == cart_count(s.l as int),
        forall|i: int|
            0 <= i < g@.len() ==> (#[trigger] g@[i])@ == projected_factors(
                s.shown(),
                l as int,
                u,
                i,
            ),
        forall|i: int|
            0 <= i < g@.len() ==> (#[trigger] g@[i])@.len() == (2 * l + 1) * (l + s.l + 1) * (s.l
                + 1),
{
    let d: usize = s.l + 1;
    let ghost nl = l + s.l + 1;
    let ghost nm = 2 * l + 1;
    proof {
        lemma_block_bounds(s.l as int, s.l as int);
        lemma_factor_bounds(l as int, s.l as int);
        assert forall|q: int| 0 <= q < f@.len() implies (#[trigger] f@[q])@.len() == d * d * d
            && f@[q]@ == projected_table(l as int, q / nl - l, s.l as int, q % nl, u) by {
            lemma_index_parts(q, nm, nl);
            assert(f@[pair(q / nl, l + s.l + 1, q % nl)]@ == projected_table(
                l as int,
                q / nl - l,
                s.l as int,
                q % nl,
                u,
            ));
            assert(d * d * d >= 0) by (nonlinear_arith)
                requires
                    d >= 0,
            ;
        }
    }
    let comps = cart_components(s.l);
    proof {
        lemma_listed_components(comps@, s.l as int);
    }
    let mut g: Vec<Vec<T>> = Vec::new();
    let mut i: usize = 0;
    while i < comps.len()
        invariant
            i <= comps@.len(),
            s.valid(),
            l <= MAX_DEGREE,
            d == s.l + 1,
            nl == l + s.l + 1,
            nm == 2 * l + 1,
            nm * nl * d <= usize::MAX,
            f@.len() == nm * nl,
            forall|q: int|
                0 <= q < f@.len() ==> (#[trigger] f@[q])@.len() == d * d * d && f@[q]@
                    == projected_table(l as int, q / nl - l, s.l as int, q % nl, u),
            comps@.len() == cart_count(s.l as int),
            forall|k: int|
                0 <= k < comps@.len() ==> #[trigger] powers(comps@[k]) == component_at(
                    s.l as int,
                    k,
                ),
            forall|k: int|
                0 <= k < comps@.len() ==> is_component(#[trigger] powers(comps@[k]), s.l as int),
            g@.len() == i,
            forall|k: int|
                0 <= k < i ==> (#[trigger] g@[k])@ == projected_factors(s.shown(), l as int, u, k),
            forall|k: int| 0 <= k < i ==> (#[trigger] g@[k])@.len() == nm * nl * d,
        decreases comps@.len() - i,
    {
        let p = comps[i];
        assert(powers(comps@[i as int]) == component_at(s.l as int, i as int));
        assert(is_component(powers(comps@[i as int]), s.l as int));
        let cx = coord_coeffs(p[0], s.cv[0]);
        let cy = coord_coeffs(p[1], s.cv[1]);
        let cz = coord_coeffs(p[2], s.cv[2]);
        let ghost c = (cx@, cy@, cz@);
        let row = gather(&cx, &cy, &cz, f, d);
        proof {
            assert(c == component_powers(component_at(s.l as int, i as int), s.cv));
            let w = projected_factors(s.shown(), l as int, u, i as int);
            assert forall|j: int| 0 <= j < nm * nl * d implies row@[j] == w[j] by {
                lemma_index_parts(j, nm * nl, d as int);
                let q = j / (d as int);
                assert(f@[q]@ == projected_table(l as int, q / nl - l, s.l as int, q % nl, u));
                assert(row@[pair(q, d as int, j % (d as int))] == gathered(
                    c,
                    f@[q]@,
                    d as int,
                    j % (d as int),
                    monomials(c),
                ));
            }
            assert(row@ =~= w);
        }
        g.push(row);
        i = i + 1;
    }
    g
}

/// Add the factors of the second side that meet one of the first.
fn add_row<T: Real>(
    acc: T,
    ga: &Vec<T>,
    gb: &Vec<T>,
    q: &Vec<T>,
    u: usize,
    la: usize,
    lb: usize,
    l: usize,
    nodes: &Vec<(T, T)>,
    Ghost(x): Ghost<ProjectedPair<T>>,
    Ghost(r): Ghost<Radial<T>>,
) -> (sum: T)
    requires
        x.l == l,
        x.a.l == la,
        x.b.l == lb,
        l <= MAX_DEGREE,
        tables_fit(l as int, la as int, lb as int),
        la <= 7,
        lb <= 7,
        u < x.factor_count(),
        ga@.len() == x.factor_count(),
        gb@.len() == (2 * l + 1) * (l + lb + 1) * (lb + 1),
        q@.len() == (l + la + 1) * (l + lb + 1) * (la + lb + 1),
        forall|p: int, o: int, s: int|
            0 <= p <= l + la && 0 <= o <= l + lb && 0 <= s <= la + lb ==> #[trigger] q@[cell(
                p,
                l + lb + 1,
                o,
                la + lb + 1,
                s,
            )] == r.projected(
                nodes@,
                x.lengths().0,
                x.lengths().1,
                p,
                o,
                s,
                nodes@.len() as int,
            ),
    ensures
        sum == x.row(acc, ga@, gb@, r, nodes@, u as int, x.degrees().1 * (lb + 1)),
{
    let (da, db): (usize, usize) = (la + 1, lb + 1);
    let (na, nb): (usize, usize) = (l + la + 1, l + lb + 1);
    proof {
        lemma_factor_bounds(l as int, la as int);
        lemma_factor_bounds(l as int, lb as int);
        lemma_index_parts(u as int, (2 * l + 1) * na, da as int);
        lemma_index_parts(u as int / da as int, 2 * l + 1, na as int);
    }
    let pa: usize = u % da;
    let laa: usize = u / da % na;
    let mi: usize = u / da / na;
    let g = ga[u];
    let mut sum = acc;
    let mut v: usize = 0;
    while v < nb * db
        invariant
            v <= nb * db,
            x.l == l,
            x.a.l == la,
            x.b.l == lb,
            l <= MAX_DEGREE,
            tables_fit(l as int, la as int, lb as int),
            la <= 7,
            lb <= 7,
            da == la + 1,
            db == lb + 1,
            na == l + la + 1,
            nb == l + lb + 1,
            nb * db <= usize::MAX,
            mi < 2 * l + 1,
            pa < da,
            laa < na,
            u < ga@.len(),
            pa == u as int % da as int,
            laa == u as int / da as int % na as int,
            mi == u as int / da as int / na as int,
            g == ga@[u as int],
            gb@.len() == (2 * l + 1) * (nb * db),
            gb@.len() <= usize::MAX,
            q@.len() == na * nb * (la + lb + 1),
            forall|p: int, o: int, s: int|
                0 <= p < na && 0 <= o < nb && 0 <= s <= la + lb ==> #[trigger] q@[cell(
                    p,
                    nb as int,
                    o,
                    la + lb + 1,
                    s,
                )] == r.projected(
                    nodes@,
                    x.lengths().0,
                    x.lengths().1,
                    p,
                    o,
                    s,
                    nodes@.len() as int,
                ),
            sum == x.row(acc, ga@, gb@, r, nodes@, u as int, v as int),
        decreases nb * db - v,
    {
        proof {
            lemma_index_parts(v as int, nb as int, db as int);
            lemma_pair_in_range(mi as int, 2 * l + 1, nb * db, v as int);
            lemma_cell_in_range(
                laa as int,
                na as int,
                nb as int,
                v as int / db as int,
                la + lb + 1,
                pa as int + v as int % db as int,
            );
        }
        let h = gb[mi * (nb * db) + v];
        if !is_zero(h) {
            let (lbb, pb) = (v / db, v % db);
            let at: usize = (laa * nb + lbb) * (la + lb + 1) + (pa + pb);
            assert(q@[cell(laa as int, nb as int, lbb as int, la + lb + 1, pa + pb)] == x.radial(
                r,
                nodes@,
                u as int,
                v as int,
            ));
            sum = sum.plus(g.times(h).times(q[at]));
        }
        v = v + 1;
    }
    sum
}

/// Add the terms of the potential for one pair of primitives.
#[verifier::spinoff_prover]
#[verifier::rlimit(60)]
fn add_terms<T: Real>(
    l: usize,
    a: &EcpSide<T>,
    b: &EcpSide<T>,
    prims: &Vec<EcpPrimitive<T>>,
    nodes: &Vec<(T, T)>,
    ga: &Vec<Vec<T>>,
    gb: &Vec<Vec<T>>,
    ra_eff: T,
    rb_eff: T,
    i: usize,
    j: usize,
    mba: &mut Vec<T>,
    mbb: &mut Vec<T>,
    block: &mut Vec<T>,
)
    requires
        a.valid(),
        b.valid(),
        l + a.l <= MAX_DEGREE,
        l + b.l <= MAX_DEGREE,
        tables_fit(l as int, a.l as int, b.l as int),
        i < a.exps@.len(),
        j < b.exps@.len(),
        ra_eff == direction(a.cv, T::root(square(a.cv))).0,
        rb_eff == direction(b.cv, T::root(square(b.cv))).0,
        ga@.len() == cart_count(a.l as int),
        gb@.len() == cart_count(b.l as int),
        forall|k: int|
            0 <= k < ga@.len() ==> (#[trigger] ga@[k])@ == projected_factors(
                a.shown(),
                l as int,
                direction(a.cv, T::root(square(a.cv))).1,
                k,
            ),
        forall|k: int|
            0 <= k < gb@.len() ==> (#[trigger] gb@[k])@ == projected_factors(
                b.shown(),
                l as int,
                direction(b.cv, T::root(square(b.cv))).1,
                k,
            ),
        old(mba)@.len() == l + a.l + 1,
        old(mbb)@.len() == l + b.l + 1,
        old(block)@.len() == block_size(a.l as int, b.l as int),
    ensures
        final(mba)@.len() == l + a.l + 1,
        final(mbb)@.len() == l + b.l + 1,
        final(block)@.len() == old(block)@.len(),
        final(block)@ == projected_pair(
            l as int,
            a.shown(),
            b.shown(),
            i as int,
            j as int,
        ).with_potential(old(block)@, prims@, nodes@),
{
    let (la, lb) = (a.l, b.l);
    let (lama, lamb): (usize, usize) = (l + la, l + lb);
    let (aa, ab) = (a.exps[i], b.exps[j]);
    let w = a.wts[i].times(b.wts[j]);
    let ghost x = projected_pair(l as int, a.shown(), b.shown(), i as int, j as int);
    let ghost was = block@;
    let ka = T::from_count(2).times(aa).times(ra_eff);
    let kb = T::from_count(2).times(ab).times(rb_eff);
    let ksum = ka.plus(kb);
    let arg0 = aa.negated().times(norm2(a.cv)).minus(ab.times(norm2(b.cv)));
    let asum = aa.plus(ab);
    if is_pair_left_out(arg0, ksum, asum) {
        return ;
    }
    proof {
        lemma_block_bounds(la as int, lb as int);
        lemma_factor_bounds(l as int, la as int);
        lemma_factor_bounds(l as int, lb as int);
    }
    let nb_c = gb.len();
    let mut n: usize = 0;
    while n < prims.len()
        invariant
            n <= prims@.len(),
            a.valid(),
            b.valid(),
            l + a.l <= MAX_DEGREE,
            l + b.l <= MAX_DEGREE,
            tables_fit(l as int, a.l as int, b.l as int),
            la == a.l,
            lb == b.l,
            lama == l + la,
            lamb == l + lb,
            mba@.len() == lama + 1,
            mbb@.len() == lamb + 1,
            x == projected_pair(l as int, a.shown(), b.shown(), i as int, j as int),
            x.l == l,
            x.a.l == la,
            x.b.l == lb,
            w == x.w,
            (ka, kb) == x.lengths(),
            ksum == x.length(),
            arg0 == x.arg0(),
            asum == x.asum(),
            nb_c == gb@.len(),
            1 <= nb_c,
            ga@.len() == cart_count(la as int),
            gb@.len() == cart_count(lb as int),
            forall|k: int|
                0 <= k < ga@.len() ==> (#[trigger] ga@[k])@ == projected_factors(
                    x.a,
                    l as int,
                    direction(x.a.cv, T::root(square(x.a.cv))).1,
                    k,
                ),
            forall|k: int|
                0 <= k < gb@.len() ==> (#[trigger] gb@[k])@ == projected_factors(
                    x.b,
                    l as int,
                    direction(x.b.cv, T::root(square(x.b.cv))).1,
                    k,
                ),
            block@.len() == block_size(la as int, lb as int),
            1 <= x.factor_count() <= usize::MAX,
            block@ == x.with_terms(was, prims@, nodes@, n as int),
        decreases prims@.len() - n,
    {
        let ep = &prims[n];
        if !is_left_out(ep, arg0, ksum, asum) {
            let alpha = asum.plus(ep.zeta);
            let q = radial_type2(
                nodes,
                alpha,
                ka,
                kb,
                arg0,
                ep.n,
                la + lb,
                lama,
                lamb,
                mba,
                mbb,
            );
            let ghost r = Radial { alpha, k: ksum, arg0, n: ep.n as int };
            let scale = w.times(ep.coef).times(
                T::from_count(16).times(T::pi()).times(T::pi()),
            );
            let ghost before = block@;
            let ghost g = x.term(*ep, nodes@);
            proof {
                assert(added(before, 0, g) =~= before);
            }
            let mut e: usize = 0;
            while e < block.len()
                invariant
                    e <= block@.len(),
                    l <= MAX_DEGREE,
                    tables_fit(l as int, la as int, lb as int),
                    la <= 7,
                    lb <= 7,
                    lama == l + la,
                    lamb == l + lb,
                    x.l == l,
                    x.a.l == la,
                    x.b.l == lb,
                    (ka, kb) == x.lengths(),
                    nb_c == gb@.len(),
                    1 <= nb_c,
                    ga@.len() == cart_count(la as int),
                    gb@.len() == cart_count(lb as int),
                    before.len() == block_size(la as int, lb as int),
                    before.len() == ga@.len() * gb@.len(),
                    block@ == added(before, e as int, g),
                    block@.len() == before.len(),
                    g == x.term(*ep, nodes@),
                    r == (Radial {
                        alpha: T::sum(x.asum(), ep.zeta),
                        k: x.length(),
                        arg0: x.arg0(),
                        n: ep.n as int,
                    }),
                    scale == T::prod(
                        T::prod(x.w, ep.coef),
                        T::prod(T::prod(T::count(16), T::circle()), T::circle()),
                    ),
                    1 <= x.factor_count() <= usize::MAX,
                    q@.len() == (l + la + 1) * (l + lb + 1) * (la + lb + 1),
                    forall|p: int, o: int, s: int|
                        0 <= p <= l + la && 0 <= o <= l + lb && 0 <= s <= la + lb
                            ==> #[trigger] q@[cell(p, l + lb + 1, o, la + lb + 1, s)]
                            == r.projected(
                            nodes@,
                            x.lengths().0,
                            x.lengths().1,
                            p,
                            o,
                            s,
                            nodes@.len() as int,
                        ),
                    forall|k: int|
                        0 <= k < ga@.len() ==> (#[trigger] ga@[k])@ == projected_factors(
                            x.a,
                            l as int,
                            direction(x.a.cv, T::root(square(x.a.cv))).1,
                            k,
                        ),
                    forall|k: int|
                        0 <= k < gb@.len() ==> (#[trigger] gb@[k])@ == projected_factors(
                            x.b,
                            l as int,
                            direction(x.b.cv, T::root(square(x.b.cv))).1,
                            k,
                        ),
                decreases block@.len() - e,
            {
                proof {
                    lemma_index_parts(e as int, ga@.len() as int, nb_c as int);
                    lemma_factor_bounds(l as int, lb as int);
                    lemma_factor_bounds(l as int, la as int);
                }
                let (ia, ib) = (e / nb_c, e % nb_c);
                assert(ga@[ia as int]@ == projected_factors(
                    x.a,
                    l as int,
                    direction(x.a.cv, T::root(square(x.a.cv))).1,
                    ia as int,
                ));
                assert(gb@[ib as int]@ == projected_factors(
                    x.b,
                    l as int,
                    direction(x.b.cv, T::root(square(x.b.cv))).1,
                    ib as int,
                ));
                let acc = sum_factors(
                    &ga[ia],
                    &gb[ib],
                    &q,
                    la,
                    lb,
                    l,
                    nodes,
                    Ghost(x),
                    Ghost(r),
                );
                block[e] = block[e].plus(scale.times(acc));
                proof {
                    lemma_added_step(before, e as int, g);
                }
                e = e + 1;
            }
        }
        n = n + 1;
    }
}

/// The sum over the factors of both sides.
fn sum_factors<T: Real>(
    ga: &Vec<T>,
    gb: &Vec<T>,
    q: &Vec<T>,
    la: usize,
    lb: usize,
    l: usize,
    nodes: &Vec<(T, T)>,
    Ghost(x): Ghost<ProjectedPair<T>>,
    Ghost(r): Ghost<Radial<T>>,
) -> (acc: T)
    requires
        x.l == l,
        x.a.l == la,
        x.b.l == lb,
        l <= MAX_DEGREE,
        tables_fit(l as int, la as int, lb as int),
        la <= 7,
        lb <= 7,
        ga@.len() == x.factor_count(),
        gb@.len() == (2 * l + 1) * (l + lb + 1) * (lb + 1),
        q@.len() == (l + la + 1) * (l + lb + 1) * (la + lb + 1),
        forall|p: int, o: int, s: int|
            0 <= p <= l + la && 0 <= o <= l + lb && 0 <= s <= la + lb ==> #[trigger] q@[cell(
                p,
                l + lb + 1,
                o,
                la + lb + 1,
                s,
            )] == r.projected(
                nodes@,
                x.lengths().0,
                x.lengths().1,
                p,
                o,
                s,
                nodes@.len() as int,
            ),
    ensures
        acc == x.sum(ga@, gb@, r, nodes@, x.factor_count()),
{
    let mut acc = T::from_count(0);
    let mut u: usize = 0;
    while u < ga.len()
        invariant
            u <= ga@.len(),
            x.l == l,
            x.a.l == la,
            x.b.l == lb,
            l <= MAX_DEGREE,
            tables_fit(l as int, la as int, lb as int),
            la <= 7,
            lb <= 7,
            ga@.len() == x.factor_count(),
            gb@.len() == (2 * l + 1) * (l + lb + 1) * (lb + 1),
            q@.len() == (l + la + 1) * (l + lb + 1) * (la + lb + 1),
            forall|p: int, o: int, s: int|
                0 <= p <= l + la && 0 <= o <= l + lb && 0 <= s <= la + lb ==> #[trigger] q@[cell(
                    p,
                    l + lb + 1,
                    o,
                    la + lb + 1,
                    s,
                )] == r.projected(
                    nodes@,
                    x.lengths().0,
                    x.lengths().1,
                    p,
                    o,
                    s,
                    nodes@.len() as int,
                ),
            acc == x.sum(ga@, gb@, r, nodes@, u as int),
        decreases ga@.len() - u,
    {
        if !is_zero(ga[u]) {
            acc = add_row(acc, ga, gb, q, u, la, lb, l, nodes, Ghost(x), Ghost(r));
        }
        u = u + 1;
    }
    acc
}

/// Add the projected part of degree `l` to the block of two sides.
#[verifier::spinoff_prover]
#[verifier::rlimit(40)]
pub fn type2_into<T: Real>(
    l: usize,
    prims: &Vec<EcpPrimitive<T>>,
    sa: &EcpSide<T>,
    sb: &EcpSide<T>,
    rsh: &Rsh<T>,
    nodes: &Vec<(T, T)>,
    block: &mut Vec<T>,
)
    requires
        sa.valid(),
        sb.valid(),
        rsh.valid(),
        l + sa.l <= rsh.top(),
        l + sb.l <= rsh.top(),
        tables_fit(l as int, sa.l as int, sb.l as int),
        old(block)@.len() == block_size(sa.l as int, sb.l as int),
    ensures
        final(block)@.len() == old(block)@.len(),
        final(block)@ == with_projected(
            old(block)@,
            l as int,
            sa.shown(),
            sb.shown(),
            prims@,
            nodes@,
        ),
{
    let ghost was = block@;
    let (ra_eff, khat_a) = direction_of(sa.cv, norm2(sa.cv).sqrt());
    let (rb_eff, khat_b) = direction_of(sb.cv, norm2(sb.cv).sqrt());
    let fa = build_f2(rsh, l, sa.l, khat_a);
    let fb = build_f2(rsh, l, sb.l, khat_b);
    let ga = build_g2(&fa, sa, l, Ghost(khat_a));
    let gb = build_g2(&fb, sb, l, Ghost(khat_b));
    let mut mba = filled(l + sa.l + 1, T::from_count(0));
    let mut mbb = filled(l + sb.l + 1, T::from_count(0));
    let mut i: usize = 0;
    while i < sa.exps.len()
        invariant
            i <= sa.exps@.len(),
            sa.valid(),
            sb.valid(),
            l + sa.l <= MAX_DEGREE,
            l + sb.l <= MAX_DEGREE,
            tables_fit(l as int, sa.l as int, sb.l as int),
            (ra_eff, khat_a) == direction(sa.cv, T::root(square(sa.cv))),
            (rb_eff, khat_b) == direction(sb.cv, T::root(square(sb.cv))),
            ga@.len() == cart_count(sa.l as int),
            gb@.len() == cart_count(sb.l as int),
            forall|k: int|
                0 <= k < ga@.len() ==> (#[trigger] ga@[k])@ == projected_factors(
                    sa.shown(),
                    l as int,
                    khat_a,
                    k,
                ),
            forall|k: int|
                0 <= k < gb@.len() ==> (#[trigger] gb@[k])@ == projected_factors(
                    sb.shown(),
                    l as int,
                    khat_b,
                    k,
                ),
            mba@.len() == l + sa.l + 1,
            mbb@.len() == l + sb.l + 1,
            block@.len() == block_size(sa.l as int, sb.l as int),
            block@ == projected_before(
                was,
                l as int,
                sa.shown(),
                sb.shown(),
                prims@,
                nodes@,
                i as int,
                0,
            ),
        decreases sa.exps@.len() - i,
    {
        let mut j: usize = 0;
        while j < sb.exps.len()
            invariant
                i < sa.exps@.len(),
                j <= sb.exps@.len(),
                sa.valid(),
                sb.valid(),
                l + sa.l <= MAX_DEGREE,
                l + sb.l <= MAX_DEGREE,
                tables_fit(l as int, sa.l as int, sb.l as int),
                (ra_eff, khat_a) == direction(sa.cv, T::root(square(sa.cv))),
                (rb_eff, khat_b) == direction(sb.cv, T::root(square(sb.cv))),
                ga@.len() == cart_count(sa.l as int),
                gb@.len() == cart_count(sb.l as int),
                forall|k: int|
                    0 <= k < ga@.len() ==> (#[trigger] ga@[k])@ == projected_factors(
                        sa.shown(),
                        l as int,
                        khat_a,
                        k,
                    ),
                forall|k: int|
                    0 <= k < gb@.len() ==> (#[trigger] gb@[k])@ == projected_factors(
                        sb.shown(),
                        l as int,
                        khat_b,
                        k,
                    ),
                mba@.len() == l + sa.l + 1,
                mbb@.len() == l + sb.l + 1,
                block@.len() == block_size(sa.l as int, sb.l as int),
                block@ == projected_before(
                    was,
                    l as int,
                    sa.shown(),
                    sb.shown(),
                    prims@,
                    nodes@,
                    i as int,
                    j as int,
                ),
            decreases sb.exps@.len() - j,
        {
            add_terms(
                l,
                sa,
                sb,
                prims,
                nodes,
                &ga,
                &gb,
                ra_eff,
                rb_eff,
                i,
                j,
                &mut mba,
                &mut mbb,
                block,
            );
            j = j + 1;
        }
        i = i + 1;
    }
}

} // verus!
