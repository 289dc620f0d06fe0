//! The integrals of the local part of an effective core potential.
use vstd::prelude::*;

use crate::ecp::angular::{
    build_ang1, convolution, convolve, coord_coeffs, gather, gathered, local_table, monomials,
    shifted_powers,
};
use crate::ecp::harmonics::Rsh;
use crate::ecp::radial::{radial_type1, Radial};
use crate::ecp::side::{
    center_exponent, direction, direction_of, is_left_out, is_pair_left_out, left_out,
    pair_left_out, EcpPrimitive, EcpSide, SideView,
};
use crate::engine::os::{block_size, lemma_block_bounds, lemma_pair_at, pair_at};
use crate::engine::pairs::{norm2, square, Vec3};
use crate::flat::{added, lemma_added_step, lemma_index_parts, pair};
use crate::math::am::{
    cart_components, cart_count, component_at, lemma_listed_components, powers, Powers,
};
use crate::math::solid_harmonics::{is_zero, vanishes};
use crate::scalar::{filled, Real};

verus! {

/// The coefficients of the product of two components about their centers, by axis.
pub open spec fn product_powers<T: Real>(
    pa: Powers,
    cav: Vec3<T>,
    pb: Powers,
    cbv: Vec3<T>,
) -> (Seq<T>, Seq<T>, Seq<T>) {
    (
        convolution(shifted_powers(pa.0, cav[0]), shifted_powers(pb.0, cbv[0])),
        convolution(shifted_powers(pa.1, cav[1]), shifted_powers(pb.1, cbv[1])),
        convolution(shifted_powers(pa.2, cav[2]), shifted_powers(pb.2, cbv[2])),
    )
}

/// The angular factors of two components, by degree and power.
pub open spec fn local_factors<T: Real>(
    a: SideView<T>,
    b: SideView<T>,
    u: Vec3<T>,
    e: int,
) -> Seq<T> {
    let ltot = a.l + b.l;
    let d = ltot + 1;
    let (pa, pb) = pair_at(a.l, b.l, e);
    let c = product_powers(pa, a.cv, pb, b.cv);
    Seq::new(
        (d * d) as nat,
        |j: int| gathered(c, local_table(ltot, j / d, u), d, j % d, monomials(c)),
    )
}

/// The radial integrals, by degree and power.
pub open spec fn local_radials<T: Real>(x: Radial<T>, nodes: Seq<(T, T)>, d: int) -> Seq<T> {
    Seq::new((d * d) as nat, |j: int| x.local(nodes, j / d, j % d, nodes.len() as int))
}

/// The sum of the first `n` products of factors that do not vanish with their integrals.
pub open spec fn joined_up<T: Real>(v: Seq<T>, q: Seq<T>, n: int) -> T
    decreases n,
{
    if n <= 0 {
        T::count(0)
    } else if vanishes(v[n - 1]) {
        joined_up(v, q, n - 1)
    } else {
        T::sum(joined_up(v, q, n - 1), T::prod(v[n - 1], q[n - 1]))
    }
}

fn join_up<T: Real>(v: &Vec<T>, q: &Vec<T>) -> (acc: T)
    requires
        v@.len() == q@.len(),
    ensures
        acc == joined_up(v@, q@, v@.len() as int),
{
    let mut acc = T::from_count(0);
    let mut n: usize = 0;
    while n < v.len()
        invariant
            n <= v@.len(),
            v@.len() == q@.len(),
            acc == joined_up(v@, q@, n as int),
        decreases v@.len() - n,
    {
        if !is_zero(v[n]) {
            acc = acc.plus(v[n].times(q[n]));
        }
        n = n + 1;
    }
    acc
}

/// A pair of primitives over the local part.
pub struct LocalPair<T> {
    pub a: SideView<T>,
    pub b: SideView<T>,
    pub aa: T,
    pub ab: T,
    pub w: T,
}

impl<T: Real> LocalPair<T> {
    /// The exponent at the center of the potential.
    pub open spec fn arg0(self) -> T {
        center_exponent(self.aa, square(self.a.cv), self.ab, square(self.b.cv))
    }

    /// The vector of the exponential.
    pub open spec fn vector(self) -> Vec3<T> {
        let (u, v) = (self.a.cv, self.b.cv);
        [
            T::prod(T::count(2), T::sum(T::prod(self.aa, u[0]), T::prod(self.ab, v[0]))),
            T::prod(T::count(2), T::sum(T::prod(self.aa, u[1]), T::prod(self.ab, v[1]))),
            T::prod(T::count(2), T::sum(T::prod(self.aa, u[2]), T::prod(self.ab, v[2]))),
        ]
    }

    /// The length of that vector.
    pub open spec fn length(self) -> T {
        T::root(square(self.vector()))
    }

    /// The sum of the exponents.
    pub open spec fn asum(self) -> T {
        T::sum(self.aa, self.ab)
    }

    /// The length and the direction that the expansion uses.
    pub open spec fn expansion(self) -> (T, Vec3<T>) {
        direction(self.vector(), self.length())
    }

    /// The contribution of one term of the potential to entry `e` of a block.
    pub open spec fn term(self, ep: EcpPrimitive<T>, nodes: Seq<(T, T)>) -> spec_fn(int) -> T {
        |e: int|
            {
                let d = self.a.l + self.b.l + 1;
                let (k, u) = self.expansion();
                let x = Radial {
                    alpha: T::sum(self.asum(), ep.zeta),
                    k,
                    arg0: self.arg0(),
                    n: ep.n as int,
                };
                T::prod(
                    T::prod(T::prod(self.w, ep.coef), T::prod(T::count(4), T::circle())),
                    joined_up(
                        local_factors(self.a, self.b, u, e),
                        local_radials(x, nodes, d),
                        d * d,
                    ),
                )
            }
    }

    /// A block with the first `n` terms of the potential added.
    pub open spec fn with_terms(
        self,
        old: Seq<T>,
        prims: Seq<EcpPrimitive<T>>,
        nodes: Seq<(T, T)>,
        n: int,
    ) -> Seq<T>
        decreases n,
    {
        if n <= 0 {
            old
        } else {
            let before = self.with_terms(old, prims, nodes, n - 1);
            let ep = prims[n - 1];
            if left_out(ep, self.arg0(), self.expansion().0, self.asum()) {
                before
            } else {
                added(before, block_size(self.a.l, self.b.l), self.term(ep, nodes))
            }
        }
    }

    /// A block with the potential added.
    pub open spec fn with_potential(
        self,
        old: Seq<T>,
        prims: Seq<EcpPrimitive<T>>,
        nodes: Seq<(T, T)>,
    ) -> Seq<T> {
        if pair_left_out(self.arg0(), self.length(), self.asum()) {
            old
        } else {
            self.with_terms(old, prims, nodes, prims.len() as int)
        }
    }
}

/// The pair of primitives `i` and `j` of two sides.
pub open spec fn local_pair<T: Real>(a: SideView<T>, b: SideView<T>, i: int, j: int) -> LocalPair<
    T,
> {
    LocalPair { a, b, aa: a.exps[i], ab: b.exps[j], w: T::prod(a.wts[i], b.wts[j]) }
}

/// A block with the local part added over the primitive pairs before `(i, j)`.
pub open spec fn local_before<T: Real>(
    old: Seq<T>,
    a: SideView<T>,
    b: SideView<T>,
    prims: Seq<EcpPrimitive<T>>,
    nodes: Seq<(T, T)>,
    i: int,
    j: int,
) -> Seq<T>
    decreases i, j,
{
    if j > 0 {
        local_pair(a, b, i, j - 1).with_potential(
            local_before(old, a, b, prims, nodes, i, j - 1),
            prims,
            nodes,
        )
    } else if i > 0 {
        local_before(old, a, b, prims, nodes, i - 1, b.exps.len() as int)
    } else {
        old
    }
}

/// A block with the local part of a potential added.
pub open spec fn with_local<T: Real>(
    old: Seq<T>,
    a: SideView<T>,
    b: SideView<T>,
    prims: Seq<EcpPrimitive<T>>,
    nodes: Seq<(T, T)>,
) -> Seq<T> {
    if prims.len() == 0 {
        old
    } else {
        local_before(old, a, b, prims, nodes, a.exps.len() as int, 0)
    }
}

/// The angular factors of one pair of components.
fn component_factors<T: Real>(
    pa: [usize; 3],
    cav: Vec3<T>,
    pb: [usize; 3],
    cbv: Vec3<T>,
    ang: &Vec<Vec<T>>,
    ltot: usize,
    Ghost(u): Ghost<Vec3<T>>,
) -> (v: Vec<T>)
    requires
        ltot <= 14,
        pa[0] + pa[1] + pa[2] + pb[0] + pb[1] + pb[2] == ltot,
        ang@.len() == ltot + 1,
        forall|lam: int|
            0 <= lam <= ltot ==> (#[trigger] ang@[lam])@ == local_table(ltot as int, lam, u),
    ensures
        ({
            let d = ltot + 1;
            let c = product_powers(powers(pa), cav, powers(pb), cbv);
            v@ == Seq::new(
                (d * d) as nat,
                |j: int|
                    gathered(c, local_table(ltot as int, j / d, u), d, j % d, monomials(c)),
            )
        }),
{
    let d: usize = ltot + 1;
    let cx = convolve(&coord_coeffs(pa[0], cav[0]), &coord_coeffs(pb[0], cbv[0]));
    let cy = convolve(&coord_coeffs(pa[1], cav[1]), &coord_coeffs(pb[1], cbv[1]));
    let cz = convolve(&coord_coeffs(pa[2], cav[2]), &coord_coeffs(pb[2], cbv[2]));
    let ghost c = (cx@, cy@, cz@);
    assert(c == product_powers(powers(pa), cav, powers(pb), cbv));
    assert(d * d <= 225) by (nonlinear_arith)
        requires
            d <= 15,
    ;
    let v = gather(&cx, &cy, &cz, ang, d);
    proof {
        let w = Seq::new(
            (d * d) as nat,
            |j: int|
                gathered(
                    c,
                    local_table(ltot as int, j / (d as int), u),
                    d as int,
                    j % (d as int),
                    monomials(c),
                ),
        );
        assert forall|j: int| 0 <= j < d * d implies v@[j] == w[j] by {
            lemma_index_parts(j, d as int, d as int);
            assert(v@[pair(j / (d as int), d as int, j % (d as int))] == gathered(
                c,
                ang@[j / (d as int)]@,
                d as int,
                j % (d as int),
                monomials(c),
            ));
        }
        assert(v@ =~= w);
    }
    v
}

/// The angular factors of all pairs of components.
pub(crate) fn build_v1<T: Real>(
    a: &EcpSide<T>,
    b: &EcpSide<T>,
    ang: &Vec<Vec<T>>,
    Ghost(u): Ghost<Vec3<T>>,
) -> (v: Vec<Vec<T>>)
    requires
        a.valid(),
        b.valid(),
        ang@.len() == a.l + b.l + 1,
        forall|lam: int|
            0 <= lam <= a.l + b.l ==> (#[trigger] ang@[lam])@ == local_table(a.l + b.l, lam, u),
    ensures
        v@.len() == block_size(a.l as int, b.l as int),
        forall|e: int|
            0 <= e < v@.len() ==> (#[trigger] v@[e])@ == local_factors(a.shown(), b.shown(), u, e),
{
    let (la, lb) = (a.l, b.l);
    proof {
        lemma_block_bounds(la as int, lb as int);
    }
    let comps_a = cart_components(la);
    let comps_b = cart_components(lb);
    proof {
        lemma_listed_components(comps_a@, la as int);
        lemma_listed_components(comps_b@, lb as int);
    }
    let (na, nb) = (comps_a.len(), comps_b.len());
    let mut v: Vec<Vec<T>> = Vec::new();
    let mut ia: usize = 0;
    while ia < na
        invariant
            ia <= na,
            a.valid(),
            b.valid(),
            la == a.l,
            lb == b.l,
            na == comps_a@.len(),
            nb == comps_b@.len(),
            na == cart_count(la as int),
            nb == cart_count(lb as int),
            forall|i: int|
                0 <= i < na ==> #[trigger] powers(comps_a@[i]) == component_at(la as int, i),
            forall|i: int|
                0 <= i < nb ==> #[trigger] powers(comps_b@[i]) == component_at(lb as int, i),
            ang@.len() == la + lb + 1,
            forall|lam: int|
                0 <= lam <= la + lb ==> (#[trigger] ang@[lam])@ == local_table(la + lb, lam, u),
            v@.len() == ia * nb,
            forall|e: int|
                0 <= e < v@.len() ==> (#[trigger] v@[e])@ == local_factors(
                    a.shown(),
                    b.shown(),
                    u,
                    e,
                ),
        decreases na - ia,
    {
        let mut ib: usize = 0;
        while ib < nb
            invariant
                ia < na,
                ib <= nb,
                a.valid(),
                b.valid(),
                la == a.l,
                lb == b.l,
                na == comps_a@.len(),
                nb == comps_b@.len(),
                na == cart_count(la as int),
                nb == cart_count(lb as int),
                forall|i: int|
                    0 <= i < na ==> #[trigger] powers(comps_a@[i]) == component_at(la as int, i),
                forall|i: int|
                    0 <= i < nb ==> #[trigger] powers(comps_b@[i]) == component_at(lb as int, i),
                ang@.len() == la + lb + 1,
                forall|lam: int|
                    0 <= lam <= la + lb ==> (#[trigger] ang@[lam])@ == local_table(
                        la + lb,
                        lam,
                        u,
                    ),
                v@.len() == pair(ia as int, nb as int, ib as int),
                forall|e: int|
                    0 <= e < v@.len() ==> (#[trigger] v@[e])@ == local_factors(
                        a.shown(),
                        b.shown(),
                        u,
                        e,
                    ),
            decreases nb - ib,
        {
            proof {
                lemma_pair_at(la as int, lb as int, ia as int, ib as int);
                assert(powers(comps_a@[ia as int]) == component_at(la as int, ia as int));
                assert(powers(comps_b@[ib as int]) == component_at(lb as int, ib as int));
            }
            let slot = component_factors(
                comps_a[ia],
                a.cv,
                comps_b[ib],
                b.cv,
                ang,
                la + lb,
                Ghost(u),
            );
            assert(slot@ =~= local_factors(
                a.shown(),
                b.shown(),
                u,
                pair(ia as int, nb as int, ib as int),
            ));
            v.push(slot);
            ib = ib + 1;
        }
        assert(ia * nb + nb == (ia + 1) * nb) by (nonlinear_arith);
        ia = ia + 1;
    }
    v
}

/// Add the terms of the potential for one pair of primitives.
#[verifier::spinoff_prover]
#[verifier::rlimit(40)]
fn add_terms<T: Real>(
    a: &EcpSide<T>,
    b: &EcpSide<T>,
    prims: &Vec<EcpPrimitive<T>>,
    rsh: &Rsh<T>,
    nodes: &Vec<(T, T)>,
    i: usize,
    j: usize,
    mb: &mut Vec<T>,
    block: &mut Vec<T>,
)
    requires
        a.valid(),
        b.valid(),
        rsh.valid(),
        a.l + b.l <= rsh.top(),
        i < a.exps@.len(),
        j < b.exps@.len(),
        old(mb)@.len() == a.l + b.l + 1,
        old(block)@.len() == block_size(a.l as int, b.l as int),
    ensures
        final(mb)@.len() == a.l + b.l + 1,
        final(block)@.len() == old(block)@.len(),
        final(block)@ == local_pair(a.shown(), b.shown(), i as int, j as int).with_potential(
            old(block)@,
            prims@,
            nodes@,
        ),
{
    let ltot: usize = a.l + b.l;
    let d: usize = ltot + 1;
    let (aa, ab) = (a.exps[i], b.exps[j]);
    let w = a.wts[i].times(b.wts[j]);
    let ghost x = local_pair(a.shown(), b.shown(), i as int, j as int);
    let ghost was = block@;
    let arg0 = aa.negated().times(norm2(a.cv)).minus(ab.times(norm2(b.cv)));
    let two = T::from_count(2);
    let kvec = [
        two.times(aa.times(a.cv[0]).plus(ab.times(b.cv[0]))),
        two.times(aa.times(a.cv[1]).plus(ab.times(b.cv[1]))),
        two.times(aa.times(a.cv[2]).plus(ab.times(b.cv[2]))),
    ];
    assert(kvec == x.vector());
    let kk = norm2(kvec).sqrt();
    let asum = aa.plus(ab);
    if is_pair_left_out(arg0, kk, asum) {
        return ;
    }
    let (k, khat) = direction_of(kvec, kk);
    let ang = build_ang1(rsh, ltot, khat);
    let v = build_v1(a, b, &ang, Ghost(khat));
    proof {
        lemma_block_bounds(a.l as int, b.l as int);
    }
    let mut n: usize = 0;
    while n < prims.len()
        invariant
            n <= prims@.len(),
            d == ltot + 1,
            ltot == a.l + b.l,
            a.valid(),
            b.valid(),
            mb@.len() == d,
            x == local_pair(a.shown(), b.shown(), i as int, j as int),
            w == x.w,
            arg0 == x.arg0(),
            asum == x.asum(),
            (k, khat) == x.expansion(),
            v@.len() == block_size(a.l as int, b.l as int),
            forall|e: int|
                0 <= e < v@.len() ==> (#[trigger] v@[e])@ == local_factors(x.a, x.b, khat, e),
            x.a.l == a.l,
            x.b.l == b.l,
            block@.len() == block_size(a.l as int, b.l as int),
            block@ == x.with_terms(was, prims@, nodes@, n as int),
        decreases prims@.len() - n,
    {
        let ep = &prims[n];
        if !is_left_out(ep, arg0, k, asum) {
            let alpha = asum.plus(ep.zeta);
            assert((ltot + 1) * (ltot + 1) <= 225) by (nonlinear_arith)
                requires
                    0 <= ltot <= 14,
            ;
            let q = radial_type1(nodes, alpha, k, arg0, ep.n, ltot, mb);
            let ghost r = Radial { alpha, k, arg0, n: ep.n as int };
            proof {
                assert forall|m: int| 0 <= m < d * d implies q@[m] == local_radials(
                    r,
                    nodes@,
                    d as int,
                )[m] by {
                    lemma_index_parts(m, d as int, d as int);
                    assert(q@[pair(m / (d as int), ltot + 1, m % (d as int))] == r.local(
                        nodes@,
                        m / (d as int),
                        m % (d as int),
                        nodes@.len() as int,
                    ));
                }
                assert(q@ =~= local_radials(r, nodes@, d as int));
            }
            let scale = w.times(ep.coef).times(T::from_count(4).times(T::pi()));
            let ghost before = block@;
            let ghost g = x.term(*ep, nodes@);
            proof {
                assert(added(before, 0, g) =~= before);
            }
            let mut e: usize = 0;
            while e < block.len()
                invariant
                    e <= block@.len(),
                    d == ltot + 1,
                    ltot == a.l + b.l,
                    x.a.l == a.l,
                    x.b.l == b.l,
                    before.len() == block_size(a.l as int, b.l as int),
                    v@.len() == before.len(),
                    block@ == added(before, e as int, g),
                    block@.len() == before.len(),
                    g == x.term(*ep, nodes@),
                    w == x.w,
                    (k, khat) == x.expansion(),
                    r == (Radial {
                        alpha: T::sum(x.asum(), ep.zeta),
                        k,
                        arg0: x.arg0(),
                        n: ep.n as int,
                    }),
                    scale == T::prod(
                        T::prod(x.w, ep.coef),
                        T::prod(T::count(4), T::circle()),
                    ),
                    q@ == local_radials(r, nodes@, d as int),
                    forall|m: int|
                        0 <= m < v@.len() ==> (#[trigger] v@[m])@ == local_factors(
                            x.a,
                            x.b,
                            khat,
                            m,
                        ),
                decreases block@.len() - e,
            {
                assert(v@[e as int]@ == local_factors(x.a, x.b, khat, e as int));
                block[e] = block[e].plus(scale.times(join_up(&v[e], &q)));
                proof {
                    lemma_added_step(before, e as int, g);
                }
                e = e + 1;
            }
        }
        n = n + 1;
    }
}

/// Add the local part of a potential to the block of two sides.
pub fn type1_into<T: Real>(
    sa: &EcpSide<T>,
    sb: &EcpSide<T>,
    prims: &Vec<EcpPrimitive<T>>,
    rsh: &Rsh<T>,
    nodes: &Vec<(T, T)>,
    block: &mut Vec<T>,
)
    requires
        sa.valid(),
        sb.valid(),
        rsh.valid(),
        sa.l + sb.l <= rsh.top(),
        old(block)@.len() == block_size(sa.l as int, sb.l as int),
    ensures
        final(block)@.len() == old(block)@.len(),
        final(block)@ == with_local(old(block)@, sa.shown(), sb.shown(), prims@, nodes@),
{
    if prims.len() == 0 {
        return ;
    }
    let ghost was = block@;
    let mut mb = filled(sa.l + sb.l + 1, T::from_count(0));
    let mut i: usize = 0;
    while i < sa.exps.len()
        invariant
            i <= sa.exps@.len(),
            sa.valid(),
            sb.valid(),
            rsh.valid(),
            sa.l + sb.l <= rsh.top(),
            mb@.len() == sa.l + sb.l + 1,
            block@.len() == block_size(sa.l as int, sb.l as int),
            block@ == local_before(was, sa.shown(), sb.shown(), prims@, nodes@, i as int, 0),
        decreases sa.exps@.len() - i,
    {
        let mut j: usize = 0;
        while j < sb.exps.len()
            invariant
                i < sa.exps@.len(),
                j <= sb.exps@.len(),
                sa.valid(),
                sb.valid(),
                rsh.valid(),
                sa.l + sb.l <= rsh.top(),
                mb@.len() == sa.l + sb.l + 1,
                block@.len() == block_size(sa.l as int, sb.l as int),
                block@ == local_before(
                    was,
                    sa.shown(),
                    sb.shown(),
                    prims@,
                    nodes@,
                    i as int,
                    j as int,
                ),
            decreases sb.exps@.len() - j,
        {
            add_terms(sa, sb, prims, rsh, nodes, i, j, &mut mb, block);
            j = j + 1;
        }
        i = i + 1;
    }
}

} // verus!
