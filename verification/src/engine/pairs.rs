//! Primitive pairs of two contracted shells and the scalars of a pair of pairs.
use vstd::prelude::*;

use crate::engine::vrr::{QuartetHeader, VrrInput};
use crate::math::boys::ladder;
use crate::scalar::{fraction, ratio, Real, Scalar};

verus! {

/// A point or displacement in space.
pub type Vec3<T> = [T; 3];

/// A contracted shell as the engine sees it: its centre, angular momentum, and its
/// primitives with their effective coefficients.
#[derive(Clone, Copy, Debug)]
pub struct ShellRef<'a, T> {
    /// Shell centre.
    pub center: Vec3<T>,
    /// Angular momentum.
    pub l: usize,
    /// Primitive exponents.
    pub exps: &'a [T],
    /// Effective contraction coefficients, aligned with `exps`.
    pub coeffs: &'a [T],
}

/// One primitive pair: combined exponent, product centre, overlap prefactor, the
/// two coefficients, `1/2 zeta`, and the displacement of the product centre from
/// the first centre.
#[derive(Clone, Copy, Debug)]
pub struct PrimPair<T> {
    /// `alpha + beta`.
    pub zeta: T,
    /// Gaussian product centre.
    pub center: Vec3<T>,
    /// `exp(-alpha beta / zeta |A-B|^2)`.
    pub kappa: T,
    /// Coefficient of the first primitive.
    pub c1: T,
    /// Coefficient of the second primitive.
    pub c2: T,
    /// `1/2 zeta`.
    pub inv_2zeta: T,
    /// Product centre minus first centre.
    pub r1: Vec3<T>,
}

/// `u - v`.
pub open spec fn difference<T: Scalar>(u: Vec3<T>, v: Vec3<T>) -> Vec3<T> {
    [T::diff(u[0], v[0]), T::diff(u[1], v[1]), T::diff(u[2], v[2])]
}

/// `|u|^2`.
pub open spec fn square<T: Scalar>(u: Vec3<T>) -> T {
    T::sum(T::sum(T::prod(u[0], u[0]), T::prod(u[1], u[1])), T::prod(u[2], u[2]))
}

/// `(a ca + b cb) / p` along one axis.
pub open spec fn weighted<T: Scalar>(a: T, x: T, b: T, y: T, p: T) -> T {
    T::quot(T::sum(T::prod(a, x), T::prod(b, y)), p)
}

/// `(a ca + b cb) / p`.
pub open spec fn weighted_center<T: Scalar>(
    a: T,
    ca: Vec3<T>,
    b: T,
    cb: Vec3<T>,
    p: T,
) -> Vec3<T> {
    [
        weighted(a, ca[0], b, cb[0], p),
        weighted(a, ca[1], b, cb[1], p),
        weighted(a, ca[2], b, cb[2], p),
    ]
}

/// `u - v`.
pub fn sub<T: Scalar>(u: Vec3<T>, v: Vec3<T>) -> (r: Vec3<T>)
    ensures
        r == difference(u, v),
{
    [u[0].minus(v[0]), u[1].minus(v[1]), u[2].minus(v[2])]
}

/// `|u|^2`.
pub fn norm2<T: Scalar>(u: Vec3<T>) -> (r: T)
    ensures
        r == square(u),
{
    u[0].times(u[0]).plus(u[1].times(u[1])).plus(u[2].times(u[2]))
}

/// `|u - v|^2`.
pub fn dist2<T: Scalar>(u: Vec3<T>, v: Vec3<T>) -> (r: T)
    ensures
        r == square(difference(u, v)),
{
    norm2(self::sub(u, v))
}

/// `(a ca + b cb) / p`.
pub fn combine<T: Scalar>(a: T, ca: Vec3<T>, b: T, cb: Vec3<T>, p: T) -> (r: Vec3<T>)
    ensures
        r == weighted_center(a, ca, b, cb, p),
{
    [
        a.times(ca[0]).plus(b.times(cb[0])).over(p),
        a.times(ca[1]).plus(b.times(cb[1])).over(p),
        a.times(ca[2]).plus(b.times(cb[2])).over(p),
    ]
}

/// Bound on `kappa |c1 c2|` below which a primitive pair is dropped: 1e-32.
pub open spec fn negligible<T: Scalar>() -> T {
    T::quot(fraction::<T>(1, 100_000_000_000_000), T::count(1_000_000_000_000_000_000))
}

/// Bound on `kappa |c1 c2|` below which a primitive pair is dropped: 1e-32.
pub fn pair_negligible<T: Scalar>() -> (r: T)
    ensures
        r == negligible::<T>(),
{
    ratio::<T>(1, 100_000_000_000_000).over(T::from_count(1_000_000_000_000_000_000))
}

/// The pair of a primitive of exponent `e1` and coefficient `c1` at `a` with one of
/// `e2`, `c2` at `b`.
pub open spec fn prim_pair<T: Real>(
    a: Vec3<T>,
    e1: T,
    c1: T,
    b: Vec3<T>,
    e2: T,
    c2: T,
) -> PrimPair<T> {
    let zeta = T::sum(e1, e2);
    let center = weighted_center(e1, a, e2, b, zeta);
    PrimPair {
        zeta,
        center,
        kappa: T::expo(
            T::prod(T::neg(T::quot(T::prod(e1, e2), zeta)), square(difference(a, b))),
        ),
        c1,
        c2,
        inv_2zeta: T::quot(fraction::<T>(1, 2), zeta),
        r1: difference(center, a),
    }
}

/// Whether a pair is dropped.
pub open spec fn dropped<T: Real>(p: PrimPair<T>) -> bool {
    T::lt(T::prod(p.kappa, T::magnitude(T::prod(p.c1, p.c2))), negligible::<T>())
}

/// The center, the exponents and the coefficients of a contracted shell.
pub type Contraction<T> = (Vec3<T>, Seq<T>, Seq<T>);

impl<'a, T> ShellRef<'a, T> {
    /// The center, the exponents and the coefficients.
    pub open spec fn contraction(self) -> Contraction<T> {
        (self.center, self.exps@, self.coeffs@)
    }
}

/// Number of primitives of a shell: exponents with a coefficient.
pub open spec fn primitive_count<T>(s: Contraction<T>) -> int {
    if s.1.len() <= s.2.len() {
        s.1.len() as int
    } else {
        s.2.len() as int
    }
}

/// The pairs that are kept of all primitives of `s1` before `i`, and of primitive
/// `i` with those of `s2` before `j`, in order.
pub open spec fn kept_pairs<T: Real>(
    s1: Contraction<T>,
    s2: Contraction<T>,
    i: int,
    j: int,
) -> Seq<PrimPair<T>>
    decreases i, j,
{
    if j > 0 {
        let p = prim_pair(s1.0, s1.1[i], s1.2[i], s2.0, s2.1[j - 1], s2.2[j - 1]);
        if dropped(p) {
            kept_pairs(s1, s2, i, j - 1)
        } else {
            kept_pairs(s1, s2, i, j - 1).push(p)
        }
    } else if i > 0 {
        kept_pairs(s1, s2, i - 1, primitive_count(s2))
    } else {
        Seq::empty()
    }
}

/// The pairs that are kept of two shells, `s1` outer and `s2` inner.
pub open spec fn shell_pairs<T: Real>(s1: Contraction<T>, s2: Contraction<T>) -> Seq<PrimPair<T>> {
    kept_pairs(s1, s2, primitive_count(s1), 0)
}

/// Fill `out` with the pairs of two shells that are kept. The order of the shells
/// matters: `r1` is taken from the first.
pub fn build_pairs<T: Real>(out: &mut Vec<PrimPair<T>>, s1: ShellRef<T>, s2: ShellRef<T>)
    ensures
        final(out)@ == shell_pairs(s1.contraction(), s2.contraction()),
{
    out.clear();
    let d2 = dist2(s1.center, s2.center);
    let negligible = pair_negligible::<T>();
    let mut i: usize = 0;
    while i < s1.exps.len() && i < s1.coeffs.len()
        invariant
            i <= primitive_count(s1.contraction()),
            d2 == square(difference(s1.center, s2.center)),
            negligible == self::negligible::<T>(),
            out@ == kept_pairs(s1.contraction(), s2.contraction(), i as int, 0),
        decreases primitive_count(s1.contraction()) - i,
    {
        let e1 = s1.exps[i];
        let c1 = s1.coeffs[i];
        let mut j: usize = 0;
        while j < s2.exps.len() && j < s2.coeffs.len()
            invariant
                i < primitive_count(s1.contraction()),
                j <= primitive_count(s2.contraction()),
                e1 == s1.exps@[i as int],
                c1 == s1.coeffs@[i as int],
                d2 == square(difference(s1.center, s2.center)),
                negligible == self::negligible::<T>(),
                out@ == kept_pairs(s1.contraction(), s2.contraction(), i as int, j as int),
            decreases primitive_count(s2.contraction()) - j,
        {
            let e2 = s2.exps[j];
            let c2 = s2.coeffs[j];
            let zeta = e1.plus(e2);
            let kappa = e1.times(e2).over(zeta).negated().times(d2).exp();
            if !kappa.times(c1.times(c2).abs()).less(negligible) {
                let center = combine(e1, s1.center, e2, s2.center, zeta);
                out.push(
                    PrimPair {
                        zeta,
                        center,
                        kappa,
                        c1,
                        c2,
                        inv_2zeta: ratio::<T>(1, 2).over(zeta),
                        r1: self::sub(center, s1.center),
                    },
                );
            }
            j = j + 1;
        }
        i = i + 1;
    }
}

/// Number of primitive pairs of two shells that are kept.
#[must_use]
pub fn surviving_pair_count<T: Real>(s1: ShellRef<T>, s2: ShellRef<T>) -> (n: usize)
    requires
        s1.exps@.len() * s2.exps@.len() <= usize::MAX,
    ensures
        n == shell_pairs(s1.contraction(), s2.contraction()).len(),
{
    let d2 = dist2(s1.center, s2.center);
    let negligible = pair_negligible::<T>();
    let mut n: usize = 0;
    let mut i: usize = 0;
    while i < s1.exps.len() && i < s1.coeffs.len()
        invariant
            i <= primitive_count(s1.contraction()),
            s1.exps@.len() * s2.exps@.len() <= usize::MAX,
            d2 == square(difference(s1.center, s2.center)),
            negligible == self::negligible::<T>(),
            n == kept_pairs(s1.contraction(), s2.contraction(), i as int, 0).len(),
            n <= i * s2.exps@.len(),
        decreases primitive_count(s1.contraction()) - i,
    {
        let e1 = s1.exps[i];
        let c1 = s1.coeffs[i];
        let mut j: usize = 0;
        while j < s2.exps.len() && j < s2.coeffs.len()
            invariant
                i < primitive_count(s1.contraction()),
                j <= primitive_count(s2.contraction()),
                s1.exps@.len() * s2.exps@.len() <= usize::MAX,
                e1 == s1.exps@[i as int],
                c1 == s1.coeffs@[i as int],
                d2 == square(difference(s1.center, s2.center)),
                negligible == self::negligible::<T>(),
                n == kept_pairs(s1.contraction(), s2.contraction(), i as int, j as int).len(),
                n <= i * s2.exps@.len() + j,
            decreases primitive_count(s2.contraction()) - j,
        {
            let e2 = s2.exps[j];
            let c2 = s2.coeffs[j];
            let zeta = e1.plus(e2);
            let kappa = e1.times(e2).over(zeta).negated().times(d2).exp();
            proof {
                let w = s2.exps@.len() as int;
                let h = s1.exps@.len() as int;
                assert(i * w + j + 1 <= h * w) by (nonlinear_arith)
                    requires
                        0 <= i < h,
                        0 <= j < w,
                ;
            }
            if !kappa.times(c1.times(c2).abs()).less(negligible) {
                n = n + 1;
            }
            j = j + 1;
        }
        proof {
            let w = s2.exps@.len() as int;
            assert((i + 1) * w == i * w + w) by (nonlinear_arith);
        }
        i = i + 1;
    }
    n
}

/// The primitive pairs that are kept of one ordered pair of shells, computed once
/// for all the quartets that share it.
pub struct ShellPairData<T> {
    pub pairs: Vec<PrimPair<T>>,
}

impl<T: Real> ShellPairData<T> {
    /// Number of primitive pairs that are kept.
    #[must_use]
    pub fn len(&self) -> (n: usize)
        ensures
            n == self.pairs@.len(),
    {
        self.pairs.len()
    }

    /// Whether no primitive pair is kept.
    #[must_use]
    pub fn is_empty(&self) -> (b: bool)
        ensures
            b == (self.pairs@.len() == 0),
    {
        self.pairs.len() == 0
    }
}

/// The primitive pairs that are kept of the ordered pair of shells `(s1, s2)`.
#[must_use]
pub fn shell_pair_data<T: Real>(s1: ShellRef<T>, s2: ShellRef<T>) -> (d: ShellPairData<T>)
    ensures
        d.pairs@ == shell_pairs(s1.contraction(), s2.contraction()),
{
    let mut pairs: Vec<PrimPair<T>> = Vec::new();
    build_pairs(&mut pairs, s1, s2);
    ShellPairData { pairs }
}

/// `2 pi^(5/2)`.
pub open spec fn coulomb_constant<T: Real>() -> T {
    T::prod(
        T::prod(T::prod(T::count(2), T::circle()), T::circle()),
        T::root(T::circle()),
    )
}

/// The scalars of a pair of primitive pairs: `W`, the prefactor
/// `2 pi^(5/2)/(p q sqrt(p+q)) K_ab K_cd`, the exponent ratios, the product of the
/// coefficients and the ladder argument `p q/(p+q) |P-Q|^2`.
pub open spec fn header_of<T: Real>(bra: PrimPair<T>, ket: PrimPair<T>) -> QuartetHeader<T> {
    let (p, q) = (bra.zeta, ket.zeta);
    let pq = T::sum(p, q);
    let w = weighted_center(p, bra.center, q, ket.center, pq);
    QuartetHeader {
        wp: difference(w, bra.center),
        wq: difference(w, ket.center),
        pref: T::prod(
            T::prod(
                T::quot(coulomb_constant::<T>(), T::prod(T::prod(p, q), T::root(pq))),
                bra.kappa,
            ),
            ket.kappa,
        ),
        inv_2pq: T::quot(fraction::<T>(1, 2), pq),
        q_over_pq: T::quot(q, pq),
        p_over_pq: T::quot(p, pq),
        scale: T::prod(T::prod(T::prod(bra.c1, bra.c2), ket.c1), ket.c2),
        t: T::prod(
            T::quot(T::prod(p, q), pq),
            square(difference(bra.center, ket.center)),
        ),
    }
}

/// What the vertical recurrence runs on for a pair of primitive pairs.
pub open spec fn input_of<T: Real>(bra: PrimPair<T>, ket: PrimPair<T>) -> VrrInput<T> {
    VrrInput {
        pa: bra.r1,
        qc: ket.r1,
        inv_2p: bra.inv_2zeta,
        inv_2q: ket.inv_2zeta,
        hdr: header_of(bra, ket),
    }
}

/// The base ladder of a pair of primitive pairs up to order `lt`.
pub open spec fn ladder_of<T: Real>(bra: PrimPair<T>, ket: PrimPair<T>, lt: int) -> Seq<T> {
    Seq::new((lt + 1) as nat, |m: int| ladder(lt, header_of(bra, ket).t, m))
}

/// `2 pi^(5/2)`.
pub fn two_pi_2_5<T: Real>() -> (r: T)
    ensures
        r == coulomb_constant::<T>(),
{
    T::from_count(2).times(T::pi()).times(T::pi()).times(T::pi().sqrt())
}

/// What the vertical recurrence runs on for a pair of primitive pairs.
pub fn quartet_input<T: Real>(bra: &PrimPair<T>, ket: &PrimPair<T>) -> (x: VrrInput<T>)
    ensures
        x == input_of(*bra, *ket),
{
    let p = bra.zeta;
    let q = ket.zeta;
    let pq = p.plus(q);
    let rho = p.times(q).over(pq);
    let t = rho.times(norm2(self::sub(bra.center, ket.center)));
    let w = combine(p, bra.center, q, ket.center, pq);
    let pref = two_pi_2_5::<T>().over(p.times(q).times(pq.sqrt())).times(bra.kappa).times(
        ket.kappa,
    );
    VrrInput {
        pa: bra.r1,
        qc: ket.r1,
        inv_2p: bra.inv_2zeta,
        inv_2q: ket.inv_2zeta,
        hdr: QuartetHeader {
            wp: self::sub(w, bra.center),
            wq: self::sub(w, ket.center),
            pref,
            inv_2pq: ratio::<T>(1, 2).over(pq),
            q_over_pq: q.over(pq),
            p_over_pq: p.over(pq),
            scale: bra.c1.times(bra.c2).times(ket.c1).times(ket.c2),
            t,
        },
    }
}

} // verus!
