//! The potentials, and the sides of their integrals.
use vstd::prelude::*;

use crate::engine::pairs::{difference, Vec3};
use crate::math::solid_harmonics::{is_zero, vanishes};
use crate::scalar::{fraction, ratio, Real, Scalar};
use crate::shell::Shell;

verus! {

/// One radial term `coef r^(n - 2) exp(-zeta r^2)` of a potential.
#[derive(Clone, Debug, PartialEq)]
pub struct EcpPrimitive<T> {
    /// The power of the distance, and two.
    pub n: i32,
    /// The exponent.
    pub zeta: T,
    /// The coefficient.
    pub coef: T,
}

/// The potential of one atom.
#[derive(Clone, Debug, PartialEq)]
pub struct Ecp<T> {
    /// The atom, by its place among those of the basis.
    pub atom: usize,
    /// The number of electrons that the potential stands for.
    pub n_core: u32,
    /// The angular momentum of the local part.
    pub max_l: usize,
    /// The local part.
    pub local: Vec<EcpPrimitive<T>>,
    /// The projected parts, by angular momentum, each less the local part.
    pub semilocal: Vec<Vec<EcpPrimitive<T>>>,
}

/// One side of an integral: a contraction about a center relative to that of the
/// potential.
#[verifier::ext_equal]
pub struct SideView<T> {
    pub l: int,
    pub cv: Vec3<T>,
    pub exps: Seq<T>,
    pub wts: Seq<T>,
}

/// One side of an integral.
pub struct EcpSide<'a, T> {
    pub l: usize,
    pub cv: Vec3<T>,
    pub exps: &'a Vec<T>,
    pub wts: &'a Vec<T>,
}

impl<'a, T> EcpSide<'a, T> {
    /// What the side is.
    pub open spec fn shown(self) -> SideView<T> {
        SideView { l: self.l as int, cv: self.cv, exps: self.exps@, wts: self.wts@ }
    }

    /// Whether the angular momentum is supported and every primitive has a weight.
    pub open spec fn valid(self) -> bool {
        self.l <= 7 && self.wts@.len() == self.exps@.len()
    }
}

/// A shell as a side of an integral over a potential at `c`.
pub open spec fn shell_side<T: Real>(s: Shell<T>, c: Vec3<T>) -> SideView<T> {
    SideView {
        l: s.l as int,
        cv: difference(s.center, c),
        exps: s.exponents@,
        wts: s.effectives(),
    }
}

/// The logarithm below which a contribution is left out.
pub open spec fn screen_level<T: Scalar>() -> T {
    T::neg(T::count(120))
}

/// Whether a peak of `exp(arg0 - a r^2 + k r)` lies below the screen.
pub open spec fn below_screen<T: Real>(arg0: T, k: T, a: T) -> bool {
    T::lt(T::sum(arg0, T::quot(T::prod(k, k), T::prod(T::count(4), a))), screen_level())
}

/// Whether a peak lies below the screen.
pub fn is_below_screen<T: Real>(arg0: T, k: T, a: T) -> (r: bool)
    ensures
        r == below_screen(arg0, k, a),
{
    arg0.plus(k.times(k).over(T::from_count(4).times(a))).less(T::from_count(120).negated())
}

/// The exponent at the center of the potential.
pub open spec fn center_exponent<T: Scalar>(aa: T, ra2: T, ab: T, rb2: T) -> T {
    T::diff(T::prod(T::neg(aa), ra2), T::prod(ab, rb2))
}

/// The length of a vector of length `r` and its direction; those of one that is too short
/// are zero and the last axis.
pub open spec fn direction<T: Real>(v: Vec3<T>, r: T) -> (T, Vec3<T>) {
    if T::lt(fraction(1, 1000000000000), r) {
        (r, [T::quot(v[0], r), T::quot(v[1], r), T::quot(v[2], r)])
    } else {
        (T::count(0), [T::count(0), T::count(0), T::count(1)])
    }
}

/// The length of a vector and its direction.
pub fn direction_of<T: Real>(v: Vec3<T>, r: T) -> (d: (T, Vec3<T>))
    ensures
        d == direction(v, r),
{
    if ratio::<T>(1, 1000000000000).less(r) {
        (r, [v[0].over(r), v[1].over(r), v[2].over(r)])
    } else {
        (T::from_count(0), [T::from_count(0), T::from_count(0), T::from_count(1)])
    }
}

/// Whether a term of a potential is left out of an integral: its coefficient vanishes, the
/// integrand does not decay, or its peak lies below the screen.
pub open spec fn left_out<T: Real>(ep: EcpPrimitive<T>, arg0: T, k: T, asum: T) -> bool {
    let alpha = T::sum(asum, ep.zeta);
    vanishes(ep.coef) || T::le(alpha, T::count(0)) || below_screen(arg0, k, alpha)
}

/// Whether a term of a potential is left out of an integral.
pub fn is_left_out<T: Real>(ep: &EcpPrimitive<T>, arg0: T, k: T, asum: T) -> (r: bool)
    ensures
        r == left_out(*ep, arg0, k, asum),
{
    let alpha = asum.plus(ep.zeta);
    is_zero(ep.coef) || alpha.at_most(T::from_count(0)) || is_below_screen(arg0, k, alpha)
}

/// Whether a pair of primitives is left out whatever the term.
pub open spec fn pair_left_out<T: Real>(arg0: T, k: T, asum: T) -> bool {
    T::lt(T::count(0), asum) && below_screen(arg0, k, asum)
}

/// Whether a pair of primitives is left out whatever the term.
pub fn is_pair_left_out<T: Real>(arg0: T, k: T, asum: T) -> (r: bool)
    ensures
        r == pair_left_out(arg0, k, asum),
{
    T::from_count(0).less(asum) && is_below_screen(arg0, k, asum)
}

} // verus!
