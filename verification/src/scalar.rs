//! The arithmetic that every recurrence of the library runs in.
//!
//! The integral recurrences only ever add, subtract, multiply, divide and scale
//! by small counts, in a fixed order. They are therefore written once over the
//! trait [`Scalar`], whose specification functions name each operation. A
//! contract stated over those names fixes the *expression* a result is, operand
//! by operand and in evaluation order, so two routines with the same contract
//! return the same bits in any arithmetic, rounded or exact.
//!
//! [`Real`] adds what the radial functions need: a comparison, roots and
//! exponentials.
//!
//! Two implementations are given here. [`Lanes`] runs four independent scalars
//! in lockstep. [`Residue`] is an exact arithmetic of machine integers in which a
//! misplaced operand changes the value, so that it serves as a fingerprint.
use vstd::prelude::*;

verus! {

/// Arithmetic of the recurrences: the four operations, negation and the
/// injection of counts.
pub trait Scalar: Copy {
    /// The scalar that stands for the count `n`.
    spec fn count(n: u64) -> Self;

    /// `a + b`.
    spec fn sum(a: Self, b: Self) -> Self;

    /// `a - b`.
    spec fn diff(a: Self, b: Self) -> Self;

    /// `a * b`.
    spec fn prod(a: Self, b: Self) -> Self;

    /// `a / b`.
    spec fn quot(a: Self, b: Self) -> Self;

    /// `-a`.
    spec fn neg(a: Self) -> Self;

    /// The scalar that stands for the count `n`.
    fn from_count(n: u64) -> (r: Self)
        ensures
            r == Self::count(n),
    ;

    /// `self + other`.
    fn plus(self, other: Self) -> (r: Self)
        ensures
            r == Self::sum(self, other),
    ;

    /// `self - other`.
    fn minus(self, other: Self) -> (r: Self)
        ensures
            r == Self::diff(self, other),
    ;

    /// `self * other`.
    fn times(self, other: Self) -> (r: Self)
        ensures
            r == Self::prod(self, other),
    ;

    /// `self / other`.
    fn over(self, other: Self) -> (r: Self)
        ensures
            r == Self::quot(self, other),
    ;

    /// `-self`.
    fn negated(self) -> (r: Self)
        ensures
            r == Self::neg(self),
    ;
}

/// The functions of one real variable that the radial parts are made of, and a
/// comparison to choose between them.
pub trait Real: Scalar {
    /// Square root.
    spec fn root(a: Self) -> Self;

    /// Exponential.
    spec fn expo(a: Self) -> Self;

    /// Absolute value.
    spec fn magnitude(a: Self) -> Self;

    /// The circle constant.
    spec fn circle() -> Self;

    /// Whether `a < b`.
    spec fn lt(a: Self, b: Self) -> bool;

    /// Whether `a <= b`.
    spec fn le(a: Self, b: Self) -> bool;

    /// The nearest count, for a value that is not negative.
    spec fn nearest(a: Self) -> usize;

    /// `a` raised to the power `n`.
    spec fn raised(a: Self, n: u64) -> Self;

    /// `a` raised to the power `n / d`.
    spec fn rational(a: Self, n: u64, d: u64) -> Self;

    /// The whole part, for a value that is not negative.
    spec fn whole(a: Self) -> usize;

    /// `sqrt(a^2 + b^2)`.
    spec fn hypotenuse(a: Self, b: Self) -> Self;

    /// The magnitude of `a` with the sign of `b`.
    spec fn signed(a: Self, b: Self) -> Self;

    /// Cosine.
    spec fn cosine(a: Self) -> Self;

    /// Whether `a` is a finite number.
    spec fn finite(a: Self) -> bool;

    /// The gap between one and the next larger number.
    spec fn gap() -> Self;

    /// Square root of `self`.
    fn sqrt(self) -> (r: Self)
        ensures
            r == Self::root(self),
    ;

    /// Exponential of `self`.
    fn exp(self) -> (r: Self)
        ensures
            r == Self::expo(self),
    ;

    /// Absolute value of `self`.
    fn abs(self) -> (r: Self)
        ensures
            r == Self::magnitude(self),
    ;

    /// The circle constant.
    fn pi() -> (r: Self)
        ensures
            r == Self::circle(),
    ;

    /// Whether `self < other`.
    fn less(self, other: Self) -> (r: bool)
        ensures
            r == Self::lt(self, other),
    ;

    /// Whether `self <= other`.
    fn at_most(self, other: Self) -> (r: bool)
        ensures
            r == Self::le(self, other),
    ;

    /// The count nearest to `self`.
    fn round(self) -> (r: usize)
        ensures
            r == Self::nearest(self),
    ;

    /// `self` raised to the power `n`.
    fn powi(self, n: u64) -> (r: Self)
        ensures
            r == Self::raised(self, n),
    ;

    /// `self` raised to the power `n / d`.
    fn powf(self, n: u64, d: u64) -> (r: Self)
        ensures
            r == Self::rational(self, n, d),
    ;

    /// The whole part, for a value that is not negative.
    fn trunc(self) -> (r: usize)
        ensures
            r == Self::whole(self),
    ;

    /// `sqrt(self^2 + b^2)`.
    fn hypot(self, b: Self) -> (r: Self)
        ensures
            r == Self::hypotenuse(self, b),
    ;

    /// The magnitude of `self` with the sign of `b`.
    fn copysign(self, b: Self) -> (r: Self)
        ensures
            r == Self::signed(self, b),
    ;

    /// Cosine.
    fn cos(self) -> (r: Self)
        ensures
            r == Self::cosine(self),
    ;

    /// Whether `self` is a finite number.
    fn is_finite(self) -> (r: bool)
        ensures
            r == Self::finite(self),
    ;

    /// The gap between one and the next larger number.
    fn epsilon() -> (r: Self)
        ensures
            r == Self::gap(),
    ;
}

/// The scalar `n / d`.
pub open spec fn fraction<T: Scalar>(n: u64, d: u64) -> T {
    T::quot(T::count(n), T::count(d))
}

/// The scalar `n / d`.
pub fn ratio<T: Scalar>(n: u64, d: u64) -> (r: T)
    ensures
        r == fraction::<T>(n, d),
{
    T::from_count(n).over(T::from_count(d))
}

/// `n` copies of `value`.
pub fn filled<T: Copy>(n: usize, value: T) -> (v: Vec<T>)
    ensures
        v@ == Seq::new(n as nat, |i: int| value),
{
    let mut v: Vec<T> = Vec::new();
    while v.len() < n
        invariant
            v@.len() <= n,
            v@ == Seq::new(v@.len(), |i: int| value),
        decreases n - v@.len(),
    {
        v.push(value);
        assert(v@ =~= Seq::new(v@.len(), |i: int| value));
    }
    v
}

/// Four independent scalars that run in lockstep. Every operation is taken lane
/// by lane, so the lanes never mix.
#[derive(Clone, Copy, Debug, PartialEq, Eq)]
pub struct Lanes<T> {
    pub x0: T,
    pub x1: T,
    pub x2: T,
    pub x3: T,
}

impl<T: Scalar> Lanes<T> {
    /// The scalar in lane `lane`.
    pub open spec fn at(self, lane: int) -> T {
        if lane == 0 {
            self.x0
        } else if lane == 1 {
            self.x1
        } else if lane == 2 {
            self.x2
        } else {
            self.x3
        }
    }

    /// The scalar in lane `lane`.
    pub fn lane(self, lane: usize) -> (r: T)
        requires
            lane < 4,
        ensures
            r == self.at(lane as int),
    {
        if lane == 0 {
            self.x0
        } else if lane == 1 {
            self.x1
        } else if lane == 2 {
            self.x2
        } else {
            self.x3
        }
    }
}

impl<T: Scalar> Scalar for Lanes<T> {
    open spec fn count(n: u64) -> Self {
        Lanes { x0: T::count(n), x1: T::count(n), x2: T::count(n), x3: T::count(n) }
    }

    open spec fn sum(a: Self, b: Self) -> Self {
        Lanes {
            x0: T::sum(a.x0, b.x0),
            x1: T::sum(a.x1, b.x1),
            x2: T::sum(a.x2, b.x2),
            x3: T::sum(a.x3, b.x3),
        }
    }

    open spec fn diff(a: Self, b: Self) -> Self {
        Lanes {
            x0: T::diff(a.x0, b.x0),
            x1: T::diff(a.x1, b.x1),
            x2: T::diff(a.x2, b.x2),
            x3: T::diff(a.x3, b.x3),
        }
    }

    open spec fn prod(a: Self, b: Self) -> Self {
        Lanes {
            x0: T::prod(a.x0, b.x0),
            x1: T::prod(a.x1, b.x1),
            x2: T::prod(a.x2, b.x2),
            x3: T::prod(a.x3, b.x3),
        }
    }

    open spec fn quot(a: Self, b: Self) -> Self {
        Lanes {
            x0: T::quot(a.x0, b.x0),
            x1: T::quot(a.x1, b.x1),
            x2: T::quot(a.x2, b.x2),
            x3: T::quot(a.x3, b.x3),
        }
    }

    open spec fn neg(a: Self) -> Self {
        Lanes { x0: T::neg(a.x0), x1: T::neg(a.x1), x2: T::neg(a.x2), x3: T::neg(a.x3) }
    }

    fn from_count(n: u64) -> (r: Self) {
        let c = T::from_count(n);
        Lanes { x0: c, x1: c, x2: c, x3: c }
    }

    fn plus(self, other: Self) -> (r: Self) {
        Lanes {
            x0: self.x0.plus(other.x0),
            x1: self.x1.plus(other.x1),
            x2: self.x2.plus(other.x2),
            x3: self.x3.plus(other.x3),
        }
    }

    fn minus(self, other: Self) -> (r: Self) {
        Lanes {
            x0: self.x0.minus(other.x0),
            x1: self.x1.minus(other.x1),
            x2: self.x2.minus(other.x2),
            x3: self.x3.minus(other.x3),
        }
    }

    fn times(self, other: Self) -> (r: Self) {
        Lanes {
            x0: self.x0.times(other.x0),
            x1: self.x1.times(other.x1),
            x2: self.x2.times(other.x2),
            x3: self.x3.times(other.x3),
        }
    }

    fn over(self, other: Self) -> (r: Self) {
        Lanes {
            x0: self.x0.over(other.x0),
            x1: self.x1.over(other.x1),
            x2: self.x2.over(other.x2),
            x3: self.x3.over(other.x3),
        }
    }

    fn negated(self) -> (r: Self) {
        Lanes {
            x0: self.x0.negated(),
            x1: self.x1.negated(),
            x2: self.x2.negated(),
            x3: self.x3.negated(),
        }
    }
}

/// An exact arithmetic of machine integers. Sums, differences and products are
/// those of the integers modulo two to the 64th. What has no counterpart there
/// (quotients, roots, exponentials) is a fixed mixing of the operands.
#[derive(Clone, Copy, Debug, PartialEq, Eq, Structural)]
pub struct Residue(pub u64);

/// Odd multiplier of the mixing maps.
pub const MIX: u64 = 0x9E37_79B9_7F4A_7C15;

impl Residue {
    /// The mixing of `a` with the tag `tag`.
    pub open spec fn mixed(a: Self, tag: u64) -> Self {
        Residue(a.0.wrapping_add(tag).wrapping_mul(MIX))
    }

    fn mix(self, tag: u64) -> (r: Self)
        ensures
            r == Self::mixed(self, tag),
    {
        Residue(self.0.wrapping_add(tag).wrapping_mul(MIX))
    }
}

impl Scalar for Residue {
    open spec fn count(n: u64) -> Self {
        Residue(n)
    }

    open spec fn sum(a: Self, b: Self) -> Self {
        Residue(a.0.wrapping_add(b.0))
    }

    open spec fn diff(a: Self, b: Self) -> Self {
        Residue(a.0.wrapping_sub(b.0))
    }

    open spec fn prod(a: Self, b: Self) -> Self {
        Residue(a.0.wrapping_mul(b.0))
    }

    open spec fn quot(a: Self, b: Self) -> Self {
        Self::prod(a, Self::mixed(b, 1))
    }

    open spec fn neg(a: Self) -> Self {
        Residue(0u64.wrapping_sub(a.0))
    }

    fn from_count(n: u64) -> (r: Self) {
        Residue(n)
    }

    fn plus(self, other: Self) -> (r: Self) {
        Residue(self.0.wrapping_add(other.0))
    }

    fn minus(self, other: Self) -> (r: Self) {
        Residue(self.0.wrapping_sub(other.0))
    }

    fn times(self, other: Self) -> (r: Self) {
        Residue(self.0.wrapping_mul(other.0))
    }

    fn over(self, other: Self) -> (r: Self) {
        self.times(other.mix(1))
    }

    fn negated(self) -> (r: Self) {
        Residue(0u64.wrapping_sub(self.0))
    }
}

impl Real for Residue {
    open spec fn root(a: Self) -> Self {
        Self::mixed(a, 2)
    }

    open spec fn expo(a: Self) -> Self {
        Self::mixed(a, 3)
    }

    open spec fn magnitude(a: Self) -> Self {
        Self::mixed(a, 4)
    }

    open spec fn circle() -> Self {
        Residue(MIX)
    }

    open spec fn lt(a: Self, b: Self) -> bool {
        a.0 < b.0
    }

    open spec fn le(a: Self, b: Self) -> bool {
        a.0 <= b.0
    }

    open spec fn nearest(a: Self) -> usize {
        (a.0 % 1024) as usize
    }

    open spec fn raised(a: Self, n: u64) -> Self {
        Self::mixed(Residue(a.0.wrapping_mul(n)), 5)
    }

    open spec fn rational(a: Self, n: u64, d: u64) -> Self {
        Self::mixed(Residue(a.0.wrapping_mul(n).wrapping_add(d)), 6)
    }

    open spec fn whole(a: Self) -> usize {
        (a.0 % 1024) as usize
    }

    open spec fn hypotenuse(a: Self, b: Self) -> Self {
        Self::mixed(Self::diff(a, Self::mixed(b, 7)), 7)
    }

    open spec fn signed(a: Self, b: Self) -> Self {
        Self::mixed(Self::diff(a, Self::mixed(b, 8)), 8)
    }

    open spec fn cosine(a: Self) -> Self {
        Self::mixed(a, 9)
    }

    open spec fn finite(a: Self) -> bool {
        a.0 % 3 != 0
    }

    open spec fn gap() -> Self {
        Residue(10)
    }

    fn sqrt(self) -> (r: Self) {
        self.mix(2)
    }

    fn exp(self) -> (r: Self) {
        self.mix(3)
    }

    fn abs(self) -> (r: Self) {
        self.mix(4)
    }

    fn pi() -> (r: Self) {
        Residue(MIX)
    }

    fn less(self, other: Self) -> (r: bool) {
        self.0 < other.0
    }

    fn at_most(self, other: Self) -> (r: bool) {
        self.0 <= other.0
    }

    fn round(self) -> (r: usize) {
        (self.0 % 1024) as usize
    }

    fn powi(self, n: u64) -> (r: Self) {
        Residue(self.0.wrapping_mul(n)).mix(5)
    }

    fn powf(self, n: u64, d: u64) -> (r: Self) {
        Residue(self.0.wrapping_mul(n).wrapping_add(d)).mix(6)
    }

    fn trunc(self) -> (r: usize) {
        (self.0 % 1024) as usize
    }

    fn hypot(self, b: Self) -> (r: Self) {
        self.minus(b.mix(7)).mix(7)
    }

    fn copysign(self, b: Self) -> (r: Self) {
        self.minus(b.mix(8)).mix(8)
    }

    fn cos(self) -> (r: Self) {
        self.mix(9)
    }

    fn is_finite(self) -> (r: bool) {
        self.0 % 3 != 0
    }

    fn epsilon() -> (r: Self) {
        Residue(10)
    }
}

} // verus!
