//! Errors of the builders.
use vstd::prelude::*;

use crate::engine::pairs::Vec3;

verus! {

/// Why a shell could not be made or a matrix could not be built.
#[derive(Clone, Copy, Debug, PartialEq)]
pub enum IntegralError<T> {
    /// A shell has different numbers of exponents and coefficients.
    MismatchedContraction { exponents: usize, coefficients: usize },
    /// A shell has an angular momentum above the supported maximum.
    AngularMomentumTooHigh { l: usize, max: usize },
    /// A shell has no primitives.
    EmptyContraction,
    /// A shell has an angular momentum that cannot be raised by one, as a derivative
    /// with respect to its center does.
    AngularMomentumTooHighForGradient { l: usize, max: usize },
    /// A center that must be an atom of the basis is none.
    ChargeNotOnAtom { center: Vec3<T> },
    /// A list of coefficients has the wrong length.
    GammaLengthMismatch { expected: usize, got: usize },
    /// A shell has an angular momentum that cannot be raised by the degree of an
    /// operator.
    OperatorMomentumTooHigh { l: usize, degree: usize, max: usize },
}

} // verus!
