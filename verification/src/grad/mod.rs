//! First derivatives of the integrals with respect to the positions of the atoms.
pub mod agreement;
pub mod contract;
pub mod fit;
pub mod force;
pub mod invariance;
pub mod matrix;
pub mod one_electron;
pub mod pair;
pub mod quadrature;
pub mod quartet;
pub mod refusals;
pub mod repulsion;
pub mod repulsion_forces;
pub mod repulsion_invariance;
pub mod tensor;
