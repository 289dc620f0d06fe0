//! Angular-momentum bookkeeping and the radial functions.
pub mod am;
pub mod boys;
pub mod gauss;
pub mod harmonic_products;
pub mod harmonic_rotation;
pub mod harmonic_rows;
pub mod norm;
pub mod rotation;
pub mod rys;
pub mod rys_reference;
pub mod solid_harmonics;
