//! Matrices of effective core potentials, and their gradients.
pub mod harmonics;
pub mod radial;
pub mod angular;
pub mod screens;
pub mod side;
pub mod local;
pub mod projected;
pub mod matrix;
pub mod gradient;
pub mod monopole;
pub mod own_center;
pub mod own_channel;
pub mod products;
pub mod quadrupole;
