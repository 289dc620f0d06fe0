//! The integral engines.
pub mod contract;
pub mod deriv;
pub mod grid_pair;
pub mod hrr;
pub mod invariance;
pub mod kinetic_invariance;
pub mod lanes;
pub mod nuclear;
pub mod operator;
pub mod os;
pub mod os_eri;
pub mod pairs;
pub mod rys;
pub mod tower;
pub mod tower_contracted;
pub mod tower_mirror;
pub mod tower_quartet;
pub mod tower_raise;
pub mod tower_roots;
pub mod tower_space;
pub mod triples;
pub mod vrr;
pub mod vrr_window;
