//! Gaussian integrals over Cartesian and spherical shells: component bookkeeping,
//! recurrence and quadrature engines, and the assembly of their blocks.
pub mod attenuation;
pub mod attraction_symmetry;
pub mod bounds;
pub mod builder_agreement;
pub mod commutators;
pub mod dense;
pub mod df;
pub mod df_builder;
pub mod direct;
pub mod direct_screening;
pub mod direct_sum;
pub mod ecp;
pub mod engine;
pub mod engine_agreement;
pub mod eri_batch;
pub mod eri_builder;
pub mod error;
pub mod exact;
pub mod flat;
pub mod gaussian_products;
pub mod grad;
pub mod grid;
pub mod grid_attraction;
pub mod integrals;
pub mod kernels;
pub mod math;
pub mod momentum_attraction;
pub mod momentum_symmetry;
pub mod named_operators;
pub mod offsets;
pub mod one_electron;
pub mod operator;
pub mod operator_laws;
pub mod operator_symmetry;
pub mod pair_values;
pub mod quartet;
pub mod queue;
pub mod repulsion_symmetry;
pub mod scalar;
pub mod schedule;
pub mod screening;
pub mod shell;
pub mod shell_pairs;
pub mod slabs;
pub mod spherical;
pub mod tensor;
pub mod transposition;
