//! Genetic programming: random sources, parameters and operators.
pub mod constants;
pub mod gp_operators;
pub mod operators;
pub mod parameters;
pub mod params;
pub mod rng;
pub mod structure;
