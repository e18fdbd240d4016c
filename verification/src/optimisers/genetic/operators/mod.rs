//! The genetic operators and the kinds of each.
pub mod base_mutations;
pub mod crossover;
pub mod elitism;
pub mod mutation;
pub mod reproduction;
pub mod selection;
pub mod subgraph;
