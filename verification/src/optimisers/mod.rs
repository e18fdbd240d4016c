//! The evolutionary optimiser: its genetic operators and their parameters.
pub mod advisor;
pub mod genetic;
pub mod initial_population_generator;
pub mod objective;
pub mod random_graph_factory;
