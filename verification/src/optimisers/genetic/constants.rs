use vstd::prelude::*;

verus! {

/// How many random graphs the factory tries before it falls back to a
/// single node.
pub const MAX_GRAPH_GEN_ATTEMPTS: usize = 1000;

/// The smallest population the optimiser keeps.
pub const MIN_POP_SIZE: usize = 5;

/// How many times a population is evaluated before too many failures count
/// as an error.
pub const EVALUATION_ATTEMPTS_NUMBER: usize = 5;

} // verus!
