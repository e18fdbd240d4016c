//! Parameters that may change from one generation to the next.
pub mod parameter;
pub mod sequence_iterator;
