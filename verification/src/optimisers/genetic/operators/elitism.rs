use vstd::prelude::*;

verus! {

/// How the best individuals of a generation carry over to the next.
#[derive(Clone, Copy, Debug, PartialEq, Eq, Structural, Hash)]
pub enum ElitismTypesEnum {
    KeepNBest,
    ReplaceWorst,
    /// No elitism.
    NoElitism,
}

} // verus!
