use vstd::prelude::*;

verus! {

/// The built-in selection schemes.
#[derive(Clone, Copy, Debug, PartialEq, Eq, Structural, Hash)]
pub enum SelectionTypesEnum {
    Tournament,
    Spea2,
}

} // verus!
