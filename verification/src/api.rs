use vstd::prelude::*;

verus! {

/// Error raised when the optimiser is configured with invalid values.
#[derive(Clone, Debug, PartialEq, Eq)]
pub struct GolemConfigError {
    pub message: String,
}

impl GolemConfigError {
    /// An error with the given message.
    pub fn new(message: String) -> (r: Self)
        ensures
            r.message@ == message@,
    {
        GolemConfigError { message }
    }
}

} // verus!
