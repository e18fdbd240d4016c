use vstd::prelude::*;

verus! {

/// Raised when too many fitness evaluations fail while a population is
/// reproduced.
#[derive(Clone, Debug)]
pub struct EvaluationAttemptsError {
    pub message: String,
}

/// The text shown for an [`EvaluationAttemptsError`] with the given message.
pub open spec fn attempts_error_text(message: Seq<char>) -> Seq<char> {
    if message.len() == 0 {
        "Too many fitness evaluation errors."@
    } else {
        message
    }
}

impl EvaluationAttemptsError {
    /// An error with the given message.
    pub fn new(message: String) -> (r: Self)
        ensures
            r.message@ == message@,
    {
        EvaluationAttemptsError { message }
    }

    /// The text shown for this error: its message, or a default text when the
    /// message is empty.
    pub fn text(&self) -> (r: String)
        ensures
            r@ == attempts_error_text(self.message@),
    {
        if self.message.as_str().is_empty() {
            String::from_str("Too many fitness evaluation errors.")
        } else {
            self.message.clone()
        }
    }
}

} // verus!
