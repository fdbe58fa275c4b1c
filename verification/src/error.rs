use vstd::prelude::*;

verus! {

/// Errors of forest construction and reconstruction.
#[derive(Debug, PartialEq, Eq, Structural, Clone, Copy)]
pub enum XrfError {
    /// There was a panic during parallel training or prediction.
    ParallelCodePanic,
    /// The series of `Walk` steps was not a correct depth-first traversal of the forest.
    WalkAggregationFailure,
}

impl XrfError {
    /// Human-readable description of the error.
    pub fn message(&self) -> (r: &'static str)
        ensures
            *self == XrfError::ParallelCodePanic ==> r@ == "Panic in the parallel code"@,
            *self == XrfError::WalkAggregationFailure ==> r@ == "Walk is a corrupted representation of a forest"@,
    {
        match self {
            XrfError::ParallelCodePanic => "Panic in the parallel code",
            XrfError::WalkAggregationFailure => "Walk is a corrupted representation of a forest",
        }
    }
}

} // verus!
