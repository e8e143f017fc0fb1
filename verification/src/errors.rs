//! Errors raised while building a puzzle, before any search begins.

use vstd::prelude::*;

verus! {

/// A construction-time validation failure.  A container or state that
/// exists is always structurally valid, so these are the only errors the
/// library raises; search outcomes (solved, exhausted) are not errors.
#[derive(Clone, Copy, Debug, PartialEq, Eq, Structural)]
pub enum PuzzleError {
    /// A container was given more units than its capacity allows.
    ContentExceedsCapacity,
    /// More than two containers were tagged as must-end-empty.
    TooManyMustEmpty,
}

impl PuzzleError {
    /// A human-readable description of the failure.
    pub fn message(&self) -> (r: &'static str)
        ensures
            *self == PuzzleError::ContentExceedsCapacity ==> r@ == "content size exceeds capacity"@,
            *self == PuzzleError::TooManyMustEmpty ==> r@ == "more than two containers are tagged must-empty"@,
    {
        match self {
            PuzzleError::ContentExceedsCapacity => "content size exceeds capacity",
            PuzzleError::TooManyMustEmpty => "more than two containers are tagged must-empty",
        }
    }
}

} // verus!
