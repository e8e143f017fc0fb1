//! One move: pouring from one container position into another, recorded
//! relative to the state it was generated from.

use vstd::prelude::*;

verus! {

/// A pour move, as a pair of zero-based positions into a state's container
/// list.  Purely descriptive and never mutated after creation.
#[derive(Clone, Copy, Debug, PartialEq, Eq, Structural)]
pub struct Transition {
    pub pour_from: usize,
    pub pour_into: usize,
}

impl Transition {
    /// Creates a transition from a source position to a destination position.
    pub fn new(from: usize, to: usize) -> (r: Transition)
        ensures
            r == (Transition { pour_from: from, pour_into: to }),
    {
        Transition { pour_from: from, pour_into: to }
    }

    /// The position of the container to pour from.
    pub fn pour_from(&self) -> (r: usize)
        ensures
            r == self.pour_from,
    {
        self.pour_from
    }

    /// The position of the container to pour into.
    pub fn pour_into(&self) -> (r: usize)
        ensures
            r == self.pour_into,
    {
        self.pour_into
    }
}

} // verus!
