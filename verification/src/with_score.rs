//! Priority-queue plumbing: a state paired with its precomputed ordering
//! key, and the total order on keys.

use vstd::prelude::*;

verus! {

/// A totally ordered priority key, compared lexicographically with the
/// primary component dominant; a higher key is popped first.
#[derive(Clone, Copy, Debug, PartialEq, Eq, Structural)]
pub struct Score {
    pub primary: i128,
    pub secondary: i128,
    pub tertiary: i128,
    pub quaternary: i128,
}

/// Strict lexicographic order on scores.
pub open spec fn score_lt(a: Score, b: Score) -> bool {
    ||| a.primary < b.primary
    ||| (a.primary == b.primary && a.secondary < b.secondary)
    ||| (a.primary == b.primary && a.secondary == b.secondary && a.tertiary < b.tertiary)
    ||| (a.primary == b.primary && a.secondary == b.secondary && a.tertiary == b.tertiary
        && a.quaternary < b.quaternary)
}

/// Decides the strict lexicographic order on scores.
pub fn score_less(a: &Score, b: &Score) -> (r: bool)
    ensures
        r == score_lt(*a, *b),
{
    if a.primary != b.primary {
        return a.primary < b.primary;
    }
    if a.secondary != b.secondary {
        return a.secondary < b.secondary;
    }
    if a.tertiary != b.tertiary {
        return a.tertiary < b.tertiary;
    }
    a.quaternary < b.quaternary
}

/// A value wrapped together with a separately computed ordering key; the
/// frontier orders entries purely by the key.
pub struct WithScore<T, S> {
    pub value: T,
    pub score: S,
}

impl<T, S> WithScore<T, S> {
    /// Pairs a value with its ordering key.
    pub fn new(value: T, score: S) -> (r: Self)
        ensures
            r.value == value,
            r.score == score,
    {
        WithScore { value, score }
    }

    /// The wrapped value.
    pub fn value(&self) -> (r: &T)
        ensures
            *r == self.value,
    {
        &self.value
    }
}

} // verus!
