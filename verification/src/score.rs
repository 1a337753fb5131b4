use vstd::prelude::*;

verus! {

/// Outcome of a match, seen from the first team's side.
#[derive(Clone, Copy, Debug, PartialEq, Eq, Structural)]
pub enum Score {
    Win,
    Loss,
    Draw,
}

impl Score {
    /// Rewrites the outcome so that a rating update never has to handle a
    /// loss directly: a `Loss` becomes a `Win` with the two teams swapped
    /// (the flag says whether to swap), every other outcome is unchanged.
    pub fn normalized(self) -> (r: (Score, bool))
        ensures
            self == Score::Loss ==> r == (Score::Win, true),
            self != Score::Loss ==> r == (self, false),
    {
        match self {
            Score::Loss => (Score::Win, true),
            _ => (self, false),
        }
    }
}

} // verus!
