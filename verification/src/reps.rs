//! How often a repetition may apply its inner pattern, and the error
//! reported for a repetition that could never terminate.
use vstd::prelude::*;

verus! {

/// An inclusive repetition count range; `max == None` means no upper bound.
#[derive(Clone, Copy, Debug)]
pub struct Reps {
    pub min: u32,
    pub max: Option<u32>,
}

impl Reps {
    /// Any number of repetitions, including none.
    pub fn any() -> (r: Reps)
        ensures
            r.min == 0,
            r.max is None,
    {
        Reps { min: 0, max: None }
    }

    /// At least `min` repetitions, with no upper bound.
    pub fn at_least(min: u32) -> (r: Reps)
        ensures
            r.min == min,
            r.max is None,
    {
        Reps { min, max: None }
    }

    /// At most `max` repetitions, including none.
    pub fn at_most(max: u32) -> (r: Reps)
        ensures
            r.min == 0,
            r.max == Some(max),
    {
        Reps { min: 0, max: Some(max) }
    }

    /// Between `min` and `max` repetitions, both inclusive.
    pub fn between(min: u32, max: u32) -> (r: Reps)
        ensures
            r.min == min,
            r.max == Some(max),
    {
        Reps { min, max: Some(max) }
    }
}

/// A repetition with no upper bound was applied to a pattern that matches
/// the empty text: each round would consume nothing, so greedy repetition
/// could never stop. The configuration is rejected instead of evaluated.
#[derive(Clone, Copy, Debug, PartialEq, Eq, Structural)]
pub struct InvalidRepetitionConfiguration;

} // verus!
