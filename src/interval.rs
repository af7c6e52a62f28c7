use vstd::prelude::*;

verus! {

/// A run of consecutive rows: `length` rows starting at row `start`.
#[derive(Debug, Clone, Copy, PartialEq, Eq, Structural)]
pub struct Interval {
    pub start: usize,
    pub length: usize,
}

impl Interval {
    /// Returns the interval of `length` rows starting at `start`.
    pub fn new(start: usize, length: usize) -> (r: Interval)
        ensures
            r.start == start,
            r.length == length,
    {
        Interval { start, length }
    }
}

} // verus!
