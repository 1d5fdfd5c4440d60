//! Timestamps read back from a pair of device queries.
use vstd::prelude::*;

verus! {

/// Device timestamps, in nanoseconds, taken before and after a piece of work.
pub struct Timing {
    pub start: u64,
    pub end: u64,
}

impl Timing {
    /// Nanoseconds between the two timestamps.
    pub fn elapsed_nanoseconds(&self) -> (r: u64)
        requires
            self.start <= self.end,
        ensures
            r == self.end - self.start,
    {
        self.end - self.start
    }
}

} // verus!
