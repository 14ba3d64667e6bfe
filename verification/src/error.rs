//! The ways in which a sweep fails.

use vstd::prelude::*;

verus! {

/// A broken invariant of the sweep. None of them can be repaired: the run
/// ends with the first one.
#[derive(Clone, Copy, Debug, PartialEq, Eq, Structural)]
pub enum SweepError {
    /// The segment `lower` stands just below `upper` in the status line but
    /// does not lie below it.
    OrderViolated { lower: usize, upper: usize },
    /// The right event `event` was reached while its segment was not in the
    /// status line.
    TwinNotActive { event: usize },
    /// The segments `lower` and `upper` have to be split at a point that the
    /// sweep has already passed.
    SplitBehindSweep { lower: usize, upper: usize },
}

} // verus!
