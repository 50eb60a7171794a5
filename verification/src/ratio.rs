//! The result type shared by both distance engines: an exact ratio in `[0, 1]`.

use vstd::prelude::*;

verus! {

/// A normalized distance, reported exactly as `numerator / denominator`.
///
/// Well-formed values satisfy `numerator <= denominator` and
/// `denominator >= 1`, so the quotient always lies in `[0, 1]`.
#[derive(Clone, Copy, Debug, PartialEq, Eq, Structural)]
pub struct DistanceRatio {
    pub numerator: usize,
    pub denominator: usize,
}

impl DistanceRatio {
    /// The quotient lies in `[0, 1]` and never divides by zero.
    pub open spec fn wf(self) -> bool {
        &&& self.numerator <= self.denominator
        &&& self.denominator >= 1
    }
}

/// The one failure either engine can report: an internal chain score would
/// exceed the fixed limit that keeps the arithmetic exact.
#[derive(Clone, Copy, Debug, PartialEq, Eq, Structural)]
pub enum DistanceError {
    ScoreLimitExceeded,
}

} // verus!
