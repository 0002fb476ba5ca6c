//! The ways a run can end without a composite.

use vstd::prelude::*;

verus! {

/// Why no composite was produced. Every failure ends the run.
#[derive(Clone, Copy, Debug, PartialEq, Eq, Structural)]
pub enum Failure {
    /// One or both inputs could not be decoded; each flag names an input
    /// that failed.
    DecodeFailure { host: bool, parasite: bool },
    /// One or both images have a zero width or height; each flag names an
    /// image that has.
    DegenerateDimension { host: bool, parasite: bool },
    /// The parasite has more pixels than the scaler can average without
    /// overflowing its 32-bit sums.
    ParasiteTooLarge,
    /// The opaque host pixel at `(x, y)` would be filled from a coordinate
    /// outside the scaled parasite; it is the first such pixel in row-major
    /// order.
    OutOfBoundsSample { x: u32, y: u32 },
}

} // verus!
