use vstd::prelude::*;

verus! {

/// The ways an election run can fail.  A failure is terminal: the algorithm
/// is deterministic, so retrying the same input would fail the same way.
#[derive(Clone, Copy, Debug, PartialEq, Eq, Structural)]
pub enum PhragmenError {
    /// More seats were requested than distinct candidates exist.
    InvalidSeatCount,
    /// A seat still had to be filled while every remaining unelected
    /// candidate has zero approval, so no candidate could be chosen.
    UnelectableCandidate,
    /// An intermediate fixed-point value left the representable range.
    ArithmeticOverflow,
}

} // verus!
