use vstd::prelude::*;

verus! {

/// Why a request was rejected. Every error is detected before any pixel is
/// written.
#[derive(Clone, Copy, Debug, PartialEq, Eq, Structural)]
pub enum RenderError {
    /// The point set to fit has no extent on either axis.
    DegenerateInput,
    /// The box has `min > max` on some axis.
    InvalidBox,
    /// A segment joins two coincident points.
    EmptySegment,
    /// A floating-point coordinate is not a number.
    NaNCoordinate,
    /// A floating-point coordinate is infinite or too large for the
    /// fixed-point range.
    OutOfRange,
}

} // verus!
