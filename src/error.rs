use vstd::prelude::*;

verus! {

/// The ways in which an operation on a frame or a video can be refused.
#[derive(Debug, Clone, Copy, PartialEq, Eq, Structural)]
pub enum VideoError {
    /// A width or height of zero, or a header that decodes to zero.
    InvalidDimension,
    /// A buffer too short to hold the two dimension headers.
    TruncatedHeader,
    /// A frame whose size differs from the video's, or pixel data whose
    /// length does not match the frame's size.
    DimensionMismatch,
    /// A frame index at or past the number of frames.
    IndexOutOfRange,
    /// A pixel coordinate outside the frame.
    PixelOutOfRange,
    /// A dimension above the largest one that a header can hold.
    DimensionTooLarge,
}

} // verus!
