//! Image adaptation for fixed-palette displays: aspect-fit bilinear resizing
//! and Floyd-Steinberg quantization onto a small palette.

use vstd::prelude::*;

pub mod palette;
pub mod resize;
pub mod dither;

verus! {

/// The ways in which the pipeline rejects its input.
#[derive(Debug, Clone, Copy, PartialEq, Eq, Structural)]
pub enum ImageError {
    /// A width or height of zero was passed to the resampler.
    DegenerateInput,
    /// A buffer's length does not match its declared dimensions.
    DimensionMismatch,
}

} // verus!
