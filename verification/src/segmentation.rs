//! The checked input of an image segmentation and its errors.
pub mod dbscan;

use crate::matrix::MatrixError;
use vstd::prelude::*;

verus! {

/// Errors of a segmentation.
#[derive(Debug, Clone, PartialEq, Eq)]
pub enum SegmentationError {
    /// An argument is out of its range; the text says which.
    InvalidArgument(String),
    /// The pixels do not fill the grid.
    UnexpectedLength(MatrixError),
}

impl From<MatrixError> for SegmentationError {
    fn from(e: MatrixError) -> (r: SegmentationError) {
        SegmentationError::UnexpectedLength(e)
    }
}

impl vstd::std_specs::convert::FromSpecImpl<MatrixError> for SegmentationError {
    open spec fn obeys_from_spec() -> bool {
        true
    }

    open spec fn from_spec(e: MatrixError) -> SegmentationError {
        SegmentationError::UnexpectedLength(e)
    }
}

/// Errors of checking the dimensions of an image.
#[derive(Debug, Clone, Copy, PartialEq, Eq, Structural)]
pub enum DimensionMismatchError {
    /// `width * height` does not fit in `usize`.
    Overflow { width: usize, height: usize },
    /// A slice does not hold `width * height` items.
    LengthMismatch { width: usize, height: usize, expected: usize, actual: usize },
}

/// The pixels of an image, with the mask of the pixels to segment, both
/// checked to hold `width * height` items.
#[derive(Debug)]
pub struct SegmentationInput<'a, P> {
    width: usize,
    height: usize,
    pixels: &'a [P],
    mask: &'a [bool],
}

impl<'a, P> SegmentationInput<'a, P> {
    /// The width in pixels.
    pub closed spec fn width_view(&self) -> nat {
        self.width as nat
    }

    /// The height in pixels.
    pub closed spec fn height_view(&self) -> nat {
        self.height as nat
    }

    /// The pixels, row after row.
    pub closed spec fn pixels_view(&self) -> Seq<P> {
        self.pixels@
    }

    /// The mask, one flag per pixel.
    pub closed spec fn mask_view(&self) -> Seq<bool> {
        self.mask@
    }

    /// Both slices hold `width * height` items.
    pub closed spec fn wf(&self) -> bool {
        &&& self.width * self.height <= usize::MAX
        &&& self.pixels@.len() == self.width * self.height
        &&& self.mask@.len() == self.width * self.height
    }

    /// Checks that `pixels` and `mask` each hold `width * height` items,
    /// the pixels first.
    pub fn new(width: usize, height: usize, pixels: &'a [P], mask: &'a [bool]) -> (r: Result<
        Self,
        DimensionMismatchError,
    >)
        ensures
            width * height > usize::MAX ==> r == Err::<Self, DimensionMismatchError>(
                DimensionMismatchError::Overflow { width, height },
            ),
            width * height <= usize::MAX && pixels@.len() != width * height ==> r == Err::<
                Self,
                DimensionMismatchError,
            >(
                DimensionMismatchError::LengthMismatch {
                    width,
                    height,
                    expected: (width * height) as usize,
                    actual: pixels@.len() as usize,
                },
            ),
            width * height <= usize::MAX && pixels@.len() == width * height && mask@.len() != width
                * height ==> r == Err::<Self, DimensionMismatchError>(
                DimensionMismatchError::LengthMismatch {
                    width,
                    height,
                    expected: (width * height) as usize,
                    actual: mask@.len() as usize,
                },
            ),
            r matches Ok(input) ==> {
                &&& input.wf()
                &&& input.width_view() == width
                &&& input.height_view() == height
                &&& input.pixels_view() == pixels@
                &&& input.mask_view() == mask@
            },
            r is Ok <==> (width * height <= usize::MAX && pixels@.len() == width * height
                && mask@.len() == width * height),
    {
        let expected = match width.checked_mul(height) {
            Some(n) => n,
            None => {
                return Err(DimensionMismatchError::Overflow { width, height });
            },
        };
        if pixels.len() != expected {
            return Err(
                DimensionMismatchError::LengthMismatch {
                    width,
                    height,
                    expected,
                    actual: pixels.len(),
                },
            );
        }
        if mask.len() != expected {
            return Err(
                DimensionMismatchError::LengthMismatch {
                    width,
                    height,
                    expected,
                    actual: mask.len(),
                },
            );
        }
        Ok(SegmentationInput { width, height, pixels, mask })
    }

    /// Returns the width in pixels.
    pub fn width(&self) -> (w: usize)
        ensures
            w == self.width_view(),
    {
        self.width
    }

    /// Returns the height in pixels.
    pub fn height(&self) -> (h: usize)
        ensures
            h == self.height_view(),
    {
        self.height
    }

    /// Returns the pixels.
    pub fn pixels(&self) -> (p: &'a [P])
        ensures
            p@ == self.pixels_view(),
    {
        self.pixels
    }

    /// Returns the mask.
    pub fn mask(&self) -> (m: &'a [bool])
        ensures
            m@ == self.mask_view(),
    {
        self.mask
    }
}

/// Errors of configuring the sampled DBSCAN segmentation; `T` is the type
/// of its real-valued parameters.
#[derive(Debug, Clone, PartialEq)]
pub enum FastDbscanError<T> {
    /// The minimum number of pixels of a segment is zero.
    InvalidMinPixels,
    /// The neighbourhood radius is not a positive number.
    InvalidEpsilon(T),
    /// The sampling probability is outside `(0, 1]`.
    OutOfRangeProbability(T),
    /// The pixels do not fill the image.
    UnexpectedLength { actual: usize, expected: usize },
}

} // verus!
