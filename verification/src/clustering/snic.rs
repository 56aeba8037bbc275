//! The configuration of SNIC superpixel clustering.
use crate::matrix::MatrixError;
use crate::metrics::DistanceMetric;
use std::marker::PhantomData;
use vstd::prelude::*;

verus! {

/// Errors of SNIC clustering.
#[derive(Debug, Clone, Copy, PartialEq, Eq, Structural)]
pub enum SNICError {
    /// The grid has no column or no row.
    InvalidShape(usize, usize),
    /// No segment was asked for.
    InvalidSegments(usize),
    /// There is no point to cluster.
    EmptyPoints,
    /// The points do not fill the grid.
    InvalidPoints(MatrixError),
}

impl From<MatrixError> for SNICError {
    fn from(e: MatrixError) -> (r: SNICError) {
        SNICError::InvalidPoints(e)
    }
}

impl vstd::std_specs::convert::FromSpecImpl<MatrixError> for SNICError {
    open spec fn obeys_from_spec() -> bool {
        true
    }

    open spec fn from_spec(e: MatrixError) -> SNICError {
        SNICError::InvalidPoints(e)
    }
}

/// SNIC (simple non-iterative clustering) over a `cols` x `rows` grid of
/// points whose coordinates have the type `T`.
#[derive(Debug)]
pub struct SNIC<T> {
    shape: (usize, usize),
    segments: usize,
    metric: DistanceMetric,
    _marker: PhantomData<T>,
}

impl<T> SNIC<T> {
    /// The shape `(cols, rows)` of the grid.
    pub closed spec fn shape_view(&self) -> (usize, usize) {
        self.shape
    }

    /// The number of segments asked for.
    pub closed spec fn segments_view(&self) -> usize {
        self.segments
    }

    /// The metric between points.
    pub closed spec fn metric_view(&self) -> DistanceMetric {
        self.metric
    }

    /// Creates the clustering of a grid of `shape` into `segments` segments;
    /// the grid must have a column and a row, and `segments` must be positive.
    pub fn new(shape: (usize, usize), segments: usize, metric: DistanceMetric) -> (r: Result<
        Self,
        SNICError,
    >)
        ensures
            (shape.0 == 0 || shape.1 == 0) ==> r == Err::<Self, SNICError>(
                SNICError::InvalidShape(shape.0, shape.1),
            ),
            shape.0 != 0 && shape.1 != 0 && segments == 0 ==> r == Err::<Self, SNICError>(
                SNICError::InvalidSegments(segments),
            ),
            r is Ok <==> shape.0 != 0 && shape.1 != 0 && segments != 0,
            r matches Ok(s) ==> s.shape_view() == shape && s.segments_view() == segments
                && s.metric_view() == metric,
    {
        if shape.0 == 0 || shape.1 == 0 {
            return Err(SNICError::InvalidShape(shape.0, shape.1));
        }
        if segments == 0 {
            return Err(SNICError::InvalidSegments(segments));
        }
        Ok(SNIC { shape, segments, metric, _marker: PhantomData })
    }

    /// Returns the shape `(cols, rows)`.
    pub fn shape(&self) -> (s: (usize, usize))
        ensures
            s == self.shape_view(),
    {
        self.shape
    }

    /// Returns the number of segments.
    pub fn segments(&self) -> (n: usize)
        ensures
            n == self.segments_view(),
    {
        self.segments
    }

    /// Returns the metric.
    pub fn metric(&self) -> (m: DistanceMetric)
        ensures
            m == self.metric_view(),
    {
        self.metric
    }
}

} // verus!
