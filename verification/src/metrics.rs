//! Distance metrics between points.
use vstd::prelude::*;

verus! {

/// Distance metrics for measuring the distance between points in an
/// N-dimensional space.
#[derive(Debug, Clone, Copy, PartialEq, Eq, Structural)]
pub enum DistanceMetric {
    /// Euclidean distance: the square root of the sum of squared differences.
    Euclidean,
    /// Squared Euclidean distance: the sum of squared differences.
    SquaredEuclidean,
}

impl Default for DistanceMetric {
    fn default() -> (m: Self)
        ensures
            m == DistanceMetric::Euclidean,
    {
        DistanceMetric::Euclidean
    }
}

} // verus!
