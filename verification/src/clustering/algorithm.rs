//! The interface of the clustering algorithms.
use crate::point::Point;
use vstd::prelude::*;

verus! {

/// A clustering algorithm over points of `N` coordinates of the type `T`.
pub trait ClusteringAlgorithm<T, const N: usize> {
    /// What a run produces.
    type Output;

    /// The error of a run.
    type Error;

    /// Clusters `points`.
    fn run(&self, points: &[Point<T, N>]) -> Result<Self::Output, Self::Error>;
}

} // verus!
