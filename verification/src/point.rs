//! Points in an N-dimensional space.
use vstd::prelude::*;

verus! {

/// A point as a fixed-size array of coordinates.
pub type Point<T, const N: usize> = [T; N];

} // verus!
