//! Weighted edges of a graph.
use std::cmp::Ordering;
use vstd::prelude::*;

verus! {

/// A weighted edge between the vertices `u` and `v`.
///
/// Two edges are equal when all their fields are; they are ordered by
/// weight alone.
#[derive(Debug, Clone, Copy, PartialEq, Eq, Structural)]
pub struct WeightedEdge {
    u: usize,
    v: usize,
    weight: u64,
}

impl WeightedEdge {
    /// The starting vertex.
    pub closed spec fn u_view(&self) -> usize {
        self.u
    }

    /// The ending vertex.
    pub closed spec fn v_view(&self) -> usize {
        self.v
    }

    /// The weight.
    pub closed spec fn weight_view(&self) -> u64 {
        self.weight
    }

    /// Creates a new `WeightedEdge` instance.
    pub fn new(u: usize, v: usize, weight: u64) -> (e: Self)
        ensures
            e.u_view() == u,
            e.v_view() == v,
            e.weight_view() == weight,
    {
        WeightedEdge { u, v, weight }
    }

    /// Returns the starting vertex of this edge.
    pub fn u(&self) -> (u: usize)
        ensures
            u == self.u_view(),
    {
        self.u
    }

    /// Returns the ending vertex of this edge.
    pub fn v(&self) -> (v: usize)
        ensures
            v == self.v_view(),
    {
        self.v
    }

    /// Returns the weight of this edge.
    pub fn weight(&self) -> (w: u64)
        ensures
            w == self.weight_view(),
    {
        self.weight
    }

    /// Whether two edges have the same endpoints and weight.
    pub fn eq(&self, other: &Self) -> (r: bool)
        ensures
            r == (self.u_view() == other.u_view() && self.v_view() == other.v_view()
                && self.weight_view() == other.weight_view()),
    {
        self.u == other.u && self.v == other.v && self.weight == other.weight
    }

    /// Compares the weights of two edges.
    pub fn cmp(&self, other: &Self) -> (o: Ordering)
        ensures
            o == (if self.weight_view() < other.weight_view() {
                Ordering::Less
            } else if self.weight_view() > other.weight_view() {
                Ordering::Greater
            } else {
                Ordering::Equal
            }),
    {
        if self.weight < other.weight {
            Ordering::Less
        } else if self.weight > other.weight {
            Ordering::Greater
        } else {
            Ordering::Equal
        }
    }
}

} // verus!
