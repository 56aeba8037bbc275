//! Agglomerative hierarchical clustering over `u64` distances.
//!
//! Distances are unsigned integers; callers that measure in floating point
//! hand in integers ordered as their distances are.
pub mod algorithm;
pub mod cut;
pub mod shape;
pub mod dendrogram;
pub mod linkage;
pub mod node;
pub mod priority;


pub use dendrogram::Dendrogram;

pub use linkage::{CompleteLinkage, DistanceMatrix, Linkage, SingleLinkage};
pub use algorithm::HierarchicalClustering;
pub use node::Node;
pub use priority::Priority;
