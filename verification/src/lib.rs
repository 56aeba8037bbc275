//! Building blocks of colour-palette extraction: hierarchical clustering,
//! grid views, graph edges and the integer parts of the clustering and
//! sampling algorithms.
mod heap;
pub mod hierarchical;
pub mod matrix;
pub mod point;
pub mod graph;
pub mod metrics;
pub mod error;
pub mod theme;
pub mod clustering;
pub mod segmentation;
pub mod sampling;
pub mod swatch;
