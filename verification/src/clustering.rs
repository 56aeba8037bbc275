//! The integer parts of the clustering algorithms: seeding, labelling and
//! the checked configurations.
pub mod algorithm;
pub mod dbscan;
pub mod dbscanpp;
pub mod initializer;
pub mod kmeans_init;
pub mod snic;

pub use algorithm::ClusteringAlgorithm;
pub use initializer::Initializer;
pub use kmeans_init::CentroidInit;
pub use snic::{SNICError, SNIC};
