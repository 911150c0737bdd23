//! The algorithms built on the metrics.
pub mod knn;
pub mod nmf;
