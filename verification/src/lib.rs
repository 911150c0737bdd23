//! Building blocks for recommender systems: a ranking policy, a k-nearest
//! neighbour engine over pluggable metrics, and the whole-number parts of the
//! metrics themselves.
//!
//! Scores and vector components are carried as IEEE-754 single-precision bit
//! patterns (`u32`), so that every ordering decision is integer arithmetic:
//! `score` turns a pattern into the key it is ordered by, `sorting` sorts by a
//! comparison, `ranking` says what the ranking of a pool is and which laws it
//! obeys, and `utils` and `algorithms::knn` rank items by it.
pub mod accuracy;
pub mod algorithms;
pub mod benchmarks;
pub mod matrix;
pub mod models;
pub mod order;
pub mod ranking;
pub mod score;
pub mod similarity;
pub mod sorting;
pub mod testing_tools;
pub mod utils;
