//! Tools for benchmarks.
pub mod testing_tools;
