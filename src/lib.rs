//! Ascending bubble sort of an integer sequence, and the median and mode of it.
pub mod sort;
pub mod stats;
