//! Stable merge sort over sequences of `i32`, with its contracts proved.
//!
//! `model` holds the mathematical statements (sortedness, stable origins,
//! interleavings), `sort` the executable `merge` and `merge_sort`, and `laws`
//! the properties that relate several results of the sort.
pub mod laws;
pub mod model;
pub mod sort;

pub use sort::{merge, merge_sort};
