//! A mergeable minimum-priority queue: a Fibonacci heap without decrease-key.
//!
//! `tree` holds the heap-ordered trees, `heap` the queue built from them,
//! `shape` the mathematical model that the contracts of both speak of.

pub mod order;
pub mod sums;
pub mod shape;
pub mod extraction;
pub mod text;
pub mod tree;
pub mod heap;
