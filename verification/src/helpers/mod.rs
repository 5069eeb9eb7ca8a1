//! Helpers on vectors: the same combinations that the linked list offers.

pub mod iterators;
pub mod vectors;
