//! Breadth-first and depth-first traversal of lazily discovered graphs,
//! with optional cycle suppression and depth bounding.

pub mod collatz;
pub mod stream;
pub mod sync;
