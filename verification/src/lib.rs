//! Nearest-neighbour classification of labelled integer feature vectors.
//!
//! A reference set of labelled vectors is searched linearly for the vector
//! closest to a query in Euclidean distance; the label of that vector is the
//! prediction. All distances are compared through their squares, which are
//! exact integers: the square root is strictly increasing on the non-negative
//! numbers, so the order of the distances is the order of their squares.

pub mod error;
pub mod example;
pub mod distance;
pub mod classifier;
pub mod evaluation;
pub mod loader;
