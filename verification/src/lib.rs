//! Brute-force search for rainbow stackings of symmetric Latin squares.
//!
//! A rainbow stacking of two squares is a relabeling of the second
//! square's vertex set under which every off-diagonal cell disagrees
//! with the first square.  The search walks the minimal transposition
//! sequence of Heap's algorithm, which visits every permutation of the
//! vertex set exactly once.

pub mod parse;
pub mod search;
pub mod square;
pub mod swaps;
