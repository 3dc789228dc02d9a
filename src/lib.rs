//! Maximum path sums of chess pieces moving down a grid of numbers.

pub mod grid;
pub mod paths;
pub mod laws;
pub mod text;
