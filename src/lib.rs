//! Closest pair of points in the plane: a brute-force scan, a divide-and-conquer
//! solver and a randomized incremental solver over a spatial grid.
//!
//! Coordinates are integers and every distance is the exact squared Euclidean
//! distance, so results can be compared for equality.

pub mod point;
pub mod brute;
pub mod grid;
pub mod randomized;
pub mod sorting;
pub mod deterministic;
pub mod laws;

pub use point::Point;
pub use brute::brute_force;
pub use grid::Grid;
