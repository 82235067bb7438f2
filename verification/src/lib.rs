//! A perfect-maze generator on a rectangular grid.
//!
//! The carving algorithm grows wall segments from interior lattice seeds by
//! random walks, confirming a segment once it reaches existing wall structure
//! and reverting it when it collides with its own in-progress trail.

pub mod cell;
pub mod dir;
pub mod grid;
pub mod maze;

pub use cell::Cell;
pub use dir::Dir;
pub use dir::DirectionSource;
pub use dir::ReplayDirs;
pub use maze::Maze;
