//! Solver for a calendar tiling puzzle: a rectangular board with a few
//! permanently blocked (wall) cells must be covered exactly, without overlap,
//! by a fixed inventory of polyomino pieces, each usable once in any of its
//! rotated or reflected orientations.

pub mod block;
pub mod board;
pub mod calendar;
pub mod point;
pub mod solver;
