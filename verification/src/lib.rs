//! A circular maze library: concentric rings of cells addressed by exact
//! rational angles, a randomized spanning-tree wall generator, and
//! breadth-first analysis of the resulting maze graph.

pub mod analysis;
pub mod building_blocks;
pub mod geometry;
pub mod json_maze;
pub mod maze;
pub mod merge;
pub mod random;
