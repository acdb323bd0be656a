//! Iterative-deepening A* over problems with weighted actions, and a
//! blocks-world puzzle to run it on.

pub mod algorithms;
pub mod puzzle;
pub mod world_blocks;
