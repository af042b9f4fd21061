//! Maze generation over rectangular grids and instrumented path search.

pub mod disjoint_set;
pub mod grid;
pub mod mazegen;
pub mod pathfinding;
pub mod perfect;
pub mod random;
