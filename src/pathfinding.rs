//! Path search over a grid, instrumented with a diagnostic map.

pub mod algos;
pub mod diagnostic_map;
pub mod heuristics;
