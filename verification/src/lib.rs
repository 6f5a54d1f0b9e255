//! Generative line art over an occupancy grid.
//!
//! The library repeatedly draws randomized self-avoiding walks through the
//! fillable cells of a rectangular grid until every fillable cell has been
//! visited, then renders each walk as a polyline stroke of a vector-image
//! document.

pub mod grid;
pub mod render;
pub mod rng;
pub mod walks;
