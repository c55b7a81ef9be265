//! A planar n-body gravity simulator built around a quadtree.
//!
//! All geometry is carried in fixed-point integer units: one simulation
//! length unit of the real-valued formulation corresponds to `SCALE` units here,
//! and masses are plain positive integers. Every quantity the engine computes
//! (centroids, distances, attraction increments) is therefore an exact
//! integer function of its inputs, stated in the contracts below.

pub mod body;
pub mod consolidate;
pub mod constants;
pub mod force;
pub mod geom;
pub mod laws;
pub mod math;
pub mod recenter;
pub mod sim;
pub mod tree;
pub mod zone;
