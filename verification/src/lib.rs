//! Core data structures of a Monte-Carlo ray tracer: the per-thread scratch
//! stack, the bounding-volume hierarchy over bounded primitives, the scene
//! container, and the recursion-depth protocol for secondary rays.
//!
//! Geometry and shading run on floating-point numbers and live outside this
//! library; everything here is the structural logic those parts rely on, with
//! machine-checked contracts.

pub mod bvh;
pub mod cell_vec;
pub mod raycast_info;
pub mod scene;
