//! A bounding volume hierarchy (BVH) over a triangle mesh.
//!
//! The crate builds a binary tree of axis-aligned bounding boxes with a
//! binned surface-area-heuristic splitter, and answers nearest-hit ray
//! queries with an iterative, stack-based traversal.  Coordinates are
//! bounded fixed-point integers, so every geometric predicate is exact and
//! every query is reproducible; hit distances are kept as exact rationals
//! (numerator and denominator) instead of floating-point values.

pub mod geom;
pub mod aabb;
pub mod ray;
pub mod bvh;
pub mod traverse;
pub mod consistency;
pub mod laws;
pub mod resources;
pub mod input;
pub mod ui;
