//! Poisson-disc ("blue noise") sampling of a planar region.
//!
//! The engine produces a set of points inside a region's bounding box such
//! that no two points are closer than a caller-chosen separation radius.
//! Coordinates are integers, so the geometric invariants are exact: the
//! separation and containment guarantees are stated and proved over plain
//! integer arithmetic.

pub mod bb;
pub mod draw;
pub mod grid;
pub mod point;
pub mod poisson_disc;
pub mod rng;
