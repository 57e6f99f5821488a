//! The engine.
//!
//! - `geometry`, `primitives`: the plane, and polygons with their
//!   containment and collision tests.
//! - `convexity`, `separation`, `disjoint`: what those tests mean for convex
//!   polygons; `vectors`: the algebra that they rest on.
//! - `quadtree`, `coverage`: the spatial index, and what its queries find.
//! - `grid`, `carving`, `world`: the tiling, the erosion, and the builder
//!   that carries them out in slices of time.
//! - `movement`: the answer to an attempted move.
//! - `chance`, `clock`: the random choices and the clock of the builder.

pub mod carving;
mod chance;
mod clock;
pub mod convexity;
pub mod coverage;
pub mod disjoint;
pub mod geometry;
pub mod grid;
pub mod movement;
pub mod primitives;
pub mod quadtree;
pub mod separation;
pub mod vectors;
pub mod world;
