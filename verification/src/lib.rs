//! Spatial-geometry core of a 2D simulation on a fixed-point integer plane:
//! convex polygons with separating-axis collision resolution, an adaptive
//! quadtree over a dynamic polygon set, and a resumable generator that tiles
//! a region with triangles and then erodes the tiling by random walks.
//!
//! Every coordinate is an `i32` in caller-chosen fixed-point units, so that
//! all arithmetic is exact and proved free of overflow.

pub mod engine;
