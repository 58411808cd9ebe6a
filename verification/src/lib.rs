//! A constructive-solid-geometry kernel on an integer grid.
//!
//! Solids are soups of coplanar polygons with exact `i64` grid coordinates.
//! Boolean operations (union, difference, intersection) are computed with a
//! binary space partition tree, and an ear-clipping triangulator turns simple
//! polygons into triangle fans.  All arithmetic is exact integer arithmetic,
//! so every geometric predicate (side of a plane, orientation, containment)
//! is decided without rounding error; only the points where a polygon edge
//! crosses a splitting plane are rounded to the grid.

pub mod bsp_node;
pub mod csg;
pub mod ear_clip;
pub mod num;
pub mod plane;
pub mod polygon;
pub mod pt2;
pub mod pt3;
pub mod triangle;
