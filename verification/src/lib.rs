//! Planar-geometry core of a vector-graphics drawing engine.
//!
//! The crate takes an arbitrary, possibly self-intersecting polygon outline
//! and produces triangle batches that a rasterizer can draw to reproduce the
//! filled polygon.  It holds a small 2D geometry kernel (exact rational
//! scalars, points, orientation, bounds, lines), a polygon self-intersection
//! normalizer, and an ear-clipping tessellator with a visibility guard.
//!
//! Coordinates are exact rationals with bounded components, so every
//! orientation and crossing test is decided exactly; rendering glue that
//! needs machine floats converts at the boundary.

pub mod frac;
pub mod point;
pub mod bounds;
pub mod rect;
pub mod line;
pub mod curves;
pub mod polygon;
pub mod area;
pub mod tesselation;
