//! The polygon data model and triangle batches.

use vstd::prelude::*;
use crate::point::{Point, point_wf, Orientation};

verus! {

/// GPU primitive-assembly mode for a flat vertex list.
#[derive(Clone, Copy, PartialEq, Eq, Structural, Debug)]
pub enum TrianglesMode {
    Strip,
    Fan,
}

/// A triangle batch: an ordered vertex list plus its draw mode.
#[derive(Clone, PartialEq, Eq, Debug)]
pub struct Triangles {
    pub vertices: Vec<Point>,
    pub mode: TrianglesMode,
}

/// An ordered polygon outline (possibly self-intersecting before
/// normalization) with its declared winding.  A `Colinear` winding is a
/// fatal caller error and is excluded by the tessellator's contract.
#[derive(Clone, PartialEq, Eq, Debug)]
pub struct Polygon {
    pub orientation: Orientation,
    pub points: Vec<Point>,
}

/// Every point of the sequence is well formed.
pub open spec fn points_wf(s: Seq<Point>) -> bool {
    forall|i: int| 0 <= i < s.len() ==> point_wf(#[trigger] s[i])
}

pub open spec fn poly_wf(p: Polygon) -> bool {
    points_wf(p.points@)
}

} // verus!
