//! Origin-and-extent rectangles.

use vstd::prelude::*;
use crate::frac::{
    Frac, frac_wf, rat, r_add, r_eq, lemma_r_le_add_nonneg,
};
use crate::bounds::{Bounds, bounds_wf};

verus! {

/// A rectangle `(x, y, width, height)`; well-formed values keep both extents
/// non-negative — a negative extent is rejected at construction.
#[derive(Clone, Copy, PartialEq, Eq, Structural, Debug)]
pub struct Rect {
    pub x: Frac,
    pub y: Frac,
    pub w: Frac,
    pub h: Frac,
}

pub open spec fn rect_wf(rc: Rect) -> bool {
    &&& frac_wf(rc.x)
    &&& frac_wf(rc.y)
    &&& frac_wf(rc.w)
    &&& frac_wf(rc.h)
    &&& rc.w.num >= 0
    &&& rc.h.num >= 0
}

impl Rect {
    /// Creates new rect.  Negative extents are a fatal caller error and are
    /// excluded here.
    pub fn new(x: Frac, y: Frac, w: Frac, h: Frac) -> (rc: Rect)
        requires
            frac_wf(x),
            frac_wf(y),
            frac_wf(w),
            frac_wf(h),
            w.num >= 0,
            h.num >= 0,
        ensures
            rect_wf(rc),
            rc.x == x && rc.y == y && rc.w == w && rc.h == h,
    {
        Rect { x: x, y: y, w: w, h: h }
    }

    /// The same rectangle as a bounding box; `None` only when a reduced far
    /// side exceeds the coordinate bounds.
    pub fn to_bounds(&self) -> (r: Option<Bounds>)
        requires
            rect_wf(*self),
        ensures
            (r is Some) ==> bounds_wf(r->0) && r->0.l == self.x && r->0.t == self.y
                && r_eq(rat(r->0.r), r_add(rat(self.x), rat(self.w)))
                && r_eq(rat(r->0.b), r_add(rat(self.y), rat(self.h))),
            (self.x.den == 1 && self.y.den == 1 && self.w.den == 1 && self.h.den == 1
                && -crate::frac::COORD_LIMIT <= self.x.num + self.w.num
                <= crate::frac::COORD_LIMIT && -crate::frac::COORD_LIMIT <= self.y.num
                + self.h.num <= crate::frac::COORD_LIMIT) ==> (r is Some),
    {
        let right: Option<Frac> = self.x.plus(&self.w);
        let bottom: Option<Frac> = self.y.plus(&self.h);
        match (right, bottom) {
            (Some(right), Some(bottom)) => {
                proof {
                    lemma_r_le_add_nonneg(rat(self.x), rat(self.w), rat(right));
                    lemma_r_le_add_nonneg(rat(self.y), rat(self.h), rat(bottom));
                }
                Some(Bounds::new(self.x, self.y, right, bottom))
            },
            _ => None,
        }
    }
}

} // verus!
