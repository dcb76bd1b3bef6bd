//! Axis-aligned bounding boxes `(left, top, right, bottom)`.

use vstd::prelude::*;
use crate::frac::{
    Frac, frac_wf, rat, r_sub, r_eq, r_le, r_lt, lemma_r_le_trans, lemma_r_eq_sign,
};
use crate::point::{Point, point_wf};
use crate::rect::{Rect, rect_wf};

verus! {

/// A bounding box; well-formed values keep `l <= r` and `t <= b`.
#[derive(Clone, Copy, PartialEq, Eq, Structural, Debug)]
pub struct Bounds {
    pub l: Frac,
    pub t: Frac,
    pub r: Frac,
    pub b: Frac,
}

pub open spec fn bounds_wf(bd: Bounds) -> bool {
    &&& frac_wf(bd.l)
    &&& frac_wf(bd.t)
    &&& frac_wf(bd.r)
    &&& frac_wf(bd.b)
    &&& r_le(rat(bd.l), rat(bd.r))
    &&& r_le(rat(bd.t), rat(bd.b))
}

/// Whether `p` lies inside `bd`, borders included.
pub open spec fn bounds_holds_point(bd: Bounds, p: Point) -> bool {
    &&& r_le(rat(bd.l), rat(p.x))
    &&& r_le(rat(bd.t), rat(p.y))
    &&& r_le(rat(p.x), rat(bd.r))
    &&& r_le(rat(p.y), rat(bd.b))
}

impl Bounds {
    /// Creates new Bounds from already ordered sides: `r` must not lie left
    /// of `l`, nor `b` above `t`.
    pub fn new(l: Frac, t: Frac, r: Frac, b: Frac) -> (bd: Bounds)
        requires
            frac_wf(l),
            frac_wf(t),
            frac_wf(r),
            frac_wf(b),
            r_le(rat(l), rat(r)),
            r_le(rat(t), rat(b)),
        ensures
            bounds_wf(bd),
            bd.l == l && bd.t == t && bd.r == r && bd.b == b,
    {
        Bounds { l: l, t: t, r: r, b: b }
    }

    /// Creates new Bounds from two arbitrary corners, sorting each axis.
    pub fn new_safe(x1: Frac, y1: Frac, x2: Frac, y2: Frac) -> (bd: Bounds)
        requires
            frac_wf(x1),
            frac_wf(y1),
            frac_wf(x2),
            frac_wf(y2),
        ensures
            bounds_wf(bd),
            r_lt(rat(x2), rat(x1)) ==> bd.l == x2 && bd.r == x1,
            !r_lt(rat(x2), rat(x1)) ==> bd.l == x1 && bd.r == x2,
            r_lt(rat(y2), rat(y1)) ==> bd.t == y2 && bd.b == y1,
            !r_lt(rat(y2), rat(y1)) ==> bd.t == y1 && bd.b == y2,
    {
        if x2.lt(&x1) {
            if y2.lt(&y1) {
                Bounds { l: x2, t: y2, r: x1, b: y1 }
            } else {
                Bounds { l: x2, t: y1, r: x1, b: y2 }
            }
        } else {
            if y2.lt(&y1) {
                Bounds { l: x1, t: y2, r: x2, b: y1 }
            } else {
                Bounds { l: x1, t: y1, r: x2, b: y2 }
            }
        }
    }

    /// The same box as an origin-and-extent rectangle; `None` only when a
    /// reduced extent exceeds the coordinate bounds.
    pub fn to_rect(&self) -> (r: Option<Rect>)
        requires
            bounds_wf(*self),
        ensures
            (r is Some) ==> rect_wf(r->0) && r->0.x == self.l && r->0.y == self.t
                && r_eq(rat(r->0.w), r_sub(rat(self.r), rat(self.l)))
                && r_eq(rat(r->0.h), r_sub(rat(self.b), rat(self.t))),
            (self.l.den == 1 && self.t.den == 1 && self.r.den == 1 && self.b.den == 1
                && self.r.num - self.l.num <= crate::frac::COORD_LIMIT && self.b.num - self.t.num
                <= crate::frac::COORD_LIMIT) ==> (r is Some),
    {
        proof {
            if self.l.den == 1 && self.r.den == 1 {
                assert(self.l.num <= self.r.num) by (nonlinear_arith)
                    requires
                        r_le(rat(self.l), rat(self.r)),
                        self.l.den == 1,
                        self.r.den == 1,
                ;
            }
            if self.t.den == 1 && self.b.den == 1 {
                assert(self.t.num <= self.b.num) by (nonlinear_arith)
                    requires
                        r_le(rat(self.t), rat(self.b)),
                        self.t.den == 1,
                        self.b.den == 1,
                ;
            }
        }
        let w: Option<Frac> = self.r.minus(&self.l);
        let h: Option<Frac> = self.b.minus(&self.t);
        match (w, h) {
            (Some(w), Some(h)) => {
                proof {
                    crate::frac::lemma_mul_pos(self.r.den as int, self.l.den as int);
                    crate::frac::lemma_mul_pos(self.b.den as int, self.t.den as int);
                    lemma_r_eq_sign(rat(w), r_sub(rat(self.r), rat(self.l)));
                    lemma_r_eq_sign(rat(h), r_sub(rat(self.b), rat(self.t)));
                }
                Some(Rect::new(self.l, self.t, w, h))
            },
            _ => None,
        }
    }

    /// Returns new Bounds extended if necessary so that they hold `p`.
    pub fn containing_point(&self, p: &Point) -> (bd: Bounds)
        requires
            bounds_wf(*self),
            point_wf(*p),
        ensures
            bounds_wf(bd),
            bounds_holds_point(bd, *p),
            bd.t == if r_lt(rat(p.y), rat(self.t)) { p.y } else { self.t },
            bd.l == if r_lt(rat(p.x), rat(self.l)) { p.x } else { self.l },
            bd.r == if !r_lt(rat(p.x), rat(self.l)) && r_lt(rat(self.r), rat(p.x)) { p.x } else { self.r },
            bd.b == if !r_lt(rat(p.y), rat(self.t)) && r_lt(rat(self.b), rat(p.y)) { p.y } else { self.b },
    {
        let mut l: Frac = self.l;
        let mut t: Frac = self.t;
        let mut r: Frac = self.r;
        let mut b: Frac = self.b;

        if p.x.lt(&self.l) {
            l = p.x;
        } else if self.r.lt(&p.x) {
            r = p.x;
        }

        if p.y.lt(&self.t) {
            t = p.y;
        } else if self.b.lt(&p.y) {
            b = p.y;
        }

        proof {
            lemma_r_le_trans(rat(l), rat(self.l), rat(r));
            lemma_r_le_trans(rat(self.l), rat(self.r), rat(r));
            lemma_r_le_trans(rat(t), rat(self.t), rat(b));
            lemma_r_le_trans(rat(self.t), rat(self.b), rat(b));
            lemma_r_le_trans(rat(l), rat(p.x), rat(r));
            lemma_r_le_trans(rat(t), rat(p.y), rat(b));
        }
        Bounds { l: l, t: t, r: r, b: b }
    }

    /// Returns new Bounds extended if necessary to ensure that they contain
    /// both the initial and the passed bounds.
    pub fn containing_bounds(&self, bounds: &Bounds) -> (bd: Bounds)
        requires
            bounds_wf(*self),
            bounds_wf(*bounds),
        ensures
            bounds_wf(bd),
            bd.l == if r_lt(rat(bounds.l), rat(self.l)) { bounds.l } else { self.l },
            bd.r == if r_lt(rat(self.r), rat(bounds.r)) { bounds.r } else { self.r },
            bd.t == if r_lt(rat(bounds.t), rat(self.t)) { bounds.t } else { self.t },
            bd.b == if r_lt(rat(self.b), rat(bounds.b)) { bounds.b } else { self.b },
    {
        let mut l: Frac = self.l;
        let mut t: Frac = self.t;
        let mut r: Frac = self.r;
        let mut b: Frac = self.b;

        if bounds.l.lt(&self.l) {
            l = bounds.l;
        }
        if self.r.lt(&bounds.r) {
            r = bounds.r;
        }

        if bounds.t.lt(&self.t) {
            t = bounds.t;
        }
        if self.b.lt(&bounds.b) {
            b = bounds.b;
        }

        proof {
            lemma_r_le_trans(rat(l), rat(self.l), rat(self.r));
            lemma_r_le_trans(rat(l), rat(bounds.l), rat(bounds.r));
            lemma_r_le_trans(rat(l), rat(self.r), rat(r));
            lemma_r_le_trans(rat(l), rat(bounds.r), rat(r));
            lemma_r_le_trans(rat(t), rat(self.t), rat(self.b));
            lemma_r_le_trans(rat(t), rat(bounds.t), rat(bounds.b));
            lemma_r_le_trans(rat(t), rat(self.b), rat(b));
            lemma_r_le_trans(rat(t), rat(bounds.b), rat(b));
        }
        Bounds { l: l, t: t, r: r, b: b }
    }

    /// Whether the point lies inside, borders included.
    pub fn contains_point(&self, p: &Point) -> (r: bool)
        requires
            bounds_wf(*self),
            point_wf(*p),
        ensures
            r == bounds_holds_point(*self, *p),
    {
        self.l.le(&p.x) && self.t.le(&p.y) && p.x.le(&self.r) && p.y.le(&self.b)
    }

    /// Whether the passed bounds lie entirely inside, borders included.
    pub fn contains_bounds(&self, bounds: &Bounds) -> (r: bool)
        requires
            bounds_wf(*self),
            bounds_wf(*bounds),
        ensures
            r == (r_le(rat(self.l), rat(bounds.l)) && r_le(rat(self.t), rat(bounds.t))
                && r_le(rat(bounds.r), rat(self.r)) && r_le(rat(bounds.b), rat(self.b))),
    {
        self.l.le(&bounds.l) && self.t.le(&bounds.t) && bounds.r.le(&self.r) && bounds.b.le(&self.b)
    }

    /// Whether the two boxes overlap: they share at least one point,
    /// borders included, exactly when neither lies wholly beyond the other
    /// on either axis.
    pub fn intersects_bounds(&self, bounds: &Bounds) -> (r: bool)
        requires
            bounds_wf(*self),
            bounds_wf(*bounds),
        ensures
            r == (r_le(rat(bounds.l), rat(self.r)) && r_le(rat(self.l), rat(bounds.r))
                && r_le(rat(bounds.t), rat(self.b)) && r_le(rat(self.t), rat(bounds.b))),
    {
        bounds.l.le(&self.r) && self.l.le(&bounds.r) && bounds.t.le(&self.b) && self.t.le(&bounds.b)
    }
}

} // verus!
