//! Quadratic Bezier curves.

use vstd::prelude::*;
use crate::frac::{
    Frac, Rat, frac_wf, rat, r_add, r_sub, r_mul, r_eq, r_le, r_int,
    lemma_mul_bounds, lemma_mul_pos, lemma_r_eq_trans, lemma_r_eq_add, lemma_r_le_trans,
    reduce_pair, COORD_LIMIT,
};
use crate::point::{Point, point_wf, sub_parts};
use crate::bounds::{Bounds, bounds_wf};

verus! {

/// A quadratic Bezier curve: endpoints `a`, `b` and one control point.
#[derive(Clone, Copy, PartialEq, Eq, Structural, Debug)]
pub struct QuadraticCurve {
    pub a: Point,
    pub cp: Point,
    pub b: Point,
}

pub open spec fn curve_wf(c: QuadraticCurve) -> bool {
    point_wf(c.a) && point_wf(c.cp) && point_wf(c.b)
}

/// The Bernstein form `p0*(1-t)^2 + 2*(1-t)*t*pc + t^2*p1` of one
/// coordinate of the curve.
pub open spec fn bezier_rat(p0: Rat, pc: Rat, p1: Rat, t: Rat) -> Rat {
    let omt = r_sub(r_int(1), t);
    r_add(
        r_add(r_mul(r_mul(omt, omt), p0), r_mul(r_mul(r_mul(r_int(2), omt), t), pc)),
        r_mul(r_mul(t, t), p1),
    )
}

/// Evaluates one coordinate of the curve exactly; `None` only when a
/// reduced intermediate exceeds the machine bounds.
fn eval_bezier(p0: &Frac, pc: &Frac, p1: &Frac, t: &Frac) -> (r: Option<Frac>)
    requires
        frac_wf(*p0),
        frac_wf(*pc),
        frac_wf(*p1),
        frac_wf(*t),
    ensures
        (r is Some) ==> frac_wf(r->0) && r_eq(rat(r->0), bezier_rat(rat(*p0), rat(*pc), rat(*p1), rat(*t))),
{
    let omtn: i128 = t.den - t.num;
    let omtd: i128 = t.den;
    proof {
        lemma_mul_bounds(omtn as int, omtn as int, 0x1_0000, 0x1_0000);
        lemma_mul_bounds(omtd as int, omtd as int, 0x8000, 0x8000);
        lemma_mul_pos(omtd as int, omtd as int);
        lemma_mul_bounds(omtn as int * omtn as int, p0.num as int, 0x1_0000_0000, 0x8000);
        lemma_mul_bounds(omtd as int * omtd as int, p0.den as int, 0x4000_0000, 0x8000);
        lemma_mul_pos(omtd as int * omtd as int, p0.den as int);
    }
    let t1n: i128 = (omtn * omtn) * p0.num;
    let t1d: i128 = (omtd * omtd) * p0.den;
    proof {
        lemma_mul_bounds(2 * omtn as int, t.num as int, 0x2_0000, 0x8000);
        lemma_mul_bounds((2 * omtn as int) * t.num as int, pc.num as int, 0x10_0000_0000, 0x8000);
        lemma_mul_bounds(omtd as int, t.den as int, 0x8000, 0x8000);
        lemma_mul_bounds(omtd as int * t.den as int, pc.den as int, 0x4000_0000, 0x8000);
        lemma_mul_pos(omtd as int, t.den as int);
        lemma_mul_pos(omtd as int * t.den as int, pc.den as int);
    }
    let t2n: i128 = ((2 * omtn) * t.num) * pc.num;
    let t2d: i128 = ((1 * omtd) * t.den) * pc.den;
    proof {
        lemma_mul_bounds(t.num as int, t.num as int, 0x8000, 0x8000);
        lemma_mul_bounds(t.num as int * t.num as int, p1.num as int, 0x4000_0000, 0x8000);
        lemma_mul_bounds(t.den as int, t.den as int, 0x8000, 0x8000);
        lemma_mul_bounds(t.den as int * t.den as int, p1.den as int, 0x4000_0000, 0x8000);
        lemma_mul_pos(t.den as int, t.den as int);
        lemma_mul_pos(t.den as int * t.den as int, p1.den as int);
    }
    let t3n: i128 = (t.num * t.num) * p1.num;
    let t3d: i128 = (t.den * t.den) * p1.den;
    proof {
        lemma_mul_bounds(t1n as int, t2d as int, 0x20_0000_0000_0000, 0x2000_0000_0000);
        lemma_mul_bounds(t2n as int, t1d as int, 0x80_0000_0000_0000, 0x2000_0000_0000);
        lemma_mul_bounds(t1d as int, t2d as int, 0x2000_0000_0000, 0x2000_0000_0000);
        lemma_mul_pos(t1d as int, t2d as int);
    }
    let s12n: i128 = t1n * t2d + t2n * t1d;
    let s12d: i128 = t1d * t2d;
    let (rs12n, rs12d): (i128, i128) = reduce_pair(s12n, s12d);
    if rs12n > 0x4000_0000_0000_0000 || rs12n < -0x4000_0000_0000_0000 || rs12d
        > 0x4000_0000_0000_0000 {
        return None;
    }
    proof {
        lemma_mul_bounds(rs12n as int, t3d as int, 0x4000_0000_0000_0000, 0x2000_0000_0000);
        lemma_mul_bounds(t3n as int, rs12d as int, 0x20_0000_0000_0000, 0x4000_0000_0000_0000);
        lemma_mul_bounds(rs12d as int, t3d as int, 0x4000_0000_0000_0000, 0x2000_0000_0000);
        lemma_mul_pos(rs12d as int, t3d as int);
    }
    let sn: i128 = rs12n * t3d + t3n * rs12d;
    let sd: i128 = rs12d * t3d;
    let out: Option<Frac> = Frac::build(sn, sd);
    proof {
        if out is Some {
            let s12 = Rat { n: s12n as int, d: s12d as int };
            let rs12 = Rat { n: rs12n as int, d: rs12d as int };
            let t3 = Rat { n: t3n as int, d: t3d as int };
            lemma_r_eq_add(rs12, s12, t3, t3);
            assert(r_add(rs12, t3).d != 0) by (nonlinear_arith)
                requires
                    r_add(rs12, t3).d == rs12d * t3d,
                    rs12d >= 1,
                    t3d > 0,
            ;
            lemma_r_eq_trans(rat(out->0), r_add(rs12, t3), r_add(s12, t3));
            assert(r_add(s12, t3) == bezier_rat(rat(*p0), rat(*pc), rat(*p1), rat(*t)));
        }
    }
    out
}

impl QuadraticCurve {
    /// Returns the x coordinate of the curve at the specific `t`, exactly.
    pub fn get_x(&self, t: Frac) -> (r: Option<Frac>)
        requires
            curve_wf(*self),
            frac_wf(t),
        ensures
            (r is Some) ==> frac_wf(r->0) && r_eq(
                rat(r->0),
                bezier_rat(rat(self.a.x), rat(self.cp.x), rat(self.b.x), rat(t)),
            ),
    {
        eval_bezier(&self.a.x, &self.cp.x, &self.b.x, &t)
    }

    /// Returns the y coordinate of the curve at the specific `t`, exactly.
    pub fn get_y(&self, t: Frac) -> (r: Option<Frac>)
        requires
            curve_wf(*self),
            frac_wf(t),
        ensures
            (r is Some) ==> frac_wf(r->0) && r_eq(
                rat(r->0),
                bezier_rat(rat(self.a.y), rat(self.cp.y), rat(self.b.y), rat(t)),
            ),
    {
        eval_bezier(&self.a.y, &self.cp.y, &self.b.y, &t)
    }

    /// Gets the point of the curve at position `t` of `[0, 1]`.
    pub fn get_p(&self, t: Frac) -> (r: Option<Point>)
        requires
            curve_wf(*self),
            frac_wf(t),
        ensures
            (r is Some) ==> point_wf(r->0) && r_eq(
                rat(r->0.x),
                bezier_rat(rat(self.a.x), rat(self.cp.x), rat(self.b.x), rat(t)),
            ) && r_eq(
                rat(r->0.y),
                bezier_rat(rat(self.a.y), rat(self.cp.y), rat(self.b.y), rat(t)),
            ),
    {
        match (self.get_x(t), self.get_y(t)) {
            (Some(x), Some(y)) => Some(Point { x: x, y: y }),
            _ => None,
        }
    }

    /// An axis-aligned box covering the whole curve: the componentwise box
    /// of the three control points.  A quadratic Bezier curve is a convex
    /// combination of its control points at every parameter, so it never
    /// leaves this box; the box also holds all three control points, which
    /// the contract states.  (The exact interior extremes, available through
    /// [`QuadraticCurve::extreme_param`], always lie inside it.)
    pub fn get_bounds(&self) -> (r: Bounds)
        requires
            curve_wf(*self),
        ensures
            bounds_wf(r),
            r_le(rat(r.l), rat(self.a.x)) && r_le(rat(self.a.x), rat(r.r)),
            r_le(rat(r.l), rat(self.b.x)) && r_le(rat(self.b.x), rat(r.r)),
            r_le(rat(r.l), rat(self.cp.x)) && r_le(rat(self.cp.x), rat(r.r)),
            r_le(rat(r.t), rat(self.a.y)) && r_le(rat(self.a.y), rat(r.b)),
            r_le(rat(r.t), rat(self.b.y)) && r_le(rat(self.b.y), rat(r.b)),
            r_le(rat(r.t), rat(self.cp.y)) && r_le(rat(self.cp.y), rat(r.b)),
    {
        // starting points
        let mut l: Frac;
        let mut r_: Frac;
        if self.a.x.lt(&self.b.x) {
            l = self.a.x;
            r_ = self.b.x;
        } else {
            l = self.b.x;
            r_ = self.a.x;
        }

        let mut t: Frac;
        let mut b: Frac;
        if self.a.y.lt(&self.b.y) {
            t = self.a.y;
            b = self.b.y;
        } else {
            t = self.b.y;
            b = self.a.y;
        }

        // widen by the control point: the curve's hull
        if self.cp.x.lt(&l) {
            proof {
                lemma_r_le_trans(rat(self.cp.x), rat(l), rat(self.a.x));
                lemma_r_le_trans(rat(self.cp.x), rat(l), rat(self.b.x));
            }
            l = self.cp.x;
        } else if r_.lt(&self.cp.x) {
            proof {
                lemma_r_le_trans(rat(self.a.x), rat(r_), rat(self.cp.x));
                lemma_r_le_trans(rat(self.b.x), rat(r_), rat(self.cp.x));
            }
            r_ = self.cp.x;
        }

        if self.cp.y.lt(&t) {
            proof {
                lemma_r_le_trans(rat(self.cp.y), rat(t), rat(self.a.y));
                lemma_r_le_trans(rat(self.cp.y), rat(t), rat(self.b.y));
            }
            t = self.cp.y;
        } else if b.lt(&self.cp.y) {
            proof {
                lemma_r_le_trans(rat(self.a.y), rat(b), rat(self.cp.y));
                lemma_r_le_trans(rat(self.b.y), rat(b), rat(self.cp.y));
            }
            b = self.cp.y;
        }

        proof {
            lemma_r_le_trans(rat(l), rat(self.a.x), rat(r_));
            lemma_r_le_trans(rat(l), rat(self.b.x), rat(r_));
            lemma_r_le_trans(rat(l), rat(self.cp.x), rat(r_));
            lemma_r_le_trans(rat(t), rat(self.a.y), rat(b));
            lemma_r_le_trans(rat(t), rat(self.b.y), rat(b));
            lemma_r_le_trans(rat(t), rat(self.cp.y), rat(b));
        }
        Bounds::new(l, t, r_, b)
    }

    /// The parameter at which the chosen axis of the curve is extremal,
    /// when it lies strictly inside `(0, 1)` and is representable; the
    /// curve's coordinate there, via [`QuadraticCurve::get_x`] or
    /// [`QuadraticCurve::get_y`], gives the tight extent of that axis.
    pub fn extreme_param(&self, x_axis: bool) -> (r: Option<Frac>)
        requires
            curve_wf(*self),
        ensures
            (r is Some) ==> frac_wf(r->0),
    {
        let (v1n, v1d): (i128, i128) = if x_axis {
            sub_parts(&self.cp.x, &self.a.x)
        } else {
            sub_parts(&self.cp.y, &self.a.y)
        };
        let (v2n, v2d): (i128, i128) = if x_axis {
            sub_parts(&self.b.x, &self.cp.x)
        } else {
            sub_parts(&self.b.y, &self.cp.y)
        };
        proof {
            lemma_mul_bounds(v2n as int, v1d as int, 0x8000_0000, 0x4000_0000);
            lemma_mul_bounds(v1n as int, v2d as int, 0x8000_0000, 0x4000_0000);
            lemma_mul_bounds(v2d as int, v1d as int, 0x4000_0000, 0x4000_0000);
            lemma_mul_pos(v2d as int, v1d as int);
        }
        // the derivative changes sign at t = -v1 / (v2 - v1)
        let dnn: i128 = v2n * v1d - v1n * v2d;
        let dnd: i128 = v2d * v1d;
        if dnn == 0 {
            return None;
        }
        proof {
            lemma_mul_bounds(-(v1n as int), dnd as int, 0x8000_0000, 0x1000_0000_0000_0000);
            lemma_mul_bounds(v1d as int, dnn as int, 0x4000_0000, 0x4000_0000_0000_0000);
        }
        let pn: i128 = (-v1n) * dnd;
        let qn: i128 = v1d * dnn;
        // keep it only when strictly between 0 and 1
        let inside: bool = if qn > 0 {
            0 < pn && pn < qn
        } else {
            qn < pn && pn < 0
        };
        if !inside {
            return None;
        }
        Frac::build(pn, qn)
    }
}

} // verus!
