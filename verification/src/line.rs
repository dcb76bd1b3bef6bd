//! Line segments and the free segment queries: side-of-line, clamped
//! projection, and squared point-to-segment distance.

use vstd::prelude::*;
use crate::frac::{
    Frac, Rat, frac_wf, rat, r_add, r_sub, r_mul, r_div, r_eq, r_le, r_lt, r_int,
    lemma_mul_bounds, lemma_mul_pos, lemma_r_eq_trans, lemma_r_eq_mul, lemma_r_eq_add,
    lemma_r_eq_sub, lemma_r_eq_div, lemma_r_le_congr, reduce_pair, COORD_LIMIT,
};
use crate::point::{Point, point_wf, dist2_rat, sub_parts, points_orientation, orient_spec};
use crate::bounds::{Bounds, bounds_wf};

verus! {

/// A line segment between two points.
#[derive(Clone, Copy, PartialEq, Eq, Structural, Debug)]
pub struct Line {
    pub a: Point,
    pub b: Point,
}

pub open spec fn line_wf(l: Line) -> bool {
    point_wf(l.a) && point_wf(l.b)
}

/// The x coordinate of `a + t*(b - a)`.
pub open spec fn point_on_rat_x(a: Point, b: Point, t: Rat) -> Rat {
    r_add(rat(a.x), r_mul(t, r_sub(rat(b.x), rat(a.x))))
}

/// The y coordinate of `a + t*(b - a)`.
pub open spec fn point_on_rat_y(a: Point, b: Point, t: Rat) -> Rat {
    r_add(rat(a.y), r_mul(t, r_sub(rat(b.y), rat(a.y))))
}

/// The side value `(b.x - a.x)*(p.y - a.y) - (b.y - a.y)*(p.x - a.x)`;
/// positive when `p` lies left of (or above) the directed line `a -> b`,
/// negative on the other side, zero on the line.
pub open spec fn line_side_rat(a: Point, b: Point, p: Point) -> Rat {
    r_sub(
        r_mul(r_sub(rat(b.x), rat(a.x)), r_sub(rat(p.y), rat(a.y))),
        r_mul(r_sub(rat(b.y), rat(a.y)), r_sub(rat(p.x), rat(a.x))),
    )
}

/// The dot product `(p - a) . (b - a)`, the projection numerator.
pub open spec fn proj_num_rat(a: Point, b: Point, p: Point) -> Rat {
    r_add(
        r_mul(r_sub(rat(p.x), rat(a.x)), r_sub(rat(b.x), rat(a.x))),
        r_mul(r_sub(rat(p.y), rat(a.y)), r_sub(rat(b.y), rat(a.y))),
    )
}

/// The unclamped projection parameter `(p - a).(b - a) / |b - a|^2`.
pub open spec fn proj_raw_rat(a: Point, b: Point, p: Point) -> Rat {
    r_div(proj_num_rat(a, b, p), dist2_rat(b, a))
}

/// A rational with positive denominator clamped into `[0, 1]`.
pub open spec fn clamp01(r: Rat) -> Rat {
    if r.n <= 0 {
        r_int(0)
    } else if r_le(r_int(1), r) {
        r_int(1)
    } else {
        r
    }
}

/// The squared distance from `p` to the point of the segment `a -> b`
/// closest to it (the clamped projection of `p`).
pub open spec fn seg_dist2_rat(a: Point, b: Point, p: Point) -> Rat {
    let t = clamp01(proj_raw_rat(a, b, p));
    let cx = point_on_rat_x(a, b, t);
    let cy = point_on_rat_y(a, b, t);
    r_add(
        r_mul(r_sub(rat(p.x), cx), r_sub(rat(p.x), cx)),
        r_mul(r_sub(rat(p.y), cy), r_sub(rat(p.y), cy)),
    )
}

impl Line {
    pub fn a(&self) -> (r: Point)
        ensures
            r == self.a,
    {
        self.a
    }

    pub fn b(&self) -> (r: Point)
        ensures
            r == self.b,
    {
        self.b
    }

    pub fn new(a: Point, b: Point) -> (r: Line)
        ensures
            r.a == a,
            r.b == b,
    {
        Line { a: a, b: b }
    }

    /// Returns whether the line is of 0 length, meaning that its endpoints
    /// hold the same value.
    pub fn is_point(&self) -> (r: bool)
        requires
            line_wf(*self),
        ensures
            r == (r_eq(rat(self.a.x), rat(self.b.x)) && r_eq(rat(self.a.y), rat(self.b.y))),
    {
        self.a.equal(&self.b)
    }

    /// The point `a + t*(b - a)`; `None` only when a reduced coordinate of
    /// the result exceeds the coordinate bounds.
    pub fn point_on(&self, t: Frac) -> (r: Option<Point>)
        requires
            line_wf(*self),
            frac_wf(t),
        ensures
            (r is Some) ==> point_wf(r->0)
                && r_eq(rat(r->0.x), point_on_rat_x(self.a, self.b, rat(t)))
                && r_eq(rat(r->0.y), point_on_rat_y(self.a, self.b, rat(t))),
            (self.a.x.den == 1 && self.a.y.den == 1 && self.b.x.den == 1 && self.b.y.den == 1
                && t.den == 1 && -COORD_LIMIT <= self.a.x.num + t.num * (self.b.x.num
                - self.a.x.num) <= COORD_LIMIT && -COORD_LIMIT <= self.a.y.num + t.num
                * (self.b.y.num - self.a.y.num) <= COORD_LIMIT) ==> (r is Some),
    {
        point_on_line(&self.a, &self.b, &t)
    }

    /// The tight axis-aligned box around the two endpoints.
    pub fn get_bounds(&self) -> (r: Bounds)
        requires
            line_wf(*self),
        ensures
            bounds_wf(r),
            r_lt(rat(self.a.x), rat(self.b.x)) ==> r.l == self.a.x && r.r == self.b.x,
            !r_lt(rat(self.a.x), rat(self.b.x)) ==> r.l == self.b.x && r.r == self.a.x,
            r_lt(rat(self.a.y), rat(self.b.y)) ==> r.t == self.a.y && r.b == self.b.y,
            !r_lt(rat(self.a.y), rat(self.b.y)) ==> r.t == self.b.y && r.b == self.a.y,
    {
        let l: Frac;
        let r: Frac;
        if self.a.x.lt(&self.b.x) {
            l = self.a.x;
            r = self.b.x;
        } else {
            l = self.b.x;
            r = self.a.x;
        }

        let t: Frac;
        let b: Frac;
        if self.a.y.lt(&self.b.y) {
            t = self.a.y;
            b = self.b.y;
        } else {
            t = self.b.y;
            b = self.a.y;
        }

        Bounds::new(l, t, r, b)
    }
}

/// The side value of `p` against the directed line `a -> b`; `None` only
/// when the reduced value exceeds the coordinate bounds.
pub fn line_side(a: Point, b: Point, p: Point) -> (r: Option<Frac>)
    requires
        point_wf(a),
        point_wf(b),
        point_wf(p),
    ensures
        (r is Some) ==> frac_wf(r->0) && r_eq(rat(r->0), line_side_rat(a, b, p)),
        (a.x.den == 1 && a.y.den == 1 && b.x.den == 1 && b.y.den == 1 && p.x.den == 1 && p.y.den
            == 1 && -COORD_LIMIT <= (b.x.num - a.x.num) * (p.y.num - a.y.num) - (b.y.num
            - a.y.num) * (p.x.num - a.x.num) <= COORD_LIMIT) ==> (r is Some),
{
    let (n1, d1): (i128, i128) = sub_parts(&b.x, &a.x);
    let (n2, d2): (i128, i128) = sub_parts(&p.y, &a.y);
    let (n3, d3): (i128, i128) = sub_parts(&b.y, &a.y);
    let (n4, d4): (i128, i128) = sub_parts(&p.x, &a.x);
    proof {
        lemma_mul_bounds(n1 as int, n2 as int, 0x8000_0000, 0x8000_0000);
        lemma_mul_bounds(n3 as int, n4 as int, 0x8000_0000, 0x8000_0000);
        lemma_mul_bounds(d1 as int, d2 as int, 0x4000_0000, 0x4000_0000);
        lemma_mul_bounds(d3 as int, d4 as int, 0x4000_0000, 0x4000_0000);
    }
    let p1: i128 = n1 * n2;
    let q1: i128 = d1 * d2;
    let p2: i128 = n3 * n4;
    let q2: i128 = d3 * d4;
    proof {
        lemma_mul_bounds(p1 as int, q2 as int, 0x4000_0000_0000_0000, 0x1000_0000_0000_0000);
        lemma_mul_bounds(p2 as int, q1 as int, 0x4000_0000_0000_0000, 0x1000_0000_0000_0000);
        lemma_mul_bounds(q1 as int, q2 as int, 0x1000_0000_0000_0000, 0x1000_0000_0000_0000);
        lemma_mul_pos(d1 as int, d2 as int);
        lemma_mul_pos(d3 as int, d4 as int);
        lemma_mul_pos(q1 as int, q2 as int);
    }
    let nn: i128 = p1 * q2 - p2 * q1;
    let dd: i128 = q1 * q2;
    proof {
        if a.x.den == 1 && a.y.den == 1 && b.x.den == 1 && b.y.den == 1 && p.x.den == 1
            && p.y.den == 1 {
            assert(nn == (b.x.num - a.x.num) * (p.y.num - a.y.num) - (b.y.num - a.y.num)
                * (p.x.num - a.x.num) && dd == 1) by (nonlinear_arith)
                requires
                    nn == p1 * q2 - p2 * q1,
                    dd == q1 * q2,
                    p1 == n1 * n2,
                    p2 == n3 * n4,
                    q1 == d1 * d2,
                    q2 == d3 * d4,
                    n1 == b.x.num * a.x.den - a.x.num * b.x.den,
                    n2 == p.y.num * a.y.den - a.y.num * p.y.den,
                    n3 == b.y.num * a.y.den - a.y.num * b.y.den,
                    n4 == p.x.num * a.x.den - a.x.num * p.x.den,
                    d1 == b.x.den * a.x.den,
                    d2 == p.y.den * a.y.den,
                    d3 == b.y.den * a.y.den,
                    d4 == p.x.den * a.x.den,
                    a.x.den == 1,
                    a.y.den == 1,
                    b.x.den == 1,
                    b.y.den == 1,
                    p.x.den == 1,
                    p.y.den == 1,
            ;
        }
    }
    Frac::build(nn, dd)
}

/// The point `a + t*(b - a)`; `None` only when a reduced coordinate of the
/// result exceeds the coordinate bounds.
pub fn point_on_line(a: &Point, b: &Point, t: &Frac) -> (r: Option<Point>)
    requires
        point_wf(*a),
        point_wf(*b),
        frac_wf(*t),
    ensures
        (r is Some) ==> point_wf(r->0)
            && r_eq(rat(r->0.x), point_on_rat_x(*a, *b, rat(*t)))
            && r_eq(rat(r->0.y), point_on_rat_y(*a, *b, rat(*t))),
        (a.x.den == 1 && a.y.den == 1 && b.x.den == 1 && b.y.den == 1 && t.den == 1
            && -COORD_LIMIT <= a.x.num + t.num * (b.x.num - a.x.num) <= COORD_LIMIT
            && -COORD_LIMIT <= a.y.num + t.num * (b.y.num - a.y.num) <= COORD_LIMIT)
            ==> (r is Some),
{
    let (dxn, dxd): (i128, i128) = sub_parts(&b.x, &a.x);
    let (dyn_, dyd): (i128, i128) = sub_parts(&b.y, &a.y);
    proof {
        lemma_mul_bounds(t.den as int, dxd as int, COORD_LIMIT as int, 0x4000_0000);
        lemma_mul_bounds(t.den as int, dyd as int, COORD_LIMIT as int, 0x4000_0000);
        lemma_mul_bounds(a.x.num as int, t.den as int * dxd as int, COORD_LIMIT as int, 0x2_0000_0000_0000);
        lemma_mul_bounds(a.y.num as int, t.den as int * dyd as int, COORD_LIMIT as int, 0x2_0000_0000_0000);
        lemma_mul_bounds(t.num as int, dxn as int, COORD_LIMIT as int, 0x8000_0000);
        lemma_mul_bounds(t.num as int, dyn_ as int, COORD_LIMIT as int, 0x8000_0000);
        lemma_mul_bounds(t.num as int * dxn as int, a.x.den as int, 0x4_0000_0000_0000, COORD_LIMIT as int);
        lemma_mul_bounds(t.num as int * dyn_ as int, a.y.den as int, 0x4_0000_0000_0000, COORD_LIMIT as int);
        lemma_mul_bounds(a.x.den as int, t.den as int * dxd as int, COORD_LIMIT as int, 0x2_0000_0000_0000);
        lemma_mul_bounds(a.y.den as int, t.den as int * dyd as int, COORD_LIMIT as int, 0x2_0000_0000_0000);
        lemma_mul_pos(t.den as int, dxd as int);
        lemma_mul_pos(t.den as int, dyd as int);
        lemma_mul_pos(a.x.den as int, t.den as int * dxd as int);
        lemma_mul_pos(a.y.den as int, t.den as int * dyd as int);
    }
    let xn: i128 = a.x.num * (t.den * dxd) + (t.num * dxn) * a.x.den;
    let xd: i128 = a.x.den * (t.den * dxd);
    let yn: i128 = a.y.num * (t.den * dyd) + (t.num * dyn_) * a.y.den;
    let yd: i128 = a.y.den * (t.den * dyd);
    proof {
        if a.x.den == 1 && a.y.den == 1 && b.x.den == 1 && b.y.den == 1 && t.den == 1 {
            assert(xn == a.x.num + t.num * (b.x.num - a.x.num) && xd == 1 && yn == a.y.num
                + t.num * (b.y.num - a.y.num) && yd == 1) by (nonlinear_arith)
                requires
                    xn == a.x.num * (t.den * dxd) + (t.num * dxn) * a.x.den,
                    xd == a.x.den * (t.den * dxd),
                    yn == a.y.num * (t.den * dyd) + (t.num * dyn_) * a.y.den,
                    yd == a.y.den * (t.den * dyd),
                    dxn == b.x.num * a.x.den - a.x.num * b.x.den,
                    dyn_ == b.y.num * a.y.den - a.y.num * b.y.den,
                    dxd == b.x.den * a.x.den,
                    dyd == b.y.den * a.y.den,
                    a.x.den == 1,
                    a.y.den == 1,
                    b.x.den == 1,
                    b.y.den == 1,
                    t.den == 1,
            ;
        }
    }
    let x: Option<Frac> = Frac::build(xn, xd);
    let y: Option<Frac> = Frac::build(yn, yd);
    match (x, y) {
        (Some(x), Some(y)) => Some(Point { x: x, y: y }),
        _ => None,
    }
}

/// Gets the `t` value of `p` projected onto the segment `a -> b`, clamped
/// into `[0, 1]`.  A degenerate segment projects everything onto its far
/// endpoint, `t = 1`, matching the clamping the engine has for the
/// undefined ratio.  `None` only when the reduced parameter exceeds the
/// machine bounds; a projection that clamps to an end always succeeds.
pub fn get_point_on_line_projection(a: Point, b: Point, p: Point) -> (r: Option<Frac>)
    requires
        point_wf(a),
        point_wf(b),
        point_wf(p),
    ensures
        (r is Some) ==> frac_wf(r->0),
        !(r_eq(rat(a.x), rat(b.x)) && r_eq(rat(a.y), rat(b.y))) && (r is Some) ==> r_eq(
            rat(r->0),
            clamp01(proj_raw_rat(a, b, p)),
        ),
        (r_eq(rat(a.x), rat(b.x)) && r_eq(rat(a.y), rat(b.y))) ==> r == Some(
            (Frac { num: 1, den: 1 }),
        ),
        proj_num_rat(a, b, p).n <= 0 ==> (r is Some),
{
    let (dpxn, dpxd): (i128, i128) = sub_parts(&p.x, &a.x);
    let (dpyn, dpyd): (i128, i128) = sub_parts(&p.y, &a.y);
    let (dbxn, dbxd): (i128, i128) = sub_parts(&b.x, &a.x);
    let (dbyn, dbyd): (i128, i128) = sub_parts(&b.y, &a.y);
    proof {
        lemma_mul_bounds(dpxn as int, dbxn as int, 0x8000_0000, 0x8000_0000);
        lemma_mul_bounds(dpyn as int, dbyn as int, 0x8000_0000, 0x8000_0000);
        lemma_mul_bounds(dpxd as int, dbxd as int, 0x4000_0000, 0x4000_0000);
        lemma_mul_bounds(dpyd as int, dbyd as int, 0x4000_0000, 0x4000_0000);
        lemma_mul_bounds(dbxn as int, dbxn as int, 0x8000_0000, 0x8000_0000);
        lemma_mul_bounds(dbyn as int, dbyn as int, 0x8000_0000, 0x8000_0000);
        lemma_mul_bounds(dbxd as int, dbxd as int, 0x4000_0000, 0x4000_0000);
        lemma_mul_bounds(dbyd as int, dbyd as int, 0x4000_0000, 0x4000_0000);
        lemma_mul_pos(dpxd as int, dbxd as int);
        lemma_mul_pos(dpyd as int, dbyd as int);
        lemma_mul_pos(dbxd as int, dbxd as int);
        lemma_mul_pos(dbyd as int, dbyd as int);
    }
    let mx: i128 = dpxn * dbxn;
    let mxd: i128 = dpxd * dbxd;
    let my: i128 = dpyn * dbyn;
    let myd: i128 = dpyd * dbyd;
    let sx: i128 = dbxn * dbxn;
    let sxd: i128 = dbxd * dbxd;
    let sy: i128 = dbyn * dbyn;
    let syd: i128 = dbyd * dbyd;
    proof {
        lemma_mul_bounds(mx as int, myd as int, 0x4000_0000_0000_0000, 0x1000_0000_0000_0000);
        lemma_mul_bounds(my as int, mxd as int, 0x4000_0000_0000_0000, 0x1000_0000_0000_0000);
        lemma_mul_bounds(mxd as int, myd as int, 0x1000_0000_0000_0000, 0x1000_0000_0000_0000);
        lemma_mul_bounds(sx as int, syd as int, 0x4000_0000_0000_0000, 0x1000_0000_0000_0000);
        lemma_mul_bounds(sy as int, sxd as int, 0x4000_0000_0000_0000, 0x1000_0000_0000_0000);
        lemma_mul_bounds(sxd as int, syd as int, 0x1000_0000_0000_0000, 0x1000_0000_0000_0000);
        lemma_mul_pos(mxd as int, myd as int);
        lemma_mul_pos(sxd as int, syd as int);
    }
    let num_n: i128 = mx * myd + my * mxd;
    let num_d: i128 = mxd * myd;
    let den_n: i128 = sx * syd + sy * sxd;
    let den_d: i128 = sxd * syd;
    if den_n == 0 {
        proof {
            // a zero squared length means the endpoints hold the same value
            assert(dbxn == 0 && dbyn == 0) by (nonlinear_arith)
                requires
                    den_n == (dbxn * dbxn) * (dbyd * dbyd) + (dbyn * dbyn) * (dbxd * dbxd),
                    den_n == 0,
                    dbxd >= 1,
                    dbyd >= 1,
            ;
        }
        return Some(Frac::from_int(1));
    }
    proof {
        assert(dbxn != 0 || dbyn != 0) by (nonlinear_arith)
            requires
                den_n == (dbxn * dbxn) * (dbyd * dbyd) + (dbyn * dbyn) * (dbxd * dbxd),
                den_n != 0,
        ;
        assert(den_n > 0) by (nonlinear_arith)
            requires
                den_n == (dbxn * dbxn) * (dbyd * dbyd) + (dbyn * dbyn) * (dbxd * dbxd),
                dbxn != 0 || dbyn != 0,
                dbxd >= 1,
                dbyd >= 1,
        ;
        assert(proj_raw_rat(a, b, p) == r_div((Rat { n: num_n as int, d: num_d as int }),
            (Rat { n: den_n as int, d: den_d as int })));
    }
    if num_n <= 0 {
        proof {
            assert(proj_raw_rat(a, b, p).n <= 0) by (nonlinear_arith)
                requires
                    proj_raw_rat(a, b, p).n == num_n * den_d,
                    num_n <= 0,
                    den_d > 0,
            ;
        }
        return Some(Frac::from_int(0));
    }
    let (rnn, rnd): (i128, i128) = reduce_pair(num_n, num_d);
    let (ren, red): (i128, i128) = reduce_pair(den_n, den_d);
    if rnn > 0x4000_0000_0000_0000 || rnd > 0x4000_0000_0000_0000
        || ren > 0x4000_0000_0000_0000 || red > 0x4000_0000_0000_0000 {
        return None;
    }
    proof {
        assert(ren > 0) by (nonlinear_arith)
            requires
                ren * den_d == den_n * red,
                den_n > 0,
                den_d > 0,
                red > 0,
        ;
        assert(proj_raw_rat(a, b, p).n > 0) by (nonlinear_arith)
            requires
                proj_raw_rat(a, b, p).n == num_n * den_d,
                num_n > 0,
                den_d > 0,
        ;
        lemma_mul_bounds(rnn as int, red as int, 0x4000_0000_0000_0000, 0x4000_0000_0000_0000);
        lemma_mul_bounds(rnd as int, ren as int, 0x4000_0000_0000_0000, 0x4000_0000_0000_0000);
        lemma_mul_pos(num_d as int, den_n as int);
        lemma_mul_pos(rnd as int, ren as int);
        // the raw parameter equals the reduced ratio
        lemma_r_eq_div(
            (Rat { n: rnn as int, d: rnd as int }),
            (Rat { n: num_n as int, d: num_d as int }),
            (Rat { n: ren as int, d: red as int }),
            (Rat { n: den_n as int, d: den_d as int }),
        );
        // and the comparison against 1 carries over
        lemma_r_le_congr(
            r_int(1),
            r_int(1),
            r_div((Rat { n: rnn as int, d: rnd as int }), (Rat { n: ren as int, d: red as int })),
            proj_raw_rat(a, b, p),
        );
    }
    if rnn * red >= rnd * ren {
        // the projection falls at or beyond b: clamp to 1
        return Some(Frac::from_int(1));
    }
    let tn: i128 = rnn * red;
    let td: i128 = rnd * ren;
    let t: Option<Frac> = Frac::build(tn, td);
    proof {
        if t is Some {
            assert((Rat { n: tn as int, d: td as int })
                == r_div((Rat { n: rnn as int, d: rnd as int }), (Rat { n: ren as int, d: red as int })));
            lemma_r_eq_trans(
                rat(t->0),
                r_div((Rat { n: rnn as int, d: rnd as int }), (Rat { n: ren as int, d: red as int })),
                proj_raw_rat(a, b, p),
            );
        }
    }
    t
}

/// The squared distance from `p` to the segment `a -> b`: the squared
/// distance to `a` for a degenerate segment, else to the clamped projection
/// of `p` onto the segment.  `None` only when a reduced intermediate
/// exceeds the machine bounds.
pub fn distance_to_line_squared(a: Point, b: Point, p: Point) -> (r: Option<Frac>)
    requires
        point_wf(a),
        point_wf(b),
        point_wf(p),
    ensures
        (r_eq(rat(a.x), rat(b.x)) && r_eq(rat(a.y), rat(b.y))) && (r is Some)
            ==> r_eq(rat(r->0), dist2_rat(p, a)),
        !(r_eq(rat(a.x), rat(b.x)) && r_eq(rat(a.y), rat(b.y))) && (r is Some)
            ==> r_eq(rat(r->0), seg_dist2_rat(a, b, p)),
        (r is Some) ==> frac_wf(r->0),
        (r_eq(rat(a.x), rat(b.x)) && r_eq(rat(a.y), rat(b.y)) && a.x.den == 1 && a.y.den == 1
            && p.x.den == 1 && p.y.den == 1 && (p.x.num - a.x.num) * (p.x.num - a.x.num)
            + (p.y.num - a.y.num) * (p.y.num - a.y.num) <= COORD_LIMIT) ==> (r is Some),
{
    if a.equal(&b) {
        return p.distance_squared(&a);
    }
    let t: Option<Frac> = get_point_on_line_projection(a, b, p);
    let t: Frac = match t {
        Some(t) => t,
        None => { return None; },
    };
    let q: Option<Point> = point_on_line(&a, &b, &t);
    let q: Point = match q {
        Some(q) => q,
        None => { return None; },
    };
    let d2: Option<Frac> = p.distance_squared(&q);
    proof {
        if d2 is Some {
            let tc = clamp01(proj_raw_rat(a, b, p));
            let dx = r_sub(rat(b.x), rat(a.x));
            let dy = r_sub(rat(b.y), rat(a.y));
            let qx = r_add(rat(a.x), r_mul(rat(t), dx));
            let qy = r_add(rat(a.y), r_mul(rat(t), dy));
            let cx = point_on_rat_x(a, b, tc);
            let cy = point_on_rat_y(a, b, tc);
            lemma_mul_pos(b.x.den as int, a.x.den as int);
            lemma_mul_pos(b.y.den as int, a.y.den as int);
            lemma_mul_pos(t.den as int, dx.d);
            lemma_mul_pos(t.den as int, dy.d);
            lemma_mul_pos(a.x.den as int, t.den as int * dx.d);
            lemma_mul_pos(a.y.den as int, t.den as int * dy.d);
            // the computed point agrees with the clamped projection point
            lemma_r_eq_mul(rat(t), tc, dx, dx);
            lemma_r_eq_add(rat(a.x), rat(a.x), r_mul(rat(t), dx), r_mul(tc, dx));
            lemma_r_eq_trans(rat(q.x), qx, cx);
            lemma_r_eq_mul(rat(t), tc, dy, dy);
            lemma_r_eq_add(rat(a.y), rat(a.y), r_mul(rat(t), dy), r_mul(tc, dy));
            lemma_r_eq_trans(rat(q.y), qy, cy);
            // and the squared distances to the two agree
            lemma_r_eq_sub(rat(p.x), rat(p.x), rat(q.x), cx);
            lemma_r_eq_sub(rat(p.y), rat(p.y), rat(q.y), cy);
            lemma_r_eq_mul(
                r_sub(rat(p.x), rat(q.x)), r_sub(rat(p.x), cx),
                r_sub(rat(p.x), rat(q.x)), r_sub(rat(p.x), cx),
            );
            lemma_r_eq_mul(
                r_sub(rat(p.y), rat(q.y)), r_sub(rat(p.y), cy),
                r_sub(rat(p.y), rat(q.y)), r_sub(rat(p.y), cy),
            );
            lemma_r_eq_add(
                r_mul(r_sub(rat(p.x), rat(q.x)), r_sub(rat(p.x), rat(q.x))),
                r_mul(r_sub(rat(p.x), cx), r_sub(rat(p.x), cx)),
                r_mul(r_sub(rat(p.y), rat(q.y)), r_sub(rat(p.y), rat(q.y))),
                r_mul(r_sub(rat(p.y), cy), r_sub(rat(p.y), cy)),
            );
            lemma_mul_pos(p.x.den as int, q.x.den as int);
            lemma_mul_pos(p.y.den as int, q.y.den as int);
            lemma_mul_pos(p.x.den as int * q.x.den as int, p.x.den as int * q.x.den as int);
            lemma_mul_pos(p.y.den as int * q.y.den as int, p.y.den as int * q.y.den as int);
            lemma_mul_pos(
                (p.x.den as int * q.x.den as int) * (p.x.den as int * q.x.den as int),
                (p.y.den as int * q.y.den as int) * (p.y.den as int * q.y.den as int),
            );
            lemma_r_eq_trans(rat(d2->0), dist2_rat(p, q), seg_dist2_rat(a, b, p));
        }
    }
    d2
}

/// The straddle test on two segments: both endpoint pairs give differing
/// orientations.  A collinear result counts here too; a caller that wants a
/// true crossing must rule the collinear cases out itself.
pub fn do_lines_intersect(a: &Point, b: &Point, c: &Point, d: &Point) -> (r: bool)
    requires
        point_wf(*a),
        point_wf(*b),
        point_wf(*c),
        point_wf(*d),
    ensures
        r == (orient_spec(*a, *b, *c) != orient_spec(*a, *b, *d)
            && orient_spec(*c, *d, *a) != orient_spec(*c, *d, *b)),
{
    let o1 = points_orientation(a, b, c);
    let o2 = points_orientation(a, b, d);
    let o3 = points_orientation(c, d, a);
    let o4 = points_orientation(c, d, b);

    o1 != o2 && o3 != o4
}

} // verus!
