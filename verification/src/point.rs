//! Points, componentwise arithmetic, and the shared orientation primitive.
//!
//! The cross-product orientation formula lives here and nowhere else: the
//! normalizer and the tessellator both call [`points_orientation`], so
//! convexity and crossing tests can never diverge.

use vstd::prelude::*;
use crate::frac::{
    Frac, Rat, frac_wf, rat, r_add, r_sub, r_mul, r_div, r_neg, r_eq, r_rem_trunc,
    lemma_mul_bounds, lemma_mul_pos, COORD_LIMIT,
};

verus! {

/// Rotational direction of an ordered point triple.
///
/// The cross value `(b.y - a.y)*(c.x - b.x) - (b.x - a.x)*(c.y - b.y)` is
/// negative for `CounterClockwise`, positive for `Clockwise` and zero for
/// `Colinear`.  The sign-to-label mapping is the one under which the square
/// `(0,0), (10,0), (10,10), (0,10)` winds counter-clockwise.
#[derive(Clone, Copy, PartialEq, Eq, Structural, Debug)]
pub enum Orientation {
    Clockwise,
    CounterClockwise,
    Colinear,
}

impl Orientation {
    /// Human-readable label.
    pub fn display(&self) -> (r: &'static str) {
        match self {
            Orientation::Clockwise => "Clockwise",
            Orientation::CounterClockwise => "CounterClockwise",
            Orientation::Colinear => "Colinear",
        }
    }
}

/// The orientation with clockwise and counter-clockwise swapped.
pub open spec fn opposite(o: Orientation) -> Orientation {
    match o {
        Orientation::Clockwise => Orientation::CounterClockwise,
        Orientation::CounterClockwise => Orientation::Clockwise,
        Orientation::Colinear => Orientation::Colinear,
    }
}

/// A point of the plane with exact rational coordinates.
#[derive(Clone, Copy, PartialEq, Eq, Structural, Debug)]
pub struct Point {
    pub x: Frac,
    pub y: Frac,
}

pub open spec fn point_wf(p: Point) -> bool {
    frac_wf(p.x) && frac_wf(p.y)
}

/// The cross value `(b.y - a.y)*(c.x - b.x) - (b.x - a.x)*(c.y - b.y)` of an
/// ordered triple, as an exact rational.  Its denominator is positive for
/// well-formed points, so the sign of its numerator is the sign of the cross
/// value.
pub open spec fn cross_rat(a: Point, b: Point, c: Point) -> Rat {
    r_sub(
        r_mul(r_sub(rat(b.y), rat(a.y)), r_sub(rat(c.x), rat(b.x))),
        r_mul(r_sub(rat(b.x), rat(a.x)), r_sub(rat(c.y), rat(b.y))),
    )
}

/// The orientation of an ordered triple: the sign of its cross value.
pub open spec fn orient_spec(a: Point, b: Point, c: Point) -> Orientation {
    if cross_rat(a, b, c).n < 0 {
        Orientation::CounterClockwise
    } else if cross_rat(a, b, c).n > 0 {
        Orientation::Clockwise
    } else {
        Orientation::Colinear
    }
}

/// The denominator of a cross value is positive for well-formed points.
pub proof fn lemma_cross_den_pos(a: Point, b: Point, c: Point)
    requires
        point_wf(a),
        point_wf(b),
        point_wf(c),
    ensures
        cross_rat(a, b, c).d > 0,
{
    lemma_mul_pos(b.y.den as int, a.y.den as int);
    lemma_mul_pos(c.x.den as int, b.x.den as int);
    lemma_mul_pos(b.x.den as int, a.x.den as int);
    lemma_mul_pos(c.y.den as int, b.y.den as int);
    lemma_mul_pos(b.y.den as int * a.y.den as int, c.x.den as int * b.x.den as int);
    lemma_mul_pos(b.x.den as int * a.x.den as int, c.y.den as int * b.y.den as int);
    lemma_mul_pos(
        (b.y.den as int * a.y.den as int) * (c.x.den as int * b.x.den as int),
        (b.x.den as int * a.x.den as int) * (c.y.den as int * b.y.den as int),
    );
}

/// A triple whose last two points coincide is collinear.
pub proof fn lemma_cross_degenerate(p: Point, q: Point)
    ensures
        cross_rat(p, q, q).n == 0,
{
    let s2 = r_sub(rat(q.x), rat(q.x));
    let s4 = r_sub(rat(q.y), rat(q.y));
    assert(s2.n == 0);
    assert(s4.n == 0);
    let s1 = r_sub(rat(q.y), rat(p.y));
    let s3 = r_sub(rat(q.x), rat(p.x));
    assert(r_mul(s1, s2).n == 0) by (nonlinear_arith)
        requires
            s2.n == 0,
            r_mul(s1, s2).n == s1.n * s2.n,
    ;
    assert(r_mul(s3, s4).n == 0) by (nonlinear_arith)
        requires
            s4.n == 0,
            r_mul(s3, s4).n == s3.n * s4.n,
    ;
    assert(cross_rat(p, q, q).n == r_mul(s1, s2).n * r_mul(s3, s4).d - r_mul(s3, s4).n * r_mul(s1, s2).d);
    assert(cross_rat(p, q, q).n == 0) by (nonlinear_arith)
        requires
            cross_rat(p, q, q).n == r_mul(s1, s2).n * r_mul(s3, s4).d - r_mul(s3, s4).n * r_mul(s1, s2).d,
            r_mul(s1, s2).n == 0,
            r_mul(s3, s4).n == 0,
    ;
}

/// Antisymmetry of orientation: walking a triple backwards flips clockwise
/// and counter-clockwise and preserves collinearity.
pub proof fn lemma_orientation_antisymmetric(a: Point, b: Point, c: Point)
    ensures
        orient_spec(a, b, c) == opposite(orient_spec(c, b, a)),
        cross_rat(a, b, c).n == -cross_rat(c, b, a).n,
{
    let s1 = r_sub(rat(b.y), rat(a.y));
    let s2 = r_sub(rat(c.x), rat(b.x));
    let s3 = r_sub(rat(b.x), rat(a.x));
    let s4 = r_sub(rat(c.y), rat(b.y));
    let t1 = r_sub(rat(b.y), rat(c.y));
    let t2 = r_sub(rat(a.x), rat(b.x));
    let t3 = r_sub(rat(b.x), rat(c.x));
    let t4 = r_sub(rat(a.y), rat(b.y));
    assert(t1.n == -s4.n && t1.d == s4.d);
    assert(t2.n == -s3.n && t2.d == s3.d);
    assert(t3.n == -s2.n && t3.d == s2.d);
    assert(t4.n == -s1.n && t4.d == s1.d);
    assert(r_mul(t1, t2).n == r_mul(s3, s4).n && r_mul(t1, t2).d == r_mul(s3, s4).d)
        by (nonlinear_arith)
        requires
            t1.n == -s4.n,
            t2.n == -s3.n,
            t1.d == s4.d,
            t2.d == s3.d,
            r_mul(t1, t2) == (Rat { n: t1.n * t2.n, d: t1.d * t2.d }),
            r_mul(s3, s4) == (Rat { n: s3.n * s4.n, d: s3.d * s4.d }),
    ;
    assert(r_mul(t3, t4).n == r_mul(s1, s2).n && r_mul(t3, t4).d == r_mul(s1, s2).d)
        by (nonlinear_arith)
        requires
            t3.n == -s2.n,
            t4.n == -s1.n,
            t3.d == s2.d,
            t4.d == s1.d,
            r_mul(t3, t4) == (Rat { n: t3.n * t4.n, d: t3.d * t4.d }),
            r_mul(s1, s2) == (Rat { n: s1.n * s2.n, d: s1.d * s2.d }),
    ;
    assert(cross_rat(c, b, a).n == r_mul(t1, t2).n * r_mul(t3, t4).d - r_mul(t3, t4).n * r_mul(t1, t2).d);
    assert(cross_rat(a, b, c).n == r_mul(s1, s2).n * r_mul(s3, s4).d - r_mul(s3, s4).n * r_mul(s1, s2).d);
}

/// Numerator and denominator of the exact difference `p - q`, unreduced.
pub(crate) fn sub_parts(p: &Frac, q: &Frac) -> (r: (i128, i128))
    requires
        frac_wf(*p),
        frac_wf(*q),
    ensures
        r.0 == r_sub(rat(*p), rat(*q)).n,
        r.1 == r_sub(rat(*p), rat(*q)).d,
        -0x8000_0000 <= r.0 <= 0x8000_0000,
        1 <= r.1 <= 0x4000_0000,
{
    proof {
        lemma_mul_bounds(p.num as int, q.den as int, COORD_LIMIT as int, COORD_LIMIT as int);
        lemma_mul_bounds(q.num as int, p.den as int, COORD_LIMIT as int, COORD_LIMIT as int);
        lemma_mul_bounds(p.den as int, q.den as int, COORD_LIMIT as int, COORD_LIMIT as int);
        lemma_mul_pos(p.den as int, q.den as int);
    }
    (p.num * q.den - q.num * p.den, p.den * q.den)
}

/// Returns orientation of ordered points.  The single source of truth for
/// every convexity and crossing decision in the crate.
pub fn points_orientation(a: &Point, b: &Point, c: &Point) -> (r: Orientation)
    requires
        point_wf(*a),
        point_wf(*b),
        point_wf(*c),
    ensures
        r == orient_spec(*a, *b, *c),
        (r == Orientation::Colinear) == (cross_rat(*a, *b, *c).n == 0),
{
    let (n1, d1): (i128, i128) = sub_parts(&b.y, &a.y);
    let (n2, d2): (i128, i128) = sub_parts(&c.x, &b.x);
    let (n3, d3): (i128, i128) = sub_parts(&b.x, &a.x);
    let (n4, d4): (i128, i128) = sub_parts(&c.y, &b.y);
    proof {
        lemma_mul_bounds(n1 as int, n2 as int, 0x8000_0000, 0x8000_0000);
        lemma_mul_bounds(n3 as int, n4 as int, 0x8000_0000, 0x8000_0000);
        lemma_mul_bounds(d1 as int, d2 as int, 0x4000_0000, 0x4000_0000);
        lemma_mul_bounds(d3 as int, d4 as int, 0x4000_0000, 0x4000_0000);
    }
    let p1: i128 = n1 * n2;
    let q1: i128 = d1 * d2;
    let p2: i128 = n3 * n4;
    let q2: i128 = d3 * d4;
    proof {
        lemma_mul_bounds(p1 as int, q2 as int, 0x4000_0000_0000_0000, 0x1000_0000_0000_0000);
        lemma_mul_bounds(p2 as int, q1 as int, 0x4000_0000_0000_0000, 0x1000_0000_0000_0000);
    }
    let v: i128 = p1 * q2 - p2 * q1;
    proof {
        assert(v == cross_rat(*a, *b, *c).n);
    }
    if v < 0 {
        Orientation::CounterClockwise
    } else if v > 0 {
        Orientation::Clockwise
    } else {
        Orientation::Colinear
    }
}

/// The dot product of two points taken as vectors from the origin.
pub open spec fn dot_rat(a: Point, b: Point) -> Rat {
    r_add(r_mul(rat(a.x), rat(b.x)), r_mul(rat(a.y), rat(b.y)))
}

/// The squared distance between two points.
pub open spec fn dist2_rat(a: Point, b: Point) -> Rat {
    r_add(
        r_mul(r_sub(rat(a.x), rat(b.x)), r_sub(rat(a.x), rat(b.x))),
        r_mul(r_sub(rat(a.y), rat(b.y)), r_sub(rat(a.y), rat(b.y))),
    )
}

/// Calculates the dot product of the two points; `None` only when the
/// reduced result exceeds the coordinate bounds.
pub fn dot_product(a: &Point, b: &Point) -> (r: Option<Frac>)
    requires
        point_wf(*a),
        point_wf(*b),
    ensures
        (r is Some) ==> frac_wf(r->0) && r_eq(rat(r->0), dot_rat(*a, *b)),
        (a.x.den == 1 && a.y.den == 1 && b.x.den == 1 && b.y.den == 1 && -COORD_LIMIT <= a.x.num
            * b.x.num + a.y.num * b.y.num <= COORD_LIMIT) ==> (r is Some),
{
    proof {
        lemma_mul_bounds(a.x.num as int, b.x.num as int, COORD_LIMIT as int, COORD_LIMIT as int);
        lemma_mul_bounds(a.y.num as int, b.y.num as int, COORD_LIMIT as int, COORD_LIMIT as int);
        lemma_mul_bounds(a.x.den as int, b.x.den as int, COORD_LIMIT as int, COORD_LIMIT as int);
        lemma_mul_bounds(a.y.den as int, b.y.den as int, COORD_LIMIT as int, COORD_LIMIT as int);
        lemma_mul_pos(a.x.den as int, b.x.den as int);
        lemma_mul_pos(a.y.den as int, b.y.den as int);
    }
    let nx: i128 = a.x.num * b.x.num;
    let dx: i128 = a.x.den * b.x.den;
    let ny: i128 = a.y.num * b.y.num;
    let dy: i128 = a.y.den * b.y.den;
    proof {
        lemma_mul_bounds(nx as int, dy as int, 0x4000_0000, 0x4000_0000);
        lemma_mul_bounds(ny as int, dx as int, 0x4000_0000, 0x4000_0000);
        lemma_mul_bounds(dx as int, dy as int, 0x4000_0000, 0x4000_0000);
        lemma_mul_pos(dx as int, dy as int);
    }
    let nn: i128 = nx * dy + ny * dx;
    let dd: i128 = dx * dy;
    proof {
        if a.x.den == 1 && a.y.den == 1 && b.x.den == 1 && b.y.den == 1 {
            assert(nn == a.x.num * b.x.num + a.y.num * b.y.num && dd == 1) by (nonlinear_arith)
                requires
                    nn == nx * dy + ny * dx,
                    dd == dx * dy,
                    nx == a.x.num * b.x.num,
                    ny == a.y.num * b.y.num,
                    dx == a.x.den * b.x.den,
                    dy == a.y.den * b.y.den,
                    a.x.den == 1,
                    a.y.den == 1,
                    b.x.den == 1,
                    b.y.den == 1,
            ;
        }
    }
    Frac::build(nn, dd)
}

impl Point {
    pub fn x(&self) -> (r: Frac)
        ensures
            r == self.x,
    {
        self.x
    }

    pub fn y(&self) -> (r: Frac)
        ensures
            r == self.y,
    {
        self.y
    }

    pub fn new(x: Frac, y: Frac) -> (r: Point)
        ensures
            r.x == x,
            r.y == y,
    {
        Point { x: x, y: y }
    }

    /// Exact componentwise equality of values.
    pub fn equal(&self, other: &Point) -> (r: bool)
        requires
            point_wf(*self),
            point_wf(*other),
        ensures
            r == (r_eq(rat(self.x), rat(other.x)) && r_eq(rat(self.y), rat(other.y))),
    {
        self.x.equal(&other.x) && self.y.equal(&other.y)
    }

    /// Squared distance between the origin and the point.
    pub fn length_squared(&self) -> (r: Option<Frac>)
        requires
            point_wf(*self),
        ensures
            (r is Some) ==> frac_wf(r->0) && r_eq(rat(r->0), dot_rat(*self, *self)),
            (self.x.den == 1 && self.y.den == 1 && -COORD_LIMIT <= self.x.num * self.x.num
                + self.y.num * self.y.num <= COORD_LIMIT) ==> (r is Some),
    {
        dot_product(self, self)
    }

    /// Squared distance between two points.
    pub fn distance_squared(&self, point: &Point) -> (r: Option<Frac>)
        requires
            point_wf(*self),
            point_wf(*point),
        ensures
            (r is Some) ==> frac_wf(r->0) && r_eq(rat(r->0), dist2_rat(*self, *point)),
            (self.x.den == 1 && self.y.den == 1 && point.x.den == 1 && point.y.den == 1
                && (self.x.num - point.x.num) * (self.x.num - point.x.num) + (self.y.num
                - point.y.num) * (self.y.num - point.y.num) <= COORD_LIMIT) ==> (r is Some),
    {
        let (nx, dx): (i128, i128) = sub_parts(&self.x, &point.x);
        let (ny, dy): (i128, i128) = sub_parts(&self.y, &point.y);
        proof {
            lemma_mul_bounds(nx as int, nx as int, 0x8000_0000, 0x8000_0000);
            lemma_mul_bounds(ny as int, ny as int, 0x8000_0000, 0x8000_0000);
            lemma_mul_bounds(dx as int, dx as int, 0x4000_0000, 0x4000_0000);
            lemma_mul_bounds(dy as int, dy as int, 0x4000_0000, 0x4000_0000);
        }
        let nx2: i128 = nx * nx;
        let dx2: i128 = dx * dx;
        let ny2: i128 = ny * ny;
        let dy2: i128 = dy * dy;
        proof {
            lemma_mul_bounds(nx2 as int, dy2 as int, 0x4000_0000_0000_0000, 0x1000_0000_0000_0000);
            lemma_mul_bounds(ny2 as int, dx2 as int, 0x4000_0000_0000_0000, 0x1000_0000_0000_0000);
            lemma_mul_bounds(dx2 as int, dy2 as int, 0x1000_0000_0000_0000, 0x1000_0000_0000_0000);
            lemma_mul_pos(dx as int, dx as int);
            lemma_mul_pos(dy as int, dy as int);
            lemma_mul_pos(dx2 as int, dy2 as int);
        }
        let nn: i128 = nx2 * dy2 + ny2 * dx2;
        let dd: i128 = dx2 * dy2;
        proof {
            if self.x.den == 1 && self.y.den == 1 && point.x.den == 1 && point.y.den == 1 {
                assert(nn == (self.x.num - point.x.num) * (self.x.num - point.x.num) + (self.y.num
                    - point.y.num) * (self.y.num - point.y.num) && dd == 1 && nn >= 0)
                    by (nonlinear_arith)
                    requires
                        nn == nx2 * dy2 + ny2 * dx2,
                        dd == dx2 * dy2,
                        nx2 == nx * nx,
                        ny2 == ny * ny,
                        dx2 == dx * dx,
                        dy2 == dy * dy,
                        nx == self.x.num * point.x.den - point.x.num * self.x.den,
                        ny == self.y.num * point.y.den - point.y.num * self.y.den,
                        dx == self.x.den * point.x.den,
                        dy == self.y.den * point.y.den,
                        self.x.den == 1,
                        self.y.den == 1,
                        point.x.den == 1,
                        point.y.den == 1,
                ;
            }
        }
        Frac::build(nn, dd)
    }

    /// Calculates the dot product of the two points.
    pub fn dot(&self, point: &Point) -> (r: Option<Frac>)
        requires
            point_wf(*self),
            point_wf(*point),
        ensures
            (r is Some) ==> frac_wf(r->0) && r_eq(rat(r->0), dot_rat(*self, *point)),
            (self.x.den == 1 && self.y.den == 1 && point.x.den == 1 && point.y.den == 1
                && -COORD_LIMIT <= self.x.num * point.x.num + self.y.num * point.y.num
                <= COORD_LIMIT) ==> (r is Some),
    {
        dot_product(self, point)
    }

    /// Exact componentwise negation.
    pub fn negated(self) -> (r: Point)
        requires
            point_wf(self),
        ensures
            point_wf(r),
            rat(r.x) == r_neg(rat(self.x)),
            rat(r.y) == r_neg(rat(self.y)),
    {
        Point { x: self.x.neg_frac(), y: self.y.neg_frac() }
    }

    /// Exact componentwise sum.
    pub fn plus(self, p: Point) -> (r: Option<Point>)
        requires
            point_wf(self),
            point_wf(p),
        ensures
            (r is Some) ==> point_wf(r->0) && r_eq(rat(r->0.x), r_add(rat(self.x), rat(p.x)))
                && r_eq(rat(r->0.y), r_add(rat(self.y), rat(p.y))),
    {
        match (self.x.plus(&p.x), self.y.plus(&p.y)) {
            (Some(x), Some(y)) => Some(Point { x: x, y: y }),
            _ => None,
        }
    }

    /// Exact componentwise difference.
    pub fn minus(self, p: Point) -> (r: Option<Point>)
        requires
            point_wf(self),
            point_wf(p),
        ensures
            (r is Some) ==> point_wf(r->0) && r_eq(rat(r->0.x), r_sub(rat(self.x), rat(p.x)))
                && r_eq(rat(r->0.y), r_sub(rat(self.y), rat(p.y))),
    {
        match (self.x.minus(&p.x), self.y.minus(&p.y)) {
            (Some(x), Some(y)) => Some(Point { x: x, y: y }),
            _ => None,
        }
    }

    /// Exact componentwise product.
    pub fn times(self, p: Point) -> (r: Option<Point>)
        requires
            point_wf(self),
            point_wf(p),
        ensures
            (r is Some) ==> point_wf(r->0) && r_eq(rat(r->0.x), r_mul(rat(self.x), rat(p.x)))
                && r_eq(rat(r->0.y), r_mul(rat(self.y), rat(p.y))),
    {
        match (self.x.times(&p.x), self.y.times(&p.y)) {
            (Some(x), Some(y)) => Some(Point { x: x, y: y }),
            _ => None,
        }
    }

    /// Exact componentwise quotient; `None` when a component of `p` is zero.
    pub fn divided(self, p: Point) -> (r: Option<Point>)
        requires
            point_wf(self),
            point_wf(p),
        ensures
            (r is Some) ==> point_wf(r->0) && r_eq(rat(r->0.x), r_div(rat(self.x), rat(p.x)))
                && r_eq(rat(r->0.y), r_div(rat(self.y), rat(p.y))),
            (p.x.num == 0 || p.y.num == 0) ==> (r is None),
            (self.x.den == 1 && self.y.den == 1 && p.x.den == 1 && p.y.den == 1 && p.x.num != 0
                && p.y.num != 0) ==> (r is Some),
    {
        match (self.x.over(&p.x), self.y.over(&p.y)) {
            (Some(x), Some(y)) => Some(Point { x: x, y: y }),
            _ => None,
        }
    }

    /// Exact componentwise truncated remainder; `None` when a component of
    /// `p` is zero.
    pub fn remainder(self, p: Point) -> (r: Option<Point>)
        requires
            point_wf(self),
            point_wf(p),
        ensures
            (r is Some) ==> point_wf(r->0)
                && r_eq(rat(r->0.x), r_rem_trunc(rat(self.x), rat(p.x)))
                && r_eq(rat(r->0.y), r_rem_trunc(rat(self.y), rat(p.y))),
            (p.x.num == 0 || p.y.num == 0) ==> (r is None),
            (self.x.den == 1 && self.y.den == 1 && p.x.den == 1 && p.y.den == 1 && p.x.num != 0
                && p.y.num != 0) ==> (r is Some),
    {
        match (self.x.rem_trunc(&p.x), self.y.rem_trunc(&p.y)) {
            (Some(x), Some(y)) => Some(Point { x: x, y: y }),
            _ => None,
        }
    }

    /// Exact truncated remainder by the same scalar on both components.
    pub fn remainder_scalar(self, n: Frac) -> (r: Option<Point>)
        requires
            point_wf(self),
            frac_wf(n),
        ensures
            (r is Some) ==> point_wf(r->0)
                && r_eq(rat(r->0.x), r_rem_trunc(rat(self.x), rat(n)))
                && r_eq(rat(r->0.y), r_rem_trunc(rat(self.y), rat(n))),
            n.num == 0 ==> (r is None),
            (self.x.den == 1 && self.y.den == 1 && n.den == 1 && n.num != 0) ==> (r is Some),
    {
        self.remainder(Point { x: n, y: n })
    }

    /// Exact sum with the same scalar on both components.
    pub fn plus_scalar(self, n: Frac) -> (r: Option<Point>)
        requires
            point_wf(self),
            frac_wf(n),
        ensures
            (r is Some) ==> point_wf(r->0) && r_eq(rat(r->0.x), r_add(rat(self.x), rat(n)))
                && r_eq(rat(r->0.y), r_add(rat(self.y), rat(n))),
    {
        self.plus(Point { x: n, y: n })
    }

    /// Exact difference with the same scalar on both components.
    pub fn minus_scalar(self, n: Frac) -> (r: Option<Point>)
        requires
            point_wf(self),
            frac_wf(n),
        ensures
            (r is Some) ==> point_wf(r->0) && r_eq(rat(r->0.x), r_sub(rat(self.x), rat(n)))
                && r_eq(rat(r->0.y), r_sub(rat(self.y), rat(n))),
    {
        self.minus(Point { x: n, y: n })
    }

    /// Exact product with a scalar.
    pub fn times_scalar(self, n: Frac) -> (r: Option<Point>)
        requires
            point_wf(self),
            frac_wf(n),
        ensures
            (r is Some) ==> point_wf(r->0) && r_eq(rat(r->0.x), r_mul(rat(self.x), rat(n)))
                && r_eq(rat(r->0.y), r_mul(rat(self.y), rat(n))),
    {
        self.times(Point { x: n, y: n })
    }

    /// Exact quotient by a scalar; `None` when the scalar is zero.
    pub fn divided_scalar(self, n: Frac) -> (r: Option<Point>)
        requires
            point_wf(self),
            frac_wf(n),
        ensures
            (r is Some) ==> point_wf(r->0) && r_eq(rat(r->0.x), r_div(rat(self.x), rat(n)))
                && r_eq(rat(r->0.y), r_div(rat(self.y), rat(n))),
            n.num == 0 ==> (r is None),
            (self.x.den == 1 && self.y.den == 1 && n.den == 1 && n.num != 0) ==> (r is Some),
    {
        self.divided(Point { x: n, y: n })
    }
}

} // verus!
