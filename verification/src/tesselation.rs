//! Polygon normalization and ear-clipping tessellation.
//!
//! [`normalize_polygon`] resolves self-intersections of an outline into a
//! walk that no longer crosses itself; [`tesselate_polygon`] decomposes the
//! simple outline into triangle fan batches.  Both lean on the one shared
//! orientation primitive of [`crate::point`].

use vstd::prelude::*;
use crate::frac::{
    Frac, Rat, frac_wf, rat, r_add, r_sub, r_mul, r_div, r_eq,
    lemma_mul_bounds, lemma_mul_pos, lemma_r_eq_trans, lemma_r_eq_div, lemma_r_pin_affine,
    reduce_pair,
};
use crate::point::{
    Point, point_wf, Orientation, orient_spec, opposite, points_orientation,
    lemma_cross_degenerate, lemma_orientation_antisymmetric, sub_parts,
};
use crate::area::lemma_orientation_rotation;
use crate::polygon::{Polygon, Triangles, TrianglesMode, points_wf, poly_wf};

verus! {

/// Fatal failure of the normalizer: an exact intermediate left the machine
/// bounds, or the split budget ran out.
#[derive(Clone, Copy, PartialEq, Eq, Structural, Debug)]
pub enum NormalizeError {
    Aborted,
}

/// Fatal failure of the tessellator's safety valve: the window walked a full
/// lap without finding an ear, so the declared winding does not match the
/// outline (or the outline is not simple).
#[derive(Clone, Copy, PartialEq, Eq, Structural, Debug)]
pub enum TesselationError {
    Aborted,
}

/// Raised when an exact intersection point cannot be held within the
/// coordinate bounds.
#[derive(Clone, Copy, PartialEq, Eq, Structural, Debug)]
pub struct CoordinateOverflow;

/// Whether the segments `a-b` and `c-d` properly cross: the endpoints of
/// each lie strictly on opposite sides of the other's line.  Touching
/// configurations give a collinear triple and do not count.
pub open spec fn segments_properly_cross(a: Point, b: Point, c: Point, d: Point) -> bool {
    let o1 = orient_spec(a, b, c);
    let o2 = orient_spec(a, b, d);
    let o3 = orient_spec(c, d, a);
    let o4 = orient_spec(c, d, b);
    o1 != o2 && o3 != o4 && o1 != Orientation::Colinear && o2 != Orientation::Colinear
        && o3 != Orientation::Colinear && o4 != Orientation::Colinear
}

/// The successor of index `i` on a closed outline of `n` points.
pub open spec fn next_on_outline(n: int, i: int) -> int {
    if i + 1 == n {
        0
    } else {
        i + 1
    }
}

/// No two edges of the closed outline properly cross.
pub open spec fn crossing_free(s: Seq<Point>) -> bool {
    forall|i: int, j: int|
        0 <= i < j < s.len() ==> !segments_properly_cross(
            #[trigger] s[i],
            s[next_on_outline(s.len() as int, i)],
            #[trigger] s[j],
            s[next_on_outline(s.len() as int, j)],
        )
}

/// Two edges that share the point `b` (the first ends there, the second
/// starts there) never properly cross.
pub proof fn lemma_consecutive_edges_not_crossing(a: Point, b: Point, d: Point)
    ensures
        !segments_properly_cross(a, b, b, d),
{
    lemma_cross_degenerate(a, b);
}

/// An edge into `a` and an edge out of `a` never properly cross.
pub proof fn lemma_closing_edges_not_crossing(a: Point, b: Point, c: Point)
    ensures
        !segments_properly_cross(a, b, c, a),
{
    lemma_cross_degenerate(c, a);
}

/// An outline of fewer than four points has only edge pairs that share an
/// endpoint, so it is always crossing-free.
pub proof fn lemma_small_outline_crossing_free(s: Seq<Point>)
    requires
        s.len() < 4,
    ensures
        crossing_free(s),
{
    let n = s.len() as int;
    assert forall|i: int, j: int| 0 <= i < j < s.len() implies !segments_properly_cross(
        #[trigger] s[i],
        s[next_on_outline(n, i)],
        #[trigger] s[j],
        s[next_on_outline(n, j)],
    ) by {
        if j == i + 1 {
            lemma_consecutive_edges_not_crossing(s[i], s[j], s[next_on_outline(n, j)]);
        } else {
            // n == 3, i == 0, j == 2: the second edge closes back into s[0]
            lemma_closing_edges_not_crossing(s[0], s[1], s[2]);
        }
    }
}

/// Whether the straddle test reports a crossing: both endpoint pairs give
/// differing orientations.  Collinear touches count here too; callers that
/// want a true crossing must rule the collinear cases out themselves.
pub fn do_intersect(a: &Point, b: &Point, c: &Point, d: &Point) -> (r: bool)
    requires
        point_wf(*a),
        point_wf(*b),
        point_wf(*c),
        point_wf(*d),
    ensures
        r == (orient_spec(*a, *b, *c) != orient_spec(*a, *b, *d)
            && orient_spec(*c, *d, *a) != orient_spec(*c, *d, *b)),
{
    let o1 = points_orientation(a, b, c);
    let o2 = points_orientation(a, b, d);
    let o3 = points_orientation(c, d, a);
    let o4 = points_orientation(c, d, b);

    o1 != o2 && o3 != o4
}

/// The denominator of the 2x2 intersection system of segments `a-b`, `c-d`:
/// the cross product of their direction vectors.
pub open spec fn isect_den_rat(a: Point, b: Point, c: Point, d: Point) -> Rat {
    r_sub(
        r_mul(r_sub(rat(b.x), rat(a.x)), r_sub(rat(d.y), rat(c.y))),
        r_mul(r_sub(rat(d.x), rat(c.x)), r_sub(rat(b.y), rat(a.y))),
    )
}

/// The numerator of the parameter `t` along `a-b` at which the two lines
/// meet.
pub open spec fn isect_t_num_rat(a: Point, b: Point, c: Point, d: Point) -> Rat {
    r_sub(
        r_mul(r_sub(rat(d.x), rat(c.x)), r_sub(rat(a.y), rat(c.y))),
        r_mul(r_sub(rat(d.y), rat(c.y)), r_sub(rat(a.x), rat(c.x))),
    )
}

/// The exact crossing point of two properly crossing segments.
///
/// Returns `Ok(None)` exactly when the segments do not properly cross (a
/// touch or a shared endpoint is not a crossing).  On `Ok(Some(p))` the
/// point solves the 2x2 linear system: `(p - a) * den == t_num * (b - a)`
/// componentwise, for the system's denominator `den` and parameter
/// numerator `t_num`.  `Err` only when the exact point cannot be held
/// within the coordinate bounds; the segments then did properly cross.
pub fn get_line_intersection_point(a: Point, b: Point, c: Point, d: Point) -> (r: Result<
    Option<Point>,
    CoordinateOverflow,
>)
    requires
        point_wf(a),
        point_wf(b),
        point_wf(c),
        point_wf(d),
    ensures
        !segments_properly_cross(a, b, c, d) ==> r == Result::<Option<Point>, CoordinateOverflow>::Ok(
            Option::<Point>::None,
        ),
        r == Result::<Option<Point>, CoordinateOverflow>::Ok(Option::<Point>::None)
            ==> !segments_properly_cross(a, b, c, d),
        r matches Ok(Some(p)) ==> segments_properly_cross(a, b, c, d)
            && point_wf(p)
            && r_eq(
            r_mul(r_sub(rat(p.x), rat(a.x)), isect_den_rat(a, b, c, d)),
            r_mul(isect_t_num_rat(a, b, c, d), r_sub(rat(b.x), rat(a.x))),
        )
            && r_eq(
            r_mul(r_sub(rat(p.y), rat(a.y)), isect_den_rat(a, b, c, d)),
            r_mul(isect_t_num_rat(a, b, c, d), r_sub(rat(b.y), rat(a.y))),
        ),
        (r is Err) ==> segments_properly_cross(a, b, c, d),
{
    let o1 = points_orientation(&a, &b, &c);
    let o2 = points_orientation(&a, &b, &d);
    let o3 = points_orientation(&c, &d, &a);
    let o4 = points_orientation(&c, &d, &b);
    let crossing: bool = o1 != o2 && o3 != o4 && o1 != Orientation::Colinear && o2
        != Orientation::Colinear && o3 != Orientation::Colinear && o4 != Orientation::Colinear;
    if !crossing {
        return Ok(None);
    }

    let (l1wn, l1wd): (i128, i128) = sub_parts(&b.x, &a.x);
    let (l1hn, l1hd): (i128, i128) = sub_parts(&b.y, &a.y);
    let (l2wn, l2wd): (i128, i128) = sub_parts(&d.x, &c.x);
    let (l2hn, l2hd): (i128, i128) = sub_parts(&d.y, &c.y);
    let (dwn, dwd): (i128, i128) = sub_parts(&a.x, &c.x);
    let (dhn, dhd): (i128, i128) = sub_parts(&a.y, &c.y);
    proof {
        lemma_mul_bounds(l1wn as int, l2hn as int, 0x8000_0000, 0x8000_0000);
        lemma_mul_bounds(l2wn as int, l1hn as int, 0x8000_0000, 0x8000_0000);
        lemma_mul_bounds(l1wd as int, l2hd as int, 0x4000_0000, 0x4000_0000);
        lemma_mul_bounds(l2wd as int, l1hd as int, 0x4000_0000, 0x4000_0000);
        lemma_mul_bounds(l2wn as int, dhn as int, 0x8000_0000, 0x8000_0000);
        lemma_mul_bounds(l2hn as int, dwn as int, 0x8000_0000, 0x8000_0000);
        lemma_mul_bounds(l2wd as int, dhd as int, 0x4000_0000, 0x4000_0000);
        lemma_mul_bounds(l2hd as int, dwd as int, 0x4000_0000, 0x4000_0000);
        lemma_mul_pos(l1wd as int, l2hd as int);
        lemma_mul_pos(l2wd as int, l1hd as int);
        lemma_mul_pos(l2wd as int, dhd as int);
        lemma_mul_pos(l2hd as int, dwd as int);
    }
    let m1n: i128 = l1wn * l2hn;
    let m1d: i128 = l1wd * l2hd;
    let m2n: i128 = l2wn * l1hn;
    let m2d: i128 = l2wd * l1hd;
    let t1n: i128 = l2wn * dhn;
    let t1d: i128 = l2wd * dhd;
    let t2n: i128 = l2hn * dwn;
    let t2d: i128 = l2hd * dwd;
    proof {
        lemma_mul_bounds(m1n as int, m2d as int, 0x4000_0000_0000_0000, 0x1000_0000_0000_0000);
        lemma_mul_bounds(m2n as int, m1d as int, 0x4000_0000_0000_0000, 0x1000_0000_0000_0000);
        lemma_mul_bounds(m1d as int, m2d as int, 0x1000_0000_0000_0000, 0x1000_0000_0000_0000);
        lemma_mul_bounds(t1n as int, t2d as int, 0x4000_0000_0000_0000, 0x1000_0000_0000_0000);
        lemma_mul_bounds(t2n as int, t1d as int, 0x4000_0000_0000_0000, 0x1000_0000_0000_0000);
        lemma_mul_bounds(t1d as int, t2d as int, 0x1000_0000_0000_0000, 0x1000_0000_0000_0000);
        lemma_mul_pos(m1d as int, m2d as int);
        lemma_mul_pos(t1d as int, t2d as int);
    }
    let den_n: i128 = m1n * m2d - m2n * m1d;
    let den_d: i128 = m1d * m2d;
    let tn_n: i128 = t1n * t2d - t2n * t1d;
    let tn_d: i128 = t1d * t2d;
    proof {
        assert((Rat { n: den_n as int, d: den_d as int }) == isect_den_rat(a, b, c, d));
        assert((Rat { n: tn_n as int, d: tn_d as int }) == isect_t_num_rat(a, b, c, d));
    }

    let (rtn, rtd): (i128, i128) = reduce_pair(tn_n, tn_d);
    let (rdn, rdd): (i128, i128) = reduce_pair(den_n, den_d);
    if rtn > 0x8000_0000 || rtn < -0x8000_0000 || rtd > 0x8000_0000 || rdn > 0x8000_0000 || rdn
        < -0x8000_0000 || rdd > 0x8000_0000 {
        return Err(CoordinateOverflow);
    }
    if rdn == 0 {
        return Err(CoordinateOverflow);
    }
    proof {
        assert(den_n != 0) by (nonlinear_arith)
            requires
                rdn * den_d == den_n * rdd,
                rdn != 0,
                den_d > 0,
                rdd >= 1,
        ;
        lemma_mul_bounds(rtn as int, rdd as int, 0x8000_0000, 0x8000_0000);
        lemma_mul_bounds(rtd as int, rdn as int, 0x8000_0000, 0x8000_0000);
    }
    let mut tn2: i128 = rtn * rdd;
    let mut td2: i128 = rtd * rdn;
    proof {
        assert(td2 != 0) by (nonlinear_arith)
            requires
                td2 == rtd * rdn,
                rtd >= 1,
                rdn != 0,
        ;
        assert(r_eq(
            (Rat { n: (rtn * rdd) as int, d: (rtd * rdn) as int }),
            r_div((Rat { n: rtn as int, d: rtd as int }), (Rat { n: rdn as int, d: rdd as int })),
        ));
    }
    let ghost t0 = Rat { n: tn2 as int, d: td2 as int };
    if td2 < 0 {
        tn2 = -tn2;
        td2 = -td2;
    }
    proof {
        assert(r_eq((Rat { n: tn2 as int, d: td2 as int }), t0)) by (nonlinear_arith)
            requires
                (tn2 == t0.n && td2 == t0.d) || (tn2 == -t0.n && td2 == -t0.d),
        ;
        lemma_r_eq_div(
            (Rat { n: rtn as int, d: rtd as int }),
            (Rat { n: tn_n as int, d: tn_d as int }),
            (Rat { n: rdn as int, d: rdd as int }),
            (Rat { n: den_n as int, d: den_d as int }),
        );
        lemma_r_eq_trans(
            (Rat { n: tn2 as int, d: td2 as int }),
            r_div((Rat { n: rtn as int, d: rtd as int }), (Rat { n: rdn as int, d: rdd as int })),
            r_div(
                (Rat { n: tn_n as int, d: tn_d as int }),
                (Rat { n: den_n as int, d: den_d as int }),
            ),
        );
        assert(r_div(
            (Rat { n: rtn as int, d: rtd as int }),
            (Rat { n: rdn as int, d: rdd as int }),
        ).d != 0) by (nonlinear_arith)
            requires
                r_div(
                    (Rat { n: rtn as int, d: rtd as int }),
                    (Rat { n: rdn as int, d: rdd as int }),
                ).d == rtd * rdn,
                rtd >= 1,
                rdn != 0,
        ;
    }
    proof {
        lemma_mul_bounds(td2 as int, l1wd as int, 0x4000_0000_0000_0000, 0x4000_0000);
        lemma_mul_bounds(td2 as int, l1hd as int, 0x4000_0000_0000_0000, 0x4000_0000);
        lemma_mul_bounds(
            a.x.num as int,
            td2 as int * l1wd as int,
            0x8000,
            0x1_0000_0000_0000_0000_0000_0000,
        );
        lemma_mul_bounds(
            a.y.num as int,
            td2 as int * l1hd as int,
            0x8000,
            0x1_0000_0000_0000_0000_0000_0000,
        );
        lemma_mul_bounds(tn2 as int, l1wn as int, 0x4000_0000_0000_0000, 0x8000_0000);
        lemma_mul_bounds(tn2 as int, l1hn as int, 0x4000_0000_0000_0000, 0x8000_0000);
        lemma_mul_bounds(
            tn2 as int * l1wn as int,
            a.x.den as int,
            0x2000_0000_0000_0000_0000_0000,
            0x8000,
        );
        lemma_mul_bounds(
            tn2 as int * l1hn as int,
            a.y.den as int,
            0x2000_0000_0000_0000_0000_0000,
            0x8000,
        );
        lemma_mul_bounds(
            a.x.den as int,
            td2 as int * l1wd as int,
            0x8000,
            0x1_0000_0000_0000_0000_0000_0000,
        );
        lemma_mul_bounds(
            a.y.den as int,
            td2 as int * l1hd as int,
            0x8000,
            0x1_0000_0000_0000_0000_0000_0000,
        );
        lemma_mul_pos(td2 as int, l1wd as int);
        lemma_mul_pos(td2 as int, l1hd as int);
        lemma_mul_pos(a.x.den as int, td2 as int * l1wd as int);
        lemma_mul_pos(a.y.den as int, td2 as int * l1hd as int);
    }
    let xn: i128 = a.x.num * (td2 * l1wd) + (tn2 * l1wn) * a.x.den;
    let xd: i128 = a.x.den * (td2 * l1wd);
    let yn: i128 = a.y.num * (td2 * l1hd) + (tn2 * l1hn) * a.y.den;
    let yd: i128 = a.y.den * (td2 * l1hd);
    let x: Option<Frac> = Frac::build(xn, xd);
    let y: Option<Frac> = Frac::build(yn, yd);
    match (x, y) {
        (Some(px), Some(py)) => {
            proof {
                let tt = Rat { n: tn2 as int, d: td2 as int };
                let l1w = r_sub(rat(b.x), rat(a.x));
                let l1h = r_sub(rat(b.y), rat(a.y));
                let tnum = isect_t_num_rat(a, b, c, d);
                let den = isect_den_rat(a, b, c, d);
                assert((Rat { n: xn as int, d: xd as int }) == r_add(rat(a.x), r_mul(tt, l1w)));
                assert((Rat { n: yn as int, d: yd as int }) == r_add(rat(a.y), r_mul(tt, l1h)));
                lemma_r_pin_affine(rat(px), rat(a.x), tt, l1w, tnum, den);
                lemma_r_pin_affine(rat(py), rat(a.y), tt, l1h, tnum, den);
            }
            Ok(Some(Point { x: px, y: py }))
        },
        _ => Err(CoordinateOverflow),
    }
}

/// What one pass over all edge pairs found.
enum ScanOutcome {
    /// No pair of edges properly crosses.
    Clear,
    /// The first crossing pair, by edge indices, with its crossing point.
    Found(usize, usize, Point),
    /// A crossing was found whose point cannot be represented.
    Overflow,
}

/// Scans the edge pairs of the outline in the normalizer's order — first
/// edge by increasing index, partner edges forward from it — and reports
/// the first proper crossing.
fn scan_for_crossing(pts: &Vec<Point>) -> (r: ScanOutcome)
    requires
        points_wf(pts@),
        pts@.len() >= 4,
    ensures
        (r is Clear) ==> crossing_free(pts@),
        r matches ScanOutcome::Found(f, g, p) ==> f + 2 <= g && (g as int) < pts@.len()
            && point_wf(p)
            && segments_properly_cross(
            pts@[f as int],
            pts@[f as int + 1],
            pts@[g as int],
            pts@[next_on_outline(pts@.len() as int, g as int)],
        ),
        (r is Overflow) ==> !crossing_free(pts@),
{
    let n: usize = pts.len();
    let mut f: usize = 0;
    while f + 2 < n
        invariant
            n == pts@.len(),
            n >= 4,
            points_wf(pts@),
            f <= n - 2,
            forall|i: int, j: int|
                0 <= i < f && i + 2 <= j < n ==> !segments_properly_cross(
                    #[trigger] pts@[i],
                    pts@[i + 1],
                    #[trigger] pts@[j],
                    pts@[next_on_outline(n as int, j)],
                ),
        decreases n - f,
    {
        let pa: Point = pts[f];
        let pb: Point = pts[f + 1];
        let mut g: usize = f + 2;
        while g < n
            invariant
                n == pts@.len(),
                n >= 4,
                points_wf(pts@),
                f + 2 < n,
                f + 2 <= g <= n,
                pa == pts@[f as int],
                pb == pts@[f as int + 1],
                forall|i: int, j: int|
                    0 <= i < f && i + 2 <= j < n ==> !segments_properly_cross(
                        #[trigger] pts@[i],
                        pts@[i + 1],
                        #[trigger] pts@[j],
                        pts@[next_on_outline(n as int, j)],
                    ),
                forall|j: int|
                    f + 2 <= j < g ==> !segments_properly_cross(
                        pts@[f as int],
                        pts@[f as int + 1],
                        #[trigger] pts@[j],
                        pts@[next_on_outline(n as int, j)],
                    ),
            decreases n - g,
        {
            let pc: Point = pts[g];
            let pd: Point = if g + 1 == n {
                pts[0]
            } else {
                pts[g + 1]
            };
            proof {
                assert(pd == pts@[next_on_outline(n as int, g as int)]);
            }
            let isect: Result<Option<Point>, CoordinateOverflow> = get_line_intersection_point(
                pa,
                pb,
                pc,
                pd,
            );
            match isect {
                Ok(Some(p)) => {
                    return ScanOutcome::Found(f, g, p);
                },
                Ok(None) => {
                    proof {
                        assert(pts@[g as int] == pc);
                    }
                },
                Err(_) => {
                    proof {
                        if crossing_free(pts@) {
                            assert(!segments_properly_cross(
                                pts@[f as int],
                                pts@[next_on_outline(n as int, f as int)],
                                pts@[g as int],
                                pts@[next_on_outline(n as int, g as int)],
                            ));
                            assert(false);
                        }
                    }
                    return ScanOutcome::Overflow;
                },
            }
            g = g + 1;
        }
        f = f + 1;
    }
    proof {
        assert forall|i: int, j: int| 0 <= i < j < n implies !segments_properly_cross(
            #[trigger] pts@[i],
            pts@[next_on_outline(n as int, i)],
            #[trigger] pts@[j],
            pts@[next_on_outline(n as int, j)],
        ) by {
            if j == i + 1 {
                lemma_consecutive_edges_not_crossing(
                    pts@[i],
                    pts@[j],
                    pts@[next_on_outline(n as int, j)],
                );
            } else {
                assert(i + 2 <= j);
                assert(i < f);
                assert(next_on_outline(n as int, i) == i + 1);
            }
        }
    }
    ScanOutcome::Clear
}

/// The outline after a split at a crossing of the edges starting at
/// `first - 1` and `second - 1`: the points strictly between the two edges
/// are reversed and the crossing point is inserted twice, once before and
/// once after the reversed block, leaving two loops joined at it.
pub open spec fn split_outline(s: Seq<Point>, first: int, second: int, p: Point) -> Seq<Point> {
    s.subrange(0, first) + seq![p] + s.subrange(first, second).reverse() + seq![p] + s.subrange(
        second,
        s.len() as int,
    )
}

/// Splits the outline at a crossing: the result is exactly
/// [`split_outline`] of the input.
fn intersection_found(first: usize, second: usize, point: Point, pts: &mut Vec<Point>)
    requires
        1 <= first,
        first + 2 <= second,
        second <= old(pts)@.len(),
        points_wf(old(pts)@),
        point_wf(point),
    ensures
        final(pts)@ == split_outline(old(pts)@, first as int, second as int, point),
        final(pts)@.len() == old(pts)@.len() + 2,
        points_wf(final(pts)@),
        final(pts)@[first as int] == point,
        final(pts)@[second as int + 1] == point,
        final(pts)@[0] == old(pts)@[0],
        forall|x: Point| old(pts)@.contains(x) ==> final(pts)@.contains(x),
{
    let ghost len0 = old(pts)@.len() as int;
    let mut a: usize = first;
    let mut b: usize = second - 1;
    while a < b
        invariant
            1 <= first,
            first + 2 <= second,
            second <= old(pts)@.len(),
            first <= a,
            a + b == first + second - 1,
            b < pts@.len(),
            pts@.len() == old(pts)@.len(),
            points_wf(pts@),
            forall|k: int| 0 <= k < first ==> #[trigger] pts@[k] == old(pts)@[k],
            forall|k: int| second <= k < pts@.len() ==> #[trigger] pts@[k] == old(pts)@[k],
            forall|k: int|
                first <= k < a ==> #[trigger] pts@[k] == old(pts)@[first + second - 1 - k],
            forall|k: int|
                b < k < second ==> #[trigger] pts@[k] == old(pts)@[first + second - 1 - k],
            forall|k: int| a <= k <= b ==> #[trigger] pts@[k] == old(pts)@[k],
        decreases b + 1 - a,
    {
        let va: Point = pts[a];
        let vb: Point = pts[b];
        pts[a] = vb;
        pts[b] = va;
        proof {
            assert(points_wf(pts@));
            assert(va == old(pts)@[a as int]);
            assert(vb == old(pts)@[b as int]);
            assert(pts@[b as int] == old(pts)@[first + second - 1 - b]);
            assert(pts@[a as int] == old(pts)@[first + second - 1 - a]);
        }
        a = a + 1;
        b = b - 1;
        proof {
            assert forall|k: int| b < k < second implies #[trigger] pts@[k] == old(pts)@[first
                + second - 1 - k] by {
                if k == b + 1 {
                    assert(pts@[k] == old(pts)@[first + second - 1 - k]);
                }
            }
            assert forall|k: int| first <= k < a implies #[trigger] pts@[k] == old(pts)@[first
                + second - 1 - k] by {
                if k == a - 1 {
                    assert(pts@[k] == old(pts)@[first + second - 1 - k]);
                }
            }
        }
    }
    proof {
        // the whole block [first, second) now holds the reversed points
        assert forall|k: int| first <= k < second implies #[trigger] pts@[k] == old(pts)@[first
            + second - 1 - k] by {
            if a <= k <= b {
                assert(pts@[k] == old(pts)@[k]);
            }
        }
    }
    let ghost before = pts@;
    pts.insert(second, point);
    proof {
        assert forall|i: int| 0 <= i < pts@.len() implies point_wf(#[trigger] pts@[i]) by {
            if i < second {
                assert(pts@[i] == before[i]);
            } else if i == second {
                assert(pts@[i] == point);
            } else {
                assert(pts@[i] == before[i - 1]);
            }
        }
    }
    let ghost mid = pts@;
    pts.insert(first, point);
    proof {
        assert forall|i: int| 0 <= i < pts@.len() implies point_wf(#[trigger] pts@[i]) by {
            if i < first {
                assert(pts@[i] == mid[i]);
            } else if i == first {
                assert(pts@[i] == point);
            } else {
                assert(pts@[i] == mid[i - 1]);
            }
        }
        assert(pts@[second as int + 1] == mid[second as int]);
        let fi = first as int;
        let se = second as int;
        let target = split_outline(old(pts)@, fi, se, point);
        assert(old(pts)@.subrange(fi, se).reverse().len() == se - fi);
        assert(pts@ =~= target) by {
            assert forall|i: int| 0 <= i < pts@.len() implies pts@[i] == target[i] by {
                if i < fi {
                    assert(pts@[i] == mid[i] && mid[i] == before[i] && before[i] == old(pts)@[i]);
                    assert(target[i] == old(pts)@.subrange(0, fi)[i]);
                } else if i == fi {
                    assert(target[i] == point);
                } else if i <= se {
                    assert(pts@[i] == mid[i - 1] && mid[i - 1] == before[i - 1]);
                    assert(before[i - 1] == old(pts)@[fi + se - i]);
                    assert(target[i] == old(pts)@.subrange(fi, se).reverse()[i - fi - 1]);
                    assert(old(pts)@.subrange(fi, se).reverse()[i - fi - 1] == old(pts)@.subrange(
                        fi,
                        se,
                    )[se - fi - 1 - (i - fi - 1)]);
                    assert(old(pts)@.subrange(fi, se)[se - i] == old(pts)@[fi + se - i]);
                } else if i == se + 1 {
                    assert(pts@[i] == mid[i - 1] && mid[se] == point);
                    assert(target[i] == point);
                } else {
                    assert(pts@[i] == mid[i - 1] && mid[i - 1] == before[i - 2]);
                    assert(before[i - 2] == old(pts)@[i - 2]);
                    assert(target[i] == old(pts)@.subrange(se, len0)[i - se - 2]);
                }
            }
        }
        assert forall|x: Point| old(pts)@.contains(x) implies pts@.contains(x) by {
            let k = choose|k: int| 0 <= k < old(pts)@.len() && old(pts)@[k] == x;
            if k < fi {
                assert(pts@[k] == x);
            } else if k < se {
                assert(pts@[fi + se - k] == old(pts)@[k]);
            } else {
                assert(pts@[k + 2] == old(pts)@[k]);
            }
        }
    }
}

/// Resolves the self-intersections of the polygon's outline, in place.
///
/// On success the outline's walk no longer crosses itself: no two edges
/// properly cross (`crossing_free`).  An outline that is already simple is
/// returned unchanged (so normalization is idempotent, and the result of a
/// successful call is always an admissible input again).  On success the
/// outline only ever grows, by two points per resolved crossing: the first
/// point and every original vertex are kept, and at least one split happens
/// whenever the input did self-intersect.  `Err` — with the polygon
/// untouched — only when an exact crossing point left the machine bounds or
/// the split budget ran out; the point count of a self-intersecting input
/// is capped so that the budget itself fits the machine.
pub fn normalize_polygon(polygon: &mut Polygon) -> (r: Result<(), NormalizeError>)
    requires
        poly_wf(*old(polygon)),
        old(polygon).points@.len() <= 1000 || crossing_free(old(polygon).points@),
    ensures
        final(polygon).orientation == old(polygon).orientation,
        poly_wf(*final(polygon)),
        (r is Ok) ==> crossing_free(final(polygon).points@),
        crossing_free(old(polygon).points@) ==> (r is Ok) && final(polygon).points@ == old(
            polygon,
        ).points@,
        (r is Err) ==> *final(polygon) == *old(polygon),
        final(polygon).points@.len() >= old(polygon).points@.len(),
        (final(polygon).points@.len() - old(polygon).points@.len()) % 2 == 0,
        old(polygon).points@.len() > 0 ==> final(polygon).points@[0] == old(polygon).points@[0],
        forall|x: Point| old(polygon).points@.contains(x) ==> final(polygon).points@.contains(x),
        (r is Ok) && !crossing_free(old(polygon).points@) ==> final(polygon).points@.len() >= old(
            polygon,
        ).points@.len() + 2,
{
    let n0: usize = polygon.points.len();
    if n0 < 4 {
        proof {
            lemma_small_outline_crossing_free(polygon.points@);
        }
        return Ok(());
    }
    let mut pts: Vec<Point> = Vec::new();
    let mut i: usize = 0;
    while i < n0
        invariant
            i <= n0,
            n0 == polygon.points@.len(),
            poly_wf(*polygon),
            pts@ == polygon.points@.subrange(0, i as int),
        decreases n0 - i,
    {
        pts.push(polygon.points[i]);
        proof {
            assert(polygon.points@.subrange(0, i as int).push(polygon.points@[i as int])
                =~= polygon.points@.subrange(0, i as int + 1));
        }
        i = i + 1;
    }
    proof {
        assert(polygon.points@.subrange(0, n0 as int) =~= polygon.points@);
    }

    // a first pass decides between the three outcomes without any budget:
    // an already-simple outline comes back untouched here
    match scan_for_crossing(&pts) {
        ScanOutcome::Clear => {
            polygon.points = pts;
            return Ok(());
        },
        ScanOutcome::Found(ff, gg, p) => {
            proof {
                let n = pts@.len() as int;
                assert(next_on_outline(n, ff as int) == ff as int + 1);
                if crossing_free(pts@) {
                    assert(!segments_properly_cross(
                        pts@[ff as int],
                        pts@[next_on_outline(n, ff as int)],
                        pts@[gg as int],
                        pts@[next_on_outline(n, gg as int)],
                    ));
                }
                assert(!crossing_free(old(polygon).points@));
            }
            intersection_found(ff + 1, gg + 1, p, &mut pts);
            proof {
                assert(pts@[0] == old(polygon).points@[0]);
            }
        },
        ScanOutcome::Overflow => {
            return Err(NormalizeError::Aborted);
        },
    }

    // the input self-intersects, so its point count is capped and the
    // split budget fits the machine
    proof {
        assert(n0 <= 1000);
        assert(n0 * n0 <= 1_000_000) by (nonlinear_arith)
            requires
                n0 <= 1000,
        ;
    }
    let mut budget: usize = n0 * n0;
    loop
        invariant
            points_wf(pts@),
            n0 >= 4,
            n0 == old(polygon).points@.len(),
            pts@.len() >= n0 + 2,
            (pts@.len() - n0) % 2 == 0,
            pts@[0] == old(polygon).points@[0],
            forall|x: Point| old(polygon).points@.contains(x) ==> pts@.contains(x),
            !crossing_free(old(polygon).points@),
            pts@.len() + 2 * budget <= 3_000_000,
            poly_wf(*polygon),
            *polygon == *old(polygon),
        decreases budget,
    {
        let outcome: ScanOutcome = scan_for_crossing(&pts);
        match outcome {
            ScanOutcome::Clear => {
                polygon.points = pts;
                return Ok(());
            },
            ScanOutcome::Found(ff, gg, p) => {
                if budget == 0 {
                    return Err(NormalizeError::Aborted);
                }
                budget = budget - 1;
                let ghost pts_before = pts@;
                intersection_found(ff + 1, gg + 1, p, &mut pts);
                proof {
                    assert(pts@[0] == pts_before[0]);
                    assert forall|x: Point| old(polygon).points@.contains(x) implies pts@.contains(
                        x,
                    ) by {
                        assert(pts_before.contains(x));
                    }
                }
            },
            ScanOutcome::Overflow => {
                return Err(NormalizeError::Aborted);
            },
        }
    }
}

/// An active vertex: its index in the point array and its point.
#[derive(Clone, Copy)]
struct Pos {
    index: usize,
    point: Point,
}

/// The walking cursor over the active ring.
struct Index {
    pub index: usize,
}

/// The position is a coherent view into the point sequence.
spec fn pos_ok(p: Pos, pts: Seq<Point>) -> bool {
    p.index < pts.len() && p.point == pts[p.index as int]
}

/// Number of triangles a batch paints: two fewer than its vertices.
pub open spec fn batch_triangles(t: Triangles) -> int {
    t.vertices@.len() - 2
}

/// Total number of triangles painted by a list of batches.
pub open spec fn total_triangles(s: Seq<Triangles>) -> int
    decreases s.len(),
{
    if s.len() == 0 {
        0
    } else {
        total_triangles(s.drop_last()) + batch_triangles(s.last())
    }
}

/// Every batch is a fan of at least three vertices.
pub open spec fn fan_batches(s: Seq<Triangles>) -> bool {
    forall|i: int|
        0 <= i < s.len() ==> (#[trigger] s[i]).mode == TrianglesMode::Fan && s[i].vertices@.len()
            >= 3
}

/// Every vertex of every batch is a point of the polygon.
pub open spec fn batch_points_from(s: Seq<Triangles>, pts: Seq<Point>) -> bool {
    forall|i: int, k: int|
        0 <= i < s.len() && 0 <= k < s[i].vertices@.len() ==> pts.contains(
            #[trigger] s[i].vertices@[k],
        )
}

proof fn lemma_total_push(s: Seq<Triangles>, t: Triangles)
    ensures
        total_triangles(s.push(t)) == total_triangles(s) + t.vertices@.len() - 2,
{
    assert(s.push(t).drop_last() =~= s);
    assert(s.push(t).last() == t);
}

proof fn lemma_fan_push(s: Seq<Triangles>, t: Triangles)
    requires
        fan_batches(s),
        t.mode == TrianglesMode::Fan,
        t.vertices@.len() >= 3,
    ensures
        fan_batches(s.push(t)),
{
    assert forall|i: int| 0 <= i < s.push(t).len() implies (#[trigger] s.push(t)[i]).mode
        == TrianglesMode::Fan && s.push(t)[i].vertices@.len() >= 3 by {
        if i < s.len() {
            assert(s.push(t)[i] == s[i]);
        } else {
            assert(s.push(t)[i] == t);
        }
    }
}

proof fn lemma_points_push(s: Seq<Triangles>, t: Triangles, pts: Seq<Point>)
    requires
        batch_points_from(s, pts),
        forall|k: int| 0 <= k < t.vertices@.len() ==> pts.contains(#[trigger] t.vertices@[k]),
    ensures
        batch_points_from(s.push(t), pts),
{
    assert forall|i: int, k: int|
        0 <= i < s.push(t).len() && 0 <= k < s.push(t)[i].vertices@.len() implies pts.contains(
        #[trigger] s.push(t)[i].vertices@[k],
    ) by {
        if i < s.len() {
            assert(s.push(t)[i] == s[i]);
        } else {
            assert(s.push(t)[i] == t);
        }
    }
}

/// Follows the ring one step: moves the cursor to the successor of its
/// current vertex and returns that vertex.
fn get_next(polygon: &Polygon, addresses: &Vec<usize>, index: &mut Index) -> (r: Pos)
    requires
        old(index).index < addresses@.len(),
        addresses@.len() == polygon.points@.len(),
        forall|k: int| 0 <= k < addresses@.len() ==> (#[trigger] addresses@[k]) < polygon.points@.len(),
    ensures
        final(index).index == addresses@[old(index).index as int],
        r.index == final(index).index,
        pos_ok(r, polygon.points@),
{
    index.index = addresses[index.index];
    Pos { index: index.index, point: polygon.points[index.index] }
}

/// Checks whether the angle `a-b-c` turns with the polygon's declared
/// winding.  A polygon declared collinear is a fatal input error and is
/// excluded by contract.
fn is_convex(a: &Point, b: &Point, c: &Point, polygon_orientation: Orientation) -> (r: bool)
    requires
        point_wf(*a),
        point_wf(*b),
        point_wf(*c),
        polygon_orientation != Orientation::Colinear,
    ensures
        r == (orient_spec(*a, *b, *c) == polygon_orientation),
{
    let orientation = points_orientation(a, b, c);

    match polygon_orientation {
        Orientation::Clockwise => orientation == Orientation::Clockwise,
        Orientation::CounterClockwise => orientation == Orientation::CounterClockwise,
        Orientation::Colinear => false,
    }
}

/// Step two of the ear test, at the ring vertex `s` just beyond `c`: the
/// chord `a-c` swallows `s` when `s` falls inside the candidate corner.
pub open spec fn chord_swallows_beyond_c(a: Point, b: Point, c: Point, s: Point, o: Orientation) -> bool {
    orient_spec(b, c, s) == o && orient_spec(s, c, a) == o
}

/// Step two of the ear test, at the ring vertex `t` just before `a`: the
/// chord `a-c` swallows `t` when `t` falls inside the candidate corner.
pub open spec fn chord_swallows_before_a(a: Point, b: Point, c: Point, t: Point, o: Orientation) -> bool {
    orient_spec(b, a, t) == o && orient_spec(t, a, c) == o
}

/// The ring successor of the vertex at index `i`.
pub open spec fn ring_next(addresses: Seq<usize>, i: int) -> int {
    addresses[i] as int
}

/// The ear test of the tessellator, in three steps: the window `a-b-c` must
/// turn with the declared winding; the chord `a-c` must not swallow the
/// active vertex just beyond `c` nor the one just before `a`; and — for
/// rings of more than five vertices — no other active edge may properly
/// cross the chord.  For five or fewer active vertices the edge scan is
/// skipped and the result is exactly the conjunction of the first two
/// steps, with the before-`a` guard read at the vertex two ring steps
/// beyond `c`.  The edge walk is capped at the ring size; on a well-formed
/// ring the walk always returns to `a` within that many steps, and a
/// malformed ring reads as "not an ear".
fn is_visible(
    a: &Pos,
    b: &Pos,
    c: &Pos,
    polygon_orientation: Orientation,
    addresses: &Vec<usize>,
    polygon_points: &Vec<Point>,
    vertices_left: usize,
) -> (r: bool)
    requires
        polygon_orientation != Orientation::Colinear,
        addresses@.len() == polygon_points@.len(),
        forall|k: int| 0 <= k < addresses@.len() ==> (#[trigger] addresses@[k]) < polygon_points@.len(),
        points_wf(polygon_points@),
        pos_ok(*a, polygon_points@),
        pos_ok(*b, polygon_points@),
        pos_ok(*c, polygon_points@),
    ensures
        r ==> orient_spec(a.point, b.point, c.point) == polygon_orientation,
        chord_swallows_beyond_c(
            a.point,
            b.point,
            c.point,
            polygon_points@[ring_next(addresses@, c.index as int)],
            polygon_orientation,
        ) ==> !r,
        vertices_left <= 5 ==> r == (orient_spec(a.point, b.point, c.point)
            == polygon_orientation && !chord_swallows_beyond_c(
            a.point,
            b.point,
            c.point,
            polygon_points@[ring_next(addresses@, c.index as int)],
            polygon_orientation,
        ) && !chord_swallows_before_a(
            a.point,
            b.point,
            c.point,
            polygon_points@[ring_next(addresses@, ring_next(addresses@, c.index as int))],
            polygon_orientation,
        )),
{
    if !is_convex(&a.point, &b.point, &c.point, polygon_orientation) {
        return false;
    }

    let mut index: usize = addresses[c.index];
    let mut from: Point = polygon_points[index];
    let mut o1: Orientation = points_orientation(&a.point, &c.point, &from);

    // the chord must not swallow the active vertex just beyond c
    if is_convex(&b.point, &c.point, &from, polygon_orientation) && is_convex(
        &from,
        &c.point,
        &a.point,
        polygon_orientation,
    ) {
        return false;
    }

    index = addresses[index];
    let mut to: Point = polygon_points[index];

    // test whether any other active edge truly crosses the chord a-c
    if vertices_left > 5 {
        let mut fuel: usize = addresses.len();
        loop
            invariant
                addresses@.len() == polygon_points@.len(),
                forall|k: int|
                    0 <= k < addresses@.len() ==> (#[trigger] addresses@[k])
                        < polygon_points@.len(),
                points_wf(polygon_points@),
                point_wf(a.point),
                point_wf(c.point),
                point_wf(from),
                point_wf(to),
                index < addresses@.len(),
                vertices_left > 5,
                orient_spec(a.point, b.point, c.point) == polygon_orientation,
                !chord_swallows_beyond_c(
                    a.point,
                    b.point,
                    c.point,
                    polygon_points@[ring_next(addresses@, c.index as int)],
                    polygon_orientation,
                ),
            ensures
                point_wf(to),
                orient_spec(a.point, b.point, c.point) == polygon_orientation,
                !chord_swallows_beyond_c(
                    a.point,
                    b.point,
                    c.point,
                    polygon_points@[ring_next(addresses@, c.index as int)],
                    polygon_orientation,
                ),
            decreases fuel,
        {
            if fuel == 0 {
                return false;
            }
            fuel = fuel - 1;

            // check whether the edge from-to crosses the proposed chord a-c
            let o2 = points_orientation(&a.point, &c.point, &to);

            if o1 != o2 {
                let o3 = points_orientation(&from, &to, &a.point);
                let o4 = points_orientation(&from, &to, &c.point);

                if o3 != o4 {
                    // disregard edges that only touch but do not cross
                    if o1 != Orientation::Colinear && o2 != Orientation::Colinear && o3
                        != Orientation::Colinear && o4 != Orientation::Colinear {
                        return false;
                    }
                }
            }
            o1 = o2;

            index = addresses[index];
            if index == a.index {
                break ;
            }

            from = to;
            to = polygon_points[index];
        }
    }
    // the chord must not swallow the active vertex just before a
    if is_convex(&b.point, &a.point, &to, polygon_orientation) && is_convex(
        &to,
        &a.point,
        &c.point,
        polygon_orientation,
    ) {
        return false;
    }

    true
}

/// No cyclically consecutive triple of the outline turns with winding `o`:
/// the declared winding contradicts the point order everywhere, as when a
/// convex outline is declared with the reverse winding.  Kept opaque so that
/// its quantifier enters a proof only where it is needed.
#[verifier::opaque]
pub open spec fn winding_never_matches(pts: Seq<Point>, o: Orientation) -> bool {
    forall|i: int|
        0 <= i < pts.len() ==> orient_spec(
            #[trigger] pts[i],
            pts[next_on_outline(pts.len() as int, i)],
            pts[next_on_outline(pts.len() as int, next_on_outline(pts.len() as int, i))],
        ) != o
}

/// Every cyclically consecutive triple of the outline turns with winding
/// `o`: a convex outline declared with its true winding.  Kept opaque so
/// that its quantifier enters a proof only where it is needed.
#[verifier::opaque]
pub open spec fn winding_always_matches(pts: Seq<Point>, o: Orientation) -> bool {
    forall|i: int|
        0 <= i < pts.len() ==> orient_spec(
            #[trigger] pts[i],
            pts[next_on_outline(pts.len() as int, i)],
            pts[next_on_outline(pts.len() as int, next_on_outline(pts.len() as int, i))],
        ) == o
}

/// On a four-point outline whose every turn matches the winding, the
/// starting window `(p1, p2, p3)` is an ear: it turns with the winding and
/// its chord swallows neither the vertex beyond it (`p0`) nor the window
/// start itself, the walk's stand-in for the vertex before it.
proof fn lemma_four_point_window_is_ear(pts: Seq<Point>, o: Orientation)
    requires
        pts.len() == 4,
        points_wf(pts),
        o != Orientation::Colinear,
        winding_always_matches(pts, o),
    ensures
        orient_spec(pts[1], pts[2], pts[3]) == o,
        !chord_swallows_beyond_c(pts[1], pts[2], pts[3], pts[0], o),
        !chord_swallows_before_a(pts[1], pts[2], pts[3], pts[1], o),
{
    reveal(winding_always_matches);
    assert(next_on_outline(4, 1) == 2 && next_on_outline(4, 2) == 3);
    assert(next_on_outline(4, 3) == 0 && next_on_outline(4, 0) == 1);
    assert(orient_spec(pts[1], pts[2], pts[3]) == o);
    assert(orient_spec(pts[3], pts[0], pts[1]) == o);
    // the chord guard at p0 reads the diagonal backwards: opposite turn
    lemma_orientation_rotation(pts[1], pts[3], pts[0]);
    lemma_orientation_antisymmetric(pts[0], pts[3], pts[1]);
    assert(orient_spec(pts[0], pts[3], pts[1]) == opposite(o));
    // the guard before the window start degenerates into a collinear triple
    lemma_cross_degenerate(pts[2], pts[1]);
    assert(orient_spec(pts[2], pts[1], pts[1]) == Orientation::Colinear);
}

/// Tessellates the simple polygon into triangle fan batches by ear
/// clipping.
///
/// On success exactly `n - 2` triangles are emitted over all batches (for
/// `n` input points), every batch is a fan of at least three vertices, and
/// every batch vertex is one of the polygon's points.  A three-point
/// polygon whose actual orientation matches its declared winding yields the
/// single fan `[p1, p2, p0]`; with a mismatched winding it aborts.  Larger
/// inputs abort — the safety valve — when the window walks a full lap of
/// the active ring without finding an ear; in particular an outline none of
/// whose turns follows the declared winding is guaranteed to abort rather
/// than loop.  A four-point outline whose every turn matches the declared
/// winding — a convex quadrilateral declared truly — is guaranteed to come
/// back as the single four-point fan `[p1, p2, p3, p0]`.
pub fn tesselate_polygon(polygon: &Polygon) -> (r: Result<Vec<Triangles>, TesselationError>)
    requires
        poly_wf(*polygon),
        polygon.orientation != Orientation::Colinear,
        polygon.points@.len() >= 3,
    ensures
        r matches Ok(batches) ==> total_triangles(batches@) == polygon.points@.len() - 2
            && fan_batches(batches@) && batch_points_from(batches@, polygon.points@),
        polygon.points@.len() == 3 && orient_spec(
            polygon.points@[1],
            polygon.points@[2],
            polygon.points@[0],
        ) == polygon.orientation ==> (r is Ok) && r->Ok_0@.len() == 1 && r->Ok_0@[0].mode
            == TrianglesMode::Fan && r->Ok_0@[0].vertices@ == seq![
            polygon.points@[1],
            polygon.points@[2],
            polygon.points@[0],
        ],
        polygon.points@.len() == 3 && orient_spec(
            polygon.points@[1],
            polygon.points@[2],
            polygon.points@[0],
        ) != polygon.orientation ==> (r is Err),
        winding_never_matches(polygon.points@, polygon.orientation) ==> (r is Err),
        polygon.points@.len() == 4 && winding_always_matches(
            polygon.points@,
            polygon.orientation,
        ) ==> (r is Ok) && r->Ok_0@.len() == 1 && r->Ok_0@[0].mode == TrianglesMode::Fan
            && r->Ok_0@[0].vertices@ == seq![
            polygon.points@[1],
            polygon.points@[2],
            polygon.points@[3],
            polygon.points@[0],
        ],
{
    let n: usize = polygon.points.len();

    if n == 3 {
        // the ring is the whole triangle; the only candidate ear is the
        // window (p1, p2, p0), an ear exactly when the winding matches
        let p0: Point = polygon.points[0];
        let p1: Point = polygon.points[1];
        let p2: Point = polygon.points[2];
        let o = points_orientation(&p1, &p2, &p0);
        if o == polygon.orientation {
            let mut strip: Vec<Point> = Vec::new();
            strip.push(p1);
            strip.push(p2);
            strip.push(p0);
            let mut strips: Vec<Triangles> = Vec::new();
            let t = Triangles { vertices: strip, mode: TrianglesMode::Fan };
            strips.push(t);
            proof {
                assert(strips@.drop_last() =~= Seq::<Triangles>::empty());
                assert(total_triangles(Seq::<Triangles>::empty()) == 0);
                assert(total_triangles(strips@) == 1);
                assert(strips@[0].vertices@ =~= seq![
                    polygon.points@[1],
                    polygon.points@[2],
                    polygon.points@[0],
                ]);
                assert(polygon.points@.contains(p0)) by {
                    assert(polygon.points@[0] == p0);
                }
                assert(polygon.points@.contains(p1)) by {
                    assert(polygon.points@[1] == p1);
                }
                assert(polygon.points@.contains(p2)) by {
                    assert(polygon.points@[2] == p2);
                }
                reveal(winding_never_matches);
                if winding_never_matches(polygon.points@, polygon.orientation) {
                    assert(polygon.points@[1] == p1);
                    assert(next_on_outline(3, 1) == 2 && next_on_outline(3, 2) == 0);
                    assert(false);
                }
            }
            return Ok(strips);
        } else {
            return Err(TesselationError::Aborted);
        }
    }

    let mut vertices_left: usize = n;
    let mut index = Index { index: 0 };
    let mut addresses: Vec<usize> = Vec::with_capacity(n);
    let mut strips: Vec<Triangles> = Vec::new();

    let mut i: usize = 1;
    while i < n
        invariant
            1 <= i <= n,
            addresses@.len() == i - 1,
            forall|k: int| 0 <= k < i - 1 ==> (#[trigger] addresses@[k]) == k + 1,
        decreases n - i,
    {
        addresses.push(i);
        i = i + 1;
    }
    addresses.push(0);
    proof {
        assert forall|k: int| 0 <= k < addresses@.len() implies (#[trigger] addresses@[k]) < n by {
            if k < n - 1 {
                assert(addresses@[k] == k + 1);
            } else {
                assert(addresses@[k] == 0);
            }
        }
    }

    proof {
        assert forall|k: int| 0 <= k < n implies (#[trigger] addresses@[k]) as int
            == next_on_outline(n as int, k) by {
            if k < n - 1 {
                assert(addresses@[k] == k + 1);
            } else {
                assert(addresses@[k] == 0);
            }
        }
    }

    let mut a: Pos = get_next(polygon, &addresses, &mut index);
    let mut b: Pos = get_next(polygon, &addresses, &mut index);
    let mut c: Pos = get_next(polygon, &addresses, &mut index);
    proof {
        assert(addresses@[a.index as int] as int == next_on_outline(n as int, a.index as int));
        assert(addresses@[b.index as int] as int == next_on_outline(n as int, b.index as int));
    }

    let mut count: usize = 0;
    loop
        invariant
            n == polygon.points@.len(),
            n >= 4,
            poly_wf(*polygon),
            polygon.orientation != Orientation::Colinear,
            addresses@.len() == n,
            forall|k: int| 0 <= k < addresses@.len() ==> (#[trigger] addresses@[k]) < n,
            pos_ok(a, polygon.points@),
            pos_ok(b, polygon.points@),
            pos_ok(c, polygon.points@),
            index.index < n,
            3 <= vertices_left <= n,
            count <= vertices_left,
            total_triangles(strips@) == n - vertices_left,
            fan_batches(strips@),
            batch_points_from(strips@, polygon.points@),
            winding_never_matches(polygon.points@, polygon.orientation) ==> index.index == c.index
                && b.index as int == next_on_outline(n as int, a.index as int)
                && c.index as int == next_on_outline(n as int, b.index as int)
                && (forall|k: int|
                    0 <= k < n ==> (#[trigger] addresses@[k]) as int == next_on_outline(
                        n as int,
                        k,
                    )),
            polygon.points@.len() == 4 && winding_always_matches(
                polygon.points@,
                polygon.orientation,
            ) ==> a.index == 1 && b.index == 2 && c.index == 3 && index.index == 3
                && vertices_left == 4 && strips@.len() == 0 && (forall|k: int|
                0 <= k < n ==> (#[trigger] addresses@[k]) as int == next_on_outline(n as int, k)),
        decreases vertices_left, vertices_left + 1 - count,
    {
        let visible = is_visible(
            &a,
            &b,
            &c,
            polygon.orientation,
            &addresses,
            &polygon.points,
            vertices_left,
        );

        if visible {
            proof {
                // a window of three ring-consecutive points that passed the
                // ear test turns with the declared winding, which the
                // never-matching hypothesis rules out
                reveal(winding_never_matches);
                if winding_never_matches(polygon.points@, polygon.orientation) {
                    let ai = a.index as int;
                    assert(polygon.points@[ai] == a.point);
                    assert(polygon.points@[next_on_outline(n as int, ai)] == b.point);
                    assert(polygon.points@[next_on_outline(
                        n as int,
                        next_on_outline(n as int, ai),
                    )] == c.point);
                    assert(false);
                }
            }
            // found an ear: grow a fan from a-b while the ear test holds
            let ghost vl0 = vertices_left;
            let mut strip: Vec<Point> = Vec::new();
            strip.push(a.point);
            strip.push(b.point);
            proof {
                if polygon.points@.len() == 4 && winding_always_matches(
                    polygon.points@,
                    polygon.orientation,
                ) {
                    assert(strip@ =~= seq![polygon.points@[1], polygon.points@[2]]);
                }
            }

            loop
                invariant
                    n == polygon.points@.len(),
                    n >= 4,
                    poly_wf(*polygon),
                    polygon.orientation != Orientation::Colinear,
                    addresses@.len() == n,
                    forall|k: int| 0 <= k < addresses@.len() ==> (#[trigger] addresses@[k]) < n,
                    pos_ok(a, polygon.points@),
                    pos_ok(b, polygon.points@),
                    pos_ok(c, polygon.points@),
                    index.index < n,
                    !winding_never_matches(polygon.points@, polygon.orientation),
                    3 <= vertices_left <= vl0 <= n,
                    polygon.points@.len() == 4 && winding_always_matches(
                        polygon.points@,
                        polygon.orientation,
                    ) ==> a.index == 1 && index.index == c.index && strips@.len() == 0 && (forall|
                        k: int,
                    |
                        0 <= k < n ==> (#[trigger] addresses@[k]) as int == next_on_outline(
                            n as int,
                            k,
                        )) && ((vertices_left == 4 && b.index == 2 && c.index == 3 && strip@
                        == seq![polygon.points@[1], polygon.points@[2]]) || (vertices_left == 3
                        && b.index == 3 && c.index == 0 && strip@ == seq![
                        polygon.points@[1],
                        polygon.points@[2],
                        polygon.points@[3],
                    ])),
                    strip@.len() >= 2,
                    total_triangles(strips@) + strip@.len() - 2 == n - vertices_left,
                    fan_batches(strips@),
                    batch_points_from(strips@, polygon.points@),
                    forall|k: int|
                        0 <= k < strip@.len() ==> polygon.points@.contains(#[trigger] strip@[k]),
                ensures
                    n == polygon.points@.len(),
                    addresses@.len() == n,
                    forall|k: int| 0 <= k < addresses@.len() ==> (#[trigger] addresses@[k]) < n,
                    pos_ok(a, polygon.points@),
                    pos_ok(b, polygon.points@),
                    pos_ok(c, polygon.points@),
                    index.index < n,
                    vertices_left >= 4,
                    3 <= vertices_left < vl0,
                    strip@.len() >= 3,
                    total_triangles(strips@) + strip@.len() - 2 == n - vertices_left,
                    fan_batches(strips@),
                    batch_points_from(strips@, polygon.points@),
                    forall|k: int|
                        0 <= k < strip@.len() ==> polygon.points@.contains(#[trigger] strip@[k]),
                decreases vertices_left,
            {
                if vertices_left == 3 {
                    // the window holds the last three active vertices:
                    // close the final fan and finish
                    strip.push(c.point);
                    proof {
                        assert(polygon.points@.contains(c.point)) by {
                            assert(polygon.points@[c.index as int] == c.point);
                        }
                        if polygon.points@.len() == 4 && winding_always_matches(
                            polygon.points@,
                            polygon.orientation,
                        ) {
                            assert(strip@ =~= seq![
                                polygon.points@[1],
                                polygon.points@[2],
                                polygon.points@[3],
                                polygon.points@[0],
                            ]);
                        }
                        lemma_total_push(strips@, Triangles { vertices: strip, mode: TrianglesMode::Fan });
                        lemma_fan_push(strips@, Triangles { vertices: strip, mode: TrianglesMode::Fan });
                        lemma_points_push(
                            strips@,
                            Triangles { vertices: strip, mode: TrianglesMode::Fan },
                            polygon.points@,
                        );
                    }
                    strips.push(Triangles { vertices: strip, mode: TrianglesMode::Fan });
                    return Ok(strips);
                }

                strip.push(c.point);
                proof {
                    assert(polygon.points@.contains(c.point)) by {
                        assert(polygon.points@[c.index as int] == c.point);
                    }
                }
                vertices_left = vertices_left - 1;
                b = c;
                c = get_next(polygon, &addresses, &mut index);
                proof {
                    if polygon.points@.len() == 4 && winding_always_matches(
                        polygon.points@,
                        polygon.orientation,
                    ) {
                        assert(strip@ =~= seq![
                            polygon.points@[1],
                            polygon.points@[2],
                            polygon.points@[3],
                        ]);
                    }
                }

                if vertices_left >= 4 && !is_visible(
                    &a,
                    &b,
                    &c,
                    polygon.orientation,
                    &addresses,
                    &polygon.points,
                    vertices_left,
                ) {
                    break ;
                }
            }

            proof {
                // a matching four-point outline finishes inside the fan:
                // the break needs four active vertices left of fewer than
                // four, which cannot be
                if polygon.points@.len() == 4 && winding_always_matches(
                    polygon.points@,
                    polygon.orientation,
                ) {
                    assert(false);
                }
                lemma_total_push(strips@, Triangles { vertices: strip, mode: TrianglesMode::Fan });
                lemma_fan_push(strips@, Triangles { vertices: strip, mode: TrianglesMode::Fan });
                lemma_points_push(
                    strips@,
                    Triangles { vertices: strip, mode: TrianglesMode::Fan },
                    polygon.points@,
                );
            }
            strips.push(Triangles { vertices: strip, mode: TrianglesMode::Fan });
            let ai: usize = a.index;
            addresses[ai] = b.index;
            proof {
                assert forall|k: int| 0 <= k < addresses@.len() implies (#[trigger] addresses@[k])
                    < n by {}
            }
            count = 0;
        } else {
            proof {
                // under the fully matching four-point hypothesis the first
                // window is an ear, so this branch is unreachable there
                if polygon.points@.len() == 4 && winding_always_matches(
                    polygon.points@,
                    polygon.orientation,
                ) {
                    assert(addresses@[3] as int == next_on_outline(4, 3));
                    assert(addresses@[0] as int == next_on_outline(4, 0));
                    assert(a.point == polygon.points@[1]);
                    assert(b.point == polygon.points@[2]);
                    assert(c.point == polygon.points@[3]);
                    lemma_four_point_window_is_ear(polygon.points@, polygon.orientation);
                    assert(false);
                }
            }
            if count >= vertices_left {
                // safety valve: a full lap found no ear
                return Err(TesselationError::Aborted);
            }
            count = count + 1;
        }
        a = b;
        b = c;
        let ghost prev_cursor = index.index;
        c = get_next(polygon, &addresses, &mut index);
        proof {
            if winding_never_matches(polygon.points@, polygon.orientation) {
                assert(addresses@[prev_cursor as int] as int == next_on_outline(
                    n as int,
                    prev_cursor as int,
                ));
            }
        }
    }
}

} // verus!
