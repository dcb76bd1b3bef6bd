//! Signed areas of outlines and of the triangle fans that fill them.
//!
//! The tessellator hands every batch to the rasterizer as a fan.  The law
//! [`lemma_fan_area_matches_outline`] states that the triangles of a fan
//! jointly paint exactly the signed area that the fan's own closed outline
//! encloses — no part of a batch is lost or double-counted.

use vstd::prelude::*;
use crate::frac::{
    Rat, rat, r_add, r_sub, r_mul, r_neg, r_eq, r_int,
    lemma_mul_pos, lemma_r_eq_trans, lemma_r_eq_add, lemma_r_eq_mul, lemma_r_eq_sub,
    lemma_r_eq_sign,
};
use crate::point::{
    Point, point_wf, cross_rat, orient_spec, lemma_cross_den_pos,
};
use crate::polygon::points_wf;

verus! {

/// The shoelace term `p.x*q.y - q.x*p.y` of one directed edge.
pub open spec fn cross2(p: Point, q: Point) -> Rat {
    r_sub(r_mul(rat(p.x), rat(q.y)), r_mul(rat(q.x), rat(p.y)))
}

/// Sum of the shoelace terms along the open chain of `s`.
pub open spec fn chain_sum(s: Seq<Point>) -> Rat
    decreases s.len(),
{
    if s.len() < 2 {
        r_int(0)
    } else {
        r_add(chain_sum(s.drop_last()), cross2(s[s.len() - 2], s[s.len() - 1]))
    }
}

/// Doubled signed area of the closed outline `s`: the shoelace formula.
pub open spec fn outline_area2(s: Seq<Point>) -> Rat {
    if s.len() < 2 {
        r_int(0)
    } else {
        r_add(chain_sum(s), cross2(s[s.len() - 1], s[0]))
    }
}

/// Doubled signed area of one triangle.
pub open spec fn triangle_area2(a: Point, b: Point, c: Point) -> Rat {
    r_add(r_add(cross2(a, b), cross2(b, c)), cross2(c, a))
}

/// Doubled signed area painted by a fan over `s`: the sum over its
/// triangles, which all share the first vertex.
pub open spec fn fan_area2(s: Seq<Point>) -> Rat
    decreases s.len(),
{
    if s.len() < 3 {
        r_int(0)
    } else {
        r_add(fan_area2(s.drop_last()), triangle_area2(s[0], s[s.len() - 2], s[s.len() - 1]))
    }
}

/// The denominator of a shoelace term is positive for well-formed points.
proof fn lemma_cross2_den_pos(p: Point, q: Point)
    requires
        point_wf(p),
        point_wf(q),
    ensures
        cross2(p, q).d > 0,
{
    lemma_mul_pos(p.x.den as int, q.y.den as int);
    lemma_mul_pos(q.x.den as int, p.y.den as int);
    lemma_mul_pos(p.x.den as int * q.y.den as int, q.x.den as int * p.y.den as int);
}

/// The denominator of a chain sum is positive for well-formed points.
proof fn lemma_chain_den_pos(s: Seq<Point>)
    requires
        points_wf(s),
    ensures
        chain_sum(s).d > 0,
    decreases s.len(),
{
    if s.len() < 2 {
    } else {
        assert(points_wf(s.drop_last())) by {
            assert forall|i: int| 0 <= i < s.drop_last().len() implies point_wf(
                #[trigger] s.drop_last()[i],
            ) by {
                assert(s.drop_last()[i] == s[i]);
            }
        }
        lemma_chain_den_pos(s.drop_last());
        lemma_cross2_den_pos(s[s.len() - 2], s[s.len() - 1]);
        lemma_mul_pos(chain_sum(s.drop_last()).d, cross2(s[s.len() - 2], s[s.len() - 1]).d);
    }
}

/// Walking an edge backwards negates its shoelace term.
proof fn lemma_cross2_antisym(p: Point, q: Point)
    ensures
        r_eq(cross2(p, q), r_neg(cross2(q, p))),
{
    let m1 = r_mul(rat(p.x), rat(q.y));
    let m2 = r_mul(rat(q.x), rat(p.y));
    assert((m1.n * m2.d - m2.n * m1.d) * (m2.d * m1.d) == (-(m2.n * m1.d - m1.n * m2.d)) * (m1.d
        * m2.d)) by (nonlinear_arith);
}

/// Adding a value and its negation gives zero.
proof fn lemma_r_add_neg_cancel(a: Rat, p: Rat)
    requires
        r_eq(p, r_neg(a)),
    ensures
        r_eq(r_add(a, p), r_int(0)),
{
    assert((a.n * p.d + p.n * a.d) * 1 == 0 * (a.d * p.d)) by (nonlinear_arith)
        requires
            p.n * a.d == (-a.n) * p.d,
    ;
}

/// Adding a zero-valued rational changes nothing.
proof fn lemma_r_add_zero(c: Rat, z: Rat)
    requires
        r_eq(z, r_int(0)),
    ensures
        r_eq(r_add(c, z), c),
{
    assert(z.n == 0);
    assert((c.n * z.d + z.n * c.d) * c.d == c.n * (c.d * z.d)) by (nonlinear_arith)
        requires
            z.n == 0,
    ;
}

/// The exact zero is a left identity of addition.
proof fn lemma_r_add_zero_left(x: Rat)
    ensures
        r_eq(r_add(r_int(0), x), x),
{
    assert((0 * x.d + x.n * 1) * x.d == x.n * (1 * x.d)) by (nonlinear_arith);
}

/// Associativity of rational addition, up to value equality.
proof fn lemma_r_add_assoc(a: Rat, b: Rat, c: Rat)
    ensures
        r_eq(r_add(r_add(a, b), c), r_add(a, r_add(b, c))),
{
    vstd::arithmetic::mul::lemma_mul_is_distributive_add_other_way(c.d, a.n * b.d, b.n * a.d);
    vstd::arithmetic::mul::lemma_mul_is_distributive_add_other_way(a.d, b.n * c.d, c.n * b.d);
    vstd::arithmetic::mul::lemma_mul_is_associative(a.n, b.d, c.d);
    vstd::arithmetic::mul::lemma_mul_is_associative(a.d, b.d, c.d);
    assert((b.n * c.d) * a.d == (b.n * a.d) * c.d) by (nonlinear_arith);
    assert((c.n * b.d) * a.d == c.n * (a.d * b.d)) by (nonlinear_arith);
    assert(r_add(r_add(a, b), c).n == r_add(a, r_add(b, c)).n);
    assert(r_add(r_add(a, b), c).d == r_add(a, r_add(b, c)).d);
}

/// Negating both operands of a subtraction swaps them.
proof fn lemma_r_sub_neg_both(x: Rat, y: Rat)
    ensures
        r_eq(r_sub(r_neg(x), r_neg(y)), r_sub(y, x)),
{
    assert(((-x.n) * y.d - (-y.n) * x.d) * (y.d * x.d) == (y.n * x.d - x.n * y.d) * (x.d * y.d))
        by (nonlinear_arith);
}

/// Multiplication is commutative, up to value equality.
proof fn lemma_r_mul_comm(x: Rat, y: Rat)
    ensures
        r_eq(r_mul(x, y), r_mul(y, x)),
{
    assert((x.n * y.n) * (y.d * x.d) == (y.n * x.n) * (x.d * y.d)) by (nonlinear_arith);
}

/// A negated factor negates the product.
proof fn lemma_r_mul_neg(x: Rat, y: Rat)
    ensures
        r_eq(r_mul(x, r_neg(y)), r_neg(r_mul(x, y))),
{
    assert((x.n * (-y.n)) * (x.d * y.d) == (-(x.n * y.n)) * (x.d * y.d)) by (nonlinear_arith);
}

/// Negation respects value equality.
proof fn lemma_r_neg_congr(x: Rat, y: Rat)
    requires
        r_eq(x, y),
    ensures
        r_eq(r_neg(x), r_neg(y)),
{
    assert((-x.n) * y.d == (-y.n) * x.d) by (nonlinear_arith)
        requires
            x.n * y.d == y.n * x.d,
    ;
}

/// Multiplication distributes over addition, up to value equality.
proof fn lemma_r_mul_distributes(a: Rat, b: Rat, c: Rat)
    ensures
        r_eq(r_mul(a, r_add(b, c)), r_add(r_mul(a, b), r_mul(a, c))),
{
    let rd = (a.d * b.d) * (a.d * c.d);
    vstd::arithmetic::mul::lemma_mul_is_distributive_add(a.n, b.n * c.d, c.n * b.d);
    vstd::arithmetic::mul::lemma_mul_is_distributive_add_other_way(
        rd, a.n * (b.n * c.d), a.n * (c.n * b.d));
    vstd::arithmetic::mul::lemma_mul_is_distributive_add_other_way(
        a.d * (b.d * c.d), (a.n * b.n) * (a.d * c.d), (a.n * c.n) * (a.d * b.d));
    assert((a.n * (b.n * c.d)) * rd == ((a.n * b.n) * (a.d * c.d)) * (a.d * (b.d * c.d)))
        by (nonlinear_arith)
        requires
            rd == (a.d * b.d) * (a.d * c.d),
    ;
    assert((a.n * (c.n * b.d)) * rd == ((a.n * c.n) * (a.d * b.d)) * (a.d * (b.d * c.d)))
        by (nonlinear_arith)
        requires
            rd == (a.d * b.d) * (a.d * c.d),
    ;
}

/// A shared leading summand cancels out of a difference of sums.
proof fn lemma_r_add_sub_common(x: Rat, y: Rat, z: Rat)
    ensures
        r_eq(r_sub(r_add(z, x), r_add(z, y)), r_sub(x, y)),
{
    let ld = (z.d * x.d) * (z.d * y.d);
    vstd::arithmetic::mul::lemma_mul_is_distributive_add_other_way(
        z.d * y.d, z.n * x.d, x.n * z.d);
    vstd::arithmetic::mul::lemma_mul_is_distributive_add_other_way(
        z.d * x.d, z.n * y.d, y.n * z.d);
    assert((z.n * x.d) * (z.d * y.d) == (z.n * y.d) * (z.d * x.d)) by (nonlinear_arith);
    vstd::arithmetic::mul::lemma_mul_is_distributive_sub_other_way(
        x.d * y.d,
        (x.n * z.d) * (z.d * y.d),
        (y.n * z.d) * (z.d * x.d),
    );
    assert(((x.n * z.d) * (z.d * y.d)) * (x.d * y.d) == (x.n * y.d) * ld) by (nonlinear_arith)
        requires
            ld == (z.d * x.d) * (z.d * y.d),
    ;
    assert(((y.n * z.d) * (z.d * x.d)) * (x.d * y.d) == (y.n * x.d) * ld) by (nonlinear_arith)
        requires
            ld == (z.d * x.d) * (z.d * y.d),
    ;
    vstd::arithmetic::mul::lemma_mul_is_distributive_sub_other_way(ld, x.n * y.d, y.n * x.d);
}

/// Differences telescope: `(w - v) + (v - u)` has the value `w - u`.
proof fn lemma_r_telescope(u: Rat, v: Rat, w: Rat)
    ensures
        r_eq(r_add(r_sub(w, v), r_sub(v, u)), r_sub(w, u)),
{
    let ld = (w.d * v.d) * (v.d * u.d);
    vstd::arithmetic::mul::lemma_mul_is_distributive_sub_other_way(
        v.d * u.d, w.n * v.d, v.n * w.d);
    vstd::arithmetic::mul::lemma_mul_is_distributive_sub_other_way(
        w.d * v.d, v.n * u.d, u.n * v.d);
    assert((v.n * w.d) * (v.d * u.d) == (v.n * u.d) * (w.d * v.d)) by (nonlinear_arith);
    vstd::arithmetic::mul::lemma_mul_is_distributive_sub_other_way(
        w.d * u.d,
        (w.n * v.d) * (v.d * u.d),
        (u.n * v.d) * (w.d * v.d),
    );
    assert(((w.n * v.d) * (v.d * u.d)) * (w.d * u.d) == (w.n * u.d) * ld) by (nonlinear_arith)
        requires
            ld == (w.d * v.d) * (v.d * u.d),
    ;
    assert(((u.n * v.d) * (w.d * v.d)) * (w.d * u.d) == (u.n * w.d) * ld) by (nonlinear_arith)
        requires
            ld == (w.d * v.d) * (v.d * u.d),
    ;
    vstd::arithmetic::mul::lemma_mul_is_distributive_sub_other_way(ld, w.n * u.d, u.n * w.d);
}

/// Negating a difference swaps its operands.
proof fn lemma_r_neg_sub(u: Rat, w: Rat)
    ensures
        r_eq(r_neg(r_sub(w, u)), r_sub(u, w)),
{
    assert((-(w.n * u.d - u.n * w.d)) * (u.d * w.d) == (u.n * w.d - w.n * u.d) * (w.d * u.d))
        by (nonlinear_arith);
}

/// Rotating an ordered triple does not change its turn: the cross values of
/// `(a, b, c)` and `(b, c, a)` agree as rationals, so both triples carry the
/// same orientation.  Together with antisymmetry this settles the cross
/// value of every ordering of a triple.
pub proof fn lemma_orientation_rotation(a: Point, b: Point, c: Point)
    requires
        point_wf(a),
        point_wf(b),
        point_wf(c),
    ensures
        r_eq(cross_rat(a, b, c), cross_rat(b, c, a)),
        orient_spec(a, b, c) == orient_spec(b, c, a),
{
    let s1 = r_sub(rat(b.y), rat(a.y));
    let s2 = r_sub(rat(c.x), rat(b.x));
    let s3 = r_sub(rat(b.x), rat(a.x));
    let s4 = r_sub(rat(c.y), rat(b.y));
    let t2 = r_sub(rat(a.x), rat(c.x));
    let t4 = r_sub(rat(a.y), rat(c.y));
    lemma_mul_pos(b.y.den as int, a.y.den as int);
    lemma_mul_pos(c.x.den as int, b.x.den as int);
    lemma_mul_pos(b.x.den as int, a.x.den as int);
    lemma_mul_pos(c.y.den as int, b.y.den as int);
    lemma_mul_pos(a.x.den as int, c.x.den as int);
    lemma_mul_pos(a.y.den as int, c.y.den as int);

    // the closing differences are the negated sums of the two others:
    // (c.x - b.x) + (b.x - a.x) telescopes to c.x - a.x, whose negation is
    // a.x - c.x, and alike on the y axis
    lemma_r_telescope(rat(a.x), rat(b.x), rat(c.x));
    lemma_r_neg_congr(r_add(s2, s3), r_sub(rat(c.x), rat(a.x)));
    lemma_r_neg_sub(rat(a.x), rat(c.x));
    lemma_mul_pos(c.x.den as int, a.x.den as int);
    lemma_r_eq_trans(
        r_neg(r_add(s2, s3)),
        r_neg(r_sub(rat(c.x), rat(a.x))),
        r_sub(rat(a.x), rat(c.x)),
    );
    assert(r_eq(t2, r_neg(r_add(s2, s3))));
    lemma_r_telescope(rat(a.y), rat(b.y), rat(c.y));
    lemma_r_neg_congr(r_add(s4, s1), r_sub(rat(c.y), rat(a.y)));
    lemma_r_neg_sub(rat(a.y), rat(c.y));
    lemma_mul_pos(c.y.den as int, a.y.den as int);
    lemma_r_eq_trans(
        r_neg(r_add(s4, s1)),
        r_neg(r_sub(rat(c.y), rat(a.y))),
        r_sub(rat(a.y), rat(c.y)),
    );
    assert(r_eq(t4, r_neg(r_add(s4, s1))));

    let p12 = r_mul(s1, s2);
    let p34 = r_mul(s3, s4);
    let p42 = r_mul(s4, s2);
    let sum23 = r_add(s2, s3);
    let sum41 = r_add(s4, s1);
    let aa = r_add(p42, r_mul(s4, s3));
    let bb = r_add(r_mul(s2, s4), r_mul(s2, s1));

    // s4 * t2 == -(s4*s2 + s4*s3), through the distributive law
    lemma_r_eq_mul(s4, s4, t2, r_neg(sum23));
    lemma_r_mul_neg(s4, sum23);
    lemma_r_mul_distributes(s4, s2, s3);
    lemma_r_neg_congr(r_mul(s4, sum23), aa);
    lemma_mul_pos(s2.d, s3.d);
    lemma_mul_pos(s4.d, s2.d * s3.d);
    lemma_r_eq_trans(r_mul(s4, t2), r_mul(s4, r_neg(sum23)), r_neg(r_mul(s4, sum23)));
    lemma_r_eq_trans(r_mul(s4, t2), r_neg(r_mul(s4, sum23)), r_neg(aa));

    // s2 * t4 == -(s2*s4 + s2*s1), alike
    lemma_r_eq_mul(s2, s2, t4, r_neg(sum41));
    lemma_r_mul_neg(s2, sum41);
    lemma_r_mul_distributes(s2, s4, s1);
    lemma_r_neg_congr(r_mul(s2, sum41), bb);
    lemma_mul_pos(s4.d, s1.d);
    lemma_mul_pos(s2.d, s4.d * s1.d);
    lemma_r_eq_trans(r_mul(s2, t4), r_mul(s2, r_neg(sum41)), r_neg(r_mul(s2, sum41)));
    lemma_r_eq_trans(r_mul(s2, t4), r_neg(r_mul(s2, sum41)), r_neg(bb));

    // the rotated cross is (s2*s4 + s2*s1) - (s4*s2 + s4*s3)
    assert(cross_rat(b, c, a) == r_sub(r_mul(s4, t2), r_mul(s2, t4)));
    lemma_r_eq_sub(r_mul(s4, t2), r_neg(aa), r_mul(s2, t4), r_neg(bb));
    lemma_r_sub_neg_both(aa, bb);
    lemma_mul_pos(s4.d, s2.d);
    lemma_mul_pos(s4.d, s3.d);
    lemma_mul_pos(s4.d * s2.d, s4.d * s3.d);
    lemma_mul_pos(s2.d, s4.d);
    lemma_mul_pos(s2.d, s1.d);
    lemma_mul_pos(s2.d * s4.d, s2.d * s1.d);
    lemma_mul_pos((s4.d * s2.d) * (s4.d * s3.d), (s2.d * s4.d) * (s2.d * s1.d));
    lemma_r_eq_trans(
        cross_rat(b, c, a),
        r_sub(r_neg(aa), r_neg(bb)),
        r_sub(bb, aa),
    );

    // commute the factors and cancel the shared summand
    lemma_r_mul_comm(s2, s4);
    lemma_r_mul_comm(s2, s1);
    lemma_r_mul_comm(s4, s3);
    lemma_r_eq_add(r_mul(s2, s4), p42, r_mul(s2, s1), p12);
    lemma_r_eq_add(p42, p42, r_mul(s4, s3), p34);
    lemma_r_eq_sub(bb, r_add(p42, p12), aa, r_add(p42, p34));
    lemma_r_add_sub_common(p12, p34, p42);
    lemma_mul_pos(s1.d, s2.d);
    lemma_mul_pos(s3.d, s4.d);
    lemma_mul_pos(s4.d * s2.d, s1.d * s2.d);
    lemma_mul_pos(s4.d * s2.d, s3.d * s4.d);
    lemma_mul_pos((s4.d * s2.d) * (s1.d * s2.d), (s4.d * s2.d) * (s3.d * s4.d));
    lemma_r_eq_trans(
        cross_rat(b, c, a),
        r_sub(bb, aa),
        r_sub(r_add(p42, p12), r_add(p42, p34)),
    );
    lemma_r_eq_trans(
        cross_rat(b, c, a),
        r_sub(r_add(p42, p12), r_add(p42, p34)),
        r_sub(p12, p34),
    );
    assert(cross_rat(a, b, c) == r_sub(p12, p34));

    // equal values with positive denominators carry the same label
    lemma_cross_den_pos(a, b, c);
    lemma_cross_den_pos(b, c, a);
    lemma_r_eq_sign(cross_rat(b, c, a), cross_rat(a, b, c));
}

/// TESTABLE LAW: a triangle fan paints exactly the doubled signed area of
/// its own closed outline — clipping the outline into the fan's triangles
/// neither loses nor double-counts any area.
pub proof fn lemma_fan_area_matches_outline(s: Seq<Point>)
    requires
        s.len() >= 3,
        points_wf(s),
    ensures
        r_eq(fan_area2(s), outline_area2(s)),
    decreases s.len(),
{
    if s.len() == 3 {
        let c01 = cross2(s[0], s[1]);
        let c12 = cross2(s[1], s[2]);
        let c20 = cross2(s[2], s[0]);
        let tri = triangle_area2(s[0], s[1], s[2]);
        assert(s.drop_last()[0] == s[0] && s.drop_last()[1] == s[1]);
        assert(fan_area2(s.drop_last()) == r_int(0));
        assert(chain_sum(s.drop_last().drop_last()) == r_int(0));
        assert(chain_sum(s.drop_last()) == r_add(r_int(0), c01));
        assert(chain_sum(s) == r_add(chain_sum(s.drop_last()), c12));
        assert(outline_area2(s) == r_add(chain_sum(s), c20));
        assert(tri == r_add(r_add(c01, c12), c20));
        assert(fan_area2(s) == r_add(r_int(0), tri));

        lemma_cross2_den_pos(s[0], s[1]);
        lemma_cross2_den_pos(s[1], s[2]);
        lemma_cross2_den_pos(s[2], s[0]);
        lemma_mul_pos(c01.d, c12.d);
        lemma_mul_pos(c01.d * c12.d, c20.d);
        lemma_mul_pos(r_add(c01, c12).d, c20.d);

        // the outline's sum is the triangle's, once the leading zero falls
        lemma_r_add_zero_left(c01);
        lemma_r_eq_add(chain_sum(s.drop_last()), c01, c12, c12);
        lemma_r_eq_add(chain_sum(s), r_add(c01, c12), c20, c20);
        lemma_r_add_zero_left(tri);
        lemma_r_eq_trans(fan_area2(s), tri, outline_area2(s));
    } else {
        let s2 = s.drop_last();
        assert(points_wf(s2)) by {
            assert forall|i: int| 0 <= i < s2.len() implies point_wf(#[trigger] s2[i]) by {
                assert(s2[i] == s[i]);
            }
        }
        lemma_fan_area_matches_outline(s2);

        let f = s[0];
        let l = s[s.len() - 2];
        let w = s[s.len() - 1];
        let ca = chain_sum(s2);
        let ea = cross2(l, f);
        let eb = cross2(l, w);
        let ew = cross2(w, f);
        let ep = cross2(f, l);
        let tri = triangle_area2(f, l, w);
        assert(s2[0] == f && s2[s2.len() - 1] == l);
        assert(outline_area2(s2) == r_add(ca, ea));
        assert(chain_sum(s) == r_add(ca, eb));
        assert(outline_area2(s) == r_add(r_add(ca, eb), ew));
        assert(tri == r_add(r_add(ep, eb), ew));
        assert(fan_area2(s) == r_add(fan_area2(s2), tri));

        // denominators stay positive throughout the rearrangement
        lemma_chain_den_pos(s2);
        lemma_cross2_den_pos(l, f);
        lemma_cross2_den_pos(l, w);
        lemma_cross2_den_pos(w, f);
        lemma_cross2_den_pos(f, l);
        lemma_mul_pos(ca.d, ea.d);
        lemma_mul_pos(eb.d, ew.d);
        lemma_mul_pos(ep.d, eb.d * ew.d);
        lemma_mul_pos(ep.d, eb.d);
        lemma_mul_pos(ep.d * eb.d, ew.d);
        lemma_mul_pos(ca.d * ea.d, (ep.d * eb.d) * ew.d);
        lemma_mul_pos(ca.d * ea.d, ep.d * (eb.d * ew.d));
        lemma_mul_pos(ca.d * ea.d, ep.d);
        lemma_mul_pos((ca.d * ea.d) * ep.d, eb.d * ew.d);
        lemma_mul_pos(ea.d, ep.d);
        lemma_mul_pos(ca.d, ea.d * ep.d);
        lemma_mul_pos(ca.d, eb.d * ew.d);

        let x1 = r_add(r_add(ca, ea), tri);
        let x2 = r_add(r_add(ca, ea), r_add(ep, r_add(eb, ew)));
        let x3 = r_add(r_add(r_add(ca, ea), ep), r_add(eb, ew));
        let x4 = r_add(ca, r_add(eb, ew));

        // fan(s) == fan(s2) + tri == (chain(s2) + closing) + tri
        lemma_r_eq_add(fan_area2(s2), r_add(ca, ea), tri, tri);

        // regroup the triangle's terms
        lemma_r_add_assoc(ep, eb, ew);
        lemma_r_eq_add(r_add(ca, ea), r_add(ca, ea), tri, r_add(ep, r_add(eb, ew)));

        // shift the grouping so the cancelling pair meets
        lemma_r_add_assoc(r_add(ca, ea), ep, r_add(eb, ew));

        // (chain + old closing) + reversed closing collapses to the chain
        lemma_r_add_assoc(ca, ea, ep);
        lemma_cross2_antisym(f, l);
        lemma_r_add_neg_cancel(ea, ep);
        lemma_r_add_zero(ca, r_add(ea, ep));
        lemma_r_eq_trans(r_add(r_add(ca, ea), ep), r_add(ca, r_add(ea, ep)), ca);
        lemma_r_eq_add(r_add(r_add(ca, ea), ep), ca, r_add(eb, ew), r_add(eb, ew));

        // and regroup into the new outline's sum
        lemma_r_add_assoc(ca, eb, ew);

        lemma_r_eq_trans(fan_area2(s), x1, x2);
        lemma_r_eq_trans(fan_area2(s), x2, x3);
        lemma_r_eq_trans(fan_area2(s), x3, x4);
        lemma_r_eq_trans(fan_area2(s), x4, outline_area2(s));
    }
}

} // verus!
