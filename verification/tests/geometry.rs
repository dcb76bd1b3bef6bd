//! Scalar arithmetic, points and the orientation primitive.

use polydraw::frac::Frac;
use polydraw::point::{dot_product, points_orientation, Orientation, Point};

fn fr(n: i128) -> Frac {
    Frac::from_int(n)
}

fn frq(n: i128, d: i128) -> Frac {
    Frac::build(n, d).unwrap()
}

fn pt(x: i128, y: i128) -> Point {
    Point { x: fr(x), y: fr(y) }
}

fn flip(o: Orientation) -> Orientation {
    match o {
        Orientation::Clockwise => Orientation::CounterClockwise,
        Orientation::CounterClockwise => Orientation::Clockwise,
        Orientation::Colinear => Orientation::Colinear,
    }
}

#[test]
fn frac_reduces_to_lowest_terms() {
    assert_eq!(frq(10, 2), Frac { num: 5, den: 1 });
    assert_eq!(frq(-10, 4), Frac { num: -5, den: 2 });
    assert_eq!(frq(5, -10), Frac { num: -1, den: 2 });
    assert_eq!(frq(0, 7), Frac { num: 0, den: 1 });
}

#[test]
fn frac_build_rejects_out_of_range() {
    // an irreducible fraction with a denominator beyond the coordinate bound
    assert!(Frac::build(1, 65537).is_none());
    assert!(Frac::build(100_000, 1).is_none());
}

#[test]
fn frac_arithmetic_is_exact() {
    let half = frq(1, 2);
    let third = frq(1, 3);
    assert_eq!(half.plus(&third).unwrap(), frq(5, 6));
    assert_eq!(half.minus(&third).unwrap(), frq(1, 6));
    assert_eq!(frq(2, 3).times(&frq(3, 4)).unwrap(), half);
    assert_eq!(half.over(&third).unwrap(), frq(3, 2));
    assert!(half.over(&fr(0)).is_none());
    assert_eq!(fr(3).neg_frac(), fr(-3));
}

#[test]
fn frac_remainder_truncates_like_machine_floats() {
    assert_eq!(fr(7).rem_trunc(&fr(3)).unwrap(), fr(1));
    assert_eq!(fr(-7).rem_trunc(&fr(3)).unwrap(), fr(-1));
    assert_eq!(fr(7).rem_trunc(&fr(-3)).unwrap(), fr(1));
    assert_eq!(frq(15, 2).rem_trunc(&fr(2)).unwrap(), frq(3, 2));
    assert!(fr(7).rem_trunc(&fr(0)).is_none());
}

#[test]
fn frac_comparisons_go_by_value() {
    assert!(frq(10, 2).equal(&fr(5)));
    assert!(frq(1, 3).lt(&frq(1, 2)));
    assert!(frq(1, 2).le(&frq(1, 2)));
    assert!(!frq(1, 2).lt(&frq(1, 2)));
    assert!(frq(-1, 2).lt(&frq(1, 3)));
}

#[test]
fn orientation_of_turns() {
    // with y growing downwards a negative cross value reads counter-clockwise
    assert_eq!(
        points_orientation(&pt(0, 0), &pt(10, 0), &pt(10, 10)),
        Orientation::CounterClockwise
    );
    assert_eq!(
        points_orientation(&pt(10, 10), &pt(10, 0), &pt(0, 0)),
        Orientation::Clockwise
    );
}

#[test]
fn orientation_colinear_iff_exactly_collinear() {
    assert_eq!(
        points_orientation(&pt(0, 0), &pt(5, 5), &pt(10, 10)),
        Orientation::Colinear
    );
    assert_ne!(
        points_orientation(&pt(0, 0), &pt(5, 5), &pt(10, 11)),
        Orientation::Colinear
    );
    // an off-by-one-half perturbation is still detected exactly
    let almost = Point { x: fr(10), y: frq(21, 2) };
    assert_ne!(
        points_orientation(&pt(0, 0), &pt(5, 5), &almost),
        Orientation::Colinear
    );
}

#[test]
fn orientation_antisymmetry() {
    let triples = [
        (pt(0, 0), pt(10, 0), pt(10, 10)),
        (pt(0, 0), pt(5, 5), pt(10, 10)),
        (pt(3, 1), pt(-2, 7), pt(4, -9)),
        (pt(1, 1), pt(2, 2), pt(5, 3)),
    ];
    for (a, b, c) in triples {
        assert_eq!(
            points_orientation(&a, &b, &c),
            flip(points_orientation(&c, &b, &a))
        );
    }
}

#[test]
fn dot_and_distances() {
    assert_eq!(dot_product(&pt(3, 4), &pt(2, 1)).unwrap(), fr(10));
    assert_eq!(pt(3, 4).length_squared().unwrap(), fr(25));
    assert_eq!(pt(1, 2).distance_squared(&pt(4, 6)).unwrap(), fr(25));
    assert_eq!(pt(3, 4).dot(&pt(2, 1)).unwrap(), fr(10));
}

#[test]
fn point_componentwise_arithmetic() {
    let p = pt(6, -4);
    let q = pt(2, 2);
    assert_eq!(p.plus(q).unwrap(), pt(8, -2));
    assert_eq!(p.minus(q).unwrap(), pt(4, -6));
    assert_eq!(p.times(q).unwrap(), pt(12, -8));
    assert_eq!(p.divided(q).unwrap(), pt(3, -2));
    assert_eq!(p.remainder(q).unwrap(), pt(0, 0));
    assert_eq!(pt(7, -7).remainder(pt(3, 3)).unwrap(), pt(1, -1));
    assert!(p.divided(pt(0, 1)).is_none());
    assert_eq!(p.negated(), pt(-6, 4));
}

#[test]
fn point_scalar_arithmetic() {
    let p = pt(6, -4);
    assert_eq!(p.plus_scalar(fr(2)).unwrap(), pt(8, -2));
    assert_eq!(p.minus_scalar(fr(2)).unwrap(), pt(4, -6));
    assert_eq!(p.times_scalar(fr(2)).unwrap(), pt(12, -8));
    assert_eq!(p.divided_scalar(fr(2)).unwrap(), pt(3, -2));
    assert_eq!(pt(7, -7).remainder_scalar(fr(3)).unwrap(), pt(1, -1));
}

#[test]
fn point_equality_by_value() {
    let p = Point { x: frq(10, 2), y: fr(5) };
    assert!(p.equal(&pt(5, 5)));
    assert!(!p.equal(&pt(5, 6)));
    assert_eq!(pt(2, 3).x(), fr(2));
    assert_eq!(pt(2, 3).y(), fr(3));
    assert_eq!(Point::new(fr(2), fr(3)), pt(2, 3));
}

#[test]
fn orientation_labels() {
    assert_eq!(Orientation::Clockwise.display(), "Clockwise");
    assert_eq!(Orientation::CounterClockwise.display(), "CounterClockwise");
    assert_eq!(Orientation::Colinear.display(), "Colinear");
}
