//! Bounds, rectangles, lines and curves.

use polydraw::bounds::Bounds;
use polydraw::curves::QuadraticCurve;
use polydraw::frac::Frac;
use polydraw::line::{
    distance_to_line_squared, do_lines_intersect, get_point_on_line_projection, line_side,
    point_on_line, Line,
};
use polydraw::point::Point;

fn fr(n: i128) -> Frac {
    Frac::from_int(n)
}

fn frq(n: i128, d: i128) -> Frac {
    Frac::build(n, d).unwrap()
}

fn pt(x: i128, y: i128) -> Point {
    Point { x: fr(x), y: fr(y) }
}

#[test]
fn bounds_new_safe_sorts_corners() {
    let bd = Bounds::new_safe(fr(10), fr(2), fr(-3), fr(8));
    assert_eq!(bd.l, fr(-3));
    assert_eq!(bd.t, fr(2));
    assert_eq!(bd.r, fr(10));
    assert_eq!(bd.b, fr(8));
}

#[test]
fn bounds_contains_point_includes_borders() {
    let bd = Bounds::new(fr(0), fr(0), fr(10), fr(10));
    assert!(bd.contains_point(&pt(0, 0)));
    assert!(bd.contains_point(&pt(10, 10)));
    assert!(bd.contains_point(&pt(5, 7)));
    assert!(!bd.contains_point(&pt(-1, 5)));
    assert!(!bd.contains_point(&pt(5, 11)));
}

#[test]
fn bounds_containing_point_extends_one_side() {
    let bd = Bounds::new(fr(0), fr(0), fr(10), fr(10));
    let wider = bd.containing_point(&pt(12, 5));
    assert_eq!(wider.r, fr(12));
    assert_eq!(wider.l, fr(0));
    let taller = bd.containing_point(&pt(5, -4));
    assert_eq!(taller.t, fr(-4));
    assert_eq!(taller.b, fr(10));
    assert!(wider.contains_point(&pt(12, 5)));
}

#[test]
fn bounds_containing_bounds_covers_both() {
    let bd = Bounds::new(fr(0), fr(0), fr(10), fr(10));
    let other = Bounds::new(fr(-5), fr(2), fr(7), fr(12));
    let joined = bd.containing_bounds(&other);
    assert_eq!(joined.l, fr(-5));
    assert_eq!(joined.t, fr(0));
    assert_eq!(joined.r, fr(10));
    assert_eq!(joined.b, fr(12));
    assert!(joined.contains_bounds(&bd));
    assert!(joined.contains_bounds(&other));
}

#[test]
fn bounds_overlap_is_shared_point() {
    let bd = Bounds::new(fr(0), fr(0), fr(10), fr(10));
    assert!(bd.intersects_bounds(&Bounds::new(fr(5), fr(5), fr(15), fr(15))));
    // touching along a border counts as overlap
    assert!(bd.intersects_bounds(&Bounds::new(fr(10), fr(0), fr(30), fr(10))));
    // disjoint boxes do not
    assert!(!bd.intersects_bounds(&Bounds::new(fr(20), fr(0), fr(30), fr(10))));
    assert!(!bd.intersects_bounds(&Bounds::new(fr(0), fr(-30), fr(10), fr(-1))));
    // one box containing the other does
    assert!(bd.intersects_bounds(&Bounds::new(fr(-30), fr(-30), fr(30), fr(30))));
}

#[test]
fn rect_bounds_round_trip() {
    let bd = Bounds::new(fr(1), fr(2), fr(11), fr(22));
    let rc = bd.to_rect().unwrap();
    assert_eq!(rc.x, fr(1));
    assert_eq!(rc.y, fr(2));
    assert_eq!(rc.w, fr(10));
    assert_eq!(rc.h, fr(20));
    let back = rc.to_bounds().unwrap();
    assert_eq!(back, bd);
}

#[test]
fn line_accessors_and_degeneracy() {
    let l = Line::new(pt(1, 2), pt(3, 4));
    assert_eq!(l.a(), pt(1, 2));
    assert_eq!(l.b(), pt(3, 4));
    assert!(!l.is_point());
    assert!(Line::new(pt(1, 2), pt(1, 2)).is_point());
}

#[test]
fn line_point_on_interpolates() {
    let l = Line::new(pt(0, 0), pt(10, 20));
    assert_eq!(l.point_on(frq(1, 2)).unwrap(), pt(5, 10));
    assert_eq!(l.point_on(fr(0)).unwrap(), pt(0, 0));
    assert_eq!(l.point_on(fr(1)).unwrap(), pt(10, 20));
    assert_eq!(point_on_line(&pt(0, 0), &pt(10, 20), &frq(1, 4)).unwrap(),
        Point { x: frq(5, 2), y: fr(5) });
}

#[test]
fn line_bounds_sort_endpoints() {
    let bd = Line::new(pt(10, 2), pt(-3, 8)).get_bounds();
    assert_eq!(bd.l, fr(-3));
    assert_eq!(bd.t, fr(2));
    assert_eq!(bd.r, fr(10));
    assert_eq!(bd.b, fr(8));
}

#[test]
fn line_side_signs() {
    assert_eq!(line_side(pt(0, 0), pt(10, 0), pt(5, 5)).unwrap(), fr(50));
    assert_eq!(line_side(pt(0, 0), pt(10, 0), pt(5, -5)).unwrap(), fr(-50));
    assert_eq!(line_side(pt(0, 0), pt(10, 0), pt(5, 0)).unwrap(), fr(0));
}

#[test]
fn projection_clamps_into_unit_interval() {
    let a = pt(0, 0);
    let b = pt(10, 0);
    assert_eq!(get_point_on_line_projection(a, b, pt(5, 3)).unwrap(), frq(1, 2));
    assert_eq!(get_point_on_line_projection(a, b, pt(-5, 3)).unwrap(), fr(0));
    assert_eq!(get_point_on_line_projection(a, b, pt(15, 3)).unwrap(), fr(1));
}

#[test]
fn distance_to_segment_squared() {
    let a = pt(0, 0);
    let b = pt(10, 0);
    assert_eq!(distance_to_line_squared(a, b, pt(5, 3)).unwrap(), fr(9));
    assert_eq!(distance_to_line_squared(a, b, pt(-4, 3)).unwrap(), fr(25));
    assert_eq!(distance_to_line_squared(a, b, pt(13, 4)).unwrap(), fr(25));
    // zero-length segments fall back to point-to-point distance
    assert_eq!(distance_to_line_squared(a, a, pt(3, 4)).unwrap(), fr(25));
}

#[test]
fn lines_straddle_test() {
    // a true crossing straddles on both sides
    assert!(do_lines_intersect(&pt(0, 0), &pt(10, 10), &pt(10, 0), &pt(0, 10)));
    // disjoint parallels do not
    assert!(!do_lines_intersect(&pt(0, 0), &pt(10, 0), &pt(0, 5), &pt(10, 5)));
    // a collinear touch still straddles; the caller must tell it apart
    assert!(do_lines_intersect(&pt(0, 0), &pt(10, 0), &pt(5, 0), &pt(5, 5)));
}

#[test]
fn curve_endpoints_and_midpoint() {
    let c = QuadraticCurve { a: pt(0, 0), cp: pt(5, 10), b: pt(10, 0) };
    assert_eq!(c.get_x(fr(0)).unwrap(), fr(0));
    assert_eq!(c.get_x(fr(1)).unwrap(), fr(10));
    assert_eq!(c.get_y(fr(0)).unwrap(), fr(0));
    assert_eq!(c.get_y(fr(1)).unwrap(), fr(0));
    assert_eq!(c.get_p(frq(1, 2)).unwrap(), pt(5, 5));
    assert_eq!(c.get_p(frq(1, 4)).unwrap(),
        Point { x: frq(5, 2), y: frq(15, 4) });
}

#[test]
fn curve_bounds_cover_the_arch() {
    let c = QuadraticCurve { a: pt(0, 0), cp: pt(5, 10), b: pt(10, 0) };
    let bd = c.get_bounds();
    // the hull box of the three control points covers the whole curve
    assert_eq!(bd.l, fr(0));
    assert_eq!(bd.r, fr(10));
    assert_eq!(bd.t, fr(0));
    assert_eq!(bd.b, fr(10));
}

#[test]
fn curve_extreme_gives_the_tight_extent() {
    let c = QuadraticCurve { a: pt(0, 0), cp: pt(5, 10), b: pt(10, 0) };
    // the y axis is extremal at the midpoint, where the curve reaches 5
    let ty = c.extreme_param(false).unwrap();
    assert_eq!(ty, frq(1, 2));
    assert_eq!(c.get_y(ty).unwrap(), fr(5));
    // the x axis grows monotonically: no interior extreme
    assert!(c.extreme_param(true).is_none());
}

#[test]
fn projection_onto_degenerate_segment_clamps_to_one() {
    assert_eq!(get_point_on_line_projection(pt(3, 3), pt(3, 3), pt(7, 1)).unwrap(), fr(1));
}

#[test]
fn integer_division_and_remainder_always_land() {
    assert_eq!(fr(7).over(&fr(2)).unwrap(), frq(7, 2));
    assert_eq!(fr(-9).over(&fr(3)).unwrap(), fr(-3));
    assert_eq!(fr(-9).rem_trunc(&fr(4)).unwrap(), fr(-1));
}
