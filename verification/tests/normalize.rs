//! The polygon normalizer.

use polydraw::frac::Frac;
use polydraw::point::{Orientation, Point};
use polydraw::polygon::Polygon;
use polydraw::tesselation::{get_line_intersection_point, normalize_polygon};

fn fr(n: i128) -> Frac {
    Frac::from_int(n)
}

fn pt(x: i128, y: i128) -> Point {
    Point { x: fr(x), y: fr(y) }
}

fn outline(points: Vec<Point>) -> Polygon {
    Polygon { orientation: Orientation::CounterClockwise, points }
}

#[test]
fn crossing_point_of_diagonals() {
    let r = get_line_intersection_point(pt(0, 0), pt(10, 10), pt(10, 0), pt(0, 10));
    assert_eq!(r.unwrap().unwrap(), pt(5, 5));
}

#[test]
fn touching_segments_do_not_cross() {
    // shared endpoint
    assert_eq!(
        get_line_intersection_point(pt(0, 0), pt(10, 0), pt(10, 0), pt(10, 10)).unwrap(),
        None
    );
    // a T junction touches but does not cross
    assert_eq!(
        get_line_intersection_point(pt(0, 0), pt(10, 0), pt(5, 0), pt(5, 10)).unwrap(),
        None
    );
    // parallels never meet
    assert_eq!(
        get_line_intersection_point(pt(0, 0), pt(10, 0), pt(0, 5), pt(10, 5)).unwrap(),
        None
    );
    // crossing beyond the segments' ends does not count
    assert_eq!(
        get_line_intersection_point(pt(0, 0), pt(1, 1), pt(10, 0), pt(0, 10)).unwrap(),
        None
    );
}

#[test]
fn unrepresentable_crossing_point_is_reported() {
    let r = get_line_intersection_point(pt(0, 0), pt(30000, 29999), pt(0, 2), pt(30011, 0));
    assert!(r.is_err());
}

#[test]
fn figure_eight_splits_at_the_crossing() {
    let mut polygon = outline(vec![pt(0, 0), pt(10, 10), pt(10, 0), pt(0, 10)]);
    assert!(normalize_polygon(&mut polygon).is_ok());
    assert_eq!(
        polygon.points,
        vec![pt(0, 0), pt(5, 5), pt(10, 0), pt(10, 10), pt(5, 5), pt(0, 10)]
    );
}

#[test]
fn normalization_is_idempotent() {
    let mut polygon = outline(vec![pt(0, 0), pt(10, 10), pt(10, 0), pt(0, 10)]);
    assert!(normalize_polygon(&mut polygon).is_ok());
    let once = polygon.points.clone();
    assert!(normalize_polygon(&mut polygon).is_ok());
    assert_eq!(polygon.points, once);
}

#[test]
fn simple_outline_is_untouched() {
    let square = vec![pt(0, 0), pt(10, 0), pt(10, 10), pt(0, 10)];
    let mut polygon = outline(square.clone());
    assert!(normalize_polygon(&mut polygon).is_ok());
    assert_eq!(polygon.points, square);
}

#[test]
fn tiny_outline_is_untouched() {
    let triangle = vec![pt(0, 0), pt(10, 0), pt(5, 5)];
    let mut polygon = outline(triangle.clone());
    assert!(normalize_polygon(&mut polygon).is_ok());
    assert_eq!(polygon.points, triangle);
}

#[test]
fn unrepresentable_crossing_aborts_and_leaves_input() {
    let points = vec![pt(0, 0), pt(30000, 29999), pt(0, 2), pt(30011, 0)];
    let mut polygon = outline(points.clone());
    assert!(normalize_polygon(&mut polygon).is_err());
    assert_eq!(polygon.points, points);
}
