//! The ear-clipping tessellator, and the normalize-then-tessellate flow.

use polydraw::frac::Frac;
use polydraw::point::{Orientation, Point};
use polydraw::polygon::{Polygon, Triangles, TrianglesMode};
use polydraw::tesselation::{normalize_polygon, tesselate_polygon};

fn fr(n: i128) -> Frac {
    Frac::from_int(n)
}

fn pt(x: i128, y: i128) -> Point {
    Point { x: fr(x), y: fr(y) }
}

fn ccw(points: Vec<Point>) -> Polygon {
    Polygon { orientation: Orientation::CounterClockwise, points }
}

fn cw(points: Vec<Point>) -> Polygon {
    Polygon { orientation: Orientation::Clockwise, points }
}

/// Doubled signed shoelace area of a closed outline with integer points.
fn doubled_area_outline(points: &[Point]) -> i128 {
    let mut sum: i128 = 0;
    for i in 0..points.len() {
        let p = &points[i];
        let q = &points[(i + 1) % points.len()];
        assert_eq!(p.x.den, 1);
        assert_eq!(q.x.den, 1);
        sum += p.x.num * q.y.num - q.x.num * p.y.num;
    }
    sum
}

/// Doubled signed area painted by a fan batch.
fn doubled_area_fan(batch: &Triangles) -> i128 {
    assert_eq!(batch.mode, TrianglesMode::Fan);
    let v = &batch.vertices;
    let mut sum: i128 = 0;
    for i in 1..v.len() - 1 {
        let tri = [v[0], v[i], v[i + 1]];
        sum += doubled_area_outline(&tri);
    }
    sum
}

fn total_triangles(batches: &[Triangles]) -> usize {
    batches.iter().map(|b| b.vertices.len() - 2).sum()
}

#[test]
fn triangle_becomes_one_fan() {
    let polygon = ccw(vec![pt(0, 0), pt(10, 0), pt(5, 5)]);
    let batches = tesselate_polygon(&polygon).unwrap();
    assert_eq!(batches.len(), 1);
    assert_eq!(batches[0].mode, TrianglesMode::Fan);
    assert_eq!(batches[0].vertices, vec![pt(10, 0), pt(5, 5), pt(0, 0)]);
}

#[test]
fn triangle_with_wrong_winding_aborts() {
    let polygon = cw(vec![pt(0, 0), pt(10, 0), pt(5, 5)]);
    assert!(tesselate_polygon(&polygon).is_err());
}

#[test]
fn convex_square_gives_a_single_four_point_fan() {
    let polygon = ccw(vec![pt(0, 0), pt(10, 0), pt(10, 10), pt(0, 10)]);
    let batches = tesselate_polygon(&polygon).unwrap();
    assert_eq!(batches.len(), 1);
    assert_eq!(batches[0].mode, TrianglesMode::Fan);
    assert_eq!(
        batches[0].vertices,
        vec![pt(10, 0), pt(10, 10), pt(0, 10), pt(0, 0)]
    );
}

#[test]
fn square_with_wrong_winding_aborts() {
    let polygon = cw(vec![pt(0, 0), pt(10, 0), pt(10, 10), pt(0, 10)]);
    assert!(tesselate_polygon(&polygon).is_err());
}

#[test]
fn pentagon_gives_three_triangles_covering_its_area() {
    let points = vec![pt(0, 0), pt(6, 0), pt(8, 4), pt(3, 7), pt(0, 4)];
    let polygon = ccw(points.clone());
    let batches = tesselate_polygon(&polygon).unwrap();
    assert_eq!(total_triangles(&batches), 3);
    let fans: i128 = batches.iter().map(doubled_area_fan).sum();
    assert_eq!(fans, doubled_area_outline(&points));
}

#[test]
fn concave_arrowhead_is_decomposed() {
    let points = vec![pt(0, 0), pt(10, 0), pt(10, 10), pt(5, 3), pt(0, 10)];
    let polygon = ccw(points.clone());
    let batches = tesselate_polygon(&polygon).unwrap();
    assert_eq!(total_triangles(&batches), 3);
    let fans: i128 = batches.iter().map(doubled_area_fan).sum();
    assert_eq!(fans, doubled_area_outline(&points));
}

#[test]
fn figure_eight_normalizes_but_trips_the_valve() {
    let mut polygon = ccw(vec![pt(0, 0), pt(10, 10), pt(10, 0), pt(0, 10)]);
    assert!(normalize_polygon(&mut polygon).is_ok());
    // both lobes are clipped, but the walk joining them through the doubled
    // crossing point is flat: the ring never shrinks to a last triangle and
    // the safety valve aborts the call within its iteration budget
    assert!(tesselate_polygon(&polygon).is_err());
}

#[test]
fn two_lobes_tessellate_once_separated() {
    // the figure-eight lobes as their own outlines both decompose cleanly
    let left = vec![pt(0, 0), pt(5, 5), pt(0, 10)];
    let right = vec![pt(5, 5), pt(10, 0), pt(10, 10)];
    let lobes: i128 = [left.clone(), right.clone()]
        .iter()
        .map(|points| {
            let batches = tesselate_polygon(&ccw(points.clone())).unwrap();
            assert_eq!(total_triangles(&batches), 1);
            batches.iter().map(doubled_area_fan).sum::<i128>()
        })
        .sum();
    assert_eq!(
        lobes,
        doubled_area_outline(&left) + doubled_area_outline(&right)
    );
    assert_eq!(lobes, 100);
}
