//! The ear-clipping triangulator: complete triangulations, exact areas,
//! the projected 3-D entry point, and the inputs on which clipping
//! stalls.

use csg::ear_clip::{leftmost_is_ccw, triangulate2d, triangulate3d};
use csg::pt2::Pt2;
use csg::pt3::Pt3;

fn p2(x: i64, y: i64) -> Pt2 {
    Pt2::new(x, y)
}

fn p3(x: i64, y: i64, z: i64) -> Pt3 {
    Pt3::new(x, y, z)
}

/// Twice the signed area of the polygon, by the shoelace formula.
fn area2_of(pts: &[Pt2]) -> i128 {
    let n = pts.len();
    let mut s: i128 = 0;
    for i in 0..n {
        let a = pts[i];
        let b = pts[(i + 1) % n];
        s += a.x as i128 * b.y as i128 - b.x as i128 * a.y as i128;
    }
    s
}

/// Twice the signed areas of the triangles named by index triples.
fn tri_area2_sum(tris: &[usize], pts: &[Pt2]) -> i128 {
    let mut s: i128 = 0;
    for t in tris.chunks(3) {
        let (a, b, c) = (pts[t[0]], pts[t[1]], pts[t[2]]);
        s += (b.x - a.x) as i128 * (c.y - a.y) as i128
            - (c.x - a.x) as i128 * (b.y - a.y) as i128;
    }
    s
}

fn check_complete(pts: Vec<Pt2>) {
    let n = pts.len();
    let tris = triangulate2d(&pts);
    assert_eq!(tris.len(), (n - 2) * 3);
    for &ix in &tris {
        assert!(ix < n);
    }
    assert_eq!(tri_area2_sum(&tris, &pts), area2_of(&pts));
}

#[test]
fn unit_square_two_triangles_area_one() {
    let pts = vec![p2(0, 0), p2(1, 0), p2(1, 1), p2(0, 1)];
    let tris = triangulate2d(&pts);
    assert_eq!(tris, vec![3, 0, 1, 3, 1, 2]);
    assert_eq!(tris.len() / 3, 2);
    assert_eq!(tri_area2_sum(&tris, &pts), 2);
    assert_eq!(tri_area2_sum(&tris, &pts) as f64 / 2.0, 1.0);
}

#[test]
fn l_shape_complete() {
    check_complete(vec![p2(0, 0), p2(2, 0), p2(2, 1), p2(1, 1), p2(1, 2), p2(0, 2)]);
}

#[test]
fn pentagon_complete() {
    check_complete(vec![p2(0, 0), p2(2, 0), p2(3, 2), p2(1, 4), p2(-1, 2)]);
}

#[test]
fn star_complete() {
    check_complete(vec![
        p2(0, 0),
        p2(10, 2),
        p2(20, 0),
        p2(14, 8),
        p2(20, 14),
        p2(10, 10),
        p2(0, 14),
        p2(6, 8),
    ]);
}

#[test]
fn concave_arrow_complete() {
    check_complete(vec![p2(0, 0), p2(4, 0), p2(4, 4), p2(2, 1), p2(0, 4)]);
}

#[test]
fn large_coordinates_complete() {
    check_complete(vec![
        p2(0, 0),
        p2(1_000_000, 0),
        p2(1_000_000, 1_000_000),
        p2(0, 1_000_000),
    ]);
}

#[test]
fn partial_result_on_self_intersecting_loop() {
    // a self-intersecting loop: one ear is clipped, then no ear remains
    let pts = vec![p2(4, 0), p2(1, 4), p2(2, 1), p2(5, 4)];
    let tris = triangulate2d(&pts);
    assert_eq!(tris, vec![0, 1, 2]);
}

#[test]
fn leftmost_check_accepts_counter_clockwise() {
    let pts = vec![p2(0, 0), p2(1, 0), p2(1, 1), p2(0, 1)];
    assert!(leftmost_is_ccw(&pts));
}

#[test]
fn leftmost_check_rejects_clockwise() {
    let pts = vec![p2(0, 0), p2(0, 1), p2(1, 1), p2(1, 0)];
    assert!(!leftmost_is_ccw(&pts));
}

#[test]
fn square_in_space_toward_positive_z() {
    let pts = vec![p3(0, 0, 0), p3(1, 0, 0), p3(1, 1, 0), p3(0, 1, 0)];
    let tris = triangulate3d(&pts, p3(0, 0, 1)).unwrap();
    assert_eq!(tris, vec![3, 0, 1, 3, 1, 2]);
}

#[test]
fn square_in_space_toward_negative_z() {
    // the same square wound the other way, seen from below
    let pts = vec![p3(0, 0, 0), p3(0, 1, 0), p3(1, 1, 0), p3(1, 0, 0)];
    let tris = triangulate3d(&pts, p3(0, 0, -1)).unwrap();
    assert_eq!(tris.len(), 6);
    for &ix in &tris {
        assert!(ix < 4);
    }
}

#[test]
fn square_in_space_toward_positive_x() {
    let pts = vec![p3(5, 0, 0), p3(5, 1, 0), p3(5, 1, 1), p3(5, 0, 1)];
    let tris = triangulate3d(&pts, p3(1, 0, 0)).unwrap();
    assert_eq!(tris.len(), 6);
}

#[test]
fn pentagon_in_space_toward_negative_y() {
    let pts = vec![p3(0, 3, 0), p3(2, 3, 0), p3(3, 3, 2), p3(1, 3, 4), p3(-1, 3, 2)];
    let tris = triangulate3d(&pts, p3(0, -1, 0)).unwrap();
    assert_eq!(tris.len(), 9);
}

#[test]
fn stalls_on_self_intersecting_loop_in_space() {
    let pts = vec![p3(4, 0, 0), p3(1, 4, 0), p3(2, 1, 0), p3(5, 4, 0)];
    assert!(triangulate3d(&pts, p3(0, 0, 1)).is_none());
}
