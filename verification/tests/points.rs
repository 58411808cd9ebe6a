//! The grid-point primitives, planes, polygons and triangle conversion.

use csg::csg::CSG;
use csg::plane::Plane;
use csg::polygon::Polygon;
use csg::pt3::Pt3;
use csg::triangle::Triangle;

fn p3(x: i64, y: i64, z: i64) -> Pt3 {
    Pt3::new(x, y, z)
}

#[test]
fn point_arithmetic_is_exact() {
    let a = p3(1, 2, 3);
    let b = p3(-4, 5, -6);
    assert_eq!(a.add(b), p3(-3, 7, -3));
    assert_eq!(a.sub(b), p3(5, -3, 9));
    assert_eq!(b.neg(), p3(4, -5, 6));
    assert_eq!(a.dot(b), 1 * -4 + 2 * 5 + 3 * -6);
    // (1,2,3) x (-4,5,-6) = (-27, -6, 13)
    assert_eq!(a.cross(b), p3(-27, -6, 13));
}

#[test]
fn plane_through_three_points() {
    let pl = Plane::from_points(p3(0, 0, 0), p3(1, 0, 0), p3(0, 1, 0));
    assert_eq!(pl.normal, p3(0, 0, 1));
    assert_eq!(pl.w, 0);
    let pl2 = Plane::from_points(p3(0, 0, 5), p3(1, 0, 5), p3(0, 1, 5));
    assert_eq!(pl2.normal, p3(0, 0, 1));
    assert_eq!(pl2.w, 5);
}

#[test]
fn plane_flip_negates_normal_and_offset() {
    let mut pl = Plane::from_points(p3(0, 0, 5), p3(1, 0, 5), p3(0, 1, 5));
    pl.flip();
    assert_eq!(pl.normal, p3(0, 0, -1));
    assert_eq!(pl.w, -5);
}

#[test]
fn polygon_caches_its_plane() {
    let p = Polygon::new(vec![p3(0, 0, 2), p3(3, 0, 2), p3(0, 3, 2), p3(-1, -1, 2)]);
    assert_eq!(p.plane.normal, p3(0, 0, 9));
    assert_eq!(p.plane.w, 18);
    assert_eq!(p.vertices.len(), 4);
}

#[test]
fn triangle_normal_and_translate() {
    let mut t = Triangle::new(p3(0, 0, 0), p3(2, 0, 0), p3(0, 2, 0));
    assert_eq!(t.normal(), p3(0, 0, 4));
    t.translate(p3(1, -1, 5));
    assert_eq!(t.a, p3(1, -1, 5));
    assert_eq!(t.b, p3(3, -1, 5));
    assert_eq!(t.c, p3(1, 1, 5));
    assert_eq!(t.normal(), p3(0, 0, 4));
}

#[test]
fn triangles_round_trip_through_a_solid() {
    let tris = vec![
        Triangle::new(p3(0, 0, 0), p3(2, 0, 0), p3(0, 2, 0)),
        Triangle::new(p3(0, 0, 1), p3(2, 0, 1), p3(0, 2, 1)),
    ];
    let solid = CSG::from_triangles(tris.clone());
    assert_eq!(solid.polygons.len(), 2);
    let back = solid.into_triangles();
    assert_eq!(back, tris);
}

#[test]
fn solids_clone_exactly() {
    let solid = CSG::from_triangles(vec![
        Triangle::new(p3(0, 0, 0), p3(2, 0, 0), p3(0, 2, 0)),
        Triangle::new(p3(0, 0, 1), p3(2, 0, 1), p3(0, 2, 1)),
    ]);
    let copy = solid.clone();
    assert_eq!(copy, solid);
}

#[test]
fn fan_splits_a_quad_into_two_triangles() {
    let quad = Polygon::new(vec![p3(0, 0, 0), p3(2, 0, 0), p3(2, 2, 0), p3(0, 2, 0)]);
    let solid = CSG { polygons: vec![quad] };
    let tris = solid.into_triangles();
    assert_eq!(
        tris,
        vec![
            Triangle::new(p3(0, 0, 0), p3(2, 0, 0), p3(2, 2, 0)),
            Triangle::new(p3(0, 0, 0), p3(2, 2, 0), p3(0, 2, 0)),
        ]
    );
}
