//! The plane-split primitive and the BSP tree transformations.

use csg::bsp_node::BSPNode;
use csg::plane::{Plane, SplitResult};
use csg::polygon::Polygon;
use csg::pt3::Pt3;

fn p3(x: i64, y: i64, z: i64) -> Pt3 {
    Pt3::new(x, y, z)
}

fn poly(verts: &[(i64, i64, i64)]) -> Polygon {
    Polygon::new(verts.iter().map(|&(x, y, z)| p3(x, y, z)).collect())
}

/// The doubled area vector of a polygon: the sum of the cross products
/// around the loop.
fn area_vec(p: &Polygon) -> (i128, i128, i128) {
    let n = p.vertices.len();
    let mut s = (0i128, 0i128, 0i128);
    for i in 0..n {
        let a = p.vertices[i];
        let b = p.vertices[(i + 1) % n];
        s.0 += a.y as i128 * b.z as i128 - a.z as i128 * b.y as i128;
        s.1 += a.z as i128 * b.x as i128 - a.x as i128 * b.z as i128;
        s.2 += a.x as i128 * b.y as i128 - a.y as i128 * b.x as i128;
    }
    s
}

fn verts_of(p: &Polygon) -> Vec<(i64, i64, i64)> {
    p.vertices.iter().map(|v| (v.x, v.y, v.z)).collect()
}

#[test]
fn split_triangle_across_a_plane() {
    // the triangle reaches from x = 0 to x = 2; the plane x = 1 cuts it
    let tri = poly(&[(0, 0, 0), (2, 0, 0), (0, 2, 0)]);
    let plane = Plane::new(p3(1, 0, 0), 1);
    match plane.split_polygon(&tri) {
        SplitResult::Split(Some(front), Some(back)) => {
            // the apex side of the cut is a triangle, the base side a quad
            assert_eq!(verts_of(&front), vec![(1, 0, 0), (2, 0, 0), (1, 1, 0)]);
            assert_eq!(verts_of(&back), vec![(0, 0, 0), (1, 0, 0), (1, 1, 0), (0, 2, 0)]);
            // the two parts share the cut edge on x = 1
            for v in [(1, 0, 0), (1, 1, 0)] {
                assert!(verts_of(&front).contains(&v));
                assert!(verts_of(&back).contains(&v));
            }
            // and together they cover the triangle exactly
            let t = area_vec(&tri);
            let f = area_vec(&front);
            let b = area_vec(&back);
            assert_eq!((f.0 + b.0, f.1 + b.1, f.2 + b.2), t);
        },
        _ => panic!("expected a two-sided split"),
    }
}

#[test]
fn split_routes_whole_polygons_by_side() {
    let plane = Plane::new(p3(1, 0, 0), 1);
    let front_tri = poly(&[(2, 0, 0), (3, 0, 0), (2, 1, 0)]);
    match plane.split_polygon(&front_tri) {
        SplitResult::AllFront(p) => assert_eq!(verts_of(&p), verts_of(&front_tri)),
        _ => panic!("expected the whole polygon in front"),
    }
    let back_tri = poly(&[(0, 0, 0), (1, 0, 0), (0, 1, 0)]);
    match plane.split_polygon(&back_tri) {
        SplitResult::AllBack(p) => assert_eq!(verts_of(&p), verts_of(&back_tri)),
        _ => panic!("expected the whole polygon behind"),
    }
}

#[test]
fn split_routes_coplanar_polygons_by_facing() {
    // a polygon in the plane z = 0, facing +z
    let up = poly(&[(0, 0, 0), (1, 0, 0), (0, 1, 0)]);
    let plane = Plane::new(p3(0, 0, 1), 0);
    match plane.split_polygon(&up) {
        SplitResult::CoplanarFront(p) => assert_eq!(verts_of(&p), verts_of(&up)),
        _ => panic!("expected coplanar front"),
    }
    // the same loop wound the other way faces -z
    let down = poly(&[(0, 1, 0), (1, 0, 0), (0, 0, 0)]);
    match plane.split_polygon(&down) {
        SplitResult::CoplanarBack(p) => assert_eq!(verts_of(&p), verts_of(&down)),
        _ => panic!("expected coplanar back"),
    }
}

#[test]
fn split_quad_into_two_quads() {
    let quad = poly(&[(0, 0, 0), (4, 0, 0), (4, 2, 0), (0, 2, 0)]);
    let plane = Plane::new(p3(1, 0, 0), 2);
    match plane.split_polygon(&quad) {
        SplitResult::Split(Some(front), Some(back)) => {
            assert_eq!(verts_of(&front), vec![(2, 0, 0), (4, 0, 0), (4, 2, 0), (2, 2, 0)]);
            assert_eq!(verts_of(&back), vec![(0, 0, 0), (2, 0, 0), (2, 2, 0), (0, 2, 0)]);
        },
        _ => panic!("expected a two-sided split"),
    }
}

#[test]
fn invert_twice_restores_the_tree() {
    let polys = vec![
        poly(&[(0, 0, 0), (2, 0, 0), (0, 2, 0)]),
        poly(&[(0, 0, 1), (2, 0, 1), (0, 2, 1)]),
        poly(&[(0, 0, -1), (0, 2, -1), (2, 0, -1)]),
    ];
    let mut node = BSPNode::new(Some(polys));
    let before = node.all_polygons();
    node.invert();
    node.invert();
    let after = node.all_polygons();
    assert_eq!(before, after);
    assert_eq!(before.len(), 3);
}

#[test]
fn invert_flips_winding_and_plane() {
    let tri = poly(&[(0, 0, 0), (2, 0, 0), (0, 2, 0)]);
    let plane_w = tri.plane.w;
    let normal = tri.plane.normal;
    let mut node = BSPNode::new(Some(vec![tri]));
    node.invert();
    let flipped = node.all_polygons();
    assert_eq!(flipped.len(), 1);
    assert_eq!(verts_of(&flipped[0]), vec![(0, 2, 0), (2, 0, 0), (0, 0, 0)]);
    assert_eq!(flipped[0].plane.w, -plane_w);
    assert_eq!(flipped[0].plane.normal, Pt3::new(-normal.x, -normal.y, -normal.z));
}

#[test]
fn empty_tree_clips_nothing() {
    let node = BSPNode::new(None);
    let polys = vec![poly(&[(0, 0, 0), (2, 0, 0), (0, 2, 0)])];
    let kept = node.clip_polygons(polys);
    assert_eq!(kept.len(), 1);
    assert_eq!(verts_of(&kept[0]), vec![(0, 0, 0), (2, 0, 0), (0, 2, 0)]);
}

#[test]
fn build_keeps_coplanar_polygons_on_one_node() {
    // two triangles in the same plane end up on the same node
    let polys = vec![
        poly(&[(0, 0, 0), (2, 0, 0), (0, 2, 0)]),
        poly(&[(4, 0, 0), (6, 0, 0), (4, 2, 0)]),
    ];
    let node = BSPNode::new(Some(polys));
    let flat = node.all_polygons();
    assert_eq!(flat.len(), 2);
}

#[test]
fn clip_removes_the_interior_of_a_solid() {
    // a triangle far outside the other solid survives clipping whole
    let tree = BSPNode::new(Some(vec![poly(&[(0, 0, 0), (2, 0, 0), (0, 2, 0)])]));
    let outside = vec![poly(&[(10, 10, 10), (12, 10, 10), (10, 12, 10)])];
    let kept = tree.clip_polygons(outside);
    assert_eq!(kept.len(), 1);
}

#[test]
fn polygon_flip_reverses_and_keeps_vertices() {
    let mut p = poly(&[(0, 0, 0), (2, 0, 0), (0, 2, 0)]);
    let w = p.plane.w;
    p.flip();
    assert_eq!(verts_of(&p), vec![(0, 2, 0), (2, 0, 0), (0, 0, 0)]);
    assert_eq!(p.plane.w, -w);
    p.flip();
    assert_eq!(verts_of(&p), vec![(0, 0, 0), (2, 0, 0), (0, 2, 0)]);
}
