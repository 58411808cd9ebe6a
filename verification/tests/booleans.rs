//! Boolean solid operations on axis-aligned cubes: bounding boxes,
//! exact volumes, and the algebraic identities of union, difference and
//! intersection.

use csg::csg::CSG;
use csg::pt3::Pt3;
use csg::triangle::Triangle;

fn pt(x: i64, y: i64, z: i64) -> Pt3 {
    Pt3::new(x, y, z)
}

/// Twelve triangles of an axis-aligned cube, wound counter-clockwise as
/// seen from outside.
fn cube(lo: (i64, i64, i64), hi: (i64, i64, i64)) -> CSG {
    let v = [
        pt(lo.0, lo.1, lo.2),
        pt(hi.0, lo.1, lo.2),
        pt(hi.0, hi.1, lo.2),
        pt(lo.0, hi.1, lo.2),
        pt(lo.0, lo.1, hi.2),
        pt(hi.0, lo.1, hi.2),
        pt(hi.0, hi.1, hi.2),
        pt(lo.0, hi.1, hi.2),
    ];
    let quads = [
        (0, 3, 2, 1),
        (4, 5, 6, 7),
        (0, 1, 5, 4),
        (2, 3, 7, 6),
        (0, 4, 7, 3),
        (1, 2, 6, 5),
    ];
    let mut triangles = Vec::new();
    for (a, b, c, d) in quads {
        triangles.push(Triangle::new(v[a], v[b], v[c]));
        triangles.push(Triangle::new(v[a], v[c], v[d]));
    }
    CSG::from_triangles(triangles)
}

fn cross(a: Pt3, b: Pt3) -> (i128, i128, i128) {
    let (ax, ay, az) = (a.x as i128, a.y as i128, a.z as i128);
    let (bx, by, bz) = (b.x as i128, b.y as i128, b.z as i128);
    (ay * bz - az * by, az * bx - ax * bz, ax * by - ay * bx)
}

fn dot(a: Pt3, b: (i128, i128, i128)) -> i128 {
    a.x as i128 * b.0 + a.y as i128 * b.1 + a.z as i128 * b.2
}

/// Six times the enclosed volume, by the divergence theorem over the
/// fan-triangulated boundary.
fn volume6(c: &CSG) -> i128 {
    let mut sum: i128 = 0;
    for p in &c.polygons {
        let v0 = p.vertices[0];
        for i in 1..p.vertices.len() - 1 {
            sum += dot(v0, cross(p.vertices[i], p.vertices[i + 1]));
        }
    }
    sum
}

fn bbox(c: &CSG) -> ((i64, i64, i64), (i64, i64, i64)) {
    let mut lo = (i64::MAX, i64::MAX, i64::MAX);
    let mut hi = (i64::MIN, i64::MIN, i64::MIN);
    for p in &c.polygons {
        for v in &p.vertices {
            lo = (lo.0.min(v.x), lo.1.min(v.y), lo.2.min(v.z));
            hi = (hi.0.max(v.x), hi.1.max(v.y), hi.2.max(v.z));
        }
    }
    (lo, hi)
}

#[test]
fn union_of_overlapping_cubes_bbox_and_volume() {
    let a = cube((-1, -1, -1), (1, 1, 1));
    let b = cube((0, 0, 0), (2, 2, 2));
    let u = a.union(b);
    assert_eq!(bbox(&u), ((-1, -1, -1), (2, 2, 2)));
    // 8 + 8 - 1 = 15 cubic units
    assert_eq!(volume6(&u), 90);
    assert_eq!(volume6(&u) as f64 / 6.0, 15.0);
}

#[test]
fn union_is_commutative_in_volume() {
    let u1 = cube((-1, -1, -1), (1, 1, 1)).union(cube((0, 0, 0), (2, 2, 2)));
    let u2 = cube((0, 0, 0), (2, 2, 2)).union(cube((-1, -1, -1), (1, 1, 1)));
    assert_eq!(volume6(&u1), volume6(&u2));
    assert_eq!(volume6(&u1), 90);
}

#[test]
fn union_of_disjoint_cubes_adds_volumes() {
    let u = cube((-1, -1, -1), (1, 1, 1)).union(cube((2, 2, 2), (4, 4, 4)));
    assert_eq!(volume6(&u), 96);
    assert_eq!(bbox(&u), ((-1, -1, -1), (4, 4, 4)));
}

#[test]
fn subtract_cube_from_itself_is_empty() {
    // a cube of side one centred at the origin, at grid scale two
    let d = cube((-1, -1, -1), (1, 1, 1)).subtract(cube((-1, -1, -1), (1, 1, 1)));
    assert_eq!(d.polygons.len(), 0);
}

#[test]
fn subtract_unit_cube_from_itself_is_empty() {
    let d = cube((0, 0, 0), (1, 1, 1)).subtract(cube((0, 0, 0), (1, 1, 1)));
    assert_eq!(d.polygons.len(), 0);
}

#[test]
fn intersect_with_itself_preserves_volume() {
    let i = cube((-1, -1, -1), (1, 1, 1)).intersect(cube((-1, -1, -1), (1, 1, 1)));
    assert_eq!(volume6(&i), 48);
}

#[test]
fn intersection_of_overlapping_cubes() {
    let i = cube((-1, -1, -1), (1, 1, 1)).intersect(cube((0, 0, 0), (2, 2, 2)));
    assert_eq!(volume6(&i), 6);
    assert_eq!(bbox(&i), ((0, 0, 0), (1, 1, 1)));
}

#[test]
fn union_absorbs_intersection() {
    let a = cube((-1, -1, -1), (1, 1, 1));
    let i = cube((-1, -1, -1), (1, 1, 1)).intersect(cube((0, 0, 0), (2, 2, 2)));
    let u = a.union(i);
    assert_eq!(volume6(&u), 48);
    assert_eq!(bbox(&u), ((-1, -1, -1), (1, 1, 1)));
}

#[test]
fn subtract_of_overlapping_cubes() {
    let d = cube((-1, -1, -1), (1, 1, 1)).subtract(cube((0, 0, 0), (2, 2, 2)));
    assert_eq!(volume6(&d), 42);
}

#[test]
fn new_solid_is_empty() {
    let c = CSG::new();
    assert_eq!(c.polygons.len(), 0);
    assert_eq!(volume6(&c), 0);
}

#[test]
fn volumes_scale_with_the_grid() {
    for s in [1i64, 2, 10] {
        let u = cube((-s, -s, -s), (s, s, s)).union(cube((0, 0, 0), (2 * s, 2 * s, 2 * s)));
        assert_eq!(volume6(&u), 90 * (s as i128) * (s as i128) * (s as i128));
    }
}
