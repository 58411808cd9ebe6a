//! Solids as flat polygon soups, and the three boolean operators that
//! combine them.  Each operator converts both operands into BSP trees,
//! applies a fixed sequence of invert/clip/merge steps, and flattens the
//! first tree back into a polygon list.

use crate::bsp_node::{
    build_fresh_v, build_v, clip_tree_v, clone_polys, flat_v, invert_v, polys_v, BSPNode,
};
use crate::polygon::{poly_from_verts, poly_wf, Polygon, PolyV};
use crate::pt3::{pt_in_bounds, Pt3};
use crate::triangle::Triangle;
use vstd::prelude::*;

verus! {

/// A solid: a flat, ordered polygon soup.
#[derive(Debug, PartialEq)]
pub struct CSG {
    pub polygons: Vec<Polygon>,
}

impl View for CSG {
    type V = Seq<PolyV>;

    open spec fn view(&self) -> Seq<PolyV> {
        polys_v(self.polygons@)
    }
}

/// Every polygon of the solid is well formed.
pub open spec fn csg_wf(c: CSG) -> bool {
    forall|i: int| 0 <= i < c.polygons@.len() ==> poly_wf(#[trigger] c.polygons@[i]@)
}

/// The polygon soup of a triangle list: one three-vertex polygon per
/// triangle, in order.
pub open spec fn tris_to_polys(ts: Seq<Triangle>) -> Seq<PolyV> {
    ts.map_values(|t: Triangle| poly_from_verts(seq![t.a, t.b, t.c]))
}

/// The fan triangles of one vertex loop, over the first `i` fan edges:
/// triangles `(v0, v[k-1], v[k])` for `k` up to `i`.
pub open spec fn fan_to(vs: Seq<Pt3>, i: int) -> Seq<Triangle>
    decreases i,
{
    if i <= 1 {
        Seq::empty()
    } else {
        fan_to(vs, i - 1) + seq![Triangle { a: vs[0], b: vs[i - 1], c: vs[i] }]
    }
}

/// The fan triangles of the first `k` polygons.
pub open spec fn fan_all(ps: Seq<PolyV>, k: int) -> Seq<Triangle>
    decreases k,
{
    if k <= 0 {
        Seq::empty()
    } else {
        fan_all(ps, k - 1) + fan_to(ps[k - 1].verts, ps[k - 1].verts.len() - 1)
    }
}

/// The polygon soup of the union of the solids `a` and `b`: what is of
/// `a` outside `b`, what is of `b` outside `a`, and their shared boundary
/// once, merged into one tree.
pub open spec fn union_v(a: Seq<PolyV>, b: Seq<PolyV>) -> Seq<PolyV> {
    let ta = build_fresh_v(a);
    let tb = build_fresh_v(b);
    let ta1 = clip_tree_v(ta, tb);
    let tb1 = clip_tree_v(tb, ta1);
    let tb2 = invert_v(tb1);
    let tb3 = clip_tree_v(tb2, ta1);
    let tb4 = invert_v(tb3);
    let ta2 = build_v(ta1, flat_v(tb4));
    flat_v(ta2)
}

/// The polygon soup of the difference `a` minus `b`.
pub open spec fn subtract_v(a: Seq<PolyV>, b: Seq<PolyV>) -> Seq<PolyV> {
    let ta = build_fresh_v(a);
    let tb = build_fresh_v(b);
    let ta1 = invert_v(ta);
    let ta2 = clip_tree_v(ta1, tb);
    let tb1 = clip_tree_v(tb, ta2);
    let tb2 = invert_v(tb1);
    let tb3 = clip_tree_v(tb2, ta2);
    let tb4 = invert_v(tb3);
    let ta3 = build_v(ta2, flat_v(tb4));
    let ta4 = invert_v(ta3);
    flat_v(ta4)
}

/// The polygon soup of the intersection of `a` and `b`.
pub open spec fn intersect_v(a: Seq<PolyV>, b: Seq<PolyV>) -> Seq<PolyV> {
    let ta = build_fresh_v(a);
    let tb = build_fresh_v(b);
    let ta1 = invert_v(ta);
    let tb1 = clip_tree_v(tb, ta1);
    let tb2 = invert_v(tb1);
    let ta2 = clip_tree_v(ta1, tb2);
    let tb3 = clip_tree_v(tb2, ta2);
    let ta3 = build_v(ta2, flat_v(tb3));
    let ta4 = invert_v(ta3);
    flat_v(ta4)
}

impl Clone for CSG {
    /// An exact copy: the view is unchanged.
    fn clone(&self) -> (r: Self)
        ensures
            r@ == self@,
    {
        let r = CSG { polygons: clone_polys(&self.polygons) };
        proof {
            assert(r@ =~= self@);
        }
        r
    }
}

impl CSG {
    /// The empty solid.
    pub fn new() -> (c: CSG)
        ensures
            c@ == Seq::<PolyV>::empty(),
            csg_wf(c),
    {
        let c = CSG { polygons: Vec::new() };
        proof {
            assert(c@ =~= Seq::<PolyV>::empty());
        }
        c
    }

    /// Wraps a triangle list as a solid, one polygon per triangle.
    pub fn from_triangles(triangles: Vec<Triangle>) -> (c: CSG)
        requires
            forall|i: int|
                0 <= i < triangles@.len() ==> pt_in_bounds(#[trigger] triangles@[i].a)
                    && pt_in_bounds(triangles@[i].b) && pt_in_bounds(triangles@[i].c),
        ensures
            c@ == tris_to_polys(triangles@),
            csg_wf(c),
    {
        let mut polygons: Vec<Polygon> = Vec::new();
        let mut i: usize = 0;
        while i < triangles.len()
            invariant
                forall|k: int|
                    0 <= k < triangles@.len() ==> pt_in_bounds(#[trigger] triangles@[k].a)
                        && pt_in_bounds(triangles@[k].b) && pt_in_bounds(triangles@[k].c),
                i <= triangles@.len(),
                polys_v(polygons@) == tris_to_polys(triangles@.take(i as int)),
                forall|k: int| 0 <= k < polygons@.len() ==> poly_wf(#[trigger] polygons@[k]@),
            decreases triangles@.len() - i,
        {
            let t = triangles[i];
            let mut vertices: Vec<Pt3> = Vec::new();
            vertices.push(t.a);
            vertices.push(t.b);
            vertices.push(t.c);
            proof {
                assert(vertices@ =~= seq![t.a, t.b, t.c]);
            }
            let ghost prev = polys_v(polygons@);
            let polygon = Polygon::new(vertices);
            proof {
                assert(polygon@ == poly_from_verts(seq![t.a, t.b, t.c]));
            }
            polygons.push(polygon);
            proof {
                assert(polys_v(polygons@) =~= prev + seq![polygon@]);
                assert(triangles@.take(i + 1 as int) =~= triangles@.take(i as int).push(t));
                assert(tris_to_polys(triangles@.take(i + 1 as int)) =~= tris_to_polys(
                    triangles@.take(i as int),
                ) + seq![poly_from_verts(seq![t.a, t.b, t.c])]);
                assert(polys_v(polygons@) =~= tris_to_polys(triangles@.take(i + 1 as int)));
            }
            i += 1;
        }
        proof {
            assert(triangles@.take(triangles@.len() as int) =~= triangles@);
        }
        let c = CSG { polygons };
        c
    }

    /// Flattens the solid into triangles: every polygon becomes the fan
    /// from its first vertex.  (The fan is exact for convex faces only.)
    pub fn into_triangles(self) -> (ts: Vec<Triangle>)
        requires
            csg_wf(self),
        ensures
            ts@ == fan_all(self@, self@.len() as int),
    {
        let mut triangles: Vec<Triangle> = Vec::new();
        let mut k: usize = 0;
        let n = self.polygons.len();
        while k < n
            invariant
                csg_wf(self),
                n == self.polygons@.len(),
                k <= n,
                triangles@ == fan_all(self@, k as int),
            decreases n - k,
        {
            let polygon = &self.polygons[k];
            proof {
                assert(poly_wf(self.polygons@[k as int]@));
            }
            let len = polygon.vertices.len();
            let mut i: usize = 1;
            while i < len - 1
                invariant
                    csg_wf(self),
                    n == self.polygons@.len(),
                    k < n,
                    *polygon == self.polygons@[k as int],
                    poly_wf(polygon@),
                    len == polygon.vertices@.len(),
                    1 <= i <= len - 1,
                    triangles@ == fan_all(self@, k as int) + fan_to(polygon@.verts, i as int),
                decreases len - i,
            {
                triangles.push(
                    Triangle {
                        a: polygon.vertices[0],
                        b: polygon.vertices[i],
                        c: polygon.vertices[i + 1],
                    },
                );
                proof {
                    assert(triangles@ =~= fan_all(self@, k as int) + fan_to(
                        polygon@.verts,
                        i + 1 as int,
                    ));
                }
                i += 1;
            }
            proof {
                assert(self@[k as int] == self.polygons@[k as int]@);
                assert(triangles@ =~= fan_all(self@, k + 1 as int));
            }
            k += 1;
        }
        triangles
    }

    /// The union of two solids.
    pub fn union(&self, csg: CSG) -> (r: CSG)
        requires
            csg_wf(*self),
            csg_wf(csg),
        ensures
            r@ == union_v(self@, csg@),
            csg_wf(r),
    {
        let cloned = clone_polys(&self.polygons);
        proof {
            assert(polys_v(cloned@) =~= polys_v(self.polygons@));
        }
        let mut a = BSPNode::new(Some(cloned));
        let mut b = BSPNode::new(Some(csg.polygons));
        a.clip_to(&b);
        b.clip_to(&a);
        b.invert();
        b.clip_to(&a);
        b.invert();
        a.build(b.all_polygons());
        let r = CSG { polygons: a.all_polygons() };
        r
    }

    /// The difference: what is of this solid and not of `csg`.
    pub fn subtract(&self, csg: CSG) -> (r: CSG)
        requires
            csg_wf(*self),
            csg_wf(csg),
        ensures
            r@ == subtract_v(self@, csg@),
            csg_wf(r),
    {
        let cloned = clone_polys(&self.polygons);
        proof {
            assert(polys_v(cloned@) =~= polys_v(self.polygons@));
        }
        let mut a = BSPNode::new(Some(cloned));
        let mut b = BSPNode::new(Some(csg.polygons));
        a.invert();
        a.clip_to(&b);
        b.clip_to(&a);
        b.invert();
        b.clip_to(&a);
        b.invert();
        a.build(b.all_polygons());
        a.invert();
        let r = CSG { polygons: a.all_polygons() };
        r
    }

    /// The intersection of two solids.
    pub fn intersect(&self, csg: CSG) -> (r: CSG)
        requires
            csg_wf(*self),
            csg_wf(csg),
        ensures
            r@ == intersect_v(self@, csg@),
            csg_wf(r),
    {
        let cloned = clone_polys(&self.polygons);
        proof {
            assert(polys_v(cloned@) =~= polys_v(self.polygons@));
        }
        let mut a = BSPNode::new(Some(cloned));
        let mut b = BSPNode::new(Some(csg.polygons));
        a.invert();
        b.clip_to(&a);
        b.invert();
        a.clip_to(&b);
        b.clip_to(&a);
        a.build(b.all_polygons());
        a.invert();
        let r = CSG { polygons: a.all_polygons() };
        r
    }
}

} // verus!
