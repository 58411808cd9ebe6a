//! An ordered, coplanar vertex loop with its cached supporting plane.

use crate::plane::{flip_plane, plane_from, plane_wf, Plane};
use crate::pt3::{pt_in_bounds, Pt3};
use vstd::prelude::*;

verus! {

/// The mathematical value of a polygon: its vertex sequence and its plane.
#[verifier::ext_equal]
pub struct PolyV {
    pub verts: Seq<Pt3>,
    pub plane: Plane,
}

/// A polygon: at least three grid vertices, wound counter-clockwise as seen
/// from the side its plane's normal points to, with the supporting plane
/// cached at construction.  The cache is only changed together with the
/// vertices (`flip` is the one mutator).
#[derive(Debug, PartialEq)]
pub struct Polygon {
    pub vertices: Vec<Pt3>,
    pub plane: Plane,
}

impl View for Polygon {
    type V = PolyV;

    open spec fn view(&self) -> PolyV {
        PolyV { verts: self.vertices@, plane: self.plane }
    }
}

/// Well-formedness: enough vertices for an area, all on the grid, and a
/// plane within the magnitude bounds of `plane_from`.
pub open spec fn poly_wf(p: PolyV) -> bool {
    &&& p.verts.len() >= 3
    &&& forall|i: int| 0 <= i < p.verts.len() ==> pt_in_bounds(#[trigger] p.verts[i])
    &&& plane_wf(p.plane)
}

/// The polygon on the vertex loop `vs`, with its plane derived from the
/// first three vertices.
pub open spec fn poly_from_verts(vs: Seq<Pt3>) -> PolyV
    recommends
        vs.len() >= 3,
{
    PolyV { verts: vs, plane: plane_from(vs[0], vs[1], vs[2]) }
}

/// The same loop traversed backwards: the area is unchanged, the facing
/// direction reverses.
pub open spec fn flip_poly(p: PolyV) -> PolyV {
    PolyV { verts: p.verts.reverse(), plane: flip_plane(p.plane) }
}

impl Polygon {
    /// Builds a polygon from its vertex loop; the supporting plane is
    /// derived from the first three vertices.
    pub fn new(vertices: Vec<Pt3>) -> (p: Polygon)
        requires
            vertices@.len() >= 3,
            forall|i: int| 0 <= i < vertices@.len() ==> pt_in_bounds(#[trigger] vertices@[i]),
        ensures
            p@ == poly_from_verts(vertices@),
            poly_wf(p@),
    {
        let plane = Plane::from_points(vertices[0], vertices[1], vertices[2]);
        Polygon { vertices, plane }
    }

    /// Reverses the winding and the plane, leaving the vertex set unchanged.
    pub fn flip(&mut self)
        requires
            poly_wf(old(self)@),
        ensures
            final(self)@ == flip_poly(old(self)@),
            poly_wf(final(self)@),
    {
        let n_verts = self.vertices.len();
        let mut reversed: Vec<Pt3> = Vec::new();
        let mut i: usize = 0;
        while i < n_verts
            invariant
                i <= n_verts,
                n_verts == self.vertices@.len(),
                reversed@.len() == i,
                forall|k: int| 0 <= k < i ==> reversed@[k] == self.vertices@[n_verts - 1 - k],
            decreases n_verts - i,
        {
            reversed.push(self.vertices[n_verts - 1 - i]);
            i += 1;
        }
        proof {
            assert(reversed@ =~= self.vertices@.reverse());
        }
        self.vertices = reversed;
        self.plane.flip();
    }
}

impl Clone for Polygon {
    /// An exact copy: the view is unchanged.
    fn clone(&self) -> (r: Self)
        ensures
            r@ == self@,
    {
        let mut vertices: Vec<Pt3> = Vec::new();
        let mut i: usize = 0;
        while i < self.vertices.len()
            invariant
                i <= self.vertices@.len(),
                vertices@ =~= self.vertices@.subrange(0, i as int),
            decreases self.vertices@.len() - i,
        {
            vertices.push(self.vertices[i]);
            i += 1;
        }
        proof {
            assert(vertices@ =~= self.vertices@);
        }
        Polygon { vertices, plane: self.plane }
    }
}

/// Flipping a polygon twice restores it.
pub proof fn lemma_flip_poly_involution(p: PolyV)
    requires
        plane_wf(p.plane),
    ensures
        flip_poly(flip_poly(p)) == p,
{
    crate::plane::lemma_flip_plane_involution(p.plane);
    assert(p.verts.reverse().reverse() =~= p.verts);
    assert(flip_poly(flip_poly(p)) =~= p);
}

} // verus!
