//! Triangles, the building blocks solids are made from.

use crate::pt3::{mag_le3, pt_in_bounds, Pt3, OP_MAX};
use vstd::prelude::*;

verus! {

/// A triangle of grid points.
#[derive(Clone, Copy, PartialEq, Eq, Structural, Debug)]
pub struct Triangle {
    pub a: Pt3,
    pub b: Pt3,
    pub c: Pt3,
}

impl Triangle {
    pub fn new(a: Pt3, b: Pt3, c: Pt3) -> (t: Triangle)
        ensures
            t == (Triangle { a, b, c }),
    {
        Triangle { a, b, c }
    }

    /// The (unnormalised) normal of the triangle's plane, by the
    /// right-hand rule.
    pub fn normal(&self) -> (n: Pt3)
        requires
            pt_in_bounds(self.a),
            pt_in_bounds(self.b),
            pt_in_bounds(self.c),
        ensures
            n.x == (self.b.y - self.a.y) * (self.c.z - self.a.z) - (self.b.z - self.a.z) * (
            self.c.y - self.a.y),
            n.y == (self.b.z - self.a.z) * (self.c.x - self.a.x) - (self.b.x - self.a.x) * (
            self.c.z - self.a.z),
            n.z == (self.b.x - self.a.x) * (self.c.y - self.a.y) - (self.b.y - self.a.y) * (
            self.c.x - self.a.x),
    {
        self.b.sub(self.a).cross(self.c.sub(self.a))
    }

    /// Moves every corner by `p`.
    pub fn translate(&mut self, p: Pt3)
        requires
            mag_le3(old(self).a, OP_MAX as int),
            mag_le3(old(self).b, OP_MAX as int),
            mag_le3(old(self).c, OP_MAX as int),
            mag_le3(p, OP_MAX as int),
        ensures
            final(self).a.x == old(self).a.x + p.x && final(self).a.y == old(self).a.y + p.y
                && final(self).a.z == old(self).a.z + p.z,
            final(self).b.x == old(self).b.x + p.x && final(self).b.y == old(self).b.y + p.y
                && final(self).b.z == old(self).b.z + p.z,
            final(self).c.x == old(self).c.x + p.x && final(self).c.y == old(self).c.y + p.y
                && final(self).c.z == old(self).c.z + p.z,
    {
        self.a = self.a.add(p);
        self.b = self.b.add(p);
        self.c = self.c.add(p);
    }
}

} // verus!
