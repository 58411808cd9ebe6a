//! Points and vectors on the 3-D integer grid.

use crate::num::{abs_i, lemma_mul_bound};
use vstd::prelude::*;

verus! {

/// Largest coordinate magnitude a solid's vertex may have.
pub const COORD_MAX: i64 = 1_000_000;

/// Magnitude bound for the components of a polygon's (unnormalised) plane
/// normal: a cross product of two coordinate differences.
pub const NORMAL_MAX: i64 = 8_000_000_000_000;

/// Magnitude bound under which `add`, `sub`, `neg` and `dot` are exact.
pub const OP_MAX: i64 = 0x2000_0000_0000_0000;

/// A point (or free vector) with integer grid coordinates.
#[derive(Clone, Copy, PartialEq, Eq, Structural, Debug)]
pub struct Pt3 {
    pub x: i64,
    pub y: i64,
    pub z: i64,
}

/// Every component of `p` has magnitude at most `m`.
pub open spec fn mag_le3(p: Pt3, m: int) -> bool {
    &&& abs_i(p.x as int) <= m
    &&& abs_i(p.y as int) <= m
    &&& abs_i(p.z as int) <= m
}

/// `p` is a grid point a solid may use as a vertex.
pub open spec fn pt_in_bounds(p: Pt3) -> bool {
    mag_le3(p, COORD_MAX as int)
}

/// Dot product over unbounded integers.
pub open spec fn dot3(a: Pt3, b: Pt3) -> int {
    a.x * b.x + a.y * b.y + a.z * b.z
}

/// |dot3(a, b)| <= 3 * m1 * m2 whenever the components of `a` and `b` are
/// bounded by `m1` and `m2`.
pub proof fn lemma_dot3_bound(a: Pt3, b: Pt3, m1: int, m2: int)
    requires
        mag_le3(a, m1),
        mag_le3(b, m2),
    ensures
        abs_i(dot3(a, b)) <= 3 * (m1 * m2),
{
    lemma_mul_bound(a.x as int, b.x as int, m1, m2);
    lemma_mul_bound(a.y as int, b.y as int, m1, m2);
    lemma_mul_bound(a.z as int, b.z as int, m1, m2);
}

/// The dot product is linear in the difference of its second argument.
pub proof fn lemma_dot3_sub(n: Pt3, a: Pt3, b: Pt3, d: Pt3)
    requires
        d.x == a.x - b.x,
        d.y == a.y - b.y,
        d.z == a.z - b.z,
    ensures
        dot3(n, d) == dot3(n, a) - dot3(n, b),
{
    assert(n.x * d.x == n.x * a.x - n.x * b.x) by (nonlinear_arith)
        requires
            d.x == a.x - b.x,
    ;
    assert(n.y * d.y == n.y * a.y - n.y * b.y) by (nonlinear_arith)
        requires
            d.y == a.y - b.y,
    ;
    assert(n.z * d.z == n.z * a.z - n.z * b.z) by (nonlinear_arith)
        requires
            d.z == a.z - b.z,
    ;
}

impl Pt3 {
    pub fn new(x: i64, y: i64, z: i64) -> (p: Pt3)
        ensures
            p == (Pt3 { x, y, z }),
    {
        Pt3 { x, y, z }
    }

    /// Component-wise sum.
    pub fn add(self, rhs: Pt3) -> (r: Pt3)
        requires
            mag_le3(self, OP_MAX as int),
            mag_le3(rhs, OP_MAX as int),
        ensures
            r.x == self.x + rhs.x,
            r.y == self.y + rhs.y,
            r.z == self.z + rhs.z,
    {
        Pt3 { x: self.x + rhs.x, y: self.y + rhs.y, z: self.z + rhs.z }
    }

    /// Component-wise difference.
    pub fn sub(self, rhs: Pt3) -> (r: Pt3)
        requires
            mag_le3(self, OP_MAX as int),
            mag_le3(rhs, OP_MAX as int),
        ensures
            r.x == self.x - rhs.x,
            r.y == self.y - rhs.y,
            r.z == self.z - rhs.z,
    {
        Pt3 { x: self.x - rhs.x, y: self.y - rhs.y, z: self.z - rhs.z }
    }

    /// Component-wise negation.
    pub fn neg(self) -> (r: Pt3)
        requires
            mag_le3(self, OP_MAX as int),
        ensures
            r.x == -self.x,
            r.y == -self.y,
            r.z == -self.z,
    {
        Pt3 { x: -self.x, y: -self.y, z: -self.z }
    }

    /// Exact dot product, widened to `i128`.
    pub fn dot(self, rhs: Pt3) -> (r: i128)
        requires
            mag_le3(self, OP_MAX as int),
            mag_le3(rhs, OP_MAX as int),
        ensures
            r == dot3(self, rhs),
    {
        proof {
            lemma_mul_bound(self.x as int, rhs.x as int, OP_MAX as int, OP_MAX as int);
            lemma_mul_bound(self.y as int, rhs.y as int, OP_MAX as int, OP_MAX as int);
            lemma_mul_bound(self.z as int, rhs.z as int, OP_MAX as int, OP_MAX as int);
        }
        (self.x as i128) * (rhs.x as i128) + (self.y as i128) * (rhs.y as i128) + (self.z
            as i128) * (rhs.z as i128)
    }

    /// Exact cross product.  The inputs must be small enough (for example,
    /// differences of grid coordinates) for the products to fit in `i64`.
    pub fn cross(self, rhs: Pt3) -> (r: Pt3)
        requires
            mag_le3(self, 2 * COORD_MAX as int),
            mag_le3(rhs, 2 * COORD_MAX as int),
        ensures
            r.x == self.y * rhs.z - self.z * rhs.y,
            r.y == self.z * rhs.x - self.x * rhs.z,
            r.z == self.x * rhs.y - self.y * rhs.x,
            mag_le3(r, NORMAL_MAX as int),
    {
        proof {
            assert(2 * COORD_MAX as int == 2_000_000);
            lemma_mul_bound(self.y as int, rhs.z as int, 2_000_000, 2_000_000);
            lemma_mul_bound(self.z as int, rhs.y as int, 2_000_000, 2_000_000);
            lemma_mul_bound(self.z as int, rhs.x as int, 2_000_000, 2_000_000);
            lemma_mul_bound(self.x as int, rhs.z as int, 2_000_000, 2_000_000);
            lemma_mul_bound(self.x as int, rhs.y as int, 2_000_000, 2_000_000);
            lemma_mul_bound(self.y as int, rhs.x as int, 2_000_000, 2_000_000);
        }
        Pt3 {
            x: self.y * rhs.z - self.z * rhs.y,
            y: self.z * rhs.x - self.x * rhs.z,
            z: self.x * rhs.y - self.y * rhs.x,
        }
    }
}

} // verus!
