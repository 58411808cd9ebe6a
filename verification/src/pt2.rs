//! Points in the 2-D integer plane, used by the triangulator.

use crate::num::abs_i;
use crate::pt3::COORD_MAX;
use vstd::prelude::*;

verus! {

/// A point with integer grid coordinates in the plane.
#[derive(Clone, Copy, PartialEq, Eq, Structural, Debug)]
pub struct Pt2 {
    pub x: i64,
    pub y: i64,
}

/// Both components of `p` have magnitude at most `COORD_MAX`.
pub open spec fn pt2_in_bounds(p: Pt2) -> bool {
    &&& abs_i(p.x as int) <= COORD_MAX as int
    &&& abs_i(p.y as int) <= COORD_MAX as int
}

/// Twice the signed area of the triangle `(o, a, b)`: positive when the
/// triangle is wound counter-clockwise.
pub open spec fn cross2(o: Pt2, a: Pt2, b: Pt2) -> int {
    (a.x - o.x) * (b.y - o.y) - (b.x - o.x) * (a.y - o.y)
}

impl Pt2 {
    pub fn new(x: i64, y: i64) -> (p: Pt2)
        ensures
            p == (Pt2 { x, y }),
    {
        Pt2 { x, y }
    }
}

} // verus!
