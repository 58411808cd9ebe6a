//! Planes in general position: an (unnormalised) integer normal `n` and an
//! offset `w`, describing the point set `dot(n, p) == w`.  The side of a
//! plane a point lies on is decided exactly from the sign of
//! `dot(n, p) - w`, so no tolerance is involved anywhere.

use crate::num::{abs_i, div_tz, lemma_mul_bound, tdiv};
use crate::polygon::{poly_from_verts, poly_wf, Polygon, PolyV};
use crate::pt3::{
    dot3, lemma_dot3_bound, lemma_dot3_sub, mag_le3, pt_in_bounds, Pt3, COORD_MAX, NORMAL_MAX,
    OP_MAX,
};
use vstd::prelude::*;

verus! {

/// Magnitude bound for a plane offset: `3 * NORMAL_MAX * COORD_MAX`.
pub const W_MAX: i128 = 24_000_000_000_000_000_000;

/// An oriented plane `{ p | dot3(normal, p) == w }`.  The normal points to
/// the front side; it is a cross product of grid vectors and is not
/// normalised, which keeps every plane predicate exact.
#[derive(Clone, Copy, PartialEq, Eq, Structural, Debug)]
pub struct Plane {
    pub normal: Pt3,
    pub w: i128,
}

/// The magnitude bounds every plane built from grid points satisfies.
pub open spec fn plane_wf(pl: Plane) -> bool {
    &&& mag_le3(pl.normal, NORMAL_MAX as int)
    &&& abs_i(pl.w as int) <= W_MAX as int
}

/// The plane through `a`, `b` and `c`, oriented by the right-hand rule.
pub open spec fn plane_from(a: Pt3, b: Pt3, c: Pt3) -> Plane {
    let ux = b.x - a.x;
    let uy = b.y - a.y;
    let uz = b.z - a.z;
    let vx = c.x - a.x;
    let vy = c.y - a.y;
    let vz = c.z - a.z;
    let n = Pt3 {
        x: (uy * vz - uz * vy) as i64,
        y: (uz * vx - ux * vz) as i64,
        z: (ux * vy - uy * vx) as i64,
    };
    Plane { normal: n, w: dot3(n, a) as i128 }
}

/// The same plane with its orientation reversed.
pub open spec fn flip_plane(pl: Plane) -> Plane {
    Plane {
        normal: Pt3 {
            x: (-(pl.normal.x as int)) as i64,
            y: (-(pl.normal.y as int)) as i64,
            z: (-(pl.normal.z as int)) as i64,
        },
        w: (-(pl.w as int)) as i128,
    }
}

/// Signed distance scale: positive in front of the plane, negative behind,
/// zero on it.  (It is the true distance scaled by the normal's length.)
pub open spec fn sdist(pl: Plane, v: Pt3) -> int {
    dot3(pl.normal, v) - pl.w
}

impl Plane {
    pub fn new(normal: Pt3, w: i128) -> (pl: Plane)
        ensures
            pl == (Plane { normal, w }),
    {
        Plane { normal, w }
    }

    /// Builds the plane spanned by three grid points (oriented so that a
    /// counter-clockwise triangle seen from the front gives the outward
    /// normal).  Collinear points give the degenerate zero normal.
    pub fn from_points(a: Pt3, b: Pt3, c: Pt3) -> (pl: Plane)
        requires
            pt_in_bounds(a),
            pt_in_bounds(b),
            pt_in_bounds(c),
        ensures
            pl == plane_from(a, b, c),
            plane_wf(pl),
    {
        let n = b.sub(a).cross(c.sub(a));
        proof {
            lemma_dot3_bound(n, a, NORMAL_MAX as int, COORD_MAX as int);
        }
        let w = n.dot(a);
        Plane { normal: n, w }
    }

    /// Reverses the plane's orientation.
    pub fn flip(&mut self)
        requires
            plane_wf(*old(self)),
        ensures
            *final(self) == flip_plane(*old(self)),
            plane_wf(*final(self)),
    {
        self.normal = self.normal.neg();
        self.w = -self.w;
    }
}

/// Flipping a plane twice restores it.
pub proof fn lemma_flip_plane_involution(pl: Plane)
    requires
        plane_wf(pl),
    ensures
        flip_plane(flip_plane(pl)) == pl,
{
}

/// Classification code for a vertex on the plane, within tolerance zero.
pub const COPLANAR: u32 = 0;

/// Classification code for a vertex strictly in front of the plane.
pub const FRONT: u32 = 1;

/// Classification code for a vertex strictly behind the plane.
pub const BACK: u32 = 2;

/// Polygon-level code when both front and back vertices occur; it arises
/// as the bitwise or of `FRONT` and `BACK` without a bit of its own.
pub const SPANNING: u32 = 3;

/// Classifies a vertex by the sign of its signed distance.
pub open spec fn loc_of(pl: Plane, v: Pt3) -> u32 {
    if sdist(pl, v) < 0 {
        BACK
    } else if sdist(pl, v) > 0 {
        FRONT
    } else {
        COPLANAR
    }
}

/// The or-combination of the classes of the first `i` vertices.
pub open spec fn ptype_to(pl: Plane, vs: Seq<Pt3>, i: int) -> u32
    decreases i,
{
    if i <= 0 {
        COPLANAR
    } else {
        ptype_to(pl, vs, i - 1) | loc_of(pl, vs[i - 1])
    }
}

/// Or-ing a vertex class into a polygon class stays within the four codes,
/// and reaches `SPANNING` exactly when front and back have both occurred.
pub proof fn lemma_loc_or(t: u32, l: u32)
    requires
        t <= 3,
        l <= 2,
    ensures
        (t | l) <= 3,
        (t | l) == 0 <==> t == 0 && l == 0,
        (t | l) == 3 <==> (t == 3 || (t == 1 && l == 2) || (t == 2 && l == 1)),
        (t | l) == 1 <==> ((t == 0 || t == 1) && (l == 0 || l == 1) && (t == 1 || l == 1)),
        (t | l) == 2 <==> ((t == 0 || t == 2) && (l == 0 || l == 2) && (t == 2 || l == 2)),
{
    assert((t | l) <= 3 && ((t | l) == 0 <==> t == 0 && l == 0) && ((t | l) == 3 <==> (t == 3 || (
    t == 1 && l == 2) || (t == 2 && l == 1))) && ((t | l) == 1 <==> ((t == 0 || t == 1) && (l == 0
        || l == 1) && (t == 1 || l == 1))) && ((t | l) == 2 <==> ((t == 0 || t == 2) && (l == 0
        || l == 2) && (t == 2 || l == 2)))) by (bit_vector)
        requires
            t <= 3,
            l <= 2,
    ;
}

/// The polygon class is always one of the four codes.
pub proof fn lemma_ptype_range(pl: Plane, vs: Seq<Pt3>, i: int)
    ensures
        ptype_to(pl, vs, i) <= 3,
    decreases i,
{
    if i > 0 {
        lemma_ptype_range(pl, vs, i - 1);
        lemma_loc_or(ptype_to(pl, vs, i - 1), loc_of(pl, vs[i - 1]));
    }
}

/// A pure-front polygon has no vertex behind the plane, and dually.
pub proof fn lemma_ptype_classes(pl: Plane, vs: Seq<Pt3>, i: int)
    ensures
        ptype_to(pl, vs, i) == COPLANAR ==> forall|k: int|
            0 <= k < i ==> #[trigger] loc_of(pl, vs[k]) == COPLANAR,
        ptype_to(pl, vs, i) == FRONT ==> forall|k: int|
            0 <= k < i ==> #[trigger] loc_of(pl, vs[k]) != BACK,
        ptype_to(pl, vs, i) == BACK ==> forall|k: int|
            0 <= k < i ==> #[trigger] loc_of(pl, vs[k]) != FRONT,
    decreases i,
{
    if i > 0 {
        lemma_ptype_classes(pl, vs, i - 1);
        lemma_ptype_range(pl, vs, i - 1);
        lemma_loc_or(ptype_to(pl, vs, i - 1), loc_of(pl, vs[i - 1]));
    }
}

/// The grid point where the edge from `vi` to `vj` crosses the plane,
/// rounded toward `vi`.  Meaningful when the two endpoints lie strictly on
/// opposite sides.
pub open spec fn cross_pt(pl: Plane, vi: Pt3, vj: Pt3) -> Pt3 {
    let num = pl.w - dot3(pl.normal, vi);
    let den = dot3(pl.normal, vj) - dot3(pl.normal, vi);
    Pt3 {
        x: (vi.x + div_tz(num * (vj.x - vi.x), den)) as i64,
        y: (vi.y + div_tz(num * (vj.y - vi.y), den)) as i64,
        z: (vi.z + div_tz(num * (vj.z - vi.z), den)) as i64,
    }
}

/// One coordinate of the crossing point lies between the coordinates of
/// the two endpoints.
proof fn lemma_interp_between(num: int, den: int, a: int, b: int)
    requires
        num != 0,
        den != 0,
        (num < 0) <==> (den < 0),
        abs_i(num) <= abs_i(den),
    ensures
        a <= b ==> a <= a + div_tz(num * (b - a), den) <= b,
        b <= a ==> b <= a + div_tz(num * (b - a), den) <= a,
{
    let dx = b - a;
    let q = div_tz(num * dx, den);
    crate::num::lemma_mul_bound(num, dx, abs_i(den), abs_i(dx));
    assert(abs_i(den) * abs_i(dx) == abs_i(den) * abs_i(dx));
    crate::num::lemma_div_tz_bound(num * dx, den, abs_i(dx));
    crate::num::lemma_div_tz_sign(num * dx, den);
    if dx > 0 {
        assert((num * dx < 0) <==> (num < 0)) by (nonlinear_arith)
            requires
                dx > 0,
                num != 0,
        ;
        assert(num * dx != 0) by (nonlinear_arith)
            requires
                dx > 0,
                num != 0,
        ;
        assert(0 <= q <= dx);
    } else if dx < 0 {
        assert((num * dx < 0) <==> (num > 0)) by (nonlinear_arith)
            requires
                dx < 0,
                num != 0,
        ;
        assert(num * dx != 0) by (nonlinear_arith)
            requires
                dx < 0,
                num != 0,
        ;
        assert(dx <= q <= 0);
    } else {
        assert(num * dx == 0) by (nonlinear_arith)
            requires
                dx == 0,
        ;
    }
}

/// A plane built from grid points satisfies the magnitude bounds.
pub proof fn lemma_plane_from_wf(a: Pt3, b: Pt3, c: Pt3)
    requires
        pt_in_bounds(a),
        pt_in_bounds(b),
        pt_in_bounds(c),
    ensures
        plane_wf(plane_from(a, b, c)),
{
    lemma_mul_bound(b.y - a.y, c.z - a.z, 2_000_000, 2_000_000);
    lemma_mul_bound(b.z - a.z, c.y - a.y, 2_000_000, 2_000_000);
    lemma_mul_bound(b.z - a.z, c.x - a.x, 2_000_000, 2_000_000);
    lemma_mul_bound(b.x - a.x, c.z - a.z, 2_000_000, 2_000_000);
    lemma_mul_bound(b.x - a.x, c.y - a.y, 2_000_000, 2_000_000);
    lemma_mul_bound(b.y - a.y, c.x - a.x, 2_000_000, 2_000_000);
    lemma_dot3_bound(plane_from(a, b, c).normal, a, NORMAL_MAX as int, COORD_MAX as int);
}

/// Where one polygon goes when split by a plane: wholly into one of the
/// four buckets, or cut into a front part and a back part (either of which
/// is dropped when fewer than three vertices remain on its side).
pub enum SplitResult {
    CoplanarFront(Polygon),
    CoplanarBack(Polygon),
    AllFront(Polygon),
    AllBack(Polygon),
    Split(Option<Polygon>, Option<Polygon>),
}

/// The mathematical value of a `SplitResult`.
#[verifier::ext_equal]
pub enum SplitV {
    CoplanarFront(PolyV),
    CoplanarBack(PolyV),
    AllFront(PolyV),
    AllBack(PolyV),
    Split(Option<PolyV>, Option<PolyV>),
}

impl View for SplitResult {
    type V = SplitV;

    open spec fn view(&self) -> SplitV {
        match self {
            SplitResult::CoplanarFront(p) => SplitV::CoplanarFront(p@),
            SplitResult::CoplanarBack(p) => SplitV::CoplanarBack(p@),
            SplitResult::AllFront(p) => SplitV::AllFront(p@),
            SplitResult::AllBack(p) => SplitV::AllBack(p@),
            SplitResult::Split(f, b) => SplitV::Split(
                match f {
                    Some(p) => Some(p@),
                    None => None,
                },
                match b {
                    Some(p) => Some(p@),
                    None => None,
                },
            ),
        }
    }
}

/// Every polygon a split result carries is well formed.
pub open spec fn split_wf(r: SplitV) -> bool {
    match r {
        SplitV::CoplanarFront(p) => poly_wf(p),
        SplitV::CoplanarBack(p) => poly_wf(p),
        SplitV::AllFront(p) => poly_wf(p),
        SplitV::AllBack(p) => poly_wf(p),
        SplitV::Split(f, b) => (match f {
            Some(p) => poly_wf(p),
            None => true,
        }) && (match b {
            Some(p) => poly_wf(p),
            None => true,
        }),
    }
}

/// The vertex position after `k`, cyclically.
pub open spec fn next_vert(k: int, n: int) -> int {
    if k + 1 == n {
        0int
    } else {
        k + 1
    }
}

/// What the walk along edge `k` of a spanning polygon contributes to the
/// front side: the vertex unless it lies behind, then the crossing point
/// if the edge changes sides strictly.
pub open spec fn edge_front(pl: Plane, vs: Seq<Pt3>, k: int) -> Seq<Pt3> {
    let j = next_vert(k, vs.len() as int);
    let ti = loc_of(pl, vs[k]);
    let tj = loc_of(pl, vs[j]);
    (if ti != BACK {
        seq![vs[k]]
    } else {
        Seq::empty()
    }) + (if (ti | tj) == SPANNING {
        seq![cross_pt(pl, vs[k], vs[j])]
    } else {
        Seq::empty()
    })
}

/// The contribution of edge `k` to the back side, dual to `edge_front`.
pub open spec fn edge_back(pl: Plane, vs: Seq<Pt3>, k: int) -> Seq<Pt3> {
    let j = next_vert(k, vs.len() as int);
    let ti = loc_of(pl, vs[k]);
    let tj = loc_of(pl, vs[j]);
    (if ti != FRONT {
        seq![vs[k]]
    } else {
        Seq::empty()
    }) + (if (ti | tj) == SPANNING {
        seq![cross_pt(pl, vs[k], vs[j])]
    } else {
        Seq::empty()
    })
}

/// The front vertex loop accumulated over the first `i` edges.
pub open spec fn front_run(pl: Plane, vs: Seq<Pt3>, i: int) -> Seq<Pt3>
    decreases i,
{
    if i <= 0 {
        Seq::empty()
    } else {
        front_run(pl, vs, i - 1) + edge_front(pl, vs, i - 1)
    }
}

/// The back vertex loop accumulated over the first `i` edges.
pub open spec fn back_run(pl: Plane, vs: Seq<Pt3>, i: int) -> Seq<Pt3>
    decreases i,
{
    if i <= 0 {
        Seq::empty()
    } else {
        back_run(pl, vs, i - 1) + edge_back(pl, vs, i - 1)
    }
}

/// Splitting a polygon by a plane: a coplanar polygon is routed by its own
/// facing direction, a one-sided polygon is passed through unchanged, and
/// a spanning polygon is cut along the plane into two loops that share the
/// crossing points.
pub open spec fn split_v(pl: Plane, p: PolyV) -> SplitV {
    let n = p.verts.len() as int;
    let t = ptype_to(pl, p.verts, n);
    if t == COPLANAR {
        if dot3(pl.normal, p.plane.normal) > 0 {
            SplitV::CoplanarFront(p)
        } else {
            SplitV::CoplanarBack(p)
        }
    } else if t == FRONT {
        SplitV::AllFront(p)
    } else if t == BACK {
        SplitV::AllBack(p)
    } else {
        let f = front_run(pl, p.verts, n);
        let b = back_run(pl, p.verts, n);
        SplitV::Split(
            if f.len() >= 3 {
                Some(poly_from_verts(f))
            } else {
                None
            },
            if b.len() >= 3 {
                Some(poly_from_verts(b))
            } else {
                None
            },
        )
    }
}

/// A member of either part of a concatenation is a member of the whole,
/// and conversely.
proof fn lemma_append_contains(a: Seq<Pt3>, b: Seq<Pt3>, x: Pt3)
    ensures
        (a + b).contains(x) <==> a.contains(x) || b.contains(x),
{
    if a.contains(x) {
        let idx = choose|idx: int| 0 <= idx < a.len() && a[idx] == x;
        assert((a + b)[idx] == x);
    }
    if b.contains(x) {
        let idx = choose|idx: int| 0 <= idx < b.len() && b[idx] == x;
        assert((a + b)[a.len() + idx] == x);
    }
    if (a + b).contains(x) {
        let idx = choose|idx: int| 0 <= idx < (a + b).len() && (a + b)[idx] == x;
        if idx < a.len() {
            assert(a[idx] == x);
        } else {
            assert(b[idx - a.len()] == x);
        }
    }
}

/// The two loops a spanning split emits cover the polygon with no gap:
/// every vertex appears in the front loop unless it lies strictly
/// behind, and in the back loop unless it lies strictly in front (a
/// vertex on the plane appears in both); both loops share every
/// crossing point, so they meet exactly along the cut; and the loops
/// contain nothing else — each of their points is such a vertex or such
/// a crossing point.
pub proof fn lemma_split_partition(pl: Plane, vs: Seq<Pt3>, i: int)
    requires
        0 <= i <= vs.len(),
    ensures
        forall|k: int|
            0 <= k < i && loc_of(pl, vs[k]) != BACK ==> front_run(pl, vs, i).contains(
                #[trigger] vs[k],
            ),
        forall|k: int|
            0 <= k < i && loc_of(pl, vs[k]) != FRONT ==> back_run(pl, vs, i).contains(
                #[trigger] vs[k],
            ),
        forall|k: int|
            0 <= k < i && (loc_of(pl, vs[k]) | loc_of(pl, vs[next_vert(k, vs.len() as int)]))
                == SPANNING ==> front_run(pl, vs, i).contains(
                #[trigger] cross_pt(pl, vs[k], vs[next_vert(k, vs.len() as int)]),
            ) && back_run(pl, vs, i).contains(
                cross_pt(pl, vs[k], vs[next_vert(k, vs.len() as int)]),
            ),
        forall|x: Pt3|
            front_run(pl, vs, i).contains(x) ==> exists|k: int|
                0 <= k < i && ((#[trigger] vs[k]) == x && loc_of(pl, vs[k]) != BACK || (loc_of(
                    pl,
                    vs[k],
                ) | loc_of(pl, vs[next_vert(k, vs.len() as int)])) == SPANNING && x == cross_pt(
                    pl,
                    vs[k],
                    vs[next_vert(k, vs.len() as int)],
                )),
        forall|x: Pt3|
            back_run(pl, vs, i).contains(x) ==> exists|k: int|
                0 <= k < i && ((#[trigger] vs[k]) == x && loc_of(pl, vs[k]) != FRONT || (loc_of(
                    pl,
                    vs[k],
                ) | loc_of(pl, vs[next_vert(k, vs.len() as int)])) == SPANNING && x == cross_pt(
                    pl,
                    vs[k],
                    vs[next_vert(k, vs.len() as int)],
                )),
    decreases i,
{
    if i > 0 {
        lemma_split_partition(pl, vs, i - 1);
        let n = vs.len() as int;
        let k0 = i - 1;
        let j = next_vert(k0, n);
        let fr = front_run(pl, vs, i - 1);
        let ef = edge_front(pl, vs, k0);
        let br = back_run(pl, vs, i - 1);
        let eb = edge_back(pl, vs, k0);
        assert forall|x: Pt3| fr.contains(x) || ef.contains(x) implies front_run(
            pl,
            vs,
            i,
        ).contains(x) by {
            lemma_append_contains(fr, ef, x);
        }
        assert forall|x: Pt3| br.contains(x) || eb.contains(x) implies back_run(
            pl,
            vs,
            i,
        ).contains(x) by {
            lemma_append_contains(br, eb, x);
        }
        if loc_of(pl, vs[k0]) != BACK {
            assert(ef[0] == vs[k0]);
            assert(ef.contains(vs[k0]));
        }
        if loc_of(pl, vs[k0]) != FRONT {
            assert(eb[0] == vs[k0]);
            assert(eb.contains(vs[k0]));
        }
        if (loc_of(pl, vs[k0]) | loc_of(pl, vs[j])) == SPANNING {
            lemma_loc_or(loc_of(pl, vs[k0]), loc_of(pl, vs[j]));
            let c = cross_pt(pl, vs[k0], vs[j]);
            if loc_of(pl, vs[k0]) != BACK {
                assert(ef[1] == c);
            } else {
                assert(ef[0] == c);
            }
            assert(ef.contains(c));
            if loc_of(pl, vs[k0]) != FRONT {
                assert(eb[1] == c);
            } else {
                assert(eb[0] == c);
            }
            assert(eb.contains(c));
        }
        assert forall|x: Pt3| front_run(pl, vs, i).contains(x) implies exists|k: int|
            0 <= k < i && ((#[trigger] vs[k]) == x && loc_of(pl, vs[k]) != BACK || (loc_of(
                pl,
                vs[k],
            ) | loc_of(pl, vs[next_vert(k, vs.len() as int)])) == SPANNING && x == cross_pt(
                pl,
                vs[k],
                vs[next_vert(k, vs.len() as int)],
            )) by {
            lemma_append_contains(fr, ef, x);
            if ef.contains(x) {
                let idx = choose|idx: int| 0 <= idx < ef.len() && ef[idx] == x;
                // `vs[k0]` must appear in a term so that `k0` can witness
                // the existential
                assert(vs[k0] == vs[k0]);
            }
        }
        assert forall|x: Pt3| back_run(pl, vs, i).contains(x) implies exists|k: int|
            0 <= k < i && ((#[trigger] vs[k]) == x && loc_of(pl, vs[k]) != FRONT || (loc_of(
                pl,
                vs[k],
            ) | loc_of(pl, vs[next_vert(k, vs.len() as int)])) == SPANNING && x == cross_pt(
                pl,
                vs[k],
                vs[next_vert(k, vs.len() as int)],
            )) by {
            lemma_append_contains(br, eb, x);
            if eb.contains(x) {
                let idx = choose|idx: int| 0 <= idx < eb.len() && eb[idx] == x;
                // as above, mention `vs[k0]` to witness the existential
                assert(vs[k0] == vs[k0]);
            }
        }
    }
}

impl Plane {
    /// The grid point where the edge from `vi` to `vj` crosses the plane.
    fn crossing(&self, vi: Pt3, vj: Pt3) -> (r: Pt3)
        requires
            plane_wf(*self),
            pt_in_bounds(vi),
            pt_in_bounds(vj),
            loc_of(*self, vi) == FRONT && loc_of(*self, vj) == BACK || loc_of(*self, vi) == BACK
                && loc_of(*self, vj) == FRONT,
        ensures
            r == cross_pt(*self, vi, vj),
            pt_in_bounds(r),
    {
        proof {
            lemma_dot3_bound(self.normal, vi, NORMAL_MAX as int, COORD_MAX as int);
            lemma_dot3_bound(self.normal, vj, NORMAL_MAX as int, COORD_MAX as int);
        }
        let num: i128 = self.w - self.normal.dot(vi);
        let d = vj.sub(vi);
        let den: i128 = self.normal.dot(d);
        proof {
            lemma_dot3_sub(self.normal, vj, vi, d);
            lemma_mul_bound(num as int, d.x as int, W_MAX as int + W_MAX as int, 2_000_000);
            lemma_mul_bound(num as int, d.y as int, W_MAX as int + W_MAX as int, 2_000_000);
            lemma_mul_bound(num as int, d.z as int, W_MAX as int + W_MAX as int, 2_000_000);
            lemma_interp_between(num as int, den as int, vi.x as int, vj.x as int);
            lemma_interp_between(num as int, den as int, vi.y as int, vj.y as int);
            lemma_interp_between(num as int, den as int, vi.z as int, vj.z as int);
        }
        let qx = tdiv(num * (d.x as i128), den);
        let qy = tdiv(num * (d.y as i128), den);
        let qz = tdiv(num * (d.z as i128), den);
        Pt3 {
            x: ((vi.x as i128) + qx) as i64,
            y: ((vi.y as i128) + qy) as i64,
            z: ((vi.z as i128) + qz) as i64,
        }
    }

    /// Classifies `polygon` against this plane and, when it spans the
    /// plane, cuts it along it.  The result is exactly `split_v`.
    pub fn split_polygon(&self, polygon: &Polygon) -> (r: SplitResult)
        requires
            plane_wf(*self),
            poly_wf(polygon@),
        ensures
            r@ == split_v(*self, polygon@),
            split_wf(r@),
    {
        let ghost pl = *self;
        let ghost vs = polygon@.verts;
        let n_vertices = polygon.vertices.len();
        let mut polygon_type: u32 = 0;
        let mut vertex_locs: Vec<u32> = Vec::new();
        let mut i: usize = 0;
        while i < n_vertices
            invariant
                plane_wf(pl),
                poly_wf(polygon@),
                pl == *self,
                vs == polygon@.verts,
                n_vertices == vs.len(),
                i <= n_vertices,
                vertex_locs@.len() == i,
                forall|k: int| 0 <= k < i ==> vertex_locs@[k] == loc_of(pl, vs[k]),
                polygon_type == ptype_to(pl, vs, i as int),
                polygon_type <= 3,
            decreases n_vertices - i,
        {
            proof {
                lemma_dot3_bound(pl.normal, vs[i as int], NORMAL_MAX as int, COORD_MAX as int);
            }
            let t: i128 = self.normal.dot(polygon.vertices[i]) - self.w;
            let loc: u32 = if t < 0 {
                BACK
            } else if t > 0 {
                FRONT
            } else {
                COPLANAR
            };
            proof {
                lemma_loc_or(polygon_type, loc);
            }
            polygon_type = polygon_type | loc;
            vertex_locs.push(loc);
            i += 1;
        }
        if polygon_type == COPLANAR {
            let d = self.normal.dot(polygon.plane.normal);
            if d > 0 {
                SplitResult::CoplanarFront(polygon.clone())
            } else {
                SplitResult::CoplanarBack(polygon.clone())
            }
        } else if polygon_type == FRONT {
            SplitResult::AllFront(polygon.clone())
        } else if polygon_type == BACK {
            SplitResult::AllBack(polygon.clone())
        } else {
            let mut f: Vec<Pt3> = Vec::new();
            let mut b: Vec<Pt3> = Vec::new();
            let mut i: usize = 0;
            while i < n_vertices
                invariant
                    plane_wf(pl),
                    poly_wf(polygon@),
                    pl == *self,
                    vs == polygon@.verts,
                    n_vertices == vs.len(),
                    i <= n_vertices,
                    vertex_locs@.len() == n_vertices,
                    forall|k: int| 0 <= k < n_vertices ==> vertex_locs@[k] == loc_of(pl, vs[k]),
                    f@ == front_run(pl, vs, i as int),
                    b@ == back_run(pl, vs, i as int),
                    forall|k: int| 0 <= k < f@.len() ==> pt_in_bounds(#[trigger] f@[k]),
                    forall|k: int| 0 <= k < b@.len() ==> pt_in_bounds(#[trigger] b@[k]),
                decreases n_vertices - i,
            {
                let j = if i + 1 == n_vertices {
                    0
                } else {
                    i + 1
                };
                let ti = vertex_locs[i];
                let tj = vertex_locs[j];
                let vi = polygon.vertices[i];
                let vj = polygon.vertices[j];
                if ti != BACK {
                    f.push(vi);
                }
                if ti != FRONT {
                    b.push(vi);
                }
                if (ti | tj) == SPANNING {
                    proof {
                        lemma_loc_or(ti, tj);
                    }
                    let v = self.crossing(vi, vj);
                    f.push(v);
                    b.push(v);
                }
                proof {
                    assert(f@ =~= front_run(pl, vs, i + 1 as int));
                    assert(b@ =~= back_run(pl, vs, i + 1 as int));
                }
                i += 1;
            }
            let front_poly = if f.len() >= 3 {
                proof {
                    lemma_plane_from_wf(f@[0], f@[1], f@[2]);
                }
                Some(Polygon::new(f))
            } else {
                None
            };
            let back_poly = if b.len() >= 3 {
                proof {
                    lemma_plane_from_wf(b@[0], b@[1], b@[2]);
                }
                Some(Polygon::new(b))
            } else {
                None
            };
            SplitResult::Split(front_poly, back_poly)
        }
    }
}

} // verus!
