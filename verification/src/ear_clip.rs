//! An ear-clipping triangulator: turns a simple, counter-clockwise
//! polygon into triangles, each given as three indices into the input
//! vertex list.  A 3-D entry point first projects the polygon to the
//! plane by dropping the dominant axis of its normal.
//!
//! All predicates (orientation, point-in-triangle) are exact integer
//! tests; a triangle with zero doubled area vetoes the containment test,
//! so degenerate ears are never clipped.

use crate::num::{abs_i, lemma_mul_bound};
use crate::pt2::{cross2, pt2_in_bounds, Pt2};
use crate::pt3::{mag_le3, pt_in_bounds, Pt3, OP_MAX};
use vstd::prelude::*;

verus! {

/// One entry of the triangulator's working list: the vertex's index in
/// the input polygon, and its position in the projection plane.
pub type WorkPt = (usize, Pt2);

/// Barycentric containment of `v` in the triangle `(a, b, c)`, boundary
/// included.  A degenerate triangle (zero doubled area) contains
/// everything, which makes the ear test conservative.
pub open spec fn in_tri(v: Pt2, a: Pt2, b: Pt2, c: Pt2) -> bool {
    let den = (b.y - c.y) * (a.x - c.x) + (c.x - b.x) * (a.y - c.y);
    let an = (b.y - c.y) * (v.x - c.x) + (c.x - b.x) * (v.y - c.y);
    let bn = (c.y - a.y) * (v.x - c.x) + (a.x - c.x) * (v.y - c.y);
    if den == 0 {
        true
    } else if den > 0 {
        an >= 0 && bn >= 0 && den - an - bn >= 0
    } else {
        an <= 0 && bn <= 0 && den - an - bn <= 0
    }
}

/// The working-list position before `i`, cyclically.
pub open spec fn prev_idx(i: int, m: int) -> int {
    if i == 0 {
        m - 1
    } else {
        i - 1
    }
}

/// The working-list position after `i`, cyclically.
pub open spec fn next_idx(i: int, m: int) -> int {
    if i == m - 1 {
        0
    } else {
        i + 1
    }
}

/// Position `i` of the working list is an ear: its neighbour triangle is
/// wound counter-clockwise and contains no other remaining vertex.
pub open spec fn is_ear(w: Seq<WorkPt>, i: int) -> bool {
    let m = w.len() as int;
    let p = prev_idx(i, m);
    let nx = next_idx(i, m);
    &&& cross2(w[p].1, w[i].1, w[nx].1) > 0
    &&& forall|j: int|
        0 <= j < m && j != p && j != i && j != nx ==> !#[trigger] in_tri(
            w[j].1,
            w[p].1,
            w[i].1,
            w[nx].1,
        )
}

/// The first ear at or after position `i`, if any.
pub open spec fn find_ear_from(w: Seq<WorkPt>, i: int) -> Option<int>
    decreases w.len() - i,
{
    if i >= w.len() {
        None
    } else if is_ear(w, i) {
        Some(i)
    } else {
        find_ear_from(w, i + 1)
    }
}

/// The index triples the clipping loop emits: while at least three
/// vertices remain, the first ear is clipped; when no ear exists the loop
/// stops with what it has.
pub open spec fn ear_steps(w: Seq<WorkPt>) -> Seq<usize>
    decreases w.len(),
    via ear_steps_dec
{
    if w.len() < 3 {
        Seq::empty()
    } else {
        match find_ear_from(w, 0) {
            None => Seq::empty(),
            Some(e) => {
                let m = w.len() as int;
                let p = prev_idx(e, m);
                let nx = next_idx(e, m);
                seq![w[p].0, w[e].0, w[nx].0] + ear_steps(w.remove(e))
            },
        }
    }
}

#[via_fn]
proof fn ear_steps_dec(w: Seq<WorkPt>) {
    if w.len() >= 3 {
        match find_ear_from(w, 0) {
            None => {},
            Some(e) => {
                lemma_find_ear_in_range(w, 0);
                w.remove_ensures(e);
            },
        }
    }
}

/// A found ear is a position of the working list.
pub proof fn lemma_find_ear_in_range(w: Seq<WorkPt>, i: int)
    requires
        0 <= i,
    ensures
        match find_ear_from(w, i) {
            Some(e) => i <= e < w.len() && is_ear(w, e),
            None => true,
        },
    decreases w.len() - i,
{
    if i < w.len() && !is_ear(w, i) {
        lemma_find_ear_in_range(w, i + 1);
    }
}

/// The working list over a projected vertex list: each vertex paired
/// with its index.
pub open spec fn enum_work(vs: Seq<Pt2>) -> Seq<WorkPt> {
    Seq::new(vs.len(), |i: int| (i as usize, vs[i]))
}

/// The position of the lexicographically smallest point among the first
/// `i` (first occurrence wins).
pub open spec fn leftmost_to(vs: Seq<Pt2>, i: int) -> int
    decreases i,
{
    if i <= 1 {
        0
    } else {
        let r = leftmost_to(vs, i - 1);
        if vs[i - 1].x < vs[r].x || (vs[i - 1].x == vs[r].x && vs[i - 1].y < vs[r].y) {
            i - 1
        } else {
            r
        }
    }
}

/// The neighbour triangle of the leftmost vertex is wound
/// counter-clockwise; for a simple polygon this is exactly
/// counter-clockwise winding of the whole loop.
pub open spec fn leftmost_ccw(vs: Seq<Pt2>) -> bool {
    let m = vs.len() as int;
    let li = leftmost_to(vs, m);
    cross2(vs[prev_idx(li, m)], vs[li], vs[next_idx(li, m)]) > 0
}

/// The cross term of one shoelace edge.
pub open spec fn cr(a: Pt2, b: Pt2) -> int {
    a.x * b.y - b.x * a.y
}

/// The sum of the shoelace terms of the open chain edges from position
/// `i` to position `j` of `w`.
pub open spec fn chain(w: Seq<Pt2>, i: int, j: int) -> int
    decreases j - i,
{
    if i >= j {
        0
    } else {
        cr(w[i], w[i + 1]) + chain(w, i + 1, j)
    }
}

/// Twice the signed area of the closed polygon `w`, by the shoelace
/// formula.
pub open spec fn poly_area2(w: Seq<Pt2>) -> int {
    if w.len() < 2 {
        0
    } else {
        chain(w, 0, w.len() - 1) + cr(w[w.len() - 1], w[0])
    }
}

/// Chains over adjacent ranges add up.
proof fn lemma_chain_concat(w: Seq<Pt2>, i: int, j: int, k: int)
    requires
        i <= j <= k,
    ensures
        chain(w, i, k) == chain(w, i, j) + chain(w, j, k),
    decreases j - i,
{
    if i < j {
        lemma_chain_concat(w, i + 1, j, k);
    }
}

/// Chains only look at the positions they run over.
proof fn lemma_chain_congruent(w1: Seq<Pt2>, w2: Seq<Pt2>, i: int, j: int, d: int)
    requires
        0 <= i,
        j < w1.len(),
        0 <= i + d,
        j + d < w2.len(),
        forall|k: int| i <= k <= j ==> w1[k] == w2[k + d],
    ensures
        chain(w1, i, j) == chain(w2, i + d, j + d),
    decreases j - i,
{
    if i < j {
        lemma_chain_congruent(w1, w2, i + 1, j, d);
    }
}

/// Twice the signed area of a triangle equals the sum of its three
/// shoelace terms.
proof fn lemma_cross2_shoelace(a: Pt2, b: Pt2, c: Pt2)
    ensures
        cross2(a, b, c) == cr(a, b) + cr(b, c) + cr(c, a),
{
    assert(cross2(a, b, c) == cr(a, b) + cr(b, c) + cr(c, a)) by (nonlinear_arith);
}

/// Clipping one ear takes exactly the ear triangle's doubled area out of
/// the polygon's doubled area.
proof fn lemma_remove_area(w: Seq<Pt2>, e: int)
    requires
        3 <= w.len(),
        0 <= e < w.len(),
    ensures
        poly_area2(w) == cross2(w[prev_idx(e, w.len() as int)], w[e], w[next_idx(
            e,
            w.len() as int,
        )]) + poly_area2(w.remove(e)),
{
    reveal_with_fuel(chain, 3);
    let m = w.len() as int;
    let p = prev_idx(e, m);
    let nx = next_idx(e, m);
    let w2 = w.remove(e);
    w.remove_ensures(e);
    lemma_cross2_shoelace(w[p], w[e], w[nx]);
    assert(cr(w[nx], w[p]) == -cr(w[p], w[nx])) by (nonlinear_arith);
    if e == 0 {
        // w2[k] == w[k + 1] for all k
        lemma_chain_congruent(w2, w, 0, m - 2, 1);
        lemma_chain_concat(w, 0, 1, m - 1);
        assert(chain(w, 0, 1) == cr(w[0], w[1]));
    } else if e == m - 1 {
        // w2[k] == w[k] for all k
        lemma_chain_congruent(w2, w, 0, m - 2, 0);
        lemma_chain_concat(w, 0, m - 2, m - 1);
        assert(chain(w, m - 2, m - 1) == cr(w[m - 2], w[m - 1]));
    } else {
        // w2 agrees with w below e and is shifted by one from e on
        lemma_chain_congruent(w2, w, 0, e - 1, 0);
        lemma_chain_congruent(w2, w, e, m - 2, 1);
        assert(chain(w2, e - 1, e) == cr(w2[e - 1], w2[e]));
        lemma_chain_concat(w2, 0, e - 1, e);
        lemma_chain_concat(w2, 0, e, m - 2);
        lemma_chain_concat(w, 0, e - 1, e + 1);
        lemma_chain_concat(w, 0, e + 1, m - 1);
        lemma_chain_concat(w, e - 1, e, e + 1);
        assert(chain(w, e - 1, e) == cr(w[e - 1], w[e]));
        assert(chain(w, e, e + 1) == cr(w[e], w[e + 1]));
    }
}

/// Every entry of the working list carries the vertex of the input list
/// its index names.
pub open spec fn indexed(w: Seq<WorkPt>, vs: Seq<Pt2>) -> bool {
    forall|k: int|
        0 <= k < w.len() ==> (#[trigger] w[k]).0 < vs.len() && w[k].1 == vs[w[k].0 as int]
}

/// The positions of a working list.
pub open spec fn pts_of(w: Seq<WorkPt>) -> Seq<Pt2> {
    w.map_values(|x: WorkPt| x.1)
}

/// The sum of the doubled signed areas of the triangles an index-triple
/// list names over the vertex list `vs`.
pub open spec fn tri_area_sum(ts: Seq<usize>, vs: Seq<Pt2>) -> int
    decreases ts.len(),
{
    if ts.len() < 3 {
        0
    } else {
        cross2(vs[ts[0] as int], vs[ts[1] as int], vs[ts[2] as int]) + tri_area_sum(ts.skip(3), vs)
    }
}

/// A complete clipping run covers the polygon exactly: the doubled
/// signed areas of the emitted triangles sum to the doubled signed area
/// of the remaining loop it started from.
proof fn lemma_clip_area(w: Seq<WorkPt>, vs: Seq<Pt2>)
    requires
        indexed(w, vs),
        2 <= w.len(),
        ear_steps(w).len() == 3 * (w.len() - 2),
    ensures
        tri_area_sum(ear_steps(w), vs) == poly_area2(pts_of(w)),
    decreases w.len(),
{
    reveal_with_fuel(chain, 2);
    let m = w.len() as int;
    if m == 2 {
        assert(ear_steps(w) == Seq::<usize>::empty());
        assert(chain(pts_of(w), 0, 1) == cr(pts_of(w)[0], pts_of(w)[1]) + chain(pts_of(w), 1, 1));
        assert(cr(pts_of(w)[0], pts_of(w)[1]) + cr(pts_of(w)[1], pts_of(w)[0]) == 0)
            by (nonlinear_arith);
    } else {
        match find_ear_from(w, 0) {
            None => {
                assert(ear_steps(w).len() == 0);
                assert(false);
            },
            Some(e) => {
                lemma_find_ear_in_range(w, 0);
                let p = prev_idx(e, m);
                let nx = next_idx(e, m);
                let w2 = w.remove(e);
                w.remove_ensures(e);
                let ts = ear_steps(w);
                let rest = ear_steps(w2);
                assert(ts == seq![w[p].0, w[e].0, w[nx].0] + rest);
                assert(ts.skip(3) =~= rest);
                assert forall|k: int| 0 <= k < w2.len() implies (#[trigger] w2[k]).0 < vs.len()
                    && w2[k].1 == vs[w2[k].0 as int] by {
                    if k < e {
                        assert(w2[k] == w[k]);
                    } else {
                        assert(w2[k] == w[k + 1]);
                    }
                }
                lemma_clip_area(w2, vs);
                lemma_remove_area(pts_of(w), e);
                assert(pts_of(w2) =~= pts_of(w).remove(e));
                assert(pts_of(w)[p] == vs[w[p].0 as int]);
                assert(pts_of(w)[e as int] == vs[w[e].0 as int]);
                assert(pts_of(w)[nx] == vs[w[nx].0 as int]);
                assert(tri_area_sum(ts, vs) == cross2(
                    vs[ts[0] as int],
                    vs[ts[1] as int],
                    vs[ts[2] as int],
                ) + tri_area_sum(rest, vs));
            },
        }
    }
}

/// The triangulation covers the polygon exactly: whenever the clipping
/// runs to completion on a vertex loop, the doubled signed areas of the
/// returned triangles sum to the loop's doubled signed area, and there
/// are exactly two triangles fewer than vertices.
pub proof fn lemma_triangulation_area(vs: Seq<Pt2>)
    requires
        2 <= vs.len() <= usize::MAX,
        ear_steps(enum_work(vs)).len() == 3 * (vs.len() - 2),
    ensures
        tri_area_sum(ear_steps(enum_work(vs)), vs) == poly_area2(vs),
{
    let w = enum_work(vs);
    assert forall|k: int| 0 <= k < w.len() implies (#[trigger] w[k]).0 < vs.len() && w[k].1
        == vs[w[k].0 as int] by {
        assert(w[k] == (k as usize, vs[k]));
    }
    lemma_clip_area(w, vs);
    assert(pts_of(w) =~= vs);
}

/// Exact orientation test.
fn is_ccw(a: Pt2, b: Pt2, c: Pt2) -> (r: bool)
    requires
        pt2_in_bounds(a),
        pt2_in_bounds(b),
        pt2_in_bounds(c),
    ensures
        r == (cross2(a, b, c) > 0),
{
    proof {
        lemma_mul_bound(b.x - a.x, c.y - a.y, 2_000_000, 2_000_000);
        lemma_mul_bound(c.x - a.x, b.y - a.y, 2_000_000, 2_000_000);
    }
    let v = ((b.x - a.x) as i128) * ((c.y - a.y) as i128) - ((c.x - a.x) as i128) * ((b.y - a.y)
        as i128);
    v > 0
}

/// Exact barycentric containment test.
fn in_triangle(v: Pt2, a: Pt2, b: Pt2, c: Pt2) -> (r: bool)
    requires
        pt2_in_bounds(v),
        pt2_in_bounds(a),
        pt2_in_bounds(b),
        pt2_in_bounds(c),
    ensures
        r == in_tri(v, a, b, c),
{
    proof {
        lemma_mul_bound(b.y - c.y, a.x - c.x, 2_000_000, 2_000_000);
        lemma_mul_bound(c.x - b.x, a.y - c.y, 2_000_000, 2_000_000);
        lemma_mul_bound(b.y - c.y, v.x - c.x, 2_000_000, 2_000_000);
        lemma_mul_bound(c.x - b.x, v.y - c.y, 2_000_000, 2_000_000);
        lemma_mul_bound(c.y - a.y, v.x - c.x, 2_000_000, 2_000_000);
        lemma_mul_bound(a.x - c.x, v.y - c.y, 2_000_000, 2_000_000);
    }
    let den = ((b.y - c.y) as i128) * ((a.x - c.x) as i128) + ((c.x - b.x) as i128) * ((a.y - c.y)
        as i128);
    if den == 0 {
        return true;
    }
    let an = ((b.y - c.y) as i128) * ((v.x - c.x) as i128) + ((c.x - b.x) as i128) * ((v.y - c.y)
        as i128);
    let bn = ((c.y - a.y) as i128) * ((v.x - c.x) as i128) + ((a.x - c.x) as i128) * ((v.y - c.y)
        as i128);
    let gn = den - an - bn;
    if den > 0 {
        an >= 0 && bn >= 0 && gn >= 0
    } else {
        an <= 0 && bn <= 0 && gn <= 0
    }
}

/// Every entry of the working list indexes the input and lies on the
/// grid.
pub open spec fn work_wf(w: Seq<WorkPt>, n: int) -> bool {
    forall|j: int| 0 <= j < w.len() ==> (#[trigger] w[j]).0 < n && pt2_in_bounds(w[j].1)
}

/// The clipping loop shared by the two entry points.
fn clip_ears(work_in: Vec<WorkPt>, Ghost(n): Ghost<int>) -> (r: Vec<usize>)
    requires
        work_wf(work_in@, n),
        3 <= work_in@.len(),
    ensures
        r@ == ear_steps(work_in@),
        r@.len() % 3 == 0,
        r@.len() <= 3 * (work_in@.len() - 2),
        forall|k: int| 0 <= k < r@.len() ==> (#[trigger] r@[k]) < n,
{
    let mut work = work_in;
    let ghost w0 = work@;
    let mut triangles: Vec<usize> = Vec::new();
    while work.len() >= 3
        invariant
            work_wf(work@, n),
            2 <= work@.len() <= w0.len(),
            ear_steps(w0) == triangles@ + ear_steps(work@),
            triangles@.len() == 3 * (w0.len() - work@.len()),
            forall|k: int| 0 <= k < triangles@.len() ==> (#[trigger] triangles@[k]) < n,
        ensures
            triangles@ + ear_steps(work@) == ear_steps(w0),
            ear_steps(work@) == Seq::<usize>::empty(),
            2 <= work@.len(),
            triangles@.len() == 3 * (w0.len() - work@.len()),
            forall|k: int| 0 <= k < triangles@.len() ==> (#[trigger] triangles@[k]) < n,
        decreases work@.len(),
    {
        let m = work.len();
        let mut found: Option<usize> = None;
        let mut i: usize = 0;
        while i < m
            invariant_except_break
                found is None,
            invariant
                work_wf(work@, n),
                3 <= m == work@.len(),
                i <= m,
                found is None ==> find_ear_from(work@, 0) == find_ear_from(work@, i as int),
            ensures
                match found {
                    None => find_ear_from(work@, 0) is None,
                    Some(e) => e < m && find_ear_from(work@, 0) == Some(e as int),
                },
            decreases m - i,
        {
            let p: usize = if i == 0 {
                m - 1
            } else {
                i - 1
            };
            let nx: usize = if i == m - 1 {
                0
            } else {
                i + 1
            };
            let mut ear_ok = is_ccw(work[p].1, work[i].1, work[nx].1);
            if ear_ok {
                let mut j: usize = 0;
                while j < m
                    invariant
                        work_wf(work@, n),
                        3 <= m == work@.len(),
                        i < m,
                        j <= m,
                        p == prev_idx(i as int, m as int),
                        nx == next_idx(i as int, m as int),
                        ear_ok ==> forall|jj: int|
                            0 <= jj < j && jj != p && jj != i && jj != nx ==> !#[trigger] in_tri(
                                work@[jj].1,
                                work@[p as int].1,
                                work@[i as int].1,
                                work@[nx as int].1,
                            ),
                        !ear_ok ==> !is_ear(work@, i as int),
                        cross2(work@[p as int].1, work@[i as int].1, work@[nx as int].1) > 0,
                    ensures
                        ear_ok ==> forall|jj: int|
                            0 <= jj < m && jj != p && jj != i && jj != nx ==> !#[trigger] in_tri(
                                work@[jj].1,
                                work@[p as int].1,
                                work@[i as int].1,
                                work@[nx as int].1,
                            ),
                        !ear_ok ==> !is_ear(work@, i as int),
                        cross2(work@[p as int].1, work@[i as int].1, work@[nx as int].1) > 0,
                    decreases m - j,
                {
                    if j != p && j != i && j != nx {
                        if in_triangle(work[j].1, work[p].1, work[i].1, work[nx].1) {
                            ear_ok = false;
                            proof {
                                assert(!is_ear(work@, i as int));
                            }
                            break ;
                        }
                    }
                    j += 1;
                }
            } else {
                proof {
                    assert(!is_ear(work@, i as int));
                }
            }
            if ear_ok {
                found = Some(i);
                proof {
                    let wv = work@;
                    let mi = m as int;
                    let ii = i as int;
                    assert forall|j: int|
                        0 <= j < mi && j != prev_idx(ii, mi) && j != ii && j != next_idx(
                            ii,
                            mi,
                        ) implies !#[trigger] in_tri(
                        wv[j].1,
                        wv[prev_idx(ii, mi)].1,
                        wv[ii].1,
                        wv[next_idx(ii, mi)].1,
                    ) by {
                        assert(!in_tri(wv[j].1, wv[p as int].1, wv[i as int].1, wv[nx as int].1));
                    }
                    assert(is_ear(work@, i as int));
                    assert(find_ear_from(work@, i as int) == Some(i as int));
                }
                break ;
            }
            proof {
                assert(find_ear_from(work@, i as int) == find_ear_from(work@, i + 1 as int));
            }
            i += 1;
        }
        let e = match found {
            Some(e) => e,
            None => {
                proof {
                    assert(ear_steps(work@) =~= Seq::<usize>::empty());
                }
                break ;
            },
        };
        let p: usize = if e == 0 {
            m - 1
        } else {
            e - 1
        };
        let nx: usize = if e == m - 1 {
            0
        } else {
            e + 1
        };
        let ghost w_before = work@;
        triangles.push(work[p].0);
        triangles.push(work[e].0);
        triangles.push(work[nx].0);
        work.remove(e);
        proof {
            w_before.remove_ensures(e as int);
            assert(work@ =~= w_before.remove(e as int));
            assert(ear_steps(w_before) == seq![
                w_before[p as int].0,
                w_before[e as int].0,
                w_before[nx as int].0,
            ] + ear_steps(work@));
            assert(ear_steps(w0) =~= triangles@ + ear_steps(work@));
        }
    }
    proof {
        assert(triangles@ =~= ear_steps(w0));
    }
    triangles
}

/// Whether the neighbour triangle of the leftmost vertex turns left: the
/// exact counter-clockwise check the triangulator demands of its input.
pub fn leftmost_is_ccw(vertices: &Vec<Pt2>) -> (r: bool)
    requires
        vertices@.len() >= 3,
        forall|i: int| 0 <= i < vertices@.len() ==> pt2_in_bounds(#[trigger] vertices@[i]),
    ensures
        r == leftmost_ccw(vertices@),
{
    let n = vertices.len();
    let mut index: usize = 0;
    let mut i: usize = 1;
    while i < n
        invariant
            n == vertices@.len(),
            1 <= i <= n,
            index < i,
            index as int == leftmost_to(vertices@, i as int),
        decreases n - i,
    {
        let c = vertices[i];
        let l = vertices[index];
        if c.x < l.x || (c.x == l.x && c.y < l.y) {
            index = i;
        }
        i += 1;
    }
    let p: usize = if index == 0 {
        n - 1
    } else {
        index - 1
    };
    let nx: usize = if index == n - 1 {
        0
    } else {
        index + 1
    };
    is_ccw(vertices[p], vertices[index], vertices[nx])
}

/// Triangulates a simple counter-clockwise polygon in the plane.
///
/// The result lists triangles as index triples into `vertices`, clipping
/// the first ear found until fewer than three vertices remain; if some
/// remainder has no ear (which a simple polygon's remainder never has),
/// the triangles found so far are returned.
pub fn triangulate2d(vertices: &Vec<Pt2>) -> (r: Vec<usize>)
    requires
        vertices@.len() >= 4,
        forall|i: int| 0 <= i < vertices@.len() ==> pt2_in_bounds(#[trigger] vertices@[i]),
        leftmost_ccw(vertices@),
    ensures
        r@ == ear_steps(enum_work(vertices@)),
        r@.len() % 3 == 0,
        r@.len() <= 3 * (vertices@.len() - 2),
        forall|k: int| 0 <= k < r@.len() ==> (#[trigger] r@[k]) < vertices@.len(),
{
    let n = vertices.len();
    let mut work: Vec<WorkPt> = Vec::new();
    let mut i: usize = 0;
    while i < n
        invariant
            n == vertices@.len(),
            forall|k: int| 0 <= k < vertices@.len() ==> pt2_in_bounds(#[trigger] vertices@[k]),
            i <= n,
            work@.len() == i,
            forall|k: int| 0 <= k < i ==> #[trigger] work@[k] == (k as usize, vertices@[k]),
        decreases n - i,
    {
        work.push((i, vertices[i]));
        i += 1;
    }
    proof {
        assert(work@ =~= enum_work(vertices@));
    }
    clip_ears(work, Ghost(n as int))
}

/// Classification codes for the dominant axis of a normal: positive or
/// negative x, y and z.
pub const PX: u8 = 1;

pub const NX: u8 = 2;

pub const PY: u8 = 3;

pub const NY: u8 = 4;

pub const PZ: u8 = 5;

pub const NZ: u8 = 6;

/// The dominant-axis code of a normal; on ties z beats y and x, and y
/// beats x.
pub open spec fn nml_type_of(n: Pt3) -> u8 {
    if abs_i(n.z as int) >= abs_i(n.x as int) && abs_i(n.z as int) >= abs_i(n.y as int) {
        if n.z >= 0 {
            PZ
        } else {
            NZ
        }
    } else if abs_i(n.y as int) >= abs_i(n.x as int) && abs_i(n.y as int) >= abs_i(n.z as int) {
        if n.y >= 0 {
            PY
        } else {
            NY
        }
    } else {
        if n.x >= 0 {
            PX
        } else {
            NX
        }
    }
}

/// Projection to the plane for one dominant-axis code, with the sign
/// convention that keeps counter-clockwise winding.
pub open spec fn project1(code: u8, v: Pt3) -> Pt2 {
    if code == PX {
        Pt2 { x: v.y, y: v.z }
    } else if code == NX {
        Pt2 { x: (-(v.y as int)) as i64, y: v.z }
    } else if code == PY {
        Pt2 { x: (-(v.x as int)) as i64, y: v.z }
    } else if code == NY {
        Pt2 { x: v.x, y: v.z }
    } else if code == PZ {
        Pt2 { x: v.x, y: v.y }
    } else {
        Pt2 { x: (-(v.x as int)) as i64, y: v.y }
    }
}

/// The whole vertex loop projected for one dominant-axis code.
pub open spec fn project_all(code: u8, vs: Seq<Pt3>) -> Seq<Pt2> {
    vs.map_values(|v: Pt3| project1(code, v))
}

/// Projects a vertex loop to the plane along the dominant axis of its
/// normal, with the sign convention that keeps counter-clockwise
/// winding.
pub fn project_points(vertices: &Vec<Pt3>, normal: Pt3) -> (r: Vec<Pt2>)
    requires
        forall|i: int| 0 <= i < vertices@.len() ==> pt_in_bounds(#[trigger] vertices@[i]),
        mag_le3(normal, OP_MAX as int),
    ensures
        r@ == project_all(nml_type_of(normal), vertices@),
        forall|i: int| 0 <= i < r@.len() ==> pt2_in_bounds(#[trigger] r@[i]),
{
    let ax = if normal.x < 0 {
        -normal.x
    } else {
        normal.x
    };
    let ay = if normal.y < 0 {
        -normal.y
    } else {
        normal.y
    };
    let az = if normal.z < 0 {
        -normal.z
    } else {
        normal.z
    };
    let mut nml_type: u8 = 0;
    if ax >= ay && ax >= az {
        nml_type = if normal.x >= 0 {
            PX
        } else {
            NX
        };
    }
    if ay >= ax && ay >= az {
        nml_type = if normal.y >= 0 {
            PY
        } else {
            NY
        };
    }
    if az >= ax && az >= ay {
        nml_type = if normal.z >= 0 {
            PZ
        } else {
            NZ
        };
    }
    proof {
        assert(nml_type == nml_type_of(normal));
    }
    let n = vertices.len();
    let ghost proj = project_all(nml_type_of(normal), vertices@);
    let mut out: Vec<Pt2> = Vec::new();
    let mut i: usize = 0;
    while i < n
        invariant
            n == vertices@.len(),
            forall|k: int| 0 <= k < vertices@.len() ==> pt_in_bounds(#[trigger] vertices@[k]),
            proj == project_all(nml_type, vertices@),
            nml_type == nml_type_of(normal),
            i <= n,
            out@.len() == i,
            forall|k: int| 0 <= k < i ==> #[trigger] out@[k] == proj[k] && pt2_in_bounds(proj[k]),
        decreases n - i,
    {
        let v = vertices[i];
        let q: Pt2 = if nml_type == PX {
            Pt2 { x: v.y, y: v.z }
        } else if nml_type == NX {
            Pt2 { x: -v.y, y: v.z }
        } else if nml_type == PY {
            Pt2 { x: -v.x, y: v.z }
        } else if nml_type == NY {
            Pt2 { x: v.x, y: v.z }
        } else if nml_type == PZ {
            Pt2 { x: v.x, y: v.y }
        } else {
            Pt2 { x: -v.x, y: v.y }
        };
        proof {
            assert(q == project1(nml_type, v));
            assert(proj[i as int] == project1(nml_type, vertices@[i as int]));
        }
        out.push(q);
        i += 1;
    }
    proof {
        assert(out@ =~= proj);
    }
    out
}

/// Triangulates a simple counter-clockwise polygon given in space, with
/// its plane's normal.  The polygon is projected along the normal's
/// dominant axis and ear-clipped; `Some` carries the complete
/// triangulation of `vertices.len() - 2` triangles, `None` reports that
/// the clipping stalled before completing.
pub fn triangulate3d(vertices: &Vec<Pt3>, normal: Pt3) -> (r: Option<Vec<usize>>)
    requires
        vertices@.len() >= 4,
        forall|i: int| 0 <= i < vertices@.len() ==> pt_in_bounds(#[trigger] vertices@[i]),
        mag_le3(normal, OP_MAX as int),
        leftmost_ccw(project_all(nml_type_of(normal), vertices@)),
    ensures
        match r {
            Some(t) => t@ == ear_steps(enum_work(project_all(nml_type_of(normal), vertices@)))
                && t@.len() == 3 * (vertices@.len() - 2) && forall|k: int|
                0 <= k < t@.len() ==> (#[trigger] t@[k]) < vertices@.len(),
            None => ear_steps(enum_work(project_all(nml_type_of(normal), vertices@))).len() != 3 * (
            vertices@.len() - 2),
        },
{
    let ghost proj = project_all(nml_type_of(normal), vertices@);
    let projected = project_points(vertices, normal);
    let n = projected.len();
    let mut work: Vec<WorkPt> = Vec::new();
    let mut i: usize = 0;
    while i < n
        invariant
            n == proj.len(),
            projected@ == proj,
            forall|k: int| 0 <= k < proj.len() ==> pt2_in_bounds(#[trigger] proj[k]),
            i <= n,
            work@.len() == i,
            forall|k: int| 0 <= k < i ==> #[trigger] work@[k] == (k as usize, proj[k]),
        decreases n - i,
    {
        work.push((i, projected[i]));
        i += 1;
    }
    proof {
        assert(work@ =~= enum_work(proj));
    }
    let triangles = clip_ears(work, Ghost(n as int));
    if (triangles.len() as u128) == ((n - 2) as u128) * 3 {
        Some(triangles)
    } else {
        None
    }
}

} // verus!
