//! A binary space partition tree over polygon soups.  Each node splits
//! space by one plane; the polygons coplanar with that plane live on the
//! node, everything strictly in front or behind lives in the subtrees.
//! `invert`, `clip_polygons`, `clip_to` and `build` are the four tree
//! transformations the boolean solid operators are composed of.

use crate::plane::{flip_plane, plane_wf, split_v, Plane, SplitResult, SplitV};
use crate::polygon::{flip_poly, poly_wf, Polygon, PolyV};
use vstd::prelude::*;

verus! {

/// A BSP node.  A node without a plane is empty: it has no polygons and no
/// children.  A child node, when present, always has a plane.
pub struct BSPNode {
    plane: Option<Plane>,
    front: Option<Box<BSPNode>>,
    back: Option<Box<BSPNode>>,
    polygons: Vec<Polygon>,
}

/// The mathematical value of a BSP tree.
#[verifier::ext_equal]
pub enum TreeV {
    Empty,
    Node { plane: Plane, polys: Seq<PolyV>, front: Box<TreeV>, back: Box<TreeV> },
}

/// The views of a sequence of polygons.
pub open spec fn polys_v(s: Seq<Polygon>) -> Seq<PolyV> {
    s.map_values(|p: Polygon| p@)
}

/// Every polygon of the sequence is well formed.
pub open spec fn polys_wf(ps: Seq<PolyV>) -> bool {
    forall|i: int| 0 <= i < ps.len() ==> poly_wf(#[trigger] ps[i])
}

/// Well-formedness of a tree value: planes and polygons are in bounds.
pub open spec fn tree_wf(t: TreeV) -> bool
    decreases t,
{
    match t {
        TreeV::Empty => true,
        TreeV::Node { plane, polys, front, back } => {
            &&& plane_wf(plane)
            &&& polys_wf(polys)
            &&& tree_wf(*front)
            &&& tree_wf(*back)
        },
    }
}

impl BSPNode {
    /// The tree value of an optional child: absent means empty.
    pub closed spec fn opt_tree(o: Option<Box<BSPNode>>) -> TreeV
        decreases o,
    {
        match o {
            None => TreeV::Empty,
            Some(n) => n.tree(),
        }
    }

    /// The tree value of this node.
    pub closed spec fn tree(self) -> TreeV
        decreases self,
    {
        match self.plane {
            None => TreeV::Empty,
            Some(pl) => TreeV::Node {
                plane: pl,
                polys: polys_v(self.polygons@),
                front: Box::new(Self::opt_tree(self.front)),
                back: Box::new(Self::opt_tree(self.back)),
            },
        }
    }

    /// Structural invariant of the representation: an empty node holds
    /// nothing, children always have planes, and all data is in bounds.
    pub closed spec fn wf(self) -> bool
        decreases self,
    {
        &&& match self.plane {
            None => self.front is None && self.back is None && self.polygons@.len() == 0,
            Some(pl) => plane_wf(pl),
        }
        &&& forall|i: int|
            0 <= i < self.polygons@.len() ==> poly_wf(#[trigger] self.polygons@[i]@)
        &&& match self.front {
            Some(f) => f.plane is Some && f.wf(),
            None => true,
        }
        &&& match self.back {
            Some(b) => b.plane is Some && b.wf(),
            None => true,
        }
    }

    /// Whether this node has adopted a splitting plane yet.
    pub closed spec fn has_plane(self) -> bool {
        self.plane is Some
    }

    /// A well-formed node has a well-formed tree value.
    pub proof fn lemma_wf_tree(self)
        requires
            self.wf(),
        ensures
            tree_wf(self.tree()),
        decreases self,
    {
        reveal_with_fuel(tree_wf, 3);
        match self.front {
            Some(f) => {
                f.lemma_wf_tree();
                assert(Self::opt_tree(self.front) == f.tree());
            },
            None => {
                assert(Self::opt_tree(self.front) == TreeV::Empty);
            },
        }
        match self.back {
            Some(b) => {
                b.lemma_wf_tree();
                assert(Self::opt_tree(self.back) == b.tree());
            },
            None => {
                assert(Self::opt_tree(self.back) == TreeV::Empty);
            },
        }
        assert forall|i: int| 0 <= i < polys_v(self.polygons@).len() implies poly_wf(
            #[trigger] polys_v(self.polygons@)[i],
        ) by {
            assert(polys_v(self.polygons@)[i] == self.polygons@[i]@);
        }
    }
}

impl View for BSPNode {
    type V = TreeV;

    open spec fn view(&self) -> TreeV {
        self.tree()
    }
}

/// Every polygon of the tree, flipped.
pub open spec fn flip_polys(ps: Seq<PolyV>) -> Seq<PolyV> {
    ps.map_values(|p: PolyV| flip_poly(p))
}

/// The logical complement of a tree: every polygon and plane flipped, and
/// the two sides of every node exchanged.
pub open spec fn invert_v(t: TreeV) -> TreeV
    decreases t,
{
    match t {
        TreeV::Empty => TreeV::Empty,
        TreeV::Node { plane, polys, front, back } => TreeV::Node {
            plane: flip_plane(plane),
            polys: flip_polys(polys),
            front: Box::new(invert_v(*back)),
            back: Box::new(invert_v(*front)),
        },
    }
}

/// Pre-order flattening: a node's polygons, then the front subtree, then
/// the back subtree.
pub open spec fn flat_v(t: TreeV) -> Seq<PolyV>
    decreases t,
{
    match t {
        TreeV::Empty => Seq::empty(),
        TreeV::Node { polys, front, back, .. } => polys + flat_v(*front) + flat_v(*back),
    }
}

/// What one split result contributes to the front accumulator of a clip:
/// both coplanar buckets of the same facing go with the spatial side the
/// plane's orientation gives them.
pub open spec fn clip_front_of(r: SplitV) -> Seq<PolyV> {
    match r {
        SplitV::CoplanarFront(q) => seq![q],
        SplitV::AllFront(q) => seq![q],
        SplitV::Split(Some(q), _) => seq![q],
        _ => Seq::empty(),
    }
}

/// What one split result contributes to the back accumulator of a clip.
pub open spec fn clip_back_of(r: SplitV) -> Seq<PolyV> {
    match r {
        SplitV::CoplanarBack(q) => seq![q],
        SplitV::AllBack(q) => seq![q],
        SplitV::Split(_, Some(q)) => seq![q],
        _ => Seq::empty(),
    }
}

/// The front accumulator after clipping the first `i` polygons by `pl`.
pub open spec fn clip_fronts(pl: Plane, ps: Seq<PolyV>, i: int) -> Seq<PolyV>
    decreases i,
{
    if i <= 0 {
        Seq::empty()
    } else {
        clip_fronts(pl, ps, i - 1) + clip_front_of(split_v(pl, ps[i - 1]))
    }
}

/// The back accumulator after clipping the first `i` polygons by `pl`.
pub open spec fn clip_backs(pl: Plane, ps: Seq<PolyV>, i: int) -> Seq<PolyV>
    decreases i,
{
    if i <= 0 {
        Seq::empty()
    } else {
        clip_backs(pl, ps, i - 1) + clip_back_of(split_v(pl, ps[i - 1]))
    }
}

/// The polygons of `ps` that lie outside the solid the tree describes:
/// each polygon is cut by every plane on its path; what reaches the back
/// of a leaf is interior and is dropped, the rest is kept.
pub open spec fn clip_v(t: TreeV, ps: Seq<PolyV>) -> Seq<PolyV>
    decreases t,
{
    match t {
        TreeV::Empty => ps,
        TreeV::Node { plane, front, back, .. } => {
            let f = clip_fronts(plane, ps, ps.len() as int);
            let b = clip_backs(plane, ps, ps.len() as int);
            let f2 = clip_v(*front, f);
            let b2 = match *back {
                TreeV::Empty => Seq::<PolyV>::empty(),
                _ => clip_v(*back, b),
            };
            f2 + b2
        },
    }
}

/// Every polygon list of the tree `t`, clipped to the tree `q`.
pub open spec fn clip_tree_v(t: TreeV, q: TreeV) -> TreeV
    decreases t,
{
    match t {
        TreeV::Empty => TreeV::Empty,
        TreeV::Node { plane, polys, front, back } => TreeV::Node {
            plane,
            polys: clip_v(q, polys),
            front: Box::new(clip_tree_v(*front, q)),
            back: Box::new(clip_tree_v(*back, q)),
        },
    }
}

/// What one split result contributes to a building node's own polygon
/// list: the coplanar buckets, in their original order.
pub open spec fn cop_of(r: SplitV) -> Seq<PolyV> {
    match r {
        SplitV::CoplanarFront(q) => seq![q],
        SplitV::CoplanarBack(q) => seq![q],
        _ => Seq::empty(),
    }
}

/// What one split result contributes to a building node's front buffer.
pub open spec fn front_of(r: SplitV) -> Seq<PolyV> {
    match r {
        SplitV::AllFront(q) => seq![q],
        SplitV::Split(Some(q), _) => seq![q],
        _ => Seq::empty(),
    }
}

/// What one split result contributes to a building node's back buffer.
pub open spec fn back_of(r: SplitV) -> Seq<PolyV> {
    match r {
        SplitV::AllBack(q) => seq![q],
        SplitV::Split(_, Some(q)) => seq![q],
        _ => Seq::empty(),
    }
}

/// The coplanar polygons among the first `i` of `ps`, split by `pl`.
pub open spec fn cop_parts(pl: Plane, ps: Seq<PolyV>, i: int) -> Seq<PolyV>
    decreases i,
{
    if i <= 0 {
        Seq::empty()
    } else {
        cop_parts(pl, ps, i - 1) + cop_of(split_v(pl, ps[i - 1]))
    }
}

/// The front fragments among the first `i` of `ps`, split by `pl`.
pub open spec fn front_parts(pl: Plane, ps: Seq<PolyV>, i: int) -> Seq<PolyV>
    decreases i,
{
    if i <= 0 {
        Seq::empty()
    } else {
        front_parts(pl, ps, i - 1) + front_of(split_v(pl, ps[i - 1]))
    }
}

/// The back fragments among the first `i` of `ps`, split by `pl`.
pub open spec fn back_parts(pl: Plane, ps: Seq<PolyV>, i: int) -> Seq<PolyV>
    decreases i,
{
    if i <= 0 {
        Seq::empty()
    } else {
        back_parts(pl, ps, i - 1) + back_of(split_v(pl, ps[i - 1]))
    }
}

/// Each polygon contributes at most one fragment per buffer.
pub proof fn lemma_parts_len(pl: Plane, ps: Seq<PolyV>, i: int)
    requires
        0 <= i,
    ensures
        front_parts(pl, ps, i).len() <= i,
        back_parts(pl, ps, i).len() <= i,
        cop_parts(pl, ps, i).len() <= i,
    decreases i,
{
    if i > 0 {
        lemma_parts_len(pl, ps, i - 1);
    }
}

/// A tree freshly built from a polygon list: the first polygon's plane
/// becomes the node plane, the first polygon and all coplanar fragments
/// stay on the node, and the side fragments build the subtrees.
pub open spec fn build_fresh_v(ps: Seq<PolyV>) -> TreeV
    decreases ps.len(),
    via build_fresh_v_dec
{
    if ps.len() == 0 {
        TreeV::Empty
    } else {
        let pl = ps[0].plane;
        let rest = ps.skip(1);
        let m = rest.len() as int;
        TreeV::Node {
            plane: pl,
            polys: seq![ps[0]] + cop_parts(pl, rest, m),
            front: Box::new(build_fresh_v(front_parts(pl, rest, m))),
            back: Box::new(build_fresh_v(back_parts(pl, rest, m))),
        }
    }
}

#[via_fn]
proof fn build_fresh_v_dec(ps: Seq<PolyV>) {
    if ps.len() > 0 {
        let pl = ps[0].plane;
        let rest = ps.skip(1);
        lemma_parts_len(pl, rest, rest.len() as int);
    }
}

/// Merging a polygon list into an existing tree: an empty list is a no-op,
/// an empty tree is built fresh; otherwise the first polygon joins this
/// node's list unsplit, the rest are split by this node's plane and the
/// fragments are merged into the subtrees.
pub open spec fn build_v(t: TreeV, ps: Seq<PolyV>) -> TreeV
    decreases t,
{
    if ps.len() == 0 {
        t
    } else {
        match t {
            TreeV::Empty => build_fresh_v(ps),
            TreeV::Node { plane, polys, front, back } => {
                let rest = ps.skip(1);
                let m = rest.len() as int;
                let f = front_parts(plane, rest, m);
                let b = back_parts(plane, rest, m);
                TreeV::Node {
                    plane,
                    polys: polys + seq![ps[0]] + cop_parts(plane, rest, m),
                    front: Box::new(
                        if f.len() > 0 {
                            build_v(*front, f)
                        } else {
                            *front
                        },
                    ),
                    back: Box::new(
                        if b.len() > 0 {
                            build_v(*back, b)
                        } else {
                            *back
                        },
                    ),
                }
            },
        }
    }
}

/// Inverting a tree twice restores it exactly: every polygon and plane is
/// flipped back, and the two exchanges of the sides cancel.
pub proof fn lemma_invert_involution(t: TreeV)
    requires
        tree_wf(t),
    ensures
        invert_v(invert_v(t)) == t,
    decreases t,
{
    match t {
        TreeV::Empty => {},
        TreeV::Node { plane, polys, front, back } => {
            lemma_invert_involution(*front);
            lemma_invert_involution(*back);
            crate::plane::lemma_flip_plane_involution(plane);
            assert forall|i: int| 0 <= i < polys.len() implies flip_poly(
                flip_poly(#[trigger] polys[i]),
            ) == polys[i] by {
                crate::polygon::lemma_flip_poly_involution(polys[i]);
            }
            assert(flip_polys(flip_polys(polys)) =~= polys);
            assert(invert_v(invert_v(t)) =~~= t);
        },
    }
}

/// Clipping an empty polygon list leaves nothing.
pub proof fn lemma_clip_v_empty(t: TreeV)
    ensures
        clip_v(t, Seq::<PolyV>::empty()) == Seq::<PolyV>::empty(),
    decreases t,
{
    match t {
        TreeV::Empty => {},
        TreeV::Node { plane, front, back, .. } => {
            lemma_clip_v_empty(*front);
            lemma_clip_v_empty(*back);
            assert(clip_v(t, Seq::<PolyV>::empty()) =~= Seq::<PolyV>::empty());
        },
    }
}

/// An exact copy of a polygon list.
pub(crate) fn clone_polys(v: &Vec<Polygon>) -> (r: Vec<Polygon>)
    ensures
        r@.len() == v@.len(),
        forall|i: int| 0 <= i < v@.len() ==> #[trigger] r@[i]@ == v@[i]@,
{
    let mut r: Vec<Polygon> = Vec::new();
    let mut i: usize = 0;
    while i < v.len()
        invariant
            i <= v@.len(),
            r@.len() == i,
            forall|k: int| 0 <= k < i ==> #[trigger] r@[k]@ == v@[k]@,
        decreases v@.len() - i,
    {
        r.push(v[i].clone());
        i += 1;
    }
    r
}

impl BSPNode {
    /// Turns this node into its logical complement: flips every polygon
    /// and plane and exchanges the two sides, recursively.
    pub fn invert(&mut self)
        requires
            old(self).wf(),
        ensures
            final(self).wf(),
            final(self)@ == invert_v(old(self)@),
        decreases *old(self),
    {
        let n = self.polygons.len();
        let mut flipped: Vec<Polygon> = Vec::new();
        let mut i: usize = 0;
        while i < n
            invariant
                *self == *old(self),
                old(self).wf(),
                n == self.polygons@.len(),
                i <= n,
                flipped@.len() == i,
                forall|k: int| 0 <= k < i ==> #[trigger] flipped@[k]@ == flip_poly(
                    self.polygons@[k]@,
                ),
                forall|k: int| 0 <= k < i ==> poly_wf(#[trigger] flipped@[k]@),
            decreases n - i,
        {
            let mut p = self.polygons[i].clone();
            p.flip();
            flipped.push(p);
            i += 1;
        }
        self.polygons = flipped;
        self.plane = match self.plane {
            Some(mut pl) => {
                pl.flip();
                Some(pl)
            },
            None => None,
        };
        let new_back = match self.front.take() {
            Some(mut f) => {
                f.invert();
                Some(f)
            },
            None => None,
        };
        let new_front = match self.back.take() {
            Some(mut b) => {
                b.invert();
                Some(b)
            },
            None => None,
        };
        self.front = new_front;
        self.back = new_back;
        proof {
            reveal_with_fuel(BSPNode::opt_tree, 2);
            reveal_with_fuel(BSPNode::tree, 2);
            reveal_with_fuel(invert_v, 2);
            assert(Self::opt_tree(self.front) == invert_v(Self::opt_tree(old(self).back)));
            assert(Self::opt_tree(self.back) == invert_v(Self::opt_tree(old(self).front)));
            if old(self).plane is Some {
                assert(flip_polys(polys_v(old(self).polygons@)) =~= polys_v(self.polygons@));
                assert(self@ =~~= invert_v(old(self)@));
            } else {
                assert(self@ =~~= invert_v(old(self)@));
            }
        }
    }

    /// All polygons of the subtree, in pre-order.
    pub fn all_polygons(&self) -> (r: Vec<Polygon>)
        requires
            self.wf(),
        ensures
            polys_v(r@) == flat_v(self@),
            forall|i: int| 0 <= i < r@.len() ==> poly_wf(#[trigger] r@[i]@),
        decreases *self,
    {
        let mut polygons = clone_polys(&self.polygons);
        match &self.front {
            Some(f) => {
                let mut more = f.all_polygons();
                proof {
                    assert(Self::opt_tree(self.front) == f.tree());
                }
                polygons.append(&mut more);
            },
            None => {
                proof {
                    assert(Self::opt_tree(self.front) == TreeV::Empty);
                }
            },
        }
        match &self.back {
            Some(b) => {
                let mut more = b.all_polygons();
                proof {
                    assert(Self::opt_tree(self.back) == b.tree());
                }
                polygons.append(&mut more);
            },
            None => {
                proof {
                    assert(Self::opt_tree(self.back) == TreeV::Empty);
                }
            },
        }
        proof {
            reveal_with_fuel(BSPNode::tree, 2);
            reveal_with_fuel(flat_v, 2);
            assert(polys_v(polygons@) =~= flat_v(self@));
        }
        polygons
    }

    /// Returns the part of `polygons` that lies outside the solid this
    /// subtree describes, cut along the subtree's planes.
    pub fn clip_polygons(&self, polygons: Vec<Polygon>) -> (r: Vec<Polygon>)
        requires
            self.wf(),
            forall|i: int| 0 <= i < polygons@.len() ==> poly_wf(#[trigger] polygons@[i]@),
        ensures
            polys_v(r@) == clip_v(self@, polys_v(polygons@)),
            forall|i: int| 0 <= i < r@.len() ==> poly_wf(#[trigger] r@[i]@),
        decreases *self,
    {
        let pl = match self.plane {
            Some(pl) => pl,
            None => {
                proof {
                    assert(self@ == TreeV::Empty);
                }
                return polygons;
            },
        };
        let ghost psv = polys_v(polygons@);
        let n = polygons.len();
        let mut front: Vec<Polygon> = Vec::new();
        let mut back: Vec<Polygon> = Vec::new();
        let mut i: usize = 0;
        while i < n
            invariant
                self.wf(),
                self.plane == Some(pl),
                plane_wf(pl),
                forall|k: int| 0 <= k < polygons@.len() ==> poly_wf(#[trigger] polygons@[k]@),
                psv == polys_v(polygons@),
                n == polygons@.len(),
                i <= n,
                polys_v(front@) == clip_fronts(pl, psv, i as int),
                polys_v(back@) == clip_backs(pl, psv, i as int),
                forall|k: int| 0 <= k < front@.len() ==> poly_wf(#[trigger] front@[k]@),
                forall|k: int| 0 <= k < back@.len() ==> poly_wf(#[trigger] back@[k]@),
            decreases n - i,
        {
            let r = pl.split_polygon(&polygons[i]);
            match r {
                SplitResult::CoplanarFront(q) => front.push(q),
                SplitResult::CoplanarBack(q) => back.push(q),
                SplitResult::AllFront(q) => front.push(q),
                SplitResult::AllBack(q) => back.push(q),
                SplitResult::Split(fo, bo) => {
                    match fo {
                        Some(q) => front.push(q),
                        None => {},
                    }
                    match bo {
                        Some(q) => back.push(q),
                        None => {},
                    }
                },
            }
            proof {
                assert(psv[i as int] == polygons@[i as int]@);
                assert(polys_v(front@) =~= clip_fronts(pl, psv, i + 1 as int));
                assert(polys_v(back@) =~= clip_backs(pl, psv, i + 1 as int));
            }
            i += 1;
        }
        let ghost ft = Self::opt_tree(self.front);
        let ghost bt = Self::opt_tree(self.back);
        let ghost fvv = polys_v(front@);
        let ghost bvv = polys_v(back@);
        let front2 = match &self.front {
            Some(f) => {
                proof {
                    assert(ft == f.tree());
                }
                f.clip_polygons(front)
            },
            None => {
                proof {
                    assert(ft == TreeV::Empty);
                }
                front
            },
        };
        let mut out = front2;
        let mut back2 = match &self.back {
            Some(b) => {
                proof {
                    assert(bt == b.tree());
                    assert(b.tree() is Node);
                }
                b.clip_polygons(back)
            },
            None => {
                proof {
                    assert(bt == TreeV::Empty);
                }
                Vec::new()
            },
        };
        proof {
            assert(polys_v(out@) == clip_v(ft, fvv));
            assert(polys_v(back2@) =~= match bt {
                TreeV::Empty => Seq::<PolyV>::empty(),
                _ => clip_v(bt, bvv),
            });
        }
        out.append(&mut back2);
        proof {
            reveal_with_fuel(BSPNode::tree, 2);
            assert(psv.len() == polygons@.len());
            assert(self@ == TreeV::Node {
                plane: pl,
                polys: polys_v(self.polygons@),
                front: Box::new(ft),
                back: Box::new(bt),
            });
            assert(clip_v(self@, psv) == clip_v(ft, clip_fronts(pl, psv, psv.len() as int))
                + (match bt {
                TreeV::Empty => Seq::<PolyV>::empty(),
                _ => clip_v(bt, clip_backs(pl, psv, psv.len() as int)),
            }));
            assert(polys_v(out@) =~= clip_v(self@, psv));
        }
        out
    }

    /// Clips every polygon list of this subtree to the tree `bsp`.
    pub fn clip_to(&mut self, bsp: &BSPNode)
        requires
            old(self).wf(),
            bsp.wf(),
        ensures
            final(self).wf(),
            final(self)@ == clip_tree_v(old(self)@, bsp@),
            final(self).has_plane() <==> old(self).has_plane(),
        decreases *old(self),
    {
        let polys = clone_polys(&self.polygons);
        proof {
            assert(polys_v(polys@) =~= polys_v(self.polygons@));
            if self.plane is None {
                assert(polys_v(polys@) =~= Seq::<PolyV>::empty());
                lemma_clip_v_empty(bsp@);
            }
        }
        let clipped = bsp.clip_polygons(polys);
        self.polygons = clipped;
        match self.front.take() {
            Some(mut f) => {
                f.clip_to(bsp);
                self.front = Some(f);
            },
            None => {},
        }
        match self.back.take() {
            Some(mut b) => {
                b.clip_to(bsp);
                self.back = Some(b);
            },
            None => {},
        }
        proof {
            reveal_with_fuel(BSPNode::opt_tree, 2);
            reveal_with_fuel(BSPNode::tree, 2);
            reveal_with_fuel(clip_tree_v, 2);
            assert(Self::opt_tree(self.front) == clip_tree_v(
                Self::opt_tree(old(self).front),
                bsp@,
            ));
            assert(Self::opt_tree(self.back) == clip_tree_v(Self::opt_tree(old(self).back), bsp@));
            assert(self@ =~~= clip_tree_v(old(self)@, bsp@));
        }
    }

    /// Builds a fresh tree from a polygon list.
    fn build_fresh(polygons: Vec<Polygon>) -> (node: BSPNode)
        requires
            forall|i: int| 0 <= i < polygons@.len() ==> poly_wf(#[trigger] polygons@[i]@),
        ensures
            node.wf(),
            node@ == build_fresh_v(polys_v(polygons@)),
            node.has_plane() <==> polygons@.len() > 0,
        decreases polygons@.len(),
    {
        if polygons.len() == 0 {
            let node = BSPNode { plane: None, front: None, back: None, polygons: Vec::new() };
            proof {
                assert(node@ == TreeV::Empty);
                assert(polys_v(polygons@) =~= Seq::<PolyV>::empty());
            }
            return node;
        }
        let ghost ps = polys_v(polygons@);
        let ghost rest = ps.skip(1);
        let n = polygons.len();
        let pl = polygons[0].plane;
        let mut node_polys: Vec<Polygon> = Vec::new();
        node_polys.push(polygons[0].clone());
        let mut front: Vec<Polygon> = Vec::new();
        let mut back: Vec<Polygon> = Vec::new();
        let mut i: usize = 1;
        proof {
            assert(polys_v(node_polys@) =~= seq![ps[0]] + cop_parts(pl, rest, 0));
        }
        while i < n
            invariant
                forall|k: int| 0 <= k < polygons@.len() ==> poly_wf(#[trigger] polygons@[k]@),
                ps == polys_v(polygons@),
                rest == ps.skip(1),
                n == polygons@.len(),
                1 <= i <= n,
                pl == ps[0].plane,
                plane_wf(pl),
                polys_v(node_polys@) == seq![ps[0]] + cop_parts(pl, rest, i - 1),
                polys_v(front@) == front_parts(pl, rest, i - 1),
                polys_v(back@) == back_parts(pl, rest, i - 1),
                front@.len() <= i - 1,
                back@.len() <= i - 1,
                forall|k: int| 0 <= k < node_polys@.len() ==> poly_wf(#[trigger] node_polys@[k]@),
                forall|k: int| 0 <= k < front@.len() ==> poly_wf(#[trigger] front@[k]@),
                forall|k: int| 0 <= k < back@.len() ==> poly_wf(#[trigger] back@[k]@),
            decreases n - i,
        {
            let r = pl.split_polygon(&polygons[i]);
            let ghost rv = r@;
            proof {
                assert(rest[i - 1] == ps[i as int]);
                assert(ps[i as int] == polygons@[i as int]@);
                assert(rv == split_v(pl, rest[i - 1]));
            }
            let ghost prev_cop = polys_v(node_polys@);
            let ghost prev_front = polys_v(front@);
            let ghost prev_back = polys_v(back@);
            match r {
                SplitResult::CoplanarFront(q) => node_polys.push(q),
                SplitResult::CoplanarBack(q) => node_polys.push(q),
                SplitResult::AllFront(q) => front.push(q),
                SplitResult::AllBack(q) => back.push(q),
                SplitResult::Split(fo, bo) => {
                    match fo {
                        Some(q) => front.push(q),
                        None => {},
                    }
                    match bo {
                        Some(q) => back.push(q),
                        None => {},
                    }
                },
            }
            proof {
                assert(polys_v(node_polys@) =~= prev_cop + cop_of(rv));
                assert(polys_v(front@) =~= prev_front + front_of(rv));
                assert(polys_v(back@) =~= prev_back + back_of(rv));
                assert(polys_v(node_polys@) =~= seq![ps[0]] + cop_parts(pl, rest, i as int));
                assert(polys_v(front@) =~= front_parts(pl, rest, i as int));
                assert(polys_v(back@) =~= back_parts(pl, rest, i as int));
            }
            i += 1;
        }
        let ghost m = rest.len() as int;
        proof {
            assert(m == n - 1);
        }
        let front_child = if front.len() > 0 {
            Some(Box::new(Self::build_fresh(front)))
        } else {
            proof {
                assert(polys_v(front@) =~= Seq::<PolyV>::empty());
                assert(build_fresh_v(front_parts(pl, rest, m)) == TreeV::Empty);
            }
            None
        };
        let back_child = if back.len() > 0 {
            Some(Box::new(Self::build_fresh(back)))
        } else {
            proof {
                assert(polys_v(back@) =~= Seq::<PolyV>::empty());
                assert(build_fresh_v(back_parts(pl, rest, m)) == TreeV::Empty);
            }
            None
        };
        let node = BSPNode {
            plane: Some(pl),
            front: front_child,
            back: back_child,
            polygons: node_polys,
        };
        proof {
            reveal_with_fuel(BSPNode::opt_tree, 2);
            reveal_with_fuel(BSPNode::tree, 2);
            reveal_with_fuel(build_fresh_v, 2);
            assert(node@ =~~= build_fresh_v(ps));
        }
        node
    }

    /// Creates a tree: empty, or built from the given polygons.
    pub fn new(polygons: Option<Vec<Polygon>>) -> (node: BSPNode)
        requires
            match polygons {
                Some(ps) => forall|i: int| 0 <= i < ps@.len() ==> poly_wf(#[trigger] ps@[i]@),
                None => true,
            },
        ensures
            node.wf(),
            node@ == match polygons {
                Some(ps) => build_fresh_v(polys_v(ps@)),
                None => TreeV::Empty,
            },
    {
        match polygons {
            Some(ps) => Self::build_fresh(ps),
            None => BSPNode { plane: None, front: None, back: None, polygons: Vec::new() },
        }
    }

    /// Merges a polygon list into this tree.  An empty node adopts the
    /// first polygon's plane; an existing node keeps its plane, takes the
    /// first polygon and the coplanar fragments onto its own list, and
    /// passes the side fragments down, growing children as needed.
    pub fn build(&mut self, polygons: Vec<Polygon>)
        requires
            old(self).wf(),
            forall|i: int| 0 <= i < polygons@.len() ==> poly_wf(#[trigger] polygons@[i]@),
        ensures
            final(self).wf(),
            final(self)@ == build_v(old(self)@, polys_v(polygons@)),
            final(self).has_plane() <==> (old(self).has_plane() || polygons@.len() > 0),
        decreases *old(self),
    {
        if polygons.len() == 0 {
            proof {
                assert(polys_v(polygons@) =~= Seq::<PolyV>::empty());
            }
            return ;
        }
        let pl = match self.plane {
            Some(pl) => pl,
            None => {
                proof {
                    assert(self@ == TreeV::Empty);
                }
                *self = Self::build_fresh(polygons);
                return ;
            },
        };
        let ghost ps = polys_v(polygons@);
        let ghost rest = ps.skip(1);
        let ghost old_polys = polys_v(self.polygons@);
        let n = polygons.len();
        self.polygons.push(polygons[0].clone());
        let mut front: Vec<Polygon> = Vec::new();
        let mut back: Vec<Polygon> = Vec::new();
        let mut i: usize = 1;
        proof {
            assert(polys_v(self.polygons@) =~= old_polys + seq![ps[0]] + cop_parts(pl, rest, 0));
        }
        while i < n
            invariant
                old(self).wf(),
                self.plane == Some(pl),
                self.front == old(self).front,
                self.back == old(self).back,
                plane_wf(pl),
                forall|k: int| 0 <= k < polygons@.len() ==> poly_wf(#[trigger] polygons@[k]@),
                ps == polys_v(polygons@),
                rest == ps.skip(1),
                old_polys == polys_v(old(self).polygons@),
                n == polygons@.len(),
                1 <= i <= n,
                polys_v(self.polygons@) == old_polys + seq![ps[0]] + cop_parts(pl, rest, i - 1),
                polys_v(front@) == front_parts(pl, rest, i - 1),
                polys_v(back@) == back_parts(pl, rest, i - 1),
                forall|k: int|
                    0 <= k < self.polygons@.len() ==> poly_wf(#[trigger] self.polygons@[k]@),
                forall|k: int| 0 <= k < front@.len() ==> poly_wf(#[trigger] front@[k]@),
                forall|k: int| 0 <= k < back@.len() ==> poly_wf(#[trigger] back@[k]@),
            decreases n - i,
        {
            let r = pl.split_polygon(&polygons[i]);
            let ghost rv = r@;
            proof {
                assert(rest[i - 1] == ps[i as int]);
                assert(ps[i as int] == polygons@[i as int]@);
                assert(rv == split_v(pl, rest[i - 1]));
            }
            let ghost prev_cop = polys_v(self.polygons@);
            let ghost prev_front = polys_v(front@);
            let ghost prev_back = polys_v(back@);
            match r {
                SplitResult::CoplanarFront(q) => self.polygons.push(q),
                SplitResult::CoplanarBack(q) => self.polygons.push(q),
                SplitResult::AllFront(q) => front.push(q),
                SplitResult::AllBack(q) => back.push(q),
                SplitResult::Split(fo, bo) => {
                    match fo {
                        Some(q) => front.push(q),
                        None => {},
                    }
                    match bo {
                        Some(q) => back.push(q),
                        None => {},
                    }
                },
            }
            proof {
                assert(polys_v(self.polygons@) =~= prev_cop + cop_of(rv));
                assert(polys_v(front@) =~= prev_front + front_of(rv));
                assert(polys_v(back@) =~= prev_back + back_of(rv));
                assert(polys_v(self.polygons@) =~= old_polys + seq![ps[0]] + cop_parts(
                    pl,
                    rest,
                    i as int,
                ));
                assert(polys_v(front@) =~= front_parts(pl, rest, i as int));
                assert(polys_v(back@) =~= back_parts(pl, rest, i as int));
            }
            i += 1;
        }
        let ghost m = rest.len() as int;
        let ghost fparts = front_parts(pl, rest, m);
        let ghost bparts = back_parts(pl, rest, m);
        proof {
            assert(m == n - 1);
        }
        if front.len() > 0 {
            match self.front.take() {
                Some(mut f) => {
                    f.build(front);
                    self.front = Some(f);
                },
                None => {
                    self.front = Some(Box::new(Self::build_fresh(front)));
                },
            }
            proof {
                assert(Self::opt_tree(self.front) == build_v(
                    Self::opt_tree(old(self).front),
                    fparts,
                ));
            }
        } else {
            proof {
                assert(polys_v(front@) =~= Seq::<PolyV>::empty());
                assert(fparts.len() == 0);
            }
        }
        if back.len() > 0 {
            match self.back.take() {
                Some(mut b) => {
                    b.build(back);
                    self.back = Some(b);
                },
                None => {
                    self.back = Some(Box::new(Self::build_fresh(back)));
                },
            }
            proof {
                assert(Self::opt_tree(self.back) == build_v(
                    Self::opt_tree(old(self).back),
                    bparts,
                ));
            }
        } else {
            proof {
                assert(polys_v(back@) =~= Seq::<PolyV>::empty());
                assert(bparts.len() == 0);
            }
        }
        proof {
            reveal_with_fuel(BSPNode::opt_tree, 2);
            reveal_with_fuel(BSPNode::tree, 2);
            reveal_with_fuel(build_v, 2);
            assert(self@ =~~= build_v(old(self)@, ps));
        }
    }
}

} // verus!
