//! The tree as a mathematical value, and what each operation makes of it.

use vstd::prelude::*;
use crate::bounding_box::BoundingBox;
use crate::location::{Location, Locatable, triple, locations};

verus! {

/// The number of points that a node keeps for itself before it splits.
pub const CAPACITY: usize = 8;

/// A node of the tree: a region, the values kept at the node itself, each
/// at its location, and the eight children that the node has once it has
/// split.
pub struct NodeModel<L> {
    pub bounding_box: BoundingBox,
    pub points: Map<Location, L>,
    pub splitted: bool,
    pub children: Seq<NodeModel<L>>,
}

impl<L: Locatable> NodeModel<L> {
    /// A node without points or children.
    pub open spec fn leaf(bounding_box: BoundingBox) -> Self {
        NodeModel { bounding_box, points: Map::empty(), splitted: false, children: Seq::empty() }
    }

    /// The children that a node with the given box gets when it splits: a
    /// leaf for each octant, in the order of the octants.
    pub open spec fn fresh_children(bounding_box: BoundingBox) -> Seq<Self> {
        Seq::new(8, |i: int| Self::leaf(bounding_box.octant(i)))
    }

    /// The children to which an insertion goes on: those that the node has,
    /// or those that it gets by splitting now.
    pub open spec fn kids(self) -> Seq<Self> {
        if self.splitted {
            self.children
        } else {
            Self::fresh_children(self.bounding_box)
        }
    }

    /// The node keeps at most [`CAPACITY`] values, each at its own location,
    /// which the node's box covers; it has eight children if it has split
    /// and none if not; each child has its octant of the node's box and is
    /// well formed itself.
    pub open spec fn wf(self) -> bool
        decreases self,
    {
        &&& self.points.dom().finite()
        &&& self.points.len() <= CAPACITY
        &&& forall|p: Location| #[trigger]
            self.points.contains_key(p) ==> triple(self.points[p].location()) == p
                && self.bounding_box.covers_location(p)
        &&& self.splitted ==> self.children.len() == 8
        &&& !self.splitted ==> self.children.len() == 0
        &&& forall|i: int|
            0 <= i < self.children.len() ==> (#[trigger] self.children[i]).bounding_box
                == self.bounding_box.octant(i) && self.children[i].wf()
    }

    /// The weight of child `i`, or 0 if there is none.
    pub open spec fn child_weight(self, i: int) -> nat
        decreases self, 0nat,
    {
        if 0 <= i < self.children.len() {
            self.children[i].weight()
        } else {
            0
        }
    }

    /// A bound on how deep an insertion can go: 0 for a node that has not
    /// split and has room, 1 for one that has not split and is full, and
    /// for one that has split more than the weights of its children together.
    pub open spec fn weight(self) -> nat
        decreases self, 1nat,
    {
        if self.splitted {
            1 + self.child_weight(0) + self.child_weight(1) + self.child_weight(2)
                + self.child_weight(3) + self.child_weight(4) + self.child_weight(5)
                + self.child_weight(6) + self.child_weight(7)
        } else if self.points.len() < CAPACITY {
            0
        } else {
            1
        }
    }

    /// Whether an insertion at `p` would report success: the node covers `p`
    /// and has room, or is full and one of its children accepts `p`.
    pub open spec fn accepts(self, p: Location) -> bool
        decreases self.weight(),
    {
        &&& self.bounding_box.covers_location(p)
        &&& self.points.len() < CAPACITY || exists|i: int|
            0 <= i < 8 && i < self.kids().len() && self.points.len() >= CAPACITY
                && (#[trigger] self.kids()[i]).accepts(p)
    }

    /// The index of the first of `kids`, from index `from` on, that accepts
    /// `p`; the length of `kids` if none does.
    pub open spec fn first_accepting(kids: Seq<Self>, p: Location, from: int) -> int
        decreases kids.len() - from,
    {
        if from < 0 || from >= kids.len() {
            kids.len() as int
        } else if kids[from].accepts(p) {
            from
        } else {
            Self::first_accepting(kids, p, from + 1)
        }
    }

    /// The node after an insertion of `x`.
    ///
    /// A node that does not cover the location of `x` stays as it is. A
    /// node with room takes `x` for itself, unless it keeps a value at that
    /// location already. A full node splits, unless it has, and hands `x`
    /// to its children in turn until one accepts it: every child that was
    /// asked, with or without success, is as its own insertion left it.
    pub open spec fn insert(self, x: L) -> Self
        decreases self.weight(),
    {
        let p = triple(x.location());
        if !self.bounding_box.covers_location(p) {
            self
        } else if self.points.len() < CAPACITY {
            if self.points.contains_key(p) {
                self
            } else {
                NodeModel { points: self.points.insert(p, x), ..self }
            }
        } else {
            let kids = self.kids();
            let first = Self::first_accepting(kids, p, 0);
            NodeModel {
                splitted: true,
                children: Seq::new(
                    kids.len(),
                    |j: int|
                        if 0 <= j < 8 && j < kids.len() && j <= first && self.points.len()
                            >= CAPACITY {
                            kids[j].insert(x)
                        } else {
                            kids[j]
                        },
                ),
                ..self
            }
        }
    }

    /// Whether a deletion at `p` would report success: a value at `p` is
    /// kept at the node itself.
    pub open spec fn holds(self, p: Location) -> bool {
        self.points.contains_key(p)
    }

    /// The node after a deletion at `p`. A node that keeps nothing at `p`
    /// itself stays as it is, children included. One that does gives it up,
    /// and so does every child, as its own deletion leaves it.
    pub open spec fn delete(self, p: Location) -> Self
        decreases self,
    {
        if !self.points.contains_key(p) {
            self
        } else {
            NodeModel {
                points: self.points.remove(p),
                children: Seq::new(
                    self.children.len(),
                    |j: int|
                        if 0 <= j < self.children.len() {
                            self.children[j].delete(p)
                        } else {
                            self.children[j]
                        },
                ),
                ..self
            }
        }
    }

    /// A value at `p` is kept somewhere in the tree: at the node itself or
    /// below one of its children.
    pub open spec fn stores(self, p: Location) -> bool
        decreases self,
    {
        self.points.contains_key(p) || exists|i: int|
            0 <= i < self.children.len() && (#[trigger] self.children[i]).stores(p)
    }

    /// The values kept at the node itself whose locations `area` covers.
    pub open spec fn query_own(self, area: BoundingBox) -> Map<Location, L> {
        self.points.restrict(Set::new(|p: Location| area.covers_location(p)))
    }

    /// What a query for `area` has found after the node itself and its
    /// first `n` children: of two values at one location, the one found
    /// first.
    pub open spec fn query_upto(self, area: BoundingBox, n: int) -> Map<Location, L>
        decreases self, n,
    {
        if n <= 0 || n > self.children.len() {
            self.query_own(area)
        } else {
            self.children[n - 1].query(area).union_prefer_right(self.query_upto(area, n - 1))
        }
    }

    /// The values that a query for `area` finds, each at its location:
    /// none if the node's box does not overlap `area`; else those kept at
    /// the node that `area` covers, and what the children find, in their
    /// order, if the node has split.
    pub open spec fn query(self, area: BoundingBox) -> Map<Location, L>
        decreases self, self.children.len() + 1,
    {
        if !self.bounding_box.overlaps(&area) {
            Map::empty()
        } else if self.splitted {
            self.query_upto(area, self.children.len() as int)
        } else {
            self.query_own(area)
        }
    }

    /// Two nodes are alike: their boxes are the same region, they keep
    /// values at the same locations, both have split or neither, and their
    /// children are alike pair by pair.
    pub open spec fn alike(self, other: Self) -> bool
        decreases self,
    {
        &&& self.bounding_box.same_region(other.bounding_box)
        &&& self.points.dom() == other.points.dom()
        &&& self.splitted == other.splitted
        &&& self.children.len() == other.children.len()
        &&& forall|i: int|
            0 <= i < self.children.len() ==> (#[trigger] self.children[i]).alike(other.children[i])
    }

    /// The node after the insertion of each value in turn.
    pub open spec fn filled(self, points: Seq<&L>) -> Self
        decreases points.len(),
    {
        if points.len() == 0 {
            self
        } else {
            self.filled(points.drop_last()).insert(*points.last())
        }
    }

    /// The tree built from the given values: a leaf with the smallest box
    /// that reaches them all, filled with them in their order.
    pub open spec fn built(points: Seq<&L>) -> Self {
        Self::leaf(BoundingBox::around(locations(points))).filled(points)
    }
}

/// Each child to which an insertion can go on weighs less than the node.
pub proof fn lemma_kid_weight<L: Locatable>(n: NodeModel<L>, i: int)
    requires
        0 <= i < 8,
        i < n.kids().len(),
        n.splitted || n.points.len() >= CAPACITY,
    ensures
        n.kids()[i].weight() < n.weight(),
{
    if n.splitted {
        assert(n.child_weight(i) == n.children[i].weight());
    } else {
        assert(n.kids()[i] == NodeModel::<L>::leaf(n.bounding_box.octant(i)));
        assert(Map::<Location, L>::empty().len() == 0);
    }
}

/// The first child that accepts is the one before which none accepts.
pub proof fn lemma_first_accepting<L: Locatable>(
    kids: Seq<NodeModel<L>>,
    p: Location,
    from: int,
    i: int,
)
    requires
        0 <= from <= i <= kids.len(),
        forall|j: int| from <= j < i ==> !(#[trigger] kids[j]).accepts(p),
        i < kids.len() ==> kids[i].accepts(p),
    ensures
        NodeModel::first_accepting(kids, p, from) == i,
    decreases i - from,
{
    if from < i {
        lemma_first_accepting(kids, p, from + 1, i);
    }
}

/// An insertion keeps a well-formed node well formed, and its box as it is.
pub proof fn lemma_insert_wf<L: Locatable>(n: NodeModel<L>, x: L)
    requires
        n.wf(),
    ensures
        n.insert(x).wf(),
        n.insert(x).bounding_box == n.bounding_box,
    decreases n.weight(),
{
    let p = triple(x.location());
    if !n.bounding_box.covers_location(p) {
    } else if n.points.len() < CAPACITY {
    } else {
        let kids = n.kids();
        let after = n.insert(x);
        assert(kids.len() == 8);
        assert(Map::<Location, L>::empty().len() == 0);
        assert forall|i: int| 0 <= i < after.children.len() implies (#[trigger] after.children[i]).bounding_box
            == after.bounding_box.octant(i) && after.children[i].wf() by {
            lemma_kid_weight(n, i);
            assert(kids[i].wf() && kids[i].bounding_box == n.bounding_box.octant(i));
            lemma_insert_wf(kids[i], x);
        }
    }
}

/// A deletion keeps a well-formed node well formed, and its box as it is.
pub proof fn lemma_delete_wf<L: Locatable>(n: NodeModel<L>, p: Location)
    requires
        n.wf(),
    ensures
        n.delete(p).wf(),
        n.delete(p).bounding_box == n.bounding_box,
    decreases n,
{
    if n.points.contains_key(p) {
        let after = n.delete(p);
        assert forall|i: int| 0 <= i < after.children.len() implies (#[trigger] after.children[i]).bounding_box
            == after.bounding_box.octant(i) && after.children[i].wf() by {
            assert(n.children[i].wf());
            lemma_delete_wf(n.children[i], p);
        }
    }
}

/// What a query has found after one more child is what that child finds,
/// added to what was found before.
pub proof fn lemma_query_upto<L: Locatable>(node: NodeModel<L>, area: BoundingBox, n: int)
    requires
        0 <= n < node.children.len(),
    ensures
        node.query_upto(area, n + 1) == node.children[n].query(area).union_prefer_right(
            node.query_upto(area, n),
        ),
        node.query_upto(area, 0) == node.query_own(area),
{
}

/// Whatever a query finds at a location, the area covers that location
/// and is overlapped by the node's box, and in a well-formed tree the value
/// found has that location.
pub proof fn lemma_query_covered<L: Locatable>(node: NodeModel<L>, area: BoundingBox, p: Location)
    requires
        node.query(area).contains_key(p),
    ensures
        area.covers_location(p),
        node.bounding_box.overlaps(&area),
        node.wf() ==> triple(node.query(area)[p].location()) == p,
    decreases node, node.children.len() + 1,
{
    lemma_query_covered_upto(node, area, node.children.len() as int, p);
}

/// What [`lemma_query_covered`] says, of what a query has found after the
/// first `n` children.
proof fn lemma_query_covered_upto<L: Locatable>(
    node: NodeModel<L>,
    area: BoundingBox,
    n: int,
    p: Location,
)
    ensures
        node.query_upto(area, n).contains_key(p) ==> area.covers_location(p) && (node.wf()
            ==> triple(node.query_upto(area, n)[p].location()) == p),
    decreases node,
        (if 0 < n <= node.children.len() {
            n
        } else {
            0
        }),
{
    if 0 < n <= node.children.len() {
        lemma_query_covered_upto(node, area, n - 1, p);
        if node.children[n - 1].query(area).contains_key(p) {
            lemma_query_covered(node.children[n - 1], area, p);
        }
    }
}

/// A query whose area the node's box overlaps finds every value that the
/// node keeps itself at a location that the area covers.
pub proof fn lemma_query_finds_own<L: Locatable>(node: NodeModel<L>, area: BoundingBox, p: Location)
    requires
        node.points.contains_key(p),
        area.covers_location(p),
        node.bounding_box.overlaps(&area),
    ensures
        node.query(area).contains_key(p),
        node.query(area)[p] == node.points[p],
{
    lemma_query_upto_finds_own(node, area, node.children.len() as int, p);
}

/// What [`lemma_query_finds_own`] says, of what a query has found after
/// the first `n` children.
proof fn lemma_query_upto_finds_own<L: Locatable>(
    node: NodeModel<L>,
    area: BoundingBox,
    n: int,
    p: Location,
)
    requires
        node.points.contains_key(p),
        area.covers_location(p),
    ensures
        node.query_upto(area, n).contains_key(p),
        node.query_upto(area, n)[p] == node.points[p],
    decreases
        (if 0 < n <= node.children.len() {
            n
        } else {
            0
        }),
{
    if 0 < n <= node.children.len() {
        lemma_query_upto_finds_own(node, area, n - 1, p);
    }
}

/// In a well-formed tree whose box is sound, an insertion finds a place for
/// a value exactly if the box covers the location of the value.
pub proof fn lemma_accepts_covered<L: Locatable>(n: NodeModel<L>, p: Location)
    requires
        n.wf(),
        n.bounding_box.sound(),
    ensures
        n.accepts(p) == n.bounding_box.covers_location(p),
    decreases n.weight(),
{
    if n.bounding_box.covers_location(p) && n.points.len() >= CAPACITY {
        let kids = n.kids();
        let i = n.bounding_box.octant_index(p);
        n.bounding_box.lemma_octants_sound(i);
        n.bounding_box.lemma_octants_cover(p);
        assert(Map::<Location, L>::empty().len() == 0);
        assert(kids.len() == 8);
        lemma_kid_weight(n, i);
        assert(kids[i].wf() && kids[i].bounding_box == n.bounding_box.octant(i));
        lemma_accepts_covered(kids[i], p);
    }
}

/// An insertion adds the location of the value to what the tree stores,
/// if it finds a place for it, and changes nothing else of what the tree
/// stores.
pub proof fn lemma_insert_stores<L: Locatable>(n: NodeModel<L>, x: L, q: Location)
    requires
        n.wf(),
    ensures
        n.insert(x).stores(q) <==> n.stores(q) || (q == triple(x.location()) && n.accepts(
            triple(x.location()),
        )),
    decreases n.weight(),
{
    let p = triple(x.location());
    let after = n.insert(x);
    if n.bounding_box.covers_location(p) && n.points.len() >= CAPACITY {
        let kids = n.kids();
        let first = NodeModel::first_accepting(kids, p, 0);
        lemma_first_accepting_is_first(kids, p, 0);
        assert(Map::<Location, L>::empty().len() == 0);
        assert(kids.len() == 8);
        assert forall|j: int| 0 <= j < 8 implies ((#[trigger] after.children[j]).stores(q) <==> kids[j].stores(
            q,
        ) || (q == p && j == first)) by {
            lemma_kid_weight(n, j);
            assert(kids[j].wf());
            if j <= first {
                lemma_insert_stores(kids[j], x, q);
            }
        }
        if !n.splitted {
            assert forall|j: int| 0 <= j < 8 implies !(#[trigger] kids[j]).stores(q) by {}
        }
        if after.stores(q) && !after.points.contains_key(q) {
            let j = choose|j: int|
                0 <= j < after.children.len() && (#[trigger] after.children[j]).stores(q);
            if kids[j].stores(q) {
                assert(n.splitted);
                assert(n.children[j].stores(q));
            } else {
                assert(kids[first].accepts(p));
            }
        }
        if n.stores(q) && !n.points.contains_key(q) {
            let j = choose|j: int| 0 <= j < n.children.len() && (#[trigger] n.children[j]).stores(q);
            assert(after.children[j].stores(q));
        }
        if q == p && n.accepts(p) {
            let i = choose|i: int|
                0 <= i < 8 && i < n.kids().len() && n.points.len() >= CAPACITY && (
                #[trigger] n.kids()[i]).accepts(p);
            assert(first < 8);
            assert(after.children[first].stores(q));
        }
    } else if n.bounding_box.covers_location(p) && !n.points.contains_key(p) {
        if after.stores(q) && !after.points.contains_key(q) {
            let j = choose|j: int|
                0 <= j < after.children.len() && (#[trigger] after.children[j]).stores(q);
            assert(n.children[j].stores(q));
        }
        if n.stores(q) && !n.points.contains_key(q) {
            let j = choose|j: int| 0 <= j < n.children.len() && (#[trigger] n.children[j]).stores(q);
            assert(after.children[j].stores(q));
        }
    }
}

/// The first child that accepts, if there is one, accepts, and none before
/// it does.
pub proof fn lemma_first_accepting_is_first<L: Locatable>(
    kids: Seq<NodeModel<L>>,
    p: Location,
    from: int,
)
    requires
        0 <= from <= kids.len(),
    ensures
        from <= NodeModel::first_accepting(kids, p, from) <= kids.len(),
        forall|j: int|
            from <= j < NodeModel::first_accepting(kids, p, from) ==> !(#[trigger] kids[j]).accepts(
                p,
            ),
        NodeModel::first_accepting(kids, p, from) < kids.len() ==> kids[NodeModel::first_accepting(
            kids,
            p,
            from,
        )].accepts(p),
    decreases kids.len() - from,
{
    if from < kids.len() && !kids[from].accepts(p) {
        lemma_first_accepting_is_first(kids, p, from + 1);
    }
}

/// A deletion at one location changes nothing of what the tree stores at
/// other locations.
pub proof fn lemma_delete_stores<L: Locatable>(n: NodeModel<L>, p: Location, q: Location)
    requires
        q != p,
    ensures
        n.delete(p).stores(q) <==> n.stores(q),
    decreases n,
{
    let after = n.delete(p);
    if n.points.contains_key(p) {
        assert forall|j: int| 0 <= j < n.children.len() implies ((#[trigger] after.children[j]).stores(
            q,
        ) <==> n.children[j].stores(q)) by {
            lemma_delete_stores(n.children[j], p, q);
        }
        if after.stores(q) && !after.points.contains_key(q) {
            let j = choose|j: int|
                0 <= j < after.children.len() && (#[trigger] after.children[j]).stores(q);
            assert(n.children[j].stores(q));
        }
        if n.stores(q) && !n.points.contains_key(q) {
            let j = choose|j: int| 0 <= j < n.children.len() && (#[trigger] n.children[j]).stores(q);
            assert(after.children[j].stores(q));
        }
    }
}

/// Whatever a query finds is stored in the tree.
pub proof fn lemma_query_stored<L: Locatable>(n: NodeModel<L>, area: BoundingBox, q: Location)
    requires
        n.wf(),
        n.query(area).contains_key(q),
    ensures
        n.stores(q),
    decreases n, n.children.len() + 1,
{
    lemma_query_upto_stored(n, area, n.children.len() as int, q);
}

/// What [`lemma_query_stored`] says, of what a query has found after the
/// first `k` children.
proof fn lemma_query_upto_stored<L: Locatable>(
    n: NodeModel<L>,
    area: BoundingBox,
    k: int,
    q: Location,
)
    requires
        n.wf(),
        n.query_upto(area, k).contains_key(q),
    ensures
        n.stores(q),
    decreases n,
        (if 0 < k <= n.children.len() {
            k
        } else {
            0
        }),
{
    if 0 < k <= n.children.len() {
        if n.children[k - 1].query(area).contains_key(q) {
            assert(n.children[k - 1].wf());
            lemma_query_stored(n.children[k - 1], area, q);
        } else {
            lemma_query_upto_stored(n, area, k - 1, q);
        }
    }
}

/// After a deletion at a location the node keeps nothing there.
pub proof fn lemma_delete_gone<L: Locatable>(n: NodeModel<L>, p: Location)
    ensures
        !n.delete(p).holds(p),
{
}

/// A value outside the node's box is rejected, and the node stays as it is.
pub proof fn lemma_insert_outside<L: Locatable>(n: NodeModel<L>, x: L)
    requires
        !n.bounding_box.covers_location(triple(x.location())),
    ensures
        !n.accepts(triple(x.location())),
        n.insert(x) == n,
{
}

/// The deletion at a location at which the node keeps nothing itself is
/// reported as not found, and the node stays as it is.
pub proof fn lemma_delete_absent<L: Locatable>(n: NodeModel<L>, p: Location)
    requires
        !n.points.contains_key(p),
    ensures
        !n.holds(p),
        n.delete(p) == n,
{
}

/// The insertion of a value at a location at which the node keeps one
/// already leaves the node's own points as they are: it holds no more of
/// them than before.
pub proof fn lemma_insert_again<L: Locatable>(n: NodeModel<L>, x: L)
    requires
        n.points.contains_key(triple(x.location())),
    ensures
        n.insert(x).points == n.points,
        n.insert(x).points.len() == n.points.len(),
{
}

/// A value that was inserted into a node with room is kept by the node,
/// and where there is still room a second insertion changes nothing.
pub proof fn lemma_insert_twice<L: Locatable>(n: NodeModel<L>, x: L)
    requires
        n.wf(),
        n.bounding_box.covers_location(triple(x.location())),
        n.points.len() < CAPACITY,
    ensures
        n.insert(x).holds(triple(x.location())),
        n.insert(x).points.len() < CAPACITY ==> n.insert(x).insert(x) == n.insert(x),
{
}

} // verus!
