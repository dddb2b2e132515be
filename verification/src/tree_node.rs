//! A node of the tree as it is held in memory.

use vstd::prelude::*;
use vstd::std_specs::cmp::PartialEqSpecImpl;
use crate::bounding_box::BoundingBox;
use crate::location::{
    Location, Locatable, triple, locations, by_location, lemma_by_location_take,
};
use crate::node_model::{
    NodeModel, CAPACITY, lemma_kid_weight, lemma_query_upto, lemma_first_accepting,
    lemma_insert_wf, lemma_delete_wf,
};
use crate::point_set::PointSet;

verus! {

/// A region of space, the points kept for it, and, once it has split, eight
/// children that share the region among them.
#[derive(Debug)]
pub struct TreeNode<'point, L: Locatable> {
    children: Vec<TreeNode<'point, L>>,
    bounding_box: BoundingBox,
    points: PointSet<'point, L>,
    splitted: bool,
}

impl<'point, L: Locatable> View for TreeNode<'point, L> {
    type V = NodeModel<L>;

    /// The tree below this node as a mathematical value.
    closed spec fn view(&self) -> NodeModel<L> {
        self.model()
    }
}

impl<'point, L: Locatable> TreeNode<'point, L> {
    /// The tree below this node as a mathematical value.
    pub closed spec fn model(&self) -> NodeModel<L>
        decreases self,
    {
        NodeModel {
            bounding_box: self.bounding_box,
            points: self.points@,
            splitted: self.splitted,
            children: Seq::new(
                self.children@.len(),
                |i: int|
                    if 0 <= i < self.children@.len() {
                        self.children@[i].model()
                    } else {
                        arbitrary()
                    },
            ),
        }
    }

    /// The node is the well-formed tree that its view shows, and no set of
    /// points in it holds a location twice.
    pub closed spec fn wf(&self) -> bool
        decreases self,
    {
        &&& self.points.wf()
        &&& self@.wf()
        &&& forall|i: int| 0 <= i < self.children@.len() ==> (#[trigger] self.children@[i]).wf()
    }

    /// The view of a well-formed node is well formed.
    pub proof fn lemma_wf(&self)
        requires
            self.wf(),
        ensures
            self@.wf(),
    {
    }

    /// A node without points or children.
    fn leaf(bounding_box: BoundingBox) -> (r: Self)
        ensures
            r.wf(),
            r@ == NodeModel::<L>::leaf(bounding_box),
    {
        let r = TreeNode {
            children: Vec::new(),
            bounding_box,
            points: PointSet::new(),
            splitted: false,
        };
        assert(r@.children =~= Seq::<NodeModel<L>>::empty());
        assert(Map::<Location, L>::empty().len() == 0);
        r
    }

    /// The box of the node.
    pub fn get_bounding_box(&self) -> (r: &BoundingBox)
        ensures
            *r == self@.bounding_box,
    {
        &self.bounding_box
    }

    /// The points that the node keeps itself.
    pub fn get_points(&self) -> (r: &PointSet<'point, L>)
        ensures
            r@ == self@.points,
            self.wf() ==> r.wf(),
    {
        &self.points
    }

    /// The children, if the node has split.
    pub fn get_children(&self) -> (r: Option<&Vec<TreeNode<'point, L>>>)
        ensures
            r is Some == self@.splitted,
            r matches Some(c) ==> c@.len() == self@.children.len() && forall|i: int|
                0 <= i < c@.len() ==> (#[trigger] c@[i])@ == self@.children[i],
    {
        if self.splitted {
            Some(&self.children)
        } else {
            None
        }
    }

    /// The number of points that the node keeps before it splits.
    pub fn capacity(&self) -> (r: usize)
        ensures
            r == CAPACITY,
    {
        CAPACITY
    }

    /// Whether the node has split.
    pub fn is_splitted(&self) -> (r: bool)
        ensures
            r == self@.splitted,
    {
        self.splitted
    }

    /// Whether the node's box covers the place of `point`.
    pub fn covers(&self, point: &L) -> (r: bool)
        ensures
            r == self@.bounding_box.covers_location(triple(point.location())),
    {
        self.bounding_box.covers(&point.get_location())
    }

    /// Whether the node itself keeps a point at the place of `point`.
    pub fn contains(&self, point: &L) -> (r: bool)
        requires
            self.wf(),
        ensures
            r == self@.holds(triple(point.location())),
    {
        self.points.contains(point)
    }

    /// Whether the node's box overlaps `bounding_box`.
    pub fn overlaps(&self, bounding_box: &BoundingBox) -> (r: bool)
        ensures
            r == self@.bounding_box.overlaps(bounding_box),
    {
        self.bounding_box.overlaps(bounding_box)
    }

    /// Gives the node its eight children, a leaf for each octant of its box.
    /// The points that the node keeps stay where they are.
    pub fn split(&mut self)
        requires
            old(self).wf(),
            !old(self)@.splitted,
        ensures
            final(self).wf(),
            final(self)@ == (NodeModel {
                splitted: true,
                children: NodeModel::<L>::fresh_children(old(self)@.bounding_box),
                ..old(self)@
            }),
    {
        self.splitted = true;
        let boxes = self.bounding_box.split();
        let mut children: Vec<TreeNode<'point, L>> = Vec::new();
        for i in 0..8
            invariant
                children@.len() == i,
                forall|j: int| 0 <= j < 8 ==> #[trigger] boxes[j] == self.bounding_box.octant(j),
                forall|j: int|
                    0 <= j < i ==> (#[trigger] children@[j]).wf() && children@[j]@
                        == NodeModel::<L>::leaf(self.bounding_box.octant(j)),
        {
            children.push(Self::leaf(boxes[i]));
        }
        self.children = children;
        assert(self@.children =~= NodeModel::<L>::fresh_children(self.bounding_box));
    }

    /// Inserts `point` and says whether it found a place. A point outside the
    /// node's box is rejected. A node with room keeps the point itself; a
    /// full node splits, if it has not, and offers the point to its children
    /// in their order until one takes it.
    pub fn insert(&mut self, point: &'point L) -> (r: bool)
        requires
            old(self).wf(),
        ensures
            final(self).wf(),
            final(self)@ == old(self)@.insert(*point),
            r == old(self)@.accepts(triple(point.location())),
        decreases old(self)@.weight(),
    {
        let ghost p = triple(point.location());
        let ghost before = self@;
        if !self.covers(point) {
            return false;
        }
        if self.points.len() < CAPACITY {
            self.points.insert(point);
            proof {
                lemma_insert_wf(before, *point);
                assert(self.model().children =~= before.children);
            }
            return true;
        }
        if !self.splitted {
            self.split();
        }
        let ghost kids = before.kids();
        assert(self.model().children =~= kids);
        let mut i: usize = 0;
        while i < 8
            invariant
                i <= 8,
                before == old(self)@,
                before.wf(),
                before.bounding_box.covers_location(p),
                before.points.len() >= CAPACITY,
                p == triple(point.location()),
                kids == before.kids(),
                kids.len() == 8,
                self.points.wf(),
                self.points@ == before.points,
                self.bounding_box == before.bounding_box,
                self.splitted,
                self.children@.len() == 8,
                forall|j: int| 0 <= j < 8 ==> (#[trigger] self.children@[j]).wf(),
                forall|j: int|
                    0 <= j < i ==> (#[trigger] self.children@[j]).model() == kids[j].insert(*point),
                forall|j: int| 0 <= j < i ==> !(#[trigger] kids[j]).accepts(p),
                forall|j: int| i <= j < 8 ==> (#[trigger] self.children@[j]).model() == kids[j],
            decreases 8 - i,
        {
            proof {
                lemma_kid_weight(before, i as int);
            }
            let child = &mut self.children[i];
            let accepted = child.insert(point);
            if accepted {
                proof {
                    lemma_first_accepting(kids, p, 0, i as int);
                    lemma_insert_wf(before, *point);
                    assert(self.model().children =~= before.insert(*point).children);
                }
                return true;
            }
            i = i + 1;
        }
        proof {
            lemma_first_accepting(kids, p, 0, 8);
            lemma_insert_wf(before, *point);
            assert(self.model().children =~= before.insert(*point).children);
        }
        false
    }

    /// Takes the point at the place of `point` out of the node, and out of
    /// every child, and says whether the node itself kept one. Where the
    /// node keeps none, its children are not looked at.
    pub fn delete(&mut self, point: &L) -> (r: bool)
        requires
            old(self).wf(),
        ensures
            final(self).wf(),
            final(self)@ == old(self)@.delete(triple(point.location())),
            r == old(self)@.holds(triple(point.location())),
        decreases old(self)@.weight(),
    {
        let ghost p = triple(point.location());
        let ghost before = self@;
        let ret = self.points.remove(point);
        if ret {
            let n = self.children.len();
            let mut i: usize = 0;
            while i < n
                invariant
                    i <= n,
                    n == self.children@.len(),
                    n == before.children.len(),
                    before == old(self)@,
                    before.wf(),
                    p == triple(point.location()),
                    self.points.wf(),
                    self.points@ == before.points.remove(p),
                    self.bounding_box == before.bounding_box,
                    self.splitted == before.splitted,
                    forall|j: int| 0 <= j < n ==> (#[trigger] self.children@[j]).wf(),
                    forall|j: int|
                        0 <= j < i ==> (#[trigger] self.children@[j]).model()
                            == before.children[j].delete(p),
                    forall|j: int|
                        i <= j < n ==> (#[trigger] self.children@[j]).model() == before.children[j],
                decreases n - i,
            {
                proof {
                    lemma_kid_weight(before, i as int);
                }
                let child = &mut self.children[i];
                child.delete(point);
                i = i + 1;
            }
            proof {
                lemma_delete_wf(before, p);
                assert(self.model().children =~= before.delete(p).children);
            }
        } else {
            proof {
                assert(self.points@ =~= before.points);
                assert(self.model().children =~= before.children);
            }
        }
        ret
    }

    /// The points in the tree below this node that `bounding_box` covers.
    /// Nothing is looked at where the node's box does not overlap
    /// `bounding_box`.
    pub fn query(&self, bounding_box: &BoundingBox) -> (r: PointSet<'point, L>)
        requires
            self.wf(),
        ensures
            r.wf(),
            r@ == self@.query(*bounding_box),
        decreases self@.weight(),
    {
        let mut ret: PointSet<'point, L> = PointSet::new();
        if !self.bounding_box.overlaps(bounding_box) {
            return ret;
        }
        let ghost area = *bounding_box;
        let ghost covered = Set::new(|p: Location| area.covers_location(p));
        let kept = self.points.as_vec();
        proof {
            self.points.lemma_elements();
            if kept@.len() > 0 {
                lemma_by_location_take(kept@, 0);
            } else {
                assert(kept@.take(0) =~= kept@);
            }
            assert(ret@ =~= by_location(kept@.take(0)).restrict(covered));
        }
        let mut k: usize = 0;
        while k < kept.len()
            invariant
                k <= kept@.len(),
                ret.wf(),
                locations(kept@).no_duplicates(),
                area == *bounding_box,
                covered == Set::new(|p: Location| area.covers_location(p)),
                ret@ == by_location(kept@.take(k as int)).restrict(covered),
            decreases kept@.len() - k,
        {
            let point = kept[k];
            proof {
                lemma_by_location_take(kept@, k as int);
            }
            if bounding_box.covers(&point.get_location()) {
                ret.insert(point);
            }
            proof {
                assert(ret@ =~= by_location(kept@.take(k + 1)).restrict(covered));
            }
            k = k + 1;
        }
        proof {
            assert(kept@.take(k as int) =~= kept@);
        }
        if self.splitted {
            let mut i: usize = 0;
            while i < 8
                invariant
                    i <= 8,
                    self.wf(),
                    self.splitted,
                    self.children@.len() == 8,
                    ret.wf(),
                    area == *bounding_box,
                    ret@ == self.model().query_upto(area, i as int),
                decreases 8 - i,
            {
                proof {
                    lemma_kid_weight(self.model(), i as int);
                    lemma_query_upto(self.model(), area, i as int);
                    assert(self.model().children[i as int] == self.children@[i as int].model());
                }
                let found = self.children[i].query(bounding_box);
                ret.extend(&found);
                i = i + 1;
            }
        }
        ret
    }

    /// A node with the smallest box that reaches every given point, into
    /// which the points were then inserted in their order.
    pub fn new(points: Vec<&'point L>) -> (r: Self)
        ensures
            r.wf(),
            r@ == NodeModel::built(points@),
    {
        let mut tree_node = Self::leaf(BoundingBox::enclosing(&points));
        let ghost start = tree_node@;
        let mut k: usize = 0;
        while k < points.len()
            invariant
                k <= points@.len(),
                tree_node.wf(),
                tree_node@ == start.filled(points@.take(k as int)),
            decreases points@.len() - k,
        {
            tree_node.insert(points[k]);
            proof {
                assert(points@.take(k + 1).drop_last() =~= points@.take(k as int));
                assert(points@.take(k + 1).last() == points@[k as int]);
            }
            k = k + 1;
        }
        proof {
            assert(points@.take(k as int) =~= points@);
        }
        tree_node
    }

    /// Whether the two trees are alike, node by node.
    pub fn alike(&self, other: &Self) -> (r: bool)
        ensures
            r == self@.alike(other@),
        decreases self,
    {
        if self.children.len() != other.children.len() {
            return false;
        }
        let n = self.children.len();
        let mut i: usize = 0;
        while i < n
            invariant
                i <= n,
                n == self.children@.len(),
                n == other.children@.len(),
                forall|j: int|
                    0 <= j < i ==> (#[trigger] self.model().children[j]).alike(
                        other.model().children[j],
                    ),
            decreases n - i,
        {
            assert(self.model().children[i as int] == self.children@[i as int].model());
            assert(other.model().children[i as int] == other.children@[i as int].model());
            if !self.children[i].alike(&other.children[i]) {
                return false;
            }
            i = i + 1;
        }
        self.bounding_box == other.bounding_box && self.points.same_as(&other.points)
            && self.splitted == other.splitted
    }
}

impl<'point, L: Locatable> PartialEq for TreeNode<'point, L> {
    /// Whether the two trees are alike, node by node.
    fn eq(&self, other: &Self) -> (r: bool) {
        self.alike(other)
    }
}

impl<'point, L: Locatable> PartialEqSpecImpl for TreeNode<'point, L> {
    open spec fn obeys_eq_spec() -> bool {
        true
    }

    open spec fn eq_spec(&self, other: &Self) -> bool {
        self@.alike(other@)
    }
}

impl<'point, L: Locatable> Eq for TreeNode<'point, L> {}

impl<'point, L: Locatable> Default for TreeNode<'point, L> {
    /// A leaf with the box that covers nothing.
    fn default() -> (r: Self)
        ensures
            r.wf(),
            r@ == NodeModel::<L>::leaf(BoundingBox::empty()),
    {
        Self::leaf(BoundingBox::default())
    }
}

} // verus!
