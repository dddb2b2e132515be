//! The tree as its users see it.

use vstd::prelude::*;
use vstd::std_specs::cmp::PartialEqSpecImpl;
use crate::bounding_box::BoundingBox;
use crate::location::{Locatable, triple};
use crate::node_model::NodeModel;
use crate::point_set::PointSet;
use crate::tree_node::TreeNode;

verus! {

/// An octree: a root node whose box was fixed when the tree was built. The
/// tree holds references to the points, which must outlive it.
#[derive(Debug)]
pub struct Octree<'point, L: Locatable> {
    root: TreeNode<'point, L>,
}

impl<'point, L: Locatable> View for Octree<'point, L> {
    type V = NodeModel<L>;

    /// The root and all below it.
    closed spec fn view(&self) -> NodeModel<L> {
        self.root@
    }
}

impl<'point, L: Locatable> Octree<'point, L> {
    /// The root is well formed.
    #[verifier::type_invariant]
    spec fn inv(&self) -> bool {
        self.root.wf()
    }

    /// A tree whose box is the smallest that reaches every given point, into
    /// which the points were then inserted in their order.
    pub fn new(points: Vec<&'point L>) -> (r: Self)
        ensures
            r@.wf(),
            r@ == NodeModel::built(points@),
    {
        let root = TreeNode::new(points);
        proof {
            root.lemma_wf();
        }
        Self { root }
    }

    /// Inserts `point` and says whether it found a place. A point that the
    /// tree's box does not cover is rejected, and nothing changes.
    pub fn insert(&mut self, point: &'point L) -> (r: bool)
        ensures
            final(self)@.wf(),
            final(self)@ == old(self)@.insert(*point),
            r == old(self)@.accepts(triple(point.location())),
    {
        proof {
            use_type_invariant(&*self);
        }
        let mut root = TreeNode::default();
        std::mem::swap(&mut root, &mut self.root);
        let r = root.insert(point);
        proof {
            root.lemma_wf();
        }
        self.root = root;
        r
    }

    /// Deletes the point at the place of `point` and says whether the root
    /// kept one. Where it kept none, nothing changes.
    pub fn delete(&mut self, point: &'point L) -> (r: bool)
        ensures
            final(self)@.wf(),
            final(self)@ == old(self)@.delete(triple(point.location())),
            r == old(self)@.holds(triple(point.location())),
    {
        proof {
            use_type_invariant(&*self);
        }
        let mut root = TreeNode::default();
        std::mem::swap(&mut root, &mut self.root);
        let r = root.delete(point);
        proof {
            root.lemma_wf();
        }
        self.root = root;
        r
    }

    /// The points in the tree that `bounding_box` covers.
    pub fn query(&self, bounding_box: &BoundingBox) -> (r: PointSet<'point, L>)
        ensures
            r.wf(),
            r@ == self@.query(*bounding_box),
    {
        proof {
            use_type_invariant(self);
        }
        self.root.query(bounding_box)
    }

    /// Whether the root keeps a point at the place of `point`.
    pub fn contains(&self, point: &L) -> (r: bool)
        ensures
            r == self@.holds(triple(point.location())),
    {
        proof {
            use_type_invariant(self);
        }
        self.root.contains(point)
    }

    /// Whether the tree's box covers the place of `point`.
    pub fn covers(&self, point: &L) -> (r: bool)
        ensures
            r == self@.bounding_box.covers_location(triple(point.location())),
    {
        self.root.covers(point)
    }

    /// Whether the tree's box overlaps `bounding_box`.
    pub fn overlaps(&self, bounding_box: &BoundingBox) -> (r: bool)
        ensures
            r == self@.bounding_box.overlaps(bounding_box),
    {
        self.root.overlaps(bounding_box)
    }

    /// The root node.
    pub fn get_root(&self) -> (r: &TreeNode<'point, L>)
        ensures
            r@ == self@,
            r.wf(),
            self@.wf(),
    {
        proof {
            use_type_invariant(self);
            self.root.lemma_wf();
        }
        &self.root
    }
}

impl<'point, L: Locatable> Default for Octree<'point, L> {
    /// The tree with the box that covers nothing.
    fn default() -> (r: Self)
        ensures
            r@ == NodeModel::<L>::leaf(BoundingBox::empty()),
    {
        Self { root: TreeNode::default() }
    }
}

impl<'point, L: Locatable> PartialEq for Octree<'point, L> {
    /// Whether the two trees are alike, node by node.
    fn eq(&self, other: &Self) -> (r: bool) {
        self.root == other.root
    }
}

impl<'point, L: Locatable> PartialEqSpecImpl for Octree<'point, L> {
    open spec fn obeys_eq_spec() -> bool {
        true
    }

    open spec fn eq_spec(&self, other: &Self) -> bool {
        self@.alike(other@)
    }
}

impl<'point, L: Locatable> Eq for Octree<'point, L> {}

} // verus!
