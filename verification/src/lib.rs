//! An octree over points in three dimensions.
//!
//! Coordinates are IEEE 754 binary32 numbers, held as their 32-bit patterns:
//! patterns are compared as the numbers they denote, and the centre of a box
//! is computed with the rounding of the standard, in integer arithmetic.
//!
//! Every operation of the tree is specified over a mathematical model. A
//! [`BoundingBox`] is a half-open region. A [`TreeNode`] is a
//! [`node_model::NodeModel`]: the values kept at the node, each at its
//! location, and eight children once the node has split. An [`Octree`] is
//! its root. The tree holds references to the values and never copies them.

pub mod binary32;
pub mod rounding;
pub mod midpoint;
pub mod between;
pub mod location;
pub mod bounding_box;
pub mod point;
pub mod point_set;
pub mod node_model;
pub mod tree_node;
pub mod octree;

pub use crate::bounding_box::BoundingBox;
pub use crate::location::Locatable;
pub use crate::octree::Octree;
pub use crate::tree_node::TreeNode;
