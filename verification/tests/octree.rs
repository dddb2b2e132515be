use std::collections::HashSet;

use octree::point::Point3D;
use octree::{BoundingBox, Locatable, Octree, TreeNode};

fn pt(x: f32, y: f32, z: f32) -> Point3D {
    Point3D::new(x.to_bits(), y.to_bits(), z.to_bits())
}

fn floats(a: &[u32; 3]) -> [f32; 3] {
    [f32::from_bits(a[0]), f32::from_bits(a[1]), f32::from_bits(a[2])]
}

#[test]
/// Should construct bounding box with the specified min and max corner.
fn test_bounding_box_construction() {
    let point1 = pt(10.0, 0.0, 0.0);
    let point2 = pt(0.0, -1.0, 0.0);
    let point3 = pt(0.0, 0.0, 5.0);
    let bounding_box = BoundingBox::new(vec![point1, point2, point3].iter().collect());

    assert_eq!(floats(bounding_box.get_min()), [0.0, -1.0, 0.0]);
    assert_eq!(floats(bounding_box.get_max()), [10.0, 0.0, 5.0]);
}

#[test]
/// Should identify if a point is covered by this area.
/// Note that the bounding box covers min surface but does not cover max surface.
fn test_bounding_box_covers() {
    let point1 = pt(0.0, 0.0, 0.0);
    let point2 = pt(10.0, 10.0, 10.0);
    let bounding_box = BoundingBox::new(vec![point1.clone(), point2.clone()].iter().collect());
    let point3 = pt(5.0, 5.0, 5.0);
    let point4 = pt(10.0, 11.0, 9.0);

    assert!(bounding_box.covers(&point1.get_location()));
    assert!(!bounding_box.covers(&point2.get_location()));
    assert!(bounding_box.covers(&point3.get_location()));
    assert!(!bounding_box.covers(&point4.get_location()));
}

#[test]
/// Should identify if two bounding boxes overlaps / intersects.
fn test_bounding_box_overlaps() {
    let point1 = pt(0.0, 0.0, 0.0);
    let point2 = pt(10.0, 10.0, 10.0);
    let bounding_box1 = BoundingBox::new(vec![point1, point2].iter().collect());

    let point3 = pt(1.0, 1.0, 1.0);
    let point4 = pt(11.0, 11.0, 11.0);
    let bounding_box2 = BoundingBox::new(vec![point3, point4].iter().collect());

    let point5 = pt(1.0, 1.0, 1.0);
    let point6 = pt(9.0, 9.0, 9.0);
    let bounding_box3 = BoundingBox::new(vec![point5, point6].iter().collect());

    let point7 = pt(11.0, 0.0, 0.0);
    let point8 = pt(20.0, 20.0, 20.0);
    let bounding_box4 = BoundingBox::new(vec![point7, point8].iter().collect());

    assert!(bounding_box1.overlaps(&bounding_box2));
    assert!(bounding_box1.overlaps(&bounding_box3));
    assert!(!bounding_box1.overlaps(&bounding_box4));
}

#[test]
/// Should correctly calculate bounding box centre coordination.
fn test_bounding_box_centre() {
    let point1 = pt(0.0, 0.0, 0.0);
    let point2 = pt(10.0, 10.0, 10.0);
    let bounding_box = BoundingBox::new(vec![point1, point2].iter().collect());

    assert_eq!(floats(&bounding_box.get_centre()), [5.0; 3]);
}

#[test]
/// Should split the current bounding box into 8 smaller bounding boxes.
fn test_bounding_box_split() {
    let point1 = pt(0.0, 0.0, 0.0);
    let point2 = pt(10.0, 10.0, 10.0);
    let bounding_box = BoundingBox::new(vec![point1, point2].iter().collect());

    let splitted = bounding_box.split();

    // u: up, d: down, f: front, b: back, l: left, r: right.
    // order: dfl, dfr, dbl, dbr, ufl, ufr, ubl, ubr.

    // dfl
    assert_eq!(floats(&splitted[0].min), [0.0, 0.0, 0.0]);
    assert_eq!(floats(&splitted[0].max), [5.0, 5.0, 5.0]);

    // dfr
    assert_eq!(floats(&splitted[1].min), [5.0, 0.0, 0.0]);
    assert_eq!(floats(&splitted[1].max), [10.0, 5.0, 5.0]);

    // dbl
    assert_eq!(floats(&splitted[2].min), [0.0, 5.0, 0.0]);
    assert_eq!(floats(&splitted[2].max), [5.0, 10.0, 5.0]);

    // dbr
    assert_eq!(floats(&splitted[3].min), [5.0, 5.0, 0.0]);
    assert_eq!(floats(&splitted[3].max), [10.0, 10.0, 5.0]);

    // ufl
    assert_eq!(floats(&splitted[4].min), [0.0, 0.0, 5.0]);
    assert_eq!(floats(&splitted[4].max), [5.0, 5.0, 10.0]);

    // ufr
    assert_eq!(floats(&splitted[5].min), [5.0, 0.0, 5.0]);
    assert_eq!(floats(&splitted[5].max), [10.0, 5.0, 10.0]);

    // ubl
    assert_eq!(floats(&splitted[6].min), [0.0, 5.0, 5.0]);
    assert_eq!(floats(&splitted[6].max), [5.0, 10.0, 10.0]);

    // ubr
    assert_eq!(floats(&splitted[7].min), [5.0, 5.0, 5.0]);
    assert_eq!(floats(&splitted[7].max), [10.0, 10.0, 10.0]);
}

#[test]
/// Should construct a tree node with default settings.
fn test_tree_node_default_construction() {
    let tree_node: TreeNode<Point3D> = TreeNode::default();
    assert!(tree_node.get_children().is_none());
    assert_eq!(floats(tree_node.get_bounding_box().get_min()), [f32::MAX; 3]);
    assert_eq!(floats(tree_node.get_bounding_box().get_max()), [f32::MIN; 3]);
    assert_eq!(*tree_node.get_bounding_box(), BoundingBox::default());
    assert!(tree_node.get_points().as_vec().is_empty());
    assert_eq!(tree_node.capacity(), 8);
    assert!(!tree_node.is_splitted());
}

#[test]
/// Should construct a tree node and do not further split.
fn test_tree_node_construction_no_split() {
    let point1 = pt(0.0, 0.0, 0.0);
    let point2 = pt(10.0, 10.0, 10.0);
    let points = vec![point1.clone(), point2];
    let point_references: Vec<&Point3D> = points.iter().collect();
    let tree_node = TreeNode::new(point_references.clone());

    assert!(tree_node.get_children().is_none());
    assert_eq!(floats(&tree_node.get_bounding_box().min), [0.0, 0.0, 0.0]);
    assert_eq!(floats(&tree_node.get_bounding_box().max), [10.0, 10.0, 10.0]);
    let kept: HashSet<&Point3D> = tree_node.get_points().as_vec().iter().copied().collect();
    assert_eq!(kept, HashSet::from([&point1]));
    assert_eq!(tree_node.capacity(), 8);
    assert!(!tree_node.is_splitted());
}

#[test]
/// Should construct an octree with default settings.
fn test_octree_default_construction() {
    let octree: Octree<Point3D> = Octree::default();

    assert_eq!(*octree.get_root(), TreeNode::default());
}

#[test]
/// Should construct an octree from some given points.
fn test_octree_construction() {
    let point1 = pt(0.0, 0.0, 0.0);
    let point2 = pt(10.0, 10.0, 10.0);
    let points = vec![point1, point2];
    let octree = Octree::new(points.iter().collect());
    let tree_node = TreeNode::new(points.iter().collect());

    assert_eq!(*octree.get_root(), tree_node);
}

#[test]
/// Should insert a point into octree if the octree covers it, and does nothing if not.
fn test_octree_insert() {
    let point1 = pt(0.0, 0.0, 0.0);
    let point2 = pt(10.0, 10.0, 10.0);
    let point3 = pt(5.0, 5.0, 5.0);
    let points = vec![point1.clone(), point2.clone()];
    let mut octree1 = Octree::new(points.iter().collect());
    octree1.insert(&point3);
    let all_points = vec![point1, point2, point3.clone()];
    let octree2 = Octree::new(all_points.iter().collect());

    assert_eq!(octree1, octree2);

    let point4 = pt(20.0, 20.0, 20.0);
    octree1.insert(&point4);

    assert_eq!(octree1, octree2);
}

#[test]
/// Should delete a point from octree if the point is recorded, and does nothing if not.
fn test_octree_delete() {
    let point1 = pt(0.0, 0.0, 0.0);
    let point2 = pt(5.0, 5.0, 5.0);
    let point3 = pt(10.0, 10.0, 10.0);
    let points = vec![point1.clone(), point3.clone()];
    let all_points = vec![point1, point2.clone(), point3];
    let mut octree1 = Octree::new(all_points.iter().collect());
    octree1.delete(&point2);
    let octree2 = Octree::new(points.iter().collect());

    assert_eq!(octree1, octree2);

    let point4 = pt(100.0, 100.0, 100.0);
    octree1.delete(&point4);

    assert_eq!(octree1, octree2);
}

#[test]
/// Should correctly identify if a point can be covered by a octree.
fn test_octree_covers() {
    let point1 = pt(0.0, 0.0, 0.0);
    let point2 = pt(5.0, 5.0, 5.0);
    let points = vec![point1, point2];
    let octree = Octree::new(points.iter().collect());
    let point3 = pt(10.0, 10.0, 10.0);
    let point4 = pt(2.0, 2.0, 2.0);

    assert!(octree.covers(&point4));
    assert!(!octree.covers(&point3));
}

#[test]
/// Should correctly identify if a point is recorded.
fn test_octree_contains() {
    let point1 = pt(0.0, 0.0, 0.0);
    let point2 = pt(5.0, 5.0, 5.0);
    let points = vec![point1.clone(), point2.clone()];
    let octree = Octree::new(points.iter().collect());
    let point3 = pt(2.0, 2.0, 2.0);

    assert!(octree.contains(&point1));
    // Because the bounding box contains the min surface but does not contain the max surface.
    assert!(!octree.contains(&point2));
    assert!(!octree.contains(&point3));
}

#[test]
/// Should find all points within the given query area.
fn test_octree_query() {
    let point1 = pt(0.0, 0.0, 0.0);
    let point2 = pt(10.0, 10.0, 10.0);
    let point3 = pt(4.0, 4.0, 4.0);
    let points = vec![point1.clone(), point2];
    let mut octree = Octree::new(points.iter().collect());
    let point4 = pt(5.0, 10.0, 5.0);
    octree.insert(&point3);
    octree.insert(&point4);

    let points_for_query = vec![point1.clone(), point4.clone()];
    let bounding_box = BoundingBox::new(points_for_query.iter().collect());

    let found: HashSet<&Point3D> = octree.query(&bounding_box).as_vec().iter().copied().collect();
    assert_eq!(found, HashSet::from([&point1, &point3]));
}

#[test]
/// Should identify if a bounding boxes overlaps / intersects with an octree.
fn test_octree_overlap() {
    let point1 = pt(0.0, 0.0, 0.0);
    let point2 = pt(10.0, 10.0, 10.0);
    let points = vec![point1, point2];
    let octree = Octree::new(points.iter().collect());

    let point3 = pt(1.0, 1.0, 1.0);
    let point4 = pt(11.0, 11.0, 11.0);
    let bounding_box1 = BoundingBox::new(vec![point3, point4].iter().collect());

    let point5 = pt(1.0, 1.0, 1.0);
    let point6 = pt(9.0, 9.0, 9.0);
    let bounding_box2 = BoundingBox::new(vec![point5, point6].iter().collect());

    let point7 = pt(11.0, 0.0, 0.0);
    let point8 = pt(20.0, 20.0, 20.0);
    let bounding_box3 = BoundingBox::new(vec![point7, point8].iter().collect());

    assert!(octree.overlaps(&bounding_box1));
    assert!(octree.overlaps(&bounding_box2));
    assert!(!octree.overlaps(&bounding_box3));
}
