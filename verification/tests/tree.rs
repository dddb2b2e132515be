use std::collections::HashSet;

use octree::node_model::CAPACITY;
use octree::point::Point3D;
use octree::point_set::{same_location, PointSet};
use octree::{BoundingBox, Locatable, Octree, TreeNode};

fn pt(x: f32, y: f32, z: f32) -> Point3D {
    Point3D::new(x.to_bits(), y.to_bits(), z.to_bits())
}

fn bits(x: f32, y: f32, z: f32) -> [u32; 3] {
    [x.to_bits(), y.to_bits(), z.to_bits()]
}

fn floats(a: &[u32; 3]) -> [f32; 3] {
    [f32::from_bits(a[0]), f32::from_bits(a[1]), f32::from_bits(a[2])]
}

fn cube(lo: f32, hi: f32) -> BoundingBox {
    BoundingBox { min: bits(lo, lo, lo), max: bits(hi, hi, hi) }
}

fn found<'a>(set: &PointSet<'a, Point3D>) -> HashSet<&'a Point3D> {
    set.as_vec().iter().copied().collect()
}

/// Nine points inside the cube from 0 to 16, and the two corners that fix it.
fn crowd() -> Vec<Point3D> {
    vec![
        pt(0.0, 0.0, 0.0),
        pt(16.0, 16.0, 16.0),
        pt(1.0, 1.0, 1.0),
        pt(2.0, 2.0, 2.0),
        pt(3.0, 3.0, 3.0),
        pt(4.0, 4.0, 4.0),
        pt(5.0, 5.0, 5.0),
        pt(6.0, 6.0, 6.0),
        pt(7.0, 7.0, 7.0),
        pt(9.0, 1.0, 1.0),
        pt(1.0, 9.0, 9.0),
    ]
}

#[test]
fn test_empty_box_covers_nothing() {
    let empty = BoundingBox::default();
    assert_eq!(floats(empty.get_min()), [f32::MAX; 3]);
    assert_eq!(floats(empty.get_max()), [f32::MIN; 3]);
    assert!(!empty.covers(&bits(0.0, 0.0, 0.0)));
    assert!(!empty.covers(&bits(f32::MAX, f32::MAX, f32::MAX)));
    let none: Vec<&Point3D> = Vec::new();
    assert_eq!(BoundingBox::new(none), empty);
}

#[test]
fn test_box_of_one_point_covers_nothing() {
    let point = pt(1.0, 2.0, 3.0);
    let bounding_box = BoundingBox::new(vec![&point]);
    assert_eq!(floats(bounding_box.get_min()), [1.0, 2.0, 3.0]);
    assert_eq!(floats(bounding_box.get_max()), [1.0, 2.0, 3.0]);
    assert!(!bounding_box.covers(&point.get_location()));
}

#[test]
fn test_box_passes_over_nan() {
    let point1 = pt(f32::NAN, 1.0, 1.0);
    let point2 = pt(2.0, f32::NAN, 3.0);
    let bounding_box = BoundingBox::new(vec![&point1, &point2]);
    assert_eq!(floats(bounding_box.get_min()), [2.0, 1.0, 1.0]);
    assert_eq!(floats(bounding_box.get_max()), [2.0, 1.0, 3.0]);
    assert!(!cube(0.0, 10.0).covers(&point1.get_location()));
}

#[test]
fn test_covers_is_half_open_on_each_axis() {
    let bounding_box = cube(0.0, 10.0);
    assert!(bounding_box.covers(&bits(0.0, 9.0, 0.0)));
    assert!(bounding_box.covers(&bits(-0.0, 0.0, 0.0)));
    assert!(!bounding_box.covers(&bits(10.0, 0.0, 0.0)));
    assert!(!bounding_box.covers(&bits(0.0, 10.0, 0.0)));
    assert!(!bounding_box.covers(&bits(0.0, 0.0, 10.0)));
    assert!(!bounding_box.covers(&bits(-1.0, 0.0, 0.0)));
    assert!(!bounding_box.covers(&bits(f32::NAN, 0.0, 0.0)));
}

#[test]
fn test_overlaps_samples_the_corners_of_the_other_box() {
    let large = cube(0.0, 10.0);
    let small = cube(4.0, 6.0);
    assert!(large.overlaps(&small));
    // No corner of the large box lies in the small one.
    assert!(!small.overlaps(&large));
    // Only the last corner of the other box lies inside.
    let low = BoundingBox { min: bits(-5.0, -5.0, -5.0), max: bits(1.0, 1.0, 1.0) };
    assert!(large.overlaps(&low));
    // The maximum corner itself is not covered.
    let touching = BoundingBox { min: bits(10.0, 10.0, 10.0), max: bits(20.0, 20.0, 20.0) };
    assert!(!large.overlaps(&touching));
}

#[test]
fn test_centre_exact_values() {
    let bounding_box = BoundingBox { min: bits(1.0, -3.0, 0.0), max: bits(2.0, 1.0, 0.25) };
    assert_eq!(floats(&bounding_box.get_centre()), [1.5, -1.0, 0.125]);
    assert_eq!(floats(&BoundingBox::default().get_centre()), [0.0; 3]);
    let huge = cube(f32::MAX, f32::MAX);
    assert_eq!(floats(&huge.get_centre()), [f32::INFINITY; 3]);
}

#[test]
fn test_octants_tile_the_box() {
    let bounding_box = cube(0.0, 10.0);
    let octants = bounding_box.split();
    let steps = [-1.0f32, 0.0, 2.5, 4.999, 5.0, 7.5, 9.999, 10.0, 11.0];
    for &x in steps.iter() {
        for &y in steps.iter() {
            for &z in steps.iter() {
                let p = bits(x, y, z);
                let covering: Vec<usize> = (0..8).filter(|&i| octants[i].covers(&p)).collect();
                if bounding_box.covers(&p) {
                    let index = (x >= 5.0) as usize + 2 * (y >= 5.0) as usize
                        + 4 * (z >= 5.0) as usize;
                    assert_eq!(covering, vec![index]);
                } else {
                    assert!(covering.is_empty());
                }
            }
        }
    }
}

#[test]
fn test_box_equality_is_by_number() {
    let positive = BoundingBox { min: bits(0.0, 0.0, 0.0), max: bits(1.0, 1.0, 1.0) };
    let negative = BoundingBox { min: bits(-0.0, 0.0, 0.0), max: bits(1.0, 1.0, 1.0) };
    assert_eq!(positive, negative);
    let undefined = BoundingBox { min: bits(f32::NAN, 0.0, 0.0), max: bits(1.0, 1.0, 1.0) };
    assert_ne!(undefined, undefined);
    assert_ne!(positive, cube(0.0, 2.0));
}

#[test]
fn test_same_location_compares_patterns() {
    assert!(same_location(&bits(1.0, 2.0, 3.0), &bits(1.0, 2.0, 3.0)));
    assert!(!same_location(&bits(0.0, 2.0, 3.0), &bits(-0.0, 2.0, 3.0)));
    assert!(same_location(&bits(f32::NAN, 2.0, 3.0), &bits(f32::NAN, 2.0, 3.0)));
    assert!(!same_location(&bits(1.0, 2.0, 3.0), &bits(1.0, 2.0, 4.0)));
}

#[test]
fn test_point_set_holds_each_location_once() {
    let point1 = pt(1.0, 2.0, 3.0);
    let twin = pt(1.0, 2.0, 3.0);
    let point2 = pt(0.0, 0.0, 0.0);
    let point3 = pt(-0.0, 0.0, 0.0);
    let mut set = PointSet::new();
    assert_eq!(set.len(), 0);
    assert!(set.insert(&point1));
    assert!(!set.insert(&twin));
    assert_eq!(set.len(), 1);
    assert!(std::ptr::eq(set.as_vec()[0], &point1));
    assert!(set.insert(&point2));
    assert!(set.insert(&point3));
    assert_eq!(set.len(), 3);
    assert!(set.contains(&twin));
    assert!(set.remove(&twin));
    assert!(!set.remove(&twin));
    assert!(!set.contains(&point1));
    assert_eq!(set.len(), 2);
}

#[test]
fn test_point_set_union_and_comparison() {
    let point1 = pt(1.0, 0.0, 0.0);
    let point2 = pt(2.0, 0.0, 0.0);
    let point3 = pt(3.0, 0.0, 0.0);
    let mut left = PointSet::new();
    left.insert(&point1);
    left.insert(&point2);
    let mut right = PointSet::new();
    right.insert(&point3);
    right.insert(&point2);
    assert!(!left.same_as(&right));
    assert!(!left.is_subset(&right));
    left.extend(&right);
    assert_eq!(left.len(), 3);
    assert!(right.is_subset(&left));
    assert!(!left.is_subset(&right));
    right.insert(&point1);
    assert!(left.same_as(&right));
}

#[test]
fn test_tree_without_points() {
    let none: Vec<&Point3D> = Vec::new();
    let mut octree = Octree::new(none);
    assert_eq!(octree, Octree::default());
    let point = pt(0.0, 0.0, 0.0);
    assert!(!octree.covers(&point));
    assert!(!octree.insert(&point));
    assert!(!octree.contains(&point));
    assert!(!octree.delete(&point));
    assert_eq!(octree, Octree::default());
    assert!(octree.query(&cube(-1.0, 1.0)).as_vec().is_empty());
}

#[test]
fn test_insert_outside_is_rejected_and_changes_nothing() {
    let points = crowd();
    let mut octree = Octree::new(points.iter().collect());
    let untouched = Octree::new(points.iter().collect());
    let outside = pt(20.0, 20.0, 20.0);
    let corner = pt(16.0, 16.0, 16.0);
    assert!(!octree.insert(&outside));
    assert!(!octree.insert(&corner));
    assert_eq!(octree, untouched);
}

#[test]
fn test_full_node_splits_and_hands_on() {
    let points = crowd();
    let tree_node = TreeNode::new(points.iter().collect());
    // The corner at 16 is not covered; the next eight points fill the node.
    assert!(tree_node.is_splitted());
    assert_eq!(tree_node.get_points().len(), CAPACITY);
    let kept = found(tree_node.get_points());
    for point in points[2..9].iter() {
        assert!(kept.contains(point));
    }
    assert!(kept.contains(&points[0]));
    assert!(!kept.contains(&points[9]));
    let children = tree_node.get_children().unwrap();
    assert_eq!(children.len(), 8);
    let octants = tree_node.get_bounding_box().split();
    for i in 0..8 {
        assert_eq!(*children[i].get_bounding_box(), octants[i]);
        assert!(!children[i].is_splitted());
    }
    // (9, 1, 1) lies in the octant that is high on the first axis only,
    // (1, 9, 9) in the one that is high on the second and third.
    assert_eq!(found(children[1].get_points()), HashSet::from([&points[9]]));
    assert_eq!(found(children[6].get_points()), HashSet::from([&points[10]]));
    for i in [0, 2, 3, 4, 5, 7] {
        assert_eq!(children[i].get_points().len(), 0);
    }
}

#[test]
fn test_contains_looks_at_the_root_only() {
    let points = crowd();
    let octree = Octree::new(points.iter().collect());
    assert!(octree.contains(&points[0]));
    assert!(octree.contains(&points[8]));
    assert!(!octree.contains(&points[9]));
    assert!(!octree.contains(&points[1]));
}

#[test]
fn test_insert_again_adds_nothing() {
    let point1 = pt(0.0, 0.0, 0.0);
    let point2 = pt(10.0, 10.0, 10.0);
    let point3 = pt(5.0, 5.0, 5.0);
    let twin = pt(5.0, 5.0, 5.0);
    let points = vec![point1, point2];
    let mut octree = Octree::new(points.iter().collect());
    assert!(octree.insert(&point3));
    assert_eq!(octree.get_root().get_points().len(), 2);
    let once = Octree::new(vec![&points[0], &points[1], &point3]);
    assert!(octree.insert(&twin));
    assert!(octree.insert(&point3));
    assert_eq!(octree.get_root().get_points().len(), 2);
    assert_eq!(octree, once);
}

#[test]
fn test_delete_of_absent_point_changes_nothing() {
    let points = crowd();
    let mut octree = Octree::new(points.iter().collect());
    let untouched = Octree::new(points.iter().collect());
    // Kept by a child, not by the root: the root does not find it.
    assert!(!octree.delete(&points[9]));
    let never = pt(100.0, 100.0, 100.0);
    assert!(!octree.delete(&never));
    assert_eq!(octree, untouched);
}

#[test]
fn test_delete_reaches_the_children() {
    let points = crowd();
    let mut octree = Octree::new(points.iter().collect());
    // Make room at the root, then store a point that a child keeps too.
    assert!(octree.delete(&points[2]));
    assert!(octree.insert(&points[9]));
    assert!(octree.contains(&points[9]));
    let children = octree.get_root().get_children().unwrap();
    assert!(children[1].contains(&points[9]));
    // An area with one corner in the root's box and one in that child's.
    let area = BoundingBox { min: bits(0.5, 0.5, 0.5), max: bits(9.5, 20.0, 20.0) };
    let all = octree.query(&area);
    // The point is found at the root and in the child, and reported once.
    assert_eq!(all.len(), 7);
    assert!(found(&all).contains(&points[9]));
    assert!(octree.delete(&points[9]));
    assert!(!octree.contains(&points[9]));
    let children = octree.get_root().get_children().unwrap();
    assert!(!children[1].contains(&points[9]));
    assert_eq!(octree.query(&area).len(), 6);
    // The tree stays split.
    assert!(octree.get_root().is_splitted());
}

#[test]
fn test_query_collects_from_root_and_children() {
    let points = crowd();
    let octree = Octree::new(points.iter().collect());
    // One corner of the area lies in the root's box, and one in the octant
    // that is high on the first axis only.
    let area = BoundingBox { min: bits(0.5, 0.5, 0.5), max: bits(9.5, 20.0, 20.0) };
    let want: HashSet<&Point3D> = points[2..10].iter().collect();
    assert_eq!(found(&octree.query(&area)), want);
    // (1, 9, 9) is covered by the area, but no corner of the area lies in
    // the octant that keeps it, so that octant is not looked at.
    assert!(area.covers(&points[10].get_location()));
    let high = BoundingBox { min: bits(0.5, 8.5, 8.5), max: bits(20.0, 20.0, 20.0) };
    assert_eq!(found(&octree.query(&high)), HashSet::from([&points[10]]));
    // The corner (0, 10, 10) of this area lies in that octant.
    let low = BoundingBox { min: bits(0.0, 0.0, 0.0), max: bits(3.5, 10.0, 10.0) };
    assert_eq!(
        found(&octree.query(&low)),
        HashSet::from([&points[0], &points[2], &points[3], &points[4], &points[10]])
    );
}

#[test]
fn test_query_gives_up_where_no_corner_is_inside() {
    let points = crowd();
    let octree = Octree::new(points.iter().collect());
    // The tree's box lies strictly inside the area: none of the area's
    // corners is covered by the tree's box, and nothing is looked at.
    let around = cube(-100.0, 100.0);
    assert!(!octree.overlaps(&around));
    assert!(octree.query(&around).as_vec().is_empty());
}

#[test]
fn test_split_without_a_child_that_covers() {
    let low = pt(f32::NEG_INFINITY, f32::NEG_INFINITY, f32::NEG_INFINITY);
    let high = pt(f32::INFINITY, f32::INFINITY, f32::INFINITY);
    let mut points = vec![low, high];
    for i in 0..8 {
        points.push(pt(i as f32, 0.0, 0.0));
    }
    let late = pt(100.0, 0.0, 0.0);
    let mut octree = Octree::new(points.iter().collect());
    // The lower corner and seven points fill the root; the eighth found no
    // child to take it, since the centre of this box is not a number.
    assert_eq!(octree.get_root().get_points().len(), CAPACITY);
    assert!(octree.get_root().is_splitted());
    assert!(octree.covers(&late));
    assert!(!octree.insert(&late));
    let whole = octree.get_root().get_bounding_box().clone();
    assert_eq!(octree.query(&whole).len(), CAPACITY);
}

#[test]
fn test_zeros_are_different_locations() {
    let corner1 = pt(-1.0, -1.0, -1.0);
    let corner2 = pt(1.0, 1.0, 1.0);
    let positive = pt(0.0, 0.0, 0.0);
    let negative = pt(-0.0, 0.0, 0.0);
    let mut octree = Octree::new(vec![&corner1, &corner2]);
    assert!(octree.insert(&positive));
    assert!(octree.insert(&negative));
    assert_eq!(octree.get_root().get_points().len(), 3);
    assert!(octree.contains(&negative));
    assert!(octree.delete(&negative));
    assert!(octree.contains(&positive));
    assert!(!octree.contains(&negative));
}

#[test]
fn test_trees_differ_where_a_child_differs() {
    let points = crowd();
    let mut octree1 = Octree::new(points.iter().collect());
    let octree2 = Octree::new(points.iter().collect());
    assert_eq!(octree1, octree2);
    let extra = pt(15.0, 15.0, 15.0);
    assert!(octree1.insert(&extra));
    assert_ne!(octree1, octree2);
    let shorter = Octree::new(points[..9].iter().collect());
    assert_ne!(shorter, octree2);
}

fn count(node: &TreeNode<Point3D>) -> usize {
    let own = node.get_points().len();
    match node.get_children() {
        Some(children) => own + children.iter().map(count).sum::<usize>(),
        None => own,
    }
}

fn depth(node: &TreeNode<Point3D>) -> usize {
    match node.get_children() {
        Some(children) => 1 + children.iter().map(depth).max().unwrap(),
        None => 0,
    }
}

#[test]
fn test_grid_of_points_is_stored_once_each() {
    let mut points = vec![pt(16.0, 16.0, 16.0)];
    for x in 0..16 {
        for y in 0..16 {
            for z in 0..16 {
                points.push(pt(x as f32, y as f32, z as f32));
            }
        }
    }
    let mut octree = Octree::new(points.iter().collect());
    assert_eq!(count(octree.get_root()), 4096);
    assert!(depth(octree.get_root()) >= 3);
    for point in points[1..].iter() {
        assert!(octree.covers(point));
    }
    // Every node keeps at most eight points.
    fn check(node: &TreeNode<Point3D>) {
        assert!(node.get_points().len() <= CAPACITY);
        if let Some(children) = node.get_children() {
            assert_eq!(children.len(), 8);
            children.iter().for_each(check);
        }
    }
    check(octree.get_root());
    // The first eight points stay at the root; one of them can be deleted and found gone.
    assert!(octree.contains(&points[1]));
    assert!(octree.delete(&points[1]));
    assert_eq!(count(octree.get_root()), 4095);
    // A point of the lowest octant is found by a query that starts at the origin.
    let area = BoundingBox { min: bits(0.0, 0.0, 0.0), max: bits(1.5, 1.5, 1.5) };
    let near = found(&octree.query(&area));
    assert!(near.contains(&pt(1.0, 1.0, 1.0)));
    assert!(near.iter().all(|p| f32::from_bits(p.x) < 1.5));
}

#[test]
fn test_large_result_sets() {
    let mut points = Vec::new();
    for i in 0..20_000u32 {
        points.push(pt(i as f32, (i % 7) as f32, (i % 13) as f32));
    }
    let mut set = PointSet::new();
    for point in points.iter() {
        assert!(set.insert(point));
    }
    for point in points.iter() {
        assert!(!set.insert(point));
        assert!(set.contains(point));
    }
    let mut other = PointSet::new();
    other.extend(&set);
    assert_eq!(other.len(), 20_000);
}

fn stores(node: &TreeNode<Point3D>, point: &Point3D) -> bool {
    node.contains(point)
        || match node.get_children() {
            Some(children) => children.iter().any(|child| stores(child, point)),
            None => false,
        }
}

#[test]
fn test_insert_finds_a_place_for_what_the_box_covers() {
    let corners = vec![pt(-8.0, -8.0, -8.0), pt(8.0, 8.0, 8.0)];
    let mut octree = Octree::new(corners.iter().collect());
    let mut candidates = Vec::new();
    let mut state: u32 = 12345;
    for _ in 0..2000 {
        let mut coordinate = || {
            state = state.wrapping_mul(1664525).wrapping_add(1013904223);
            ((state >> 8) % 2100) as f32 / 100.0 - 10.5
        };
        candidates.push(pt(coordinate(), coordinate(), coordinate()));
    }
    let mut accepted = 1;
    for point in candidates.iter() {
        let covered = octree.covers(point);
        let known = stores(octree.get_root(), point);
        assert_eq!(octree.insert(point), covered);
        assert_eq!(stores(octree.get_root(), point), covered || known);
        if covered && !known {
            accepted += 1;
        }
    }
    assert_eq!(count(octree.get_root()), accepted);
    assert!(accepted > 500);
}

#[test]
fn test_delete_leaves_other_points_alone() {
    let points = crowd();
    let mut octree = Octree::new(points.iter().collect());
    assert!(octree.delete(&points[4]));
    assert!(!stores(octree.get_root(), &points[4]));
    for (i, point) in points.iter().enumerate() {
        if i != 1 && i != 4 {
            assert!(stores(octree.get_root(), point));
        }
    }
    assert_eq!(count(octree.get_root()), 9);
}
