use std::collections::HashSet;

use octree::point::Point3D;
use octree::Locatable;

fn pt(x: f32, y: f32, z: f32) -> Point3D {
    Point3D::new(x.to_bits(), y.to_bits(), z.to_bits())
}

#[test]
/// Should correctly construct a point from given coordinate.
fn test_point3d_construction() {
    let point = pt(0.0, 1.0, 2.0);
    assert_eq!(f32::from_bits(point.x), 0.0);
    assert_eq!(f32::from_bits(point.y), 1.0);
    assert_eq!(f32::from_bits(point.z), 2.0);
}

#[test]
/// Should be locatable.
fn test_point3d_locatable() {
    let point = pt(0.0, 1.0, 2.0);
    let location = point.get_location();
    assert_eq!(
        [f32::from_bits(location[0]), f32::from_bits(location[1]), f32::from_bits(location[2])],
        [0.0, 1.0, 2.0]
    );
}

#[test]
/// Should be able to determine if two points are equal, e.g., they have the same coordination.
fn test_point3d_equal() {
    let point1 = pt(0.0, 1.0, 2.0);
    let point2 = pt(0.0, 1.0, 2.0);
    let point3 = pt(0.0, 0.0, 0.0);

    assert!(point1.eq(&point2));
    assert_eq!(&point1, &point2);

    assert!(point1.ne(&point3));
    assert_ne!(&point2, &point3);
}

#[test]
/// Should be able to be stored in a [HashSet]
fn test_point3d_hash() {
    let point1 = pt(0.0, 1.0, 2.0);
    let point2 = pt(0.0, 1.0, 2.0);
    let point3 = pt(0.0, 0.0, 0.0);

    let set: HashSet<&Point3D> = vec![&point1].into_iter().collect();
    assert!(set.contains(&point2));
    assert!(!set.contains(&point3));
}

#[test]
fn test_point3d_default_is_origin() {
    assert_eq!(Point3D::default(), pt(0.0, 0.0, 0.0));
}

#[test]
fn test_point3d_equality_is_by_pattern() {
    assert_ne!(pt(0.0, 0.0, 0.0), pt(-0.0, 0.0, 0.0));
    assert_eq!(pt(f32::NAN, 0.0, 0.0), pt(f32::NAN, 0.0, 0.0));
}
