//! A plain point, the simplest value that can be stored in the tree.

use vstd::prelude::*;
use crate::location::Locatable;

verus! {

/// A point in space. Each coordinate is the pattern of a binary32 number;
/// two points are equal when their patterns are.
#[derive(Clone, Copy, Debug, PartialEq, Eq, Structural, Hash)]
pub struct Point3D {
    pub x: u32,
    pub y: u32,
    pub z: u32,
}

impl Point3D {
    /// The point with the given coordinates.
    pub fn new(x: u32, y: u32, z: u32) -> (r: Self)
        ensures
            r == (Point3D { x, y, z }),
    {
        Point3D { x, y, z }
    }
}

impl Default for Point3D {
    /// The origin.
    fn default() -> (r: Self)
        ensures
            r == (Point3D { x: 0, y: 0, z: 0 }),
    {
        Point3D { x: 0, y: 0, z: 0 }
    }
}

impl Locatable for Point3D {
    open spec fn location(&self) -> [u32; 3] {
        [self.x, self.y, self.z]
    }

    fn get_location(&self) -> (r: [u32; 3]) {
        let r = [self.x, self.y, self.z];
        assert(r == self.location());
        r
    }
}

} // verus!
