use vstd::prelude::*;

verus! {

/// A position on the block grid.
#[derive(PartialEq, Eq, Structural, Clone, Copy, Debug, Hash)]
pub struct IVec3 {
    pub x: i32,
    pub y: i32,
    pub z: i32,
}

/// A position on the grid of chunks (`y` holds the world's z axis).
#[derive(PartialEq, Eq, Structural, Clone, Copy, Debug, Hash)]
pub struct IVec2 {
    pub x: i32,
    pub y: i32,
}

impl IVec3 {
    /// The position with the given coordinates.
    pub fn new(x: i32, y: i32, z: i32) -> (v: IVec3)
        ensures
            v.x == x,
            v.y == y,
            v.z == z,
    {
        IVec3 { x, y, z }
    }

    /// The position as a tuple, the form the world's maps are keyed by.
    pub open spec fn key(self) -> (i32, i32, i32) {
        (self.x, self.y, self.z)
    }

    /// Whether adding `other` stays inside the range of `i32` on every axis.
    pub open spec fn can_add(self, other: IVec3) -> bool {
        &&& i32::MIN <= self.x + other.x <= i32::MAX
        &&& i32::MIN <= self.y + other.y <= i32::MAX
        &&& i32::MIN <= self.z + other.z <= i32::MAX
    }

    /// Componentwise sum.
    pub fn add(self, other: IVec3) -> (v: IVec3)
        requires
            self.can_add(other),
        ensures
            v.x == self.x + other.x,
            v.y == self.y + other.y,
            v.z == self.z + other.z,
    {
        IVec3 { x: self.x + other.x, y: self.y + other.y, z: self.z + other.z }
    }
}

impl IVec2 {
    /// The position with the given coordinates.
    pub fn new(x: i32, y: i32) -> (v: IVec2)
        ensures
            v.x == x,
            v.y == y,
    {
        IVec2 { x, y }
    }
}

} // verus!
