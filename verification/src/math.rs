use vstd::prelude::*;

verus! {

/// A vector of three `i32` (a chunk position).
#[derive(Debug, Clone, Copy, PartialEq, Eq, Structural, Hash)]
pub struct IVec3 {
    pub x: i32,
    pub y: i32,
    pub z: i32,
}

/// A vector of three `u32`.
#[derive(Debug, Clone, Copy, PartialEq, Eq, Structural)]
pub struct UVec3 {
    pub x: u32,
    pub y: u32,
    pub z: u32,
}

/// A vector of three `u16`.
#[derive(Debug, Clone, Copy, PartialEq, Eq, Structural, Default)]
pub struct U16Vec3 {
    pub x: u16,
    pub y: u16,
    pub z: u16,
}

impl IVec3 {
    pub fn new(x: i32, y: i32, z: i32) -> (r: Self)
        ensures
            r == (IVec3 { x, y, z }),
    {
        IVec3 { x, y, z }
    }
}

impl UVec3 {
    pub fn new(x: u32, y: u32, z: u32) -> (r: Self)
        ensures
            r == (UVec3 { x, y, z }),
    {
        UVec3 { x, y, z }
    }

    /// The sum of the three components.
    pub fn element_sum(self) -> (r: u32)
        requires
            self.x + self.y + self.z <= u32::MAX,
        ensures
            r == self.x + self.y + self.z,
    {
        self.x + self.y + self.z
    }
}

impl U16Vec3 {
    pub fn new(x: u16, y: u16, z: u16) -> (r: Self)
        ensures
            r == (U16Vec3 { x, y, z }),
    {
        U16Vec3 { x, y, z }
    }

    /// The same components, widened to `u32`.
    pub fn as_uvec3(self) -> (r: UVec3)
        ensures
            r == (UVec3 { x: self.x as u32, y: self.y as u32, z: self.z as u32 }),
    {
        UVec3 { x: self.x as u32, y: self.y as u32, z: self.z as u32 }
    }
}

} // verus!
