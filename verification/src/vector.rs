use vstd::prelude::*;

verus! {

/// A position with three unsigned coordinates.
#[derive(Clone, Copy, PartialEq, Eq, Debug, Structural)]
pub struct UVec3 {
    pub x: u32,
    pub y: u32,
    pub z: u32,
}

impl UVec3 {
    pub fn new(x: u32, y: u32, z: u32) -> (r: UVec3)
        ensures
            r == (UVec3 { x, y, z }),
    {
        UVec3 { x, y, z }
    }
}

/// A position with two unsigned coordinates.
#[derive(Clone, Copy, PartialEq, Eq, Debug, Structural)]
pub struct UVec2 {
    pub x: u32,
    pub y: u32,
}

impl UVec2 {
    pub fn new(x: u32, y: u32) -> (r: UVec2)
        ensures
            r == (UVec2 { x, y }),
    {
        UVec2 { x, y }
    }
}

/// A position with two signed coordinates.
#[derive(Clone, Copy, PartialEq, Eq, Debug, Structural)]
pub struct IVec2 {
    pub x: i32,
    pub y: i32,
}

impl IVec2 {
    pub fn new(x: i32, y: i32) -> (r: IVec2)
        ensures
            r == (IVec2 { x, y }),
    {
        IVec2 { x, y }
    }
}

} // verus!
