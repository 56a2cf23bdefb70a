//! Small integer 3-vectors.
use vstd::prelude::*;

verus! {

/// A vector of three `u8` components.
#[derive(Debug, Clone, Copy, PartialEq, Eq, Hash, Default)]
pub struct U8Vec3 {
    pub x: u8,
    pub y: u8,
    pub z: u8,
}

/// A vector of three `i8` components.
#[derive(Debug, Clone, Copy, PartialEq, Eq, Hash, Default)]
pub struct I8Vec3 {
    pub x: i8,
    pub y: i8,
    pub z: i8,
}

/// A vector of three `i32` components.
#[derive(Debug, Clone, Copy, PartialEq, Eq, Hash, Default)]
pub struct IVec3 {
    pub x: i32,
    pub y: i32,
    pub z: i32,
}

/// A vector of three `i64` components.
#[derive(Debug, Clone, Copy, PartialEq, Eq, Hash, Default)]
pub struct I64Vec3 {
    pub x: i64,
    pub y: i64,
    pub z: i64,
}

impl U8Vec3 {
    /// Creates a vector.
    pub fn new(x: u8, y: u8, z: u8) -> (r: Self)
        ensures
            r == (U8Vec3 { x, y, z }),
    {
        U8Vec3 { x, y, z }
    }
}

impl IVec3 {
    /// Creates a vector.
    pub fn new(x: i32, y: i32, z: i32) -> (r: Self)
        ensures
            r == (IVec3 { x, y, z }),
    {
        IVec3 { x, y, z }
    }

}

} // verus!
