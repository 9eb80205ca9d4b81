//! The three-component geometry value: coordinates in fixed-point decimal
//! units of one ten-thousandth, see [`crate::fixed`].

use vstd::prelude::*;

verus! {

/// A three-component vector. Each component is a coordinate in units of
/// one ten-thousandth, so `Vector3d::new(10000, 20000, 30000)` stands for
/// the point one, two, three.
#[derive(Clone, Copy, Debug, PartialEq, Eq, Structural)]
pub struct Vector3d {
    pub x: i64,
    pub y: i64,
    pub z: i64,
}

impl Vector3d {
    /// A vector from its three components, in ten-thousandth units.
    pub fn new(x: i64, y: i64, z: i64) -> (r: Vector3d)
        ensures
            r == (Vector3d { x, y, z }),
    {
        Vector3d { x, y, z }
    }
}

} // verus!
