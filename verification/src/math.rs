//! The vectors that the transforms are made of.
//!
//! The library moves coordinates from one component to another and never
//! computes with them, so the scalar type is left to the host.

use vstd::prelude::*;

verus! {

/// A vector of three coordinates.
#[derive(Clone, Copy, Debug, PartialEq)]
pub struct Vector3<S> {
    pub x: S,
    pub y: S,
    pub z: S,
}

impl<S: Copy> Vector3<S> {
    /// The vector with the coordinates `x`, `y` and `z`.
    pub fn new(x: S, y: S, z: S) -> (vector: Self)
        ensures
            vector == (Vector3 { x, y, z }),
    {
        Vector3 { x, y, z }
    }
}

/// A rotation, as the four coefficients of a quaternion.
#[derive(Clone, Copy, Debug, PartialEq)]
pub struct Quaternion<S> {
    pub w: S,
    pub i: S,
    pub j: S,
    pub k: S,
}

} // verus!
