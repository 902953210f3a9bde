//! The presentation transform: where rendering and game logic see an entity.

use crate::math::{Quaternion, Vector3};
use vstd::prelude::*;

verus! {

/// The spatial state of an entity as rendering and game logic use it: a
/// translation, and a rotation and a scale where the entity has them.
#[derive(Clone, Copy, Debug, PartialEq)]
pub struct Transform<S> {
    pub translation: Vector3<S>,
    pub rotation: Option<Quaternion<S>>,
    pub scale: Option<Vector3<S>>,
}

impl<S: Copy> Transform<S> {
    /// A transform at `translation`, without rotation or scale.
    pub fn from_translation(translation: Vector3<S>) -> (transform: Self)
        ensures
            transform == (Transform { translation, rotation: None, scale: None }),
    {
        Transform { translation, rotation: None, scale: None }
    }

    /// The translation.
    pub fn translation(&self) -> (translation: &Vector3<S>)
        ensures
            *translation == self.translation,
    {
        &self.translation
    }

    /// Moves the transform to `(x, y, z)`; rotation and scale stay.
    pub fn set_translation_xyz(&mut self, x: S, y: S, z: S)
        ensures
            *final(self) == (Transform { translation: Vector3 { x, y, z }, ..*old(self) }),
    {
        self.translation = Vector3 { x, y, z };
    }
}

} // verus!
