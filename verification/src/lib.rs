//! Keeps a presentation transform and a simulation transform of each entity
//! consistent across the three phases of a frame: presentation to simulation,
//! the physics step, simulation back to presentation.
//!
//! - [`storage`] holds the components of one type and logs every write;
//!   [`events`] is that log, with one reader per consumer.
//! - [`systems`] holds the two passes, the debug overlay and the bundle that
//!   registers them around the physics step.
//! - [`schedule`] takes the registrations and fixes the order of a frame.
//! - [`bitset`] states what the library believes of the bit sets in which a
//!   diff is handed out.

use crate::math::Vector3;
use vstd::prelude::*;

pub use crate::systems::PhysicsBundle;

pub mod bitset;
pub mod events;
pub mod math;
pub mod schedule;
pub mod storage;
pub mod systems;
pub mod transform;

verus! {

/// The spatial state of an entity as the physics backend understands it: a
/// position.
#[derive(Clone, Copy, Debug, PartialEq)]
pub struct PhysicsTransform<S> {
    pub position: Vector3<S>,
}

impl<S: Copy> PhysicsTransform<S> {
    /// The coordinates of the position.
    pub fn position(&self) -> (coordinates: (S, S, S))
        ensures
            coordinates == (self.position.x, self.position.y, self.position.z),
    {
        (self.position.x, self.position.y, self.position.z)
    }

    /// Moves the position to `(x, y, z)`.
    pub fn set_position(&mut self, x: S, y: S, z: S)
        ensures
            final(self).position == (Vector3 { x, y, z }),
    {
        self.position.x = x;
        self.position.y = y;
        self.position.z = z;
    }
}

impl<S> From<Vector3<S>> for PhysicsTransform<S> {
    fn from(position: Vector3<S>) -> (transform: Self) {
        PhysicsTransform { position }
    }
}

impl<S> vstd::std_specs::convert::FromSpecImpl<Vector3<S>> for PhysicsTransform<S> {
    open spec fn obeys_from_spec() -> bool {
        true
    }

    open spec fn from_spec(position: Vector3<S>) -> Self {
        PhysicsTransform { position }
    }
}

} // verus!
