//! Simulation to presentation: where the physics step has moved a simulation
//! transform, the presentation transform follows.

use crate::bitset::{bitset_indices, index_limit};
use crate::events::{modified_indices, ComponentEvent, ReaderId};
use crate::storage::TrackedStorage;
use crate::systems::iterate_component_events;
use crate::transform::Transform;
use crate::PhysicsTransform;
use vstd::prelude::*;

verus! {

/// The pass moves the presentation transform of entity `id`: the entity has
/// both transforms, and its simulation transform was modified.
pub open spec fn moves<S>(
    id: u32,
    modified: Set<u32>,
    physics_transforms: Map<u32, PhysicsTransform<S>>,
    transforms: Map<u32, Transform<S>>,
) -> bool {
    &&& modified.contains(id)
    &&& physics_transforms.dom().contains(id)
    &&& transforms.dom().contains(id)
}

/// The presentation transforms after one pass, given the entities whose
/// simulation transform was `modified` since the last pass, the simulation
/// transforms as they are now, and the presentation transforms as they were.
///
/// No entity gains or loses a presentation transform. An entity that has both
/// transforms and whose simulation transform was modified takes the
/// simulation position as its translation and keeps its rotation and scale.
/// Every other presentation transform stays as it was.
pub open spec fn from_physics_components<S>(
    modified: Set<u32>,
    physics_transforms: Map<u32, PhysicsTransform<S>>,
    transforms: Map<u32, Transform<S>>,
) -> Map<u32, Transform<S>> {
    Map::new(
        |id: u32| transforms.dom().contains(id),
        |id: u32|
            if moves(id, modified, physics_transforms, transforms) {
                Transform { translation: physics_transforms[id].position, ..transforms[id] }
            } else {
                transforms[id]
            },
    )
}

/// What one pass writes to the log of the presentation transforms for the
/// entities below `upto`: `Modified` for each entity that it moves, in
/// ascending order of the entities.
pub open spec fn from_physics_events<S>(
    modified: Set<u32>,
    physics_transforms: Map<u32, PhysicsTransform<S>>,
    transforms: Map<u32, Transform<S>>,
    upto: nat,
) -> Seq<ComponentEvent>
    decreases upto,
{
    if upto == 0 {
        Seq::<ComponentEvent>::empty()
    } else {
        let id = (upto - 1) as u32;
        let earlier = from_physics_events(
            modified,
            physics_transforms,
            transforms,
            (upto - 1) as nat,
        );
        if moves(id, modified, physics_transforms, transforms) {
            earlier.push(ComponentEvent::Modified(id))
        } else {
            earlier
        }
    }
}

/// Entities without a simulation transform add nothing to the log.
proof fn lemma_from_physics_events_beyond<S>(
    modified: Set<u32>,
    physics_transforms: Map<u32, PhysicsTransform<S>>,
    transforms: Map<u32, Transform<S>>,
    from: nat,
    upto: nat,
)
    requires
        from <= upto <= u32::MAX + 1,
        forall|id: u32| physics_transforms.dom().contains(id) ==> id < from,
    ensures
        from_physics_events(modified, physics_transforms, transforms, upto)
            == from_physics_events(modified, physics_transforms, transforms, from),
    decreases upto,
{
    if upto > from {
        let below = (upto - 1) as nat;
        lemma_from_physics_events_beyond(modified, physics_transforms, transforms, from, below);
    }
}

/// The unit of work that carries the positions that the physics step has
/// computed over to the presentation transforms.
#[derive(Debug)]
pub struct SyncTransformsFromPhysicsSystem {
    physics_transforms_reader_id: Option<ReaderId>,
}

impl Default for SyncTransformsFromPhysicsSystem {
    fn default() -> (system: Self)
        ensures
            system.reader() is None,
    {
        SyncTransformsFromPhysicsSystem { physics_transforms_reader_id: None }
    }
}

impl SyncTransformsFromPhysicsSystem {
    /// The system's reader of the log of the simulation transforms, once
    /// [`Self::setup`] has registered it.
    pub closed spec fn reader(&self) -> Option<ReaderId> {
        self.physics_transforms_reader_id
    }

    /// The system's reader, once [`Self::setup`] has registered it.
    pub fn reader_id(&self) -> (reader: Option<&ReaderId>)
        ensures
            reader is Some == self.reader() is Some,
            reader matches Some(found) ==> *found == self.reader().unwrap(),
    {
        self.physics_transforms_reader_id.as_ref()
    }

    /// Registers the system's reader with the log of the simulation
    /// transforms. The reader starts at the end of the log: the system will
    /// act on what is written from now on.
    pub fn setup<S>(&mut self, physics_transforms: &mut TrackedStorage<PhysicsTransform<S>>)
        requires
            old(physics_transforms).wf(),
        ensures
            final(self).reader() is Some,
            final(physics_transforms).wf(),
            final(physics_transforms).registered(
                *old(physics_transforms),
                final(self).reader().unwrap(),
            ),
    {
        self.physics_transforms_reader_id = Some(physics_transforms.register_reader());
    }

    /// One pass. It reads what the simulation transforms have logged since the
    /// last pass and brings the presentation transforms to
    /// [`from_physics_components`], going through the entities in ascending
    /// order. Insertions and removals of simulation transforms are not acted
    /// on. The simulation transforms are not written: only the system's reader
    /// moves, to the end of their log.
    pub fn run<S: Copy>(
        &mut self,
        physics_transforms: &mut TrackedStorage<PhysicsTransform<S>>,
        transforms: &mut TrackedStorage<Transform<S>>,
    )
        requires
            old(self).reader() is Some,
            old(physics_transforms).wf(),
            old(physics_transforms).channel().has_reader(old(self).reader().unwrap()),
            old(transforms).wf(),
        ensures
            *final(self) == *old(self),
            final(physics_transforms).wf(),
            final(physics_transforms).read_by(
                *old(physics_transforms),
                old(self).reader().unwrap(),
            ),
            final(transforms).wf(),
            final(transforms).components() == from_physics_components(
                modified_indices(
                    old(physics_transforms).channel().pending(old(self).reader().unwrap()),
                ),
                old(physics_transforms).components(),
                old(transforms).components(),
            ),
            final(transforms).channel().history() == old(transforms).channel().history()
                + from_physics_events(
                modified_indices(
                    old(physics_transforms).channel().pending(old(self).reader().unwrap()),
                ),
                old(physics_transforms).components(),
                old(transforms).components(),
                index_limit(),
            ),
            final(transforms).channel().readers_unmoved(old(transforms).channel()),
    {
        let ghost pending = physics_transforms.channel().pending(self.reader().unwrap());
        let ghost modified = modified_indices(pending);
        let ghost before = transforms.components();
        let ghost log_before = transforms.channel();

        let (_, modified_physics_transforms, _) = iterate_component_events(
            physics_transforms,
            self.physics_transforms_reader_id.as_ref().unwrap(),
        );

        let ghost simulation = physics_transforms.components();
        let ghost after = from_physics_components(modified, simulation, before);
        let bound = physics_transforms.upper_bound();
        proof {
            physics_transforms.lemma_wf();
        }
        let mut id: u32 = 0;
        while id < bound
            invariant
                id <= bound,
                bound == physics_transforms.bound(),
                bound <= index_limit(),
                physics_transforms.wf(),
                physics_transforms.components() == simulation,
                transforms.wf(),
                bitset_indices(modified_physics_transforms) == modified,
                after == from_physics_components(modified, simulation, before),
                transforms.channel().readers_unmoved(log_before),
                transforms.channel().history() == log_before.history() + from_physics_events(
                    modified,
                    simulation,
                    before,
                    id as nat,
                ),
                transforms.components().dom() == before.dom(),
                forall|k: u32|
                    k < id && before.dom().contains(k) ==> #[trigger] transforms.components()[k]
                        == after[k],
                forall|k: u32|
                    k >= id && before.dom().contains(k) ==> #[trigger] transforms.components()[k]
                        == before[k],
            decreases bound - id,
        {
            if modified_physics_transforms.contains(id) {
                match physics_transforms.get(id) {
                    Some(physics_transform) => {
                        let (x, y, z) = physics_transform.position();
                        let moved = match transforms.get(id) {
                            Some(transform) => {
                                let mut moved = *transform;
                                moved.set_translation_xyz(x, y, z);
                                Some(moved)
                            },
                            None => None,
                        };
                        match moved {
                            Some(moved) => {
                                let ghost domain = transforms.components().dom();
                                transforms.replace(id, moved);
                                assert(transforms.components().dom() =~= domain);
                            },
                            None => {},
                        }
                    },
                    None => {},
                }
            }
            proof {
                assert(transforms.channel().history() =~= log_before.history()
                    + from_physics_events(modified, simulation, before, (id + 1) as nat));
            }
            id += 1;
        }
        proof {
            lemma_from_physics_events_beyond(
                modified,
                simulation,
                before,
                bound as nat,
                index_limit(),
            );
            assert(transforms.components() =~= after);
        }
    }
}

/// An entity that has both transforms and whose simulation transform was
/// modified has, after the pass, the simulation position as its presentation
/// translation, with the rotation and the scale it had.
pub proof fn lemma_modified_is_copied<S>(
    id: u32,
    modified: Set<u32>,
    physics_transforms: Map<u32, PhysicsTransform<S>>,
    transforms: Map<u32, Transform<S>>,
)
    requires
        modified.contains(id),
        physics_transforms.dom().contains(id),
        transforms.dom().contains(id),
    ensures
        from_physics_components(modified, physics_transforms, transforms).dom().contains(id),
        from_physics_components(modified, physics_transforms, transforms)[id].translation
            == physics_transforms[id].position,
        from_physics_components(modified, physics_transforms, transforms)[id].rotation
            == transforms[id].rotation,
        from_physics_components(modified, physics_transforms, transforms)[id].scale
            == transforms[id].scale,
{
}

/// The pass creates and removes no presentation transform, and it leaves the
/// presentation transform of an entity alone whose simulation transform was
/// not modified, or that has no simulation transform.
pub proof fn lemma_unmodified_is_kept<S>(
    id: u32,
    modified: Set<u32>,
    physics_transforms: Map<u32, PhysicsTransform<S>>,
    transforms: Map<u32, Transform<S>>,
)
    ensures
        from_physics_components(modified, physics_transforms, transforms).dom().contains(id)
            == transforms.dom().contains(id),
        transforms.dom().contains(id) && !moves(id, modified, physics_transforms, transforms)
            ==> from_physics_components(modified, physics_transforms, transforms)[id]
            == transforms[id],
{
}

} // verus!
