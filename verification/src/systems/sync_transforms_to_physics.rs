//! Presentation to simulation: entities that gained or lost a presentation
//! transform gain or lose their simulation transform.

use crate::bitset::{bitset_indices, index_limit};
use crate::events::{inserted_indices, removed_indices, ComponentEvent, ReaderId};
use crate::storage::TrackedStorage;
use crate::systems::iterate_component_events;
use crate::transform::Transform;
use crate::PhysicsTransform;
use vstd::prelude::*;

verus! {

/// What a pass does with the simulation transform of an entity that has a
/// presentation transform.
#[derive(Clone, Copy, Debug, PartialEq, Eq, Structural)]
pub enum PhysicsTransformChange {
    /// Nothing.
    Keep,
    /// It creates one at the presentation translation.
    Create,
    /// It removes the one that is there.
    Remove,
    /// It creates one and removes it again.
    CreateAndRemove,
}

/// What a pass does with the simulation transform of an entity that has a
/// presentation transform, given whether that was inserted or removed since
/// the last pass and whether the entity has a simulation transform.
///
/// An insertion creates the simulation transform where there is none. A
/// removal then takes away what is there, be it old or just created.
pub open spec fn change_of(
    inserted: bool,
    removed: bool,
    has_physics_transform: bool,
) -> PhysicsTransformChange {
    if inserted && !has_physics_transform {
        if removed {
            PhysicsTransformChange::CreateAndRemove
        } else {
            PhysicsTransformChange::Create
        }
    } else if removed && has_physics_transform {
        PhysicsTransformChange::Remove
    } else {
        PhysicsTransformChange::Keep
    }
}

/// What a pass does with the simulation transform of an entity that has a
/// presentation transform; see [`change_of`].
pub fn physics_transform_change(
    inserted: bool,
    removed: bool,
    has_physics_transform: bool,
) -> (change: PhysicsTransformChange)
    ensures
        change == change_of(inserted, removed, has_physics_transform),
{
    if inserted && !has_physics_transform {
        if removed {
            PhysicsTransformChange::CreateAndRemove
        } else {
            PhysicsTransformChange::Create
        }
    } else if removed && has_physics_transform {
        PhysicsTransformChange::Remove
    } else {
        PhysicsTransformChange::Keep
    }
}

/// What a pass does with the simulation transform of entity `id`: nothing
/// where the entity has no presentation transform, else what [`change_of`]
/// says.
pub open spec fn change_at<S>(
    id: u32,
    inserted: Set<u32>,
    removed: Set<u32>,
    transforms: Map<u32, Transform<S>>,
    physics_transforms: Map<u32, PhysicsTransform<S>>,
) -> PhysicsTransformChange {
    if transforms.dom().contains(id) {
        change_of(
            inserted.contains(id),
            removed.contains(id),
            physics_transforms.dom().contains(id),
        )
    } else {
        PhysicsTransformChange::Keep
    }
}

/// The simulation transforms after one pass, given the entities whose
/// presentation transform was `inserted` or `removed` since the last pass, the
/// presentation transforms as they are now, and the simulation transforms as
/// they were.
///
/// An entity for which the pass creates a simulation transform has it at the
/// presentation translation. An entity for which it removes one, be it right
/// after creating it, has none. Every other entity keeps what it had.
/// Modifications play no part.
pub open spec fn to_physics_components<S>(
    inserted: Set<u32>,
    removed: Set<u32>,
    transforms: Map<u32, Transform<S>>,
    physics_transforms: Map<u32, PhysicsTransform<S>>,
) -> Map<u32, PhysicsTransform<S>> {
    Map::new(
        |id: u32|
            match change_at(id, inserted, removed, transforms, physics_transforms) {
                PhysicsTransformChange::Keep => physics_transforms.dom().contains(id),
                PhysicsTransformChange::Create => true,
                PhysicsTransformChange::Remove => false,
                PhysicsTransformChange::CreateAndRemove => false,
            },
        |id: u32|
            if physics_transforms.dom().contains(id) {
                physics_transforms[id]
            } else {
                PhysicsTransform { position: transforms[id].translation }
            },
    )
}

/// What one pass writes to the log of the simulation transforms for entity
/// `id`.
pub open spec fn to_physics_events_at<S>(
    id: u32,
    inserted: Set<u32>,
    removed: Set<u32>,
    transforms: Map<u32, Transform<S>>,
    physics_transforms: Map<u32, PhysicsTransform<S>>,
) -> Seq<ComponentEvent> {
    match change_at(id, inserted, removed, transforms, physics_transforms) {
        PhysicsTransformChange::Keep => Seq::<ComponentEvent>::empty(),
        PhysicsTransformChange::Create => seq![ComponentEvent::Inserted(id)],
        PhysicsTransformChange::Remove => seq![ComponentEvent::Removed(id)],
        PhysicsTransformChange::CreateAndRemove => seq![
            ComponentEvent::Inserted(id),
            ComponentEvent::Removed(id),
        ],
    }
}

/// What one pass writes to the log of the simulation transforms for the
/// entities below `upto`, in ascending order of the entities.
pub open spec fn to_physics_events<S>(
    inserted: Set<u32>,
    removed: Set<u32>,
    transforms: Map<u32, Transform<S>>,
    physics_transforms: Map<u32, PhysicsTransform<S>>,
    upto: nat,
) -> Seq<ComponentEvent>
    decreases upto,
{
    if upto == 0 {
        Seq::<ComponentEvent>::empty()
    } else {
        let earlier = to_physics_events(
            inserted,
            removed,
            transforms,
            physics_transforms,
            (upto - 1) as nat,
        );
        earlier + to_physics_events_at(
            (upto - 1) as u32,
            inserted,
            removed,
            transforms,
            physics_transforms,
        )
    }
}

/// Entities without a presentation transform add nothing to the log.
proof fn lemma_to_physics_events_beyond<S>(
    inserted: Set<u32>,
    removed: Set<u32>,
    transforms: Map<u32, Transform<S>>,
    physics_transforms: Map<u32, PhysicsTransform<S>>,
    from: nat,
    upto: nat,
)
    requires
        from <= upto <= u32::MAX + 1,
        forall|id: u32| transforms.dom().contains(id) ==> id < from,
    ensures
        to_physics_events(inserted, removed, transforms, physics_transforms, upto)
            == to_physics_events(inserted, removed, transforms, physics_transforms, from),
    decreases upto,
{
    if upto > from {
        let below = (upto - 1) as nat;
        lemma_to_physics_events_beyond(
            inserted,
            removed,
            transforms,
            physics_transforms,
            from,
            below,
        );
        assert(to_physics_events(inserted, removed, transforms, physics_transforms, upto)
            =~= to_physics_events(inserted, removed, transforms, physics_transforms, below));
    }
}

/// The unit of work that carries the creation and the removal of presentation
/// transforms over to the simulation transforms.
#[derive(Debug)]
pub struct SyncTransformsToPhysicsSystem {
    transforms_reader_id: Option<ReaderId>,
}

impl Default for SyncTransformsToPhysicsSystem {
    fn default() -> (system: Self)
        ensures
            system.reader() is None,
    {
        SyncTransformsToPhysicsSystem { transforms_reader_id: None }
    }
}

impl SyncTransformsToPhysicsSystem {
    /// The system's reader of the log of the presentation transforms, once
    /// [`Self::setup`] has registered it.
    pub closed spec fn reader(&self) -> Option<ReaderId> {
        self.transforms_reader_id
    }

    /// The system's reader, once [`Self::setup`] has registered it.
    pub fn reader_id(&self) -> (reader: Option<&ReaderId>)
        ensures
            reader is Some == self.reader() is Some,
            reader matches Some(found) ==> *found == self.reader().unwrap(),
    {
        self.transforms_reader_id.as_ref()
    }

    /// Registers the system's reader with the log of the presentation
    /// transforms. The reader starts at the end of the log: the system will
    /// act on what is written from now on.
    pub fn setup<S>(&mut self, transforms: &mut TrackedStorage<Transform<S>>)
        requires
            old(transforms).wf(),
        ensures
            final(self).reader() is Some,
            final(transforms).wf(),
            final(transforms).registered(*old(transforms), final(self).reader().unwrap()),
    {
        self.transforms_reader_id = Some(transforms.register_reader());
    }

    /// One pass. It reads what the presentation transforms have logged since
    /// the last pass and brings the simulation transforms to
    /// [`to_physics_components`], going through the entities in ascending
    /// order. The presentation transforms are not written: only the system's
    /// reader moves, to the end of their log.
    pub fn run<S: Copy>(
        &mut self,
        transforms: &mut TrackedStorage<Transform<S>>,
        physics_transforms: &mut TrackedStorage<PhysicsTransform<S>>,
    )
        requires
            old(self).reader() is Some,
            old(transforms).wf(),
            old(transforms).channel().has_reader(old(self).reader().unwrap()),
            old(physics_transforms).wf(),
        ensures
            *final(self) == *old(self),
            final(transforms).wf(),
            final(transforms).read_by(*old(transforms), old(self).reader().unwrap()),
            final(physics_transforms).wf(),
            final(physics_transforms).components() == to_physics_components(
                inserted_indices(old(transforms).channel().pending(old(self).reader().unwrap())),
                removed_indices(old(transforms).channel().pending(old(self).reader().unwrap())),
                old(transforms).components(),
                old(physics_transforms).components(),
            ),
            final(physics_transforms).channel().history() == old(
                physics_transforms,
            ).channel().history() + to_physics_events(
                inserted_indices(old(transforms).channel().pending(old(self).reader().unwrap())),
                removed_indices(old(transforms).channel().pending(old(self).reader().unwrap())),
                old(transforms).components(),
                old(physics_transforms).components(),
                index_limit(),
            ),
            final(physics_transforms).channel().readers_unmoved(old(physics_transforms).channel()),
    {
        let ghost pending = transforms.channel().pending(self.reader().unwrap());
        let ghost inserted = inserted_indices(pending);
        let ghost removed = removed_indices(pending);
        let ghost before = physics_transforms.components();
        let ghost log_before = physics_transforms.channel();

        let (inserted_transforms, modified_transforms, removed_transforms) =
            iterate_component_events(transforms, self.transforms_reader_id.as_ref().unwrap());

        let ghost presentation = transforms.components();
        let ghost after = to_physics_components(inserted, removed, presentation, before);
        let bound = transforms.upper_bound();
        proof {
            transforms.lemma_wf();
        }
        let mut id: u32 = 0;
        while id < bound
            invariant
                id <= bound,
                bound == transforms.bound(),
                bound <= index_limit(),
                transforms.wf(),
                transforms.components() == presentation,
                physics_transforms.wf(),
                bitset_indices(inserted_transforms) == inserted,
                bitset_indices(removed_transforms) == removed,
                after == to_physics_components(inserted, removed, presentation, before),
                physics_transforms.channel().readers_unmoved(log_before),
                physics_transforms.channel().history() == log_before.history() + to_physics_events(
                    inserted,
                    removed,
                    presentation,
                    before,
                    id as nat,
                ),
                forall|k: u32|
                    k < id ==> (#[trigger] physics_transforms.components().dom().contains(k))
                        == after.dom().contains(k),
                forall|k: u32|
                    k < id && after.dom().contains(k)
                        ==> #[trigger] physics_transforms.components()[k] == after[k],
                forall|k: u32|
                    k >= id ==> (#[trigger] physics_transforms.components().dom().contains(k))
                        == before.dom().contains(k),
                forall|k: u32|
                    k >= id && before.dom().contains(k)
                        ==> #[trigger] physics_transforms.components()[k] == before[k],
            decreases bound - id,
        {
            let ghost log_at_entry = physics_transforms.channel().history();
            if inserted_transforms.contains(id) || modified_transforms.contains(id)
                || removed_transforms.contains(id) {
                match transforms.get(id) {
                    Some(transform) => {
                        let change = physics_transform_change(
                            inserted_transforms.contains(id),
                            removed_transforms.contains(id),
                            physics_transforms.contains(id),
                        );
                        if change == PhysicsTransformChange::Create
                            || change == PhysicsTransformChange::CreateAndRemove {
                            let created = PhysicsTransform::from(*transform.translation());
                            match physics_transforms.insert(id, created) {
                                Ok(_) => {},
                                Err(_) => {},
                            }
                        }
                        if change == PhysicsTransformChange::Remove
                            || change == PhysicsTransformChange::CreateAndRemove {
                            physics_transforms.remove(id);
                        }
                    },
                    None => {},
                }
            }
            proof {
                let step = to_physics_events_at(id, inserted, removed, presentation, before);
                assert(physics_transforms.channel().history() =~= log_at_entry + step);
                assert(physics_transforms.channel().history() =~= log_before.history()
                    + to_physics_events(inserted, removed, presentation, before, (id + 1) as nat));
            }
            id += 1;
        }
        proof {
            lemma_to_physics_events_beyond(
                inserted,
                removed,
                presentation,
                before,
                bound as nat,
                index_limit(),
            );
            assert(physics_transforms.components() =~= after);
        }
    }
}

/// An entity that has gained a presentation transform, and had no simulation
/// transform, has one after the pass, at the presentation translation.
///
/// This holds where the presentation transform was not also removed since the
/// last pass. Where it was removed and inserted again, the pass creates the
/// simulation transform and removes it in the same breath.
pub proof fn lemma_inserted_is_created<S>(
    id: u32,
    inserted: Set<u32>,
    removed: Set<u32>,
    transforms: Map<u32, Transform<S>>,
    physics_transforms: Map<u32, PhysicsTransform<S>>,
)
    requires
        transforms.dom().contains(id),
        inserted.contains(id),
        !physics_transforms.dom().contains(id),
        !removed.contains(id),
    ensures
        to_physics_components(inserted, removed, transforms, physics_transforms).dom().contains(id),
        to_physics_components(inserted, removed, transforms, physics_transforms)[id].position
            == transforms[id].translation,
{
}

/// An entity whose presentation transform was removed has no simulation
/// transform after the pass.
///
/// This holds where the entity has a presentation transform again, or had no
/// simulation transform to begin with. The pass goes through the entities
/// that have a presentation transform now, so it passes over an entity that
/// lost its presentation transform for good, and the simulation transform of
/// such an entity stays.
pub proof fn lemma_removed_is_removed<S>(
    id: u32,
    inserted: Set<u32>,
    removed: Set<u32>,
    transforms: Map<u32, Transform<S>>,
    physics_transforms: Map<u32, PhysicsTransform<S>>,
)
    requires
        removed.contains(id),
        transforms.dom().contains(id) || !physics_transforms.dom().contains(id),
    ensures
        !to_physics_components(inserted, removed, transforms, physics_transforms).dom().contains(
            id,
        ),
{
}

/// An entity whose presentation transform was neither inserted nor removed
/// since the last pass keeps its simulation transform, or its lack of one,
/// however often the presentation transform was modified; and the pass writes
/// nothing about it to the log of the simulation transforms.
pub proof fn lemma_modified_is_ignored<S>(
    id: u32,
    inserted: Set<u32>,
    removed: Set<u32>,
    transforms: Map<u32, Transform<S>>,
    physics_transforms: Map<u32, PhysicsTransform<S>>,
)
    requires
        !inserted.contains(id),
        !removed.contains(id),
    ensures
        to_physics_components(inserted, removed, transforms, physics_transforms).dom().contains(id)
            == physics_transforms.dom().contains(id),
        physics_transforms.dom().contains(id) ==> to_physics_components(
            inserted,
            removed,
            transforms,
            physics_transforms,
        )[id] == physics_transforms[id],
        to_physics_events_at(id, inserted, removed, transforms, physics_transforms)
            == Seq::<ComponentEvent>::empty(),
{
}

/// A pass that finds no insertion and no removal in the log of the
/// presentation transforms leaves the simulation transforms and their log as
/// they were.
pub proof fn lemma_modifications_alone_change_nothing<S>(
    transforms: Map<u32, Transform<S>>,
    physics_transforms: Map<u32, PhysicsTransform<S>>,
    upto: nat,
)
    ensures
        to_physics_components(
            Set::<u32>::empty(),
            Set::<u32>::empty(),
            transforms,
            physics_transforms,
        ) == physics_transforms,
        to_physics_events(
            Set::<u32>::empty(),
            Set::<u32>::empty(),
            transforms,
            physics_transforms,
            upto,
        ) == Seq::<ComponentEvent>::empty(),
    decreases upto,
{
    assert(to_physics_components(
        Set::<u32>::empty(),
        Set::<u32>::empty(),
        transforms,
        physics_transforms,
    ) =~= physics_transforms);
    if upto > 0 {
        lemma_modifications_alone_change_nothing(transforms, physics_transforms, (upto - 1) as nat);
    }
}

} // verus!
