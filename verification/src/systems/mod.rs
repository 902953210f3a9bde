//! The units of work that keep the two transforms in step, and what they
//! share: the diff of a storage's log against a reader.

use crate::bitset::{bitset_indices, index_limit};
use crate::events::{
    indices_below, inserted_indices, modified_indices, removed_indices, ComponentEvent, ReaderId,
};
use crate::schedule::{
    distinct_names, first_taken_at, lemma_dependencies_run_first, lemma_every_unit_runs, registered,
    unit_views, ConfigError, ConfigErrorView, Schedule, ScheduleBuilder, UnitOfWork, UnitView,
};
use crate::storage::TrackedStorage;
use hibitset::BitSet;
use vstd::prelude::*;

pub mod debug;
pub mod sync_transforms_from_physics;
pub mod sync_transforms_to_physics;

verus! {

/// Sorts `events` by kind into the sets of entities inserted, modified and
/// removed, in this order. An entity with several events of one kind is in
/// that kind's set once; an entity with events of several kinds is in each of
/// their sets.
pub fn partition_component_events(events: &Vec<ComponentEvent>) -> (sets: (BitSet, BitSet, BitSet))
    requires
        indices_below(events@, index_limit()),
    ensures
        bitset_indices(sets.0) == inserted_indices(events@),
        bitset_indices(sets.1) == modified_indices(events@),
        bitset_indices(sets.2) == removed_indices(events@),
{
    let mut inserted = BitSet::new();
    let mut modified = BitSet::new();
    let mut removed = BitSet::new();
    let mut i: usize = 0;
    while i < events.len()
        invariant
            i <= events@.len(),
            indices_below(events@, index_limit()),
            bitset_indices(inserted) == inserted_indices(events@.take(i as int)),
            bitset_indices(modified) == modified_indices(events@.take(i as int)),
            bitset_indices(removed) == removed_indices(events@.take(i as int)),
        decreases events@.len() - i,
    {
        let ghost seen = events@.take(i as int);
        let ghost next = events@.take(i + 1);
        proof {
            assert(next =~= seen.push(events@[i as int]));
            assert forall|e: ComponentEvent| next.contains(e) == (seen.contains(e) || e
                == events@[i as int]) by {
                if seen.contains(e) {
                    let k = choose|k: int| 0 <= k < seen.len() && seen[k] == e;
                    assert(next[k] == e);
                }
                if e == events@[i as int] {
                    assert(next[i as int] == e);
                }
            }
        }
        match events[i] {
            ComponentEvent::Inserted(id) => {
                inserted.add(id);
            },
            ComponentEvent::Modified(id) => {
                modified.add(id);
            },
            ComponentEvent::Removed(id) => {
                removed.add(id);
            },
        }
        assert(bitset_indices(inserted) =~= inserted_indices(next));
        assert(bitset_indices(modified) =~= modified_indices(next));
        assert(bitset_indices(removed) =~= removed_indices(next));
        i += 1;
    }
    assert(events@.take(i as int) =~= events@);
    (inserted, modified, removed)
}

/// Reads what `tracked_storage` has logged since `reader_id` last read and
/// returns the sets of entities inserted, modified and removed, in this order.
/// The reader moves to the end of the log; the components, the log and the
/// other readers stay as they were.
pub fn iterate_component_events<T>(
    tracked_storage: &mut TrackedStorage<T>,
    reader_id: &ReaderId,
) -> (sets: (BitSet, BitSet, BitSet))
    requires
        old(tracked_storage).wf(),
        old(tracked_storage).channel().has_reader(*reader_id),
    ensures
        bitset_indices(sets.0) == inserted_indices(
            old(tracked_storage).channel().pending(*reader_id),
        ),
        bitset_indices(sets.1) == modified_indices(
            old(tracked_storage).channel().pending(*reader_id),
        ),
        bitset_indices(sets.2) == removed_indices(
            old(tracked_storage).channel().pending(*reader_id),
        ),
        final(tracked_storage).wf(),
        final(tracked_storage).read_by(*old(tracked_storage), *reader_id),
{
    let events = tracked_storage.read_events(reader_id);
    partition_component_events(&events)
}

/// The name under which the bundle registers the pass from presentation to
/// simulation.
pub open spec fn sync_to_physics_name() -> Seq<char> {
    "sync_transforms_to_physics_system"@
}

/// The name under which the bundle registers the pass from simulation to
/// presentation.
pub open spec fn sync_from_physics_name() -> Seq<char> {
    "sync_transforms_from_physics_system"@
}

/// The name of the unit of the physics step that writes the simulation
/// transforms. The pass from simulation to presentation waits for it.
pub open spec fn physics_positions_name() -> Seq<char> {
    "sync_positions_from_physics_system"@
}

/// The name under which the bundle registers the debug overlay.
pub open spec fn debug_name() -> Seq<char> {
    "debug_system"@
}

/// A unit of the physics step as the bundle registers it: it waits for the
/// pass from presentation to simulation besides what it waits for anyway.
pub open spec fn after_sync_to_physics(unit: UnitView) -> UnitView {
    UnitView { name: unit.name, dependencies: unit.dependencies.push(sync_to_physics_name()) }
}

/// The units that the bundle registers, in their order: the pass from
/// presentation to simulation; the units of the physics step, each behind that
/// pass; the pass from simulation to presentation, behind the physics step's
/// last unit; and, where debug lines are on, the overlay behind that pass.
pub open spec fn bundle_units(debug_lines: bool, physics_step: Seq<UnitView>) -> Seq<UnitView> {
    let synced = seq![
        UnitView { name: sync_to_physics_name(), dependencies: Seq::<Seq<char>>::empty() },
    ] + Seq::new(physics_step.len(), |k: int| after_sync_to_physics(physics_step[k])) + seq![
        UnitView { name: sync_from_physics_name(), dependencies: seq![physics_positions_name()] },
    ];
    if debug_lines {
        synced.push(UnitView { name: debug_name(), dependencies: seq![sync_from_physics_name()] })
    } else {
        synced
    }
}

/// The three units of work of the library, ready to be registered around a
/// physics step.
#[derive(Debug)]
pub struct PhysicsBundle {
    debug_lines: bool,
}

impl Default for PhysicsBundle {
    fn default() -> (bundle: Self)
        ensures
            !bundle.debug_lines(),
    {
        PhysicsBundle { debug_lines: false }
    }
}

impl PhysicsBundle {
    /// Whether the bundle registers the debug overlay.
    pub closed spec fn debug_lines(&self) -> bool {
        self.debug_lines
    }

    /// The units that the bundle registers around the physics step
    /// `physics_step`; see [`bundle_units`].
    pub open spec fn units(&self, physics_step: Seq<UnitOfWork>) -> Seq<UnitView> {
        bundle_units(self.debug_lines(), unit_views(physics_step))
    }

    /// Whether the bundle registers the debug overlay.
    pub fn has_debug_lines(&self) -> (enabled: bool)
        ensures
            enabled == self.debug_lines(),
    {
        self.debug_lines
    }

    /// Enables the debug overlay, which outlines the colliders.
    pub fn with_debug_lines(self) -> (bundle: Self)
        ensures
            bundle.debug_lines(),
    {
        let mut bundle = self;
        bundle.debug_lines = true;
        bundle
    }

    /// Registers the units of [`bundle_units`] with `dispatcher`, all or
    /// none. `physics_step` holds the units of the physics step, as its
    /// backend registers them. Where a name is taken, the first such name is
    /// reported and `dispatcher` stays as it was.
    pub fn build(
        self,
        physics_step: &Vec<UnitOfWork>,
        dispatcher: &mut ScheduleBuilder,
    ) -> (result: Result<(), ConfigError>)
        requires
            old(dispatcher).wf(),
        ensures
            final(dispatcher).wf(),
            result is Ok <==> distinct_names(old(dispatcher)@ + self.units(physics_step@)),
            result is Ok ==> final(dispatcher)@ == old(dispatcher)@ + self.units(physics_step@),
            result matches Err(error) ==> {
                &&& final(dispatcher)@ == old(dispatcher)@
                &&& exists|k: int|
                    #[trigger] first_taken_at(old(dispatcher)@, self.units(physics_step@), k)
                        && error@ == (ConfigErrorView::DuplicateUnit {
                        name: self.units(physics_step@)[k].name,
                    })
            },
    {
        let mut units: Vec<UnitOfWork> = Vec::new();
        units.push(
            UnitOfWork {
                name: "sync_transforms_to_physics_system".to_owned(),
                dependencies: Vec::new(),
            },
        );
        let mut k: usize = 0;
        while k < physics_step.len()
            invariant
                k <= physics_step@.len(),
                units@.len() == k + 1,
                units@[0]@.name == sync_to_physics_name(),
                units@[0]@.dependencies =~= Seq::<Seq<char>>::empty(),
                forall|m: int|
                    1 <= m < k + 1 ==> (#[trigger] units@[m])@ == after_sync_to_physics(
                        physics_step@[m - 1]@,
                    ),
            decreases physics_step@.len() - k,
        {
            let unit = physics_step[k].with_dependency("sync_transforms_to_physics_system");
            assert(unit@ == after_sync_to_physics(physics_step@[k as int]@));
            units.push(unit);
            k += 1;
        }
        units.push(
            UnitOfWork {
                name: "sync_transforms_from_physics_system".to_owned(),
                dependencies: vec!["sync_positions_from_physics_system".to_owned()],
            },
        );
        if self.debug_lines {
            units.push(
                UnitOfWork {
                    name: "debug_system".to_owned(),
                    dependencies: vec!["sync_transforms_from_physics_system".to_owned()],
                },
            );
        }
        assert(unit_views(units@) =~= bundle_units(self.debug_lines(), unit_views(physics_step@)))
            by {
            let built = unit_views(units@);
            let wanted = bundle_units(self.debug_lines(), unit_views(physics_step@));
            assert(built.len() == wanted.len());
            assert forall|m: int| 0 <= m < built.len() implies built[m] == wanted[m] by {
                let last = physics_step@.len() + 1;
                if m == 0 {
                    assert(built[m].dependencies =~= wanted[m].dependencies);
                } else if m < last {
                    assert(units@[m]@ == after_sync_to_physics(physics_step@[m - 1]@));
                } else {
                    assert(built[m].dependencies =~= wanted[m].dependencies);
                }
            }
        }
        let ghost registered_before = dispatcher@;
        let result = dispatcher.register_all(&units);
        proof {
            if let Err(ref error) = result {
                let k = choose|k: int|
                    #[trigger] first_taken_at(registered_before, unit_views(units@), k) && error@
                        == (ConfigErrorView::DuplicateUnit { name: units@[k]@.name });
                assert(unit_views(units@)[k] == units@[k]@);
                assert(first_taken_at(registered_before, self.units(physics_step@), k));
            }
        }
        result
    }
}

/// The position in `schedule` of the unit registered as number `i`.
proof fn lemma_position(schedule: Schedule, i: int) -> (p: int)
    requires
        schedule.wf(),
        0 <= i < schedule.units().len(),
    ensures
        0 <= p < schedule.order().len(),
        schedule.order()[p] == i,
        schedule.names()[p] == schedule.units()[i].name,
{
    lemma_every_unit_runs(schedule, i);
    choose|p: int| 0 <= p < schedule.order().len() && #[trigger] schedule.order()[p] == i
}

/// The unit that runs at position `p` of `schedule`, where it has the name of
/// the unit registered as number `i`, is that unit.
proof fn lemma_unit_by_name(schedule: Schedule, p: int, i: int)
    requires
        schedule.wf(),
        0 <= p < schedule.order().len(),
        0 <= i < schedule.units().len(),
        schedule.names()[p] == schedule.units()[i].name,
    ensures
        schedule.order()[p] == i,
{
    let j = schedule.order()[p] as int;
    if j < i {
        assert(schedule.units()[j].name != schedule.units()[i].name);
    }
    if i < j {
        assert(schedule.units()[i].name != schedule.units()[j].name);
    }
}

/// A position before `p` at which the unit runs that the dependency number
/// `j` of the unit at position `p` names.
proof fn lemma_dependency_position(schedule: Schedule, p: int, j: int) -> (q: int)
    requires
        schedule.wf(),
        0 <= p < schedule.order().len(),
        0 <= j < schedule.units()[schedule.order()[p] as int].dependencies.len(),
    ensures
        0 <= q < p,
        schedule.names()[q] == schedule.units()[schedule.order()[p] as int].dependencies[j],
{
    lemma_dependencies_run_first(schedule, p, j);
    choose|q: int|
        0 <= q < p && #[trigger] schedule.names()[q]
            == schedule.units()[schedule.order()[p] as int].dependencies[j]
}

/// In every schedule that holds the units of the bundle, the pass from
/// presentation to simulation runs before the physics step writes the
/// simulation transforms, the pass from simulation to presentation runs after
/// that, and the debug overlay, where it is on, runs last of the four.
pub proof fn lemma_bundle_order(
    schedule: Schedule,
    before: Seq<UnitView>,
    debug_lines: bool,
    physics_step: Seq<UnitView>,
)
    requires
        schedule.wf(),
        schedule.units() == before + bundle_units(debug_lines, physics_step),
        registered(physics_step, physics_positions_name()),
    ensures
        exists|to: int, physics: int, from: int|
            {
                &&& 0 <= to < physics < from < schedule.names().len()
                &&& #[trigger] schedule.names()[to] == sync_to_physics_name()
                &&& #[trigger] schedule.names()[physics] == physics_positions_name()
                &&& #[trigger] schedule.names()[from] == sync_from_physics_name()
                &&& debug_lines ==> exists|overlay: int|
                    from < overlay < schedule.names().len() && #[trigger] schedule.names()[overlay]
                        == debug_name()
            },
{
    let units = schedule.units();
    let bundle = bundle_units(debug_lines, physics_step);
    let base = before.len() as int;
    let steps = physics_step.len() as int;
    let k = choose|k: int|
        0 <= k < physics_step.len() && (#[trigger] physics_step[k]).name
            == physics_positions_name();
    assert(units[base + 1 + k] == bundle[1 + k]);
    assert(units[base + 1 + steps] == bundle[1 + steps]);
    assert(bundle[1 + k] == after_sync_to_physics(physics_step[k]));

    // the pass from simulation to presentation, found from the overlay where that is on
    let from = if debug_lines {
        assert(units[base + 2 + steps] == bundle[2 + steps]);
        let overlay = lemma_position(schedule, base + 2 + steps);
        lemma_dependency_position(schedule, overlay, 0)
    } else {
        lemma_position(schedule, base + 1 + steps)
    };
    lemma_unit_by_name(schedule, from, base + 1 + steps);

    // the unit of the physics step that writes the simulation transforms
    let physics = lemma_dependency_position(schedule, from, 0);
    lemma_unit_by_name(schedule, physics, base + 1 + k);

    // the pass from presentation to simulation, which that unit was made to wait for
    let last = physics_step[k].dependencies.len() as int;
    assert(units[base + 1 + k].dependencies[last] == sync_to_physics_name());
    let to = lemma_dependency_position(schedule, physics, last);
    assert(schedule.names()[to] == sync_to_physics_name());
}

} // verus!
