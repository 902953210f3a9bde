//! A sparse store of one component per entity that logs every write.

use crate::bitset::{index_limit, max_index};
use crate::events::{indices_below, ComponentEvent, ComponentEventLog, ReaderId};
use vstd::prelude::*;

verus! {

/// Why a storage refused a write.
#[derive(Clone, Copy, Debug, PartialEq, Eq, Structural)]
pub enum StorageError {
    /// The entity's index is at or beyond the limit of the index space.
    OutOfRange(u32),
}

/// The components of one type, at most one per entity, together with the log
/// of the writes made to them.
pub struct TrackedStorage<T> {
    /// The component of entity `i`, if it has one, at index `i`.
    slots: Vec<Option<T>>,
    /// The log of the writes.
    channel: ComponentEventLog,
}

impl<T> TrackedStorage<T> {
    /// The component of each entity that has one.
    pub closed spec fn components(&self) -> Map<u32, T> {
        Map::new(
            |id: u32| id < self.slots@.len() && self.slots@[id as int] is Some,
            |id: u32| self.slots@[id as int]->0,
        )
    }

    /// The log of the writes made to the storage.
    pub closed spec fn channel(&self) -> ComponentEventLog {
        self.channel
    }

    /// An index above those of all entities that have a component.
    pub closed spec fn bound(&self) -> nat {
        self.slots@.len()
    }

    /// The storage's invariant: its log is well formed, and the entities it
    /// holds or has logged lie within the index space.
    pub closed spec fn wf(&self) -> bool {
        &&& self.slots@.len() <= index_limit()
        &&& self.channel.wf()
        &&& indices_below(self.channel.history(), index_limit())
    }

    /// The storage is `before` but for its log, which has gained `event`; no
    /// reader has moved.
    pub open spec fn logged(&self, before: Self, event: ComponentEvent) -> bool {
        &&& self.channel().history() == before.channel().history().push(event)
        &&& self.channel().readers_unmoved(before.channel())
    }

    /// The storage holds and has logged what `before` did, and its readers
    /// are where they were.
    pub open spec fn unchanged(&self, before: Self) -> bool {
        &&& self.components() == before.components()
        &&& self.channel().history() == before.channel().history()
        &&& self.channel().readers_unmoved(before.channel())
    }

    /// The storage is `before` with `reader` newly registered at the end of
    /// its log.
    pub open spec fn registered(&self, before: Self, reader: ReaderId) -> bool {
        &&& self.components() == before.components()
        &&& self.channel().registered(before.channel(), reader)
    }

    /// The storage is `before` after `reader` has read its log to the end.
    pub open spec fn read_by(&self, before: Self, reader: ReaderId) -> bool {
        &&& self.components() == before.components()
        &&& self.channel().consumed_by(before.channel(), reader)
    }

    /// In a well-formed storage, every entity with a component lies below
    /// [`Self::bound`], which is within the index space, as is every entity
    /// that the log mentions.
    pub proof fn lemma_wf(&self)
        requires
            self.wf(),
        ensures
            self.channel().wf(),
            self.bound() <= index_limit(),
            indices_below(self.channel().history(), index_limit()),
            forall|id: u32| self.components().dom().contains(id) ==> id < self.bound(),
    {
    }

    /// An empty storage with an empty log.
    pub fn new() -> (storage: Self)
        ensures
            storage.wf(),
            storage.components() == Map::<u32, T>::empty(),
            storage.channel().history() == Seq::<ComponentEvent>::empty(),
            storage.channel().readers() == 0,
            forall|reader: ReaderId| !#[trigger] storage.channel().has_reader(reader),
    {
        let storage = TrackedStorage { slots: Vec::new(), channel: ComponentEventLog::new() };
        assert(storage.components() =~= Map::<u32, T>::empty());
        storage
    }

    /// The log of the writes made to the storage.
    pub fn log(&self) -> (log: &ComponentEventLog)
        ensures
            *log == self.channel(),
    {
        &self.channel
    }

    /// An index above those of all entities that have a component.
    pub fn upper_bound(&self) -> (bound: u32)
        requires
            self.wf(),
        ensures
            bound == self.bound(),
    {
        self.slots.len() as u32
    }

    /// Whether entity `id` has a component.
    pub fn contains(&self, id: u32) -> (present: bool)
        ensures
            present == self.components().dom().contains(id),
    {
        (id as usize) < self.slots.len() && self.slots[id as usize].is_some()
    }

    /// The component of entity `id`, if it has one.
    pub fn get(&self, id: u32) -> (component: Option<&T>)
        ensures
            component is Some == self.components().dom().contains(id),
            component matches Some(found) ==> *found == self.components()[id],
    {
        if (id as usize) < self.slots.len() {
            self.slots[id as usize].as_ref()
        } else {
            None
        }
    }

    /// Gives entity `id` the component `value`.
    ///
    /// Where the entity had none, the log gains `Inserted(id)` and the result
    /// is `Ok(None)`. Where it had one, that one is replaced and returned, and
    /// the log gains `Modified(id)`. An index outside the index space is
    /// refused, and nothing changes.
    pub fn insert(&mut self, id: u32, value: T) -> (result: Result<Option<T>, StorageError>)
        requires
            old(self).wf(),
        ensures
            final(self).wf(),
            id >= index_limit() ==> {
                &&& result == Err::<Option<T>, StorageError>(StorageError::OutOfRange(id))
                &&& final(self).unchanged(*old(self))
            },
            id < index_limit() ==> {
                &&& result == Ok::<Option<T>, StorageError>(old(self).components().get(id))
                &&& final(self).components() == old(self).components().insert(id, value)
                &&& final(self).logged(
                    *old(self),
                    if old(self).components().dom().contains(id) {
                        ComponentEvent::Modified(id)
                    } else {
                        ComponentEvent::Inserted(id)
                    },
                )
            },
    {
        if id >= max_index() {
            return Err(StorageError::OutOfRange(id));
        }
        let ghost before = *self;
        let at = id as usize;
        while self.slots.len() <= at
            invariant
                at < index_limit(),
                self.slots@.len() <= index_limit(),
                self.channel == before.channel,
                self.components() == before.components(),
            decreases at + 1 - self.slots@.len(),
        {
            let ghost grown = self.components();
            self.slots.push(None);
            assert(self.components() =~= grown);
        }
        let mut slot = Some(value);
        core::mem::swap(&mut self.slots[at], &mut slot);
        if slot.is_some() {
            self.channel.single_write(ComponentEvent::Modified(id));
        } else {
            self.channel.single_write(ComponentEvent::Inserted(id));
        }
        assert(self.components() =~= before.components().insert(id, value));
        Ok(slot)
    }

    /// Overwrites the component of entity `id` with `value` and returns the
    /// one it had; the log gains `Modified(id)`. Where the entity has no
    /// component, nothing changes and the result is `None`.
    pub fn replace(&mut self, id: u32, value: T) -> (previous: Option<T>)
        requires
            old(self).wf(),
        ensures
            final(self).wf(),
            previous == old(self).components().get(id),
            previous is Some ==> {
                &&& final(self).components() == old(self).components().insert(id, value)
                &&& final(self).logged(*old(self), ComponentEvent::Modified(id))
            },
            previous is None ==> final(self).unchanged(*old(self)),
    {
        let ghost before = *self;
        let at = id as usize;
        if at < self.slots.len() && self.slots[at].is_some() {
            let mut slot = Some(value);
            core::mem::swap(&mut self.slots[at], &mut slot);
            self.channel.single_write(ComponentEvent::Modified(id));
            assert(self.components() =~= before.components().insert(id, value));
            slot
        } else {
            None
        }
    }

    /// Takes the component of entity `id` out of the storage and returns it;
    /// the log gains `Removed(id)`. Where the entity has no component,
    /// nothing changes and the result is `None`.
    pub fn remove(&mut self, id: u32) -> (previous: Option<T>)
        requires
            old(self).wf(),
        ensures
            final(self).wf(),
            previous == old(self).components().get(id),
            previous is Some ==> {
                &&& final(self).components() == old(self).components().remove(id)
                &&& final(self).logged(*old(self), ComponentEvent::Removed(id))
            },
            previous is None ==> final(self).unchanged(*old(self)),
    {
        let ghost before = *self;
        let at = id as usize;
        if at < self.slots.len() && self.slots[at].is_some() {
            let previous = self.slots[at].take();
            self.channel.single_write(ComponentEvent::Removed(id));
            assert(self.components() =~= before.components().remove(id));
            previous
        } else {
            None
        }
    }

    /// Registers a reader with the storage's log, at the end of the log. The
    /// components stay as they were.
    pub fn register_reader(&mut self) -> (reader: ReaderId)
        requires
            old(self).wf(),
        ensures
            final(self).wf(),
            final(self).registered(*old(self), reader),
    {
        self.channel.register_reader()
    }

    /// Hands out the events that `reader` has not consumed yet, oldest first,
    /// and moves the reader to the end of the log. The components, the
    /// history and the other readers stay as they were.
    pub fn read_events(&mut self, reader: &ReaderId) -> (events: Vec<ComponentEvent>)
        requires
            old(self).wf(),
            old(self).channel().has_reader(*reader),
        ensures
            final(self).wf(),
            events@ == old(self).channel().pending(*reader),
            indices_below(events@, index_limit()),
            final(self).read_by(*old(self), *reader),
    {
        proof {
            self.channel.lemma_positions();
        }
        let events = self.channel.read(reader);
        proof {
            let history = self.channel.history();
            let from = history.len() - events@.len();
            assert forall|i: int| 0 <= i < events@.len() implies (#[trigger] events@[i]).index()
                < index_limit() by {
                assert(events@[i] == history[from + i]);
            }
        }
        events
    }
}

} // verus!
