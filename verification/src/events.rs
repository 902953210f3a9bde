//! Change events of a component storage, the log that keeps them, and the
//! readers that consume them.
//!
//! A log is, in its model, the whole sequence of events ever written to it.
//! Each registered reader has a position in that sequence; reading hands out
//! what lies between the position and the end, and moves the position to the
//! end. In memory the log keeps only the events that some reader has not
//! consumed yet.

use vstd::prelude::*;

verus! {

/// One write to a component storage, with the index of the entity it touched.
#[derive(Clone, Copy, Debug, PartialEq, Eq, Structural)]
pub enum ComponentEvent {
    /// The entity gained the component.
    Inserted(u32),
    /// The component of the entity was overwritten.
    Modified(u32),
    /// The entity lost the component.
    Removed(u32),
}

impl ComponentEvent {
    /// The index of the entity that the event is about.
    pub open spec fn index(self) -> u32 {
        match self {
            ComponentEvent::Inserted(id) => id,
            ComponentEvent::Modified(id) => id,
            ComponentEvent::Removed(id) => id,
        }
    }

    /// The index of the entity that the event is about.
    pub fn id(&self) -> (id: u32)
        ensures
            id == self.index(),
    {
        match *self {
            ComponentEvent::Inserted(id) => id,
            ComponentEvent::Modified(id) => id,
            ComponentEvent::Removed(id) => id,
        }
    }
}

/// The entities for which `events` holds an `Inserted` event.
pub open spec fn inserted_indices(events: Seq<ComponentEvent>) -> Set<u32> {
    Set::new(|id: u32| events.contains(ComponentEvent::Inserted(id)))
}

/// The entities for which `events` holds a `Modified` event.
pub open spec fn modified_indices(events: Seq<ComponentEvent>) -> Set<u32> {
    Set::new(|id: u32| events.contains(ComponentEvent::Modified(id)))
}

/// The entities for which `events` holds a `Removed` event.
pub open spec fn removed_indices(events: Seq<ComponentEvent>) -> Set<u32> {
    Set::new(|id: u32| events.contains(ComponentEvent::Removed(id)))
}

/// Every event of `events` is about an entity below `limit`.
pub open spec fn indices_below(events: Seq<ComponentEvent>, limit: nat) -> bool {
    forall|i: int| 0 <= i < events.len() ==> (#[trigger] events[i]).index() < limit
}

/// The handle of a reader. The log that registered the reader keeps its
/// position; the handle names it, and is to be used with that log only.
#[derive(Debug)]
pub struct ReaderId {
    slot: usize,
}

/// The event log of one component storage.
pub struct ComponentEventLog {
    /// The events that at least one reader has still to consume, oldest first.
    retained: Vec<ComponentEvent>,
    /// For each reader, how many of the retained events it has consumed.
    consumed: Vec<usize>,
    /// Every event ever written.
    history: Ghost<Seq<ComponentEvent>>,
}

impl ComponentEventLog {
    /// Every event ever written to the log, oldest first.
    pub closed spec fn history(&self) -> Seq<ComponentEvent> {
        self.history@
    }

    /// The number of readers registered with the log.
    pub closed spec fn readers(&self) -> nat {
        self.consumed@.len()
    }

    /// `reader` is registered with the log.
    pub closed spec fn has_reader(&self, reader: ReaderId) -> bool {
        reader.slot < self.consumed@.len()
    }

    /// The number of events of the history that `reader` has consumed.
    pub closed spec fn position(&self, reader: ReaderId) -> nat {
        (self.history@.len() - self.retained@.len() + self.consumed@[reader.slot as int]) as nat
    }

    /// The events written since `reader` last read, or since it was
    /// registered.
    pub open spec fn pending(&self, reader: ReaderId) -> Seq<ComponentEvent> {
        self.history().subrange(self.position(reader) as int, self.history().len() as int)
    }

    /// The number of events that the log holds in memory.
    pub closed spec fn retained_len(&self) -> nat {
        self.retained@.len()
    }

    /// The log has the readers of `before`, each where it was.
    pub open spec fn readers_unmoved(&self, before: Self) -> bool {
        &&& self.readers() == before.readers()
        &&& forall|reader: ReaderId| #[trigger] self.has_reader(reader) == before.has_reader(reader)
        &&& forall|reader: ReaderId|
            before.has_reader(reader) ==> #[trigger] self.position(reader) == before.position(
                reader,
            )
    }

    /// The log is `before` with `reader` newly registered: the history is the
    /// same, `reader` stands at its end, and every other reader is where it
    /// was.
    pub open spec fn registered(&self, before: Self, reader: ReaderId) -> bool {
        &&& self.history() == before.history()
        &&& self.readers() == before.readers() + 1
        &&& !before.has_reader(reader)
        &&& forall|other: ReaderId|
            #[trigger] self.has_reader(other) == (before.has_reader(other) || other == reader)
        &&& self.position(reader) == before.history().len()
        &&& forall|other: ReaderId|
            before.has_reader(other) ==> #[trigger] self.position(other) == before.position(other)
    }

    /// The log is `before` after `reader` has read: the history is the same,
    /// `reader` stands at its end, and every other reader is where it was.
    pub open spec fn consumed_by(&self, before: Self, reader: ReaderId) -> bool {
        &&& self.history() == before.history()
        &&& self.readers() == before.readers()
        &&& forall|other: ReaderId| #[trigger] self.has_reader(other) == before.has_reader(other)
        &&& self.position(reader) == before.history().len()
        &&& forall|other: ReaderId|
            before.has_reader(other) && other != reader ==> #[trigger] self.position(other)
                == before.position(other)
    }

    /// What is kept in memory is the end of the history.
    spec fn retains_suffix(&self) -> bool {
        &&& self.retained@.len() <= self.history@.len()
        &&& self.retained@ =~= self.history@.subrange(
            self.history@.len() - self.retained@.len(),
            self.history@.len() as int,
        )
    }

    /// The log's invariant: what is kept in memory is the end of the history,
    /// from the position of the reader that is furthest behind; without a
    /// reader nothing is kept.
    pub closed spec fn wf(&self) -> bool {
        &&& self.retains_suffix()
        &&& forall|k: int|
            0 <= k < self.consumed@.len() ==> #[trigger] self.consumed@[k] <= self.retained@.len()
        &&& self.consumed@.len() == 0 ==> self.retained@.len() == 0
        &&& self.consumed@.len() > 0 ==> exists|k: int|
            0 <= k < self.consumed@.len() && #[trigger] self.consumed@[k] == 0
    }

    /// No reader is ahead of the log, and the log keeps in memory exactly what
    /// the reader that is furthest behind has still to consume.
    pub proof fn lemma_positions(&self)
        requires
            self.wf(),
        ensures
            self.retained_len() <= self.history().len(),
            forall|reader: ReaderId|
                self.has_reader(reader) ==> self.history().len() - self.retained_len()
                    <= #[trigger] self.position(reader) <= self.history().len(),
            self.readers() == 0 ==> self.retained_len() == 0,
            self.readers() > 0 ==> exists|reader: ReaderId|
                self.has_reader(reader) && #[trigger] self.position(reader)
                    == self.history().len() - self.retained_len(),
    {
        if self.consumed@.len() > 0 {
            let k = choose|k: int|
                0 <= k < self.consumed@.len() && #[trigger] self.consumed@[k] == 0;
            assert(self.consumed@.len() == self.consumed.len());
            let reader = ReaderId { slot: k as usize };
            assert(self.has_reader(reader));
            assert(self.position(reader) == self.history().len() - self.retained_len());
        }
    }

    /// A log without events and without readers.
    pub fn new() -> (log: Self)
        ensures
            log.wf(),
            log.history() == Seq::<ComponentEvent>::empty(),
            log.readers() == 0,
            forall|reader: ReaderId| !#[trigger] log.has_reader(reader),
    {
        ComponentEventLog {
            retained: Vec::new(),
            consumed: Vec::new(),
            history: Ghost(Seq::empty()),
        }
    }

    /// The number of events that the log holds in memory.
    pub fn retained_count(&self) -> (count: usize)
        ensures
            count == self.retained_len(),
    {
        self.retained.len()
    }

    /// The number of readers registered with the log.
    pub fn reader_count(&self) -> (count: usize)
        ensures
            count == self.readers(),
    {
        self.consumed.len()
    }

    /// Whether `reader` is registered with the log.
    pub fn is_registered(&self, reader: &ReaderId) -> (registered: bool)
        ensures
            registered == self.has_reader(*reader),
    {
        reader.slot < self.consumed.len()
    }

    /// Appends `event` to the log. No reader moves.
    pub fn single_write(&mut self, event: ComponentEvent)
        requires
            old(self).wf(),
        ensures
            final(self).wf(),
            final(self).history() == old(self).history().push(event),
            final(self).readers_unmoved(*old(self)),
    {
        let ghost before = *self;
        if self.consumed.len() > 0 {
            self.retained.push(event);
        }
        self.history = Ghost(self.history@.push(event));
        proof {
            assert(self.retains_suffix());
            if before.consumed@.len() > 0 {
                let k = choose|k: int|
                    0 <= k < before.consumed@.len() && #[trigger] before.consumed@[k] == 0;
                assert(self.consumed@[k] == 0);
            }
        }
    }

    /// Registers a reader. It starts at the end of the log: it will see the
    /// events written from now on and none of the earlier ones.
    pub fn register_reader(&mut self) -> (reader: ReaderId)
        requires
            old(self).wf(),
        ensures
            final(self).wf(),
            final(self).registered(*old(self), reader),
    {
        let ghost before = *self;
        let slot = self.consumed.len();
        let at = self.retained.len();
        self.consumed.push(at);
        proof {
            if before.consumed@.len() > 0 {
                let k = choose|k: int|
                    0 <= k < before.consumed@.len() && #[trigger] before.consumed@[k] == 0;
                assert(self.consumed@[k] == 0);
            } else {
                assert(self.consumed@[0] == 0);
            }
        }
        ReaderId { slot }
    }

    /// Hands out the events that `reader` has not consumed yet, oldest first,
    /// and moves the reader to the end of the log. The history and the other
    /// readers stay as they were. Events that every reader has consumed leave
    /// memory.
    pub fn read(&mut self, reader: &ReaderId) -> (events: Vec<ComponentEvent>)
        requires
            old(self).wf(),
            old(self).has_reader(*reader),
        ensures
            final(self).wf(),
            events@ == old(self).pending(*reader),
            final(self).consumed_by(*old(self), *reader),
    {
        let ghost before = *self;
        let start = self.consumed[reader.slot];
        let end = self.retained.len();
        let mut events: Vec<ComponentEvent> = Vec::new();
        let mut i: usize = start;
        while i < end
            invariant
                start <= i <= end,
                end == self.retained@.len(),
                events@ == self.retained@.subrange(start as int, i as int),
            decreases end - i,
        {
            events.push(self.retained[i]);
            i += 1;
        }
        assert(events@ =~= before.pending(*reader));
        self.consumed[reader.slot] = end;
        let oldest = self.oldest();
        self.release(oldest);
        events
    }

    /// The least number of retained events that any reader has consumed.
    fn oldest(&self) -> (least: usize)
        requires
            self.consumed@.len() > 0,
            forall|k: int|
                0 <= k < self.consumed@.len() ==> #[trigger] self.consumed@[k]
                    <= self.retained@.len(),
        ensures
            least <= self.retained@.len(),
            forall|k: int| 0 <= k < self.consumed@.len() ==> least <= #[trigger] self.consumed@[k],
            exists|k: int| 0 <= k < self.consumed@.len() && #[trigger] self.consumed@[k] == least,
    {
        let mut least = self.consumed[0];
        let mut k: usize = 1;
        while k < self.consumed.len()
            invariant
                1 <= k <= self.consumed@.len(),
                forall|j: int| 0 <= j < k ==> least <= #[trigger] self.consumed@[j],
                exists|j: int| 0 <= j < k && #[trigger] self.consumed@[j] == least,
            decreases self.consumed@.len() - k,
        {
            if self.consumed[k] < least {
                least = self.consumed[k];
            }
            k += 1;
        }
        least
    }

    /// Drops the `count` oldest retained events, which every reader has
    /// consumed.
    fn release(&mut self, count: usize)
        requires
            old(self).retains_suffix(),
            old(self).consumed@.len() > 0,
            count <= old(self).retained@.len(),
            forall|k: int|
                0 <= k < old(self).consumed@.len() ==> count <= #[trigger] old(self).consumed@[k]
                    <= old(self).retained@.len(),
            exists|k: int|
                0 <= k < old(self).consumed@.len() && #[trigger] old(self).consumed@[k] == count,
        ensures
            final(self).wf(),
            final(self).history@ == old(self).history@,
            final(self).consumed@.len() == old(self).consumed@.len(),
            final(self).retained@.len() == old(self).retained@.len() - count,
            forall|k: int|
                0 <= k < old(self).consumed@.len() ==> #[trigger] final(self).consumed@[k]
                    == old(self).consumed@[k] - count,
    {
        let ghost before = *self;
        let kept = self.retained.split_off(count);
        self.retained = kept;
        let mut k: usize = 0;
        while k < self.consumed.len()
            invariant
                k <= self.consumed@.len(),
                self.consumed@.len() == before.consumed@.len(),
                self.history@ == before.history@,
                self.retained@ == before.retained@.subrange(
                    count as int,
                    before.retained@.len() as int,
                ),
                forall|j: int|
                    0 <= j < k ==> #[trigger] self.consumed@[j] == before.consumed@[j] - count,
                forall|j: int|
                    k <= j < self.consumed@.len() ==> #[trigger] self.consumed@[j]
                        == before.consumed@[j],
                forall|j: int|
                    0 <= j < before.consumed@.len() ==> count <= #[trigger] before.consumed@[j],
            decreases self.consumed@.len() - k,
        {
            let moved = self.consumed[k] - count;
            self.consumed[k] = moved;
            k += 1;
        }
        proof {
            let w = choose|w: int|
                0 <= w < before.consumed@.len() && #[trigger] before.consumed@[w] == count;
            assert(self.consumed@[w] == 0);
            assert(self.retains_suffix());
        }
    }
}

/// The positions of one reader over time: `cuts[0]` where it was registered,
/// `cuts[k]` the length of the log when it read for the `k`-th time. Between
/// two reads the log only grows, and every read takes the reader to the end.
pub open spec fn reader_cuts(history: Seq<ComponentEvent>, cuts: Seq<nat>) -> bool {
    &&& cuts.len() >= 1
    &&& forall|i: int, j: int| 0 <= i <= j < cuts.len() ==> cuts[i] <= cuts[j]
    &&& cuts.last() <= history.len()
}

/// The events that the read number `k + 1` hands out.
pub open spec fn read_window(
    history: Seq<ComponentEvent>,
    cuts: Seq<nat>,
    k: int,
) -> Seq<ComponentEvent> {
    history.subrange(cuts[k] as int, cuts[k + 1] as int)
}

/// All that the first `reads` reads hand out, one read after the other.
pub open spec fn events_read(
    history: Seq<ComponentEvent>,
    cuts: Seq<nat>,
    reads: nat,
) -> Seq<ComponentEvent>
    decreases reads,
{
    if reads == 0 {
        Seq::<ComponentEvent>::empty()
    } else {
        events_read(history, cuts, (reads - 1) as nat) + read_window(history, cuts, reads - 1)
    }
}

/// The entities that one of the first `reads` reads reports as inserted.
pub open spec fn inserted_read(history: Seq<ComponentEvent>, cuts: Seq<nat>, reads: nat) -> Set<u32>
    decreases reads,
{
    if reads == 0 {
        Set::<u32>::empty()
    } else {
        inserted_read(history, cuts, (reads - 1) as nat).union(
            inserted_indices(read_window(history, cuts, reads - 1)),
        )
    }
}

/// The entities that one of the first `reads` reads reports as modified.
pub open spec fn modified_read(history: Seq<ComponentEvent>, cuts: Seq<nat>, reads: nat) -> Set<u32>
    decreases reads,
{
    if reads == 0 {
        Set::<u32>::empty()
    } else {
        modified_read(history, cuts, (reads - 1) as nat).union(
            modified_indices(read_window(history, cuts, reads - 1)),
        )
    }
}

/// The entities that one of the first `reads` reads reports as removed.
pub open spec fn removed_read(history: Seq<ComponentEvent>, cuts: Seq<nat>, reads: nat) -> Set<u32>
    decreases reads,
{
    if reads == 0 {
        Set::<u32>::empty()
    } else {
        removed_read(history, cuts, (reads - 1) as nat).union(
            removed_indices(read_window(history, cuts, reads - 1)),
        )
    }
}

/// An event is in a concatenation exactly if it is in one of the two parts.
proof fn lemma_contains_concat(a: Seq<ComponentEvent>, b: Seq<ComponentEvent>, e: ComponentEvent)
    ensures
        (a + b).contains(e) == (a.contains(e) || b.contains(e)),
{
    if a.contains(e) {
        let k = choose|k: int| 0 <= k < a.len() && a[k] == e;
        assert((a + b)[k] == e);
    }
    if b.contains(e) {
        let k = choose|k: int| 0 <= k < b.len() && b[k] == e;
        assert((a + b)[a.len() + k] == e);
    }
    if (a + b).contains(e) {
        let k = choose|k: int| 0 <= k < (a + b).len() && (a + b)[k] == e;
        if k < a.len() {
            assert(a[k] == e);
        } else {
            assert(b[k - a.len()] == e);
        }
    }
}

/// A reader that reads again and again is handed every event written since it
/// was registered, once and in order: the reads, put end to end, are the
/// stretch of the history from the reader's first position to its last. So
/// the entities reported as inserted, taken over all the reads, are those
/// inserted in that stretch, and likewise those modified and those removed.
pub proof fn lemma_reads_cover_history(history: Seq<ComponentEvent>, cuts: Seq<nat>, reads: nat)
    requires
        reader_cuts(history, cuts),
        reads < cuts.len(),
    ensures
        events_read(history, cuts, reads) == history.subrange(
            cuts[0] as int,
            cuts[reads as int] as int,
        ),
        inserted_read(history, cuts, reads) == inserted_indices(
            history.subrange(cuts[0] as int, cuts[reads as int] as int),
        ),
        modified_read(history, cuts, reads) == modified_indices(
            history.subrange(cuts[0] as int, cuts[reads as int] as int),
        ),
        removed_read(history, cuts, reads) == removed_indices(
            history.subrange(cuts[0] as int, cuts[reads as int] as int),
        ),
    decreases reads,
{
    let whole = history.subrange(cuts[0] as int, cuts[reads as int] as int);
    if reads == 0 {
        assert(events_read(history, cuts, reads) =~= whole);
        assert(inserted_read(history, cuts, reads) =~= inserted_indices(whole));
        assert(modified_read(history, cuts, reads) =~= modified_indices(whole));
        assert(removed_read(history, cuts, reads) =~= removed_indices(whole));
    } else {
        lemma_reads_cover_history(history, cuts, (reads - 1) as nat);
        let earlier = history.subrange(cuts[0] as int, cuts[reads - 1] as int);
        let last = read_window(history, cuts, reads - 1);
        assert(cuts[0] <= cuts[reads - 1] <= cuts[reads as int] <= cuts.last());
        assert(whole =~= earlier + last);
        assert forall|e: ComponentEvent|
            whole.contains(e) == (earlier.contains(e) || last.contains(e)) by {
            lemma_contains_concat(earlier, last, e);
        }
        assert(inserted_read(history, cuts, reads) =~= inserted_indices(whole));
        assert(modified_read(history, cuts, reads) =~= modified_indices(whole));
        assert(removed_read(history, cuts, reads) =~= removed_indices(whole));
    }
}

/// A reader that has read finds nothing when it reads again before anything
/// is written: with the reader at the end of the log, as a read leaves it,
/// nothing is pending, and no entity is inserted, modified or removed.
pub proof fn lemma_second_read_is_empty(log: ComponentEventLog, reader: ReaderId)
    requires
        log.wf(),
        log.has_reader(reader),
        log.position(reader) == log.history().len(),
    ensures
        log.pending(reader) == Seq::<ComponentEvent>::empty(),
        inserted_indices(log.pending(reader)) == Set::<u32>::empty(),
        modified_indices(log.pending(reader)) == Set::<u32>::empty(),
        removed_indices(log.pending(reader)) == Set::<u32>::empty(),
{
    assert(log.pending(reader) =~= Seq::<ComponentEvent>::empty());
    assert(inserted_indices(log.pending(reader)) =~= Set::<u32>::empty());
    assert(modified_indices(log.pending(reader)) =~= Set::<u32>::empty());
    assert(removed_indices(log.pending(reader)) =~= Set::<u32>::empty());
}

} // verus!
