//! The Slice actor: what its event loop holds, and how each event steps it.

use crate::flush::{FlushState, ProgressState};
use crate::gap::{ParkedMain, ParkedModel};
use crate::heap::{
    drain_insert, in_drain_order, lemma_drain_inserts, EntryModel, ReadyReadHeap,
};
use crate::producer::JournalHints;
use crate::read::{read_models, Meta, ReadModel, ReadState, ReadyModel};
use crate::topology::{Binding, Topology};
use crate::uuid::Clock;
use std::collections::HashSet;
use vstd::prelude::*;

verus! {

broadcast use vstd::std_specs::hash::group_hash_axioms;

/// State of a Slice whose documents are of type `D`.
///
/// An event loop around it performs I/O, and reports each resolution by a call of one
/// of its methods.
#[derive(Debug)]
pub struct SliceActor<D> {
    pub topology: Topology,
    /// Journal reads, by read id.
    pub reads: Vec<ReadState>,
    /// Causal hints of consumed ACK documents, since the last flush.
    pub causal_hints: Vec<JournalHints>,
    pub flush: FlushState,
    pub progress: ProgressState,
    /// Journal name last sent to each Log shard, from which the next is encoded.
    pub log_prev_journal: Vec<String>,
    /// Number of reads whose start is being probed.
    pub pending_probes: usize,
    /// Number of reads which await further content.
    pub pending_reads: usize,
    /// Number of pending reads which are caught up with their write head.
    pub tailing_reads: usize,
    /// Pending reads which are behind their write head. They block draining, as they
    /// could resolve to content which precedes that of the heap.
    pub stalled_reads: HashSet<u32>,
    /// Reads with ready documents.
    pub ready_read_heap: ReadyReadHeap<D>,
    /// Main reads parked at a trigger, with their backfills. They are not pending, and
    /// so neither block draining nor count as stalled.
    pub parked_mains: Vec<ParkedMain<D>>,
}

/// What a [`SliceActor`] holds.
#[verifier::ext_equal]
pub struct ActorModel<D> {
    pub topology: Topology,
    pub reads: Seq<ReadModel>,
    pub causal_hints: Seq<JournalHints>,
    pub flush: FlushState,
    pub progress: ProgressState,
    pub log_prev_journal: Seq<Seq<char>>,
    pub pending_probes: usize,
    pub pending_reads: usize,
    pub tailing_reads: usize,
    pub stalled_reads: Set<u32>,
    pub heap: Seq<EntryModel<D>>,
    pub parked: Seq<ParkedModel<D>>,
}

/// What each of `parked` holds.
pub open spec fn parked_models<D>(parked: Seq<ParkedMain<D>>) -> Seq<ParkedModel<D>> {
    parked.map_values(|main: ParkedMain<D>| main@)
}

/// The characters of each of `names`.
pub open spec fn names(names: Seq<String>) -> Seq<Seq<char>> {
    names.map_values(|name: String| name@)
}

impl<D> View for SliceActor<D> {
    type V = ActorModel<D>;

    open spec fn view(&self) -> ActorModel<D> {
        ActorModel {
            topology: self.topology,
            reads: read_models(self.reads@),
            causal_hints: self.causal_hints@,
            flush: self.flush,
            progress: self.progress,
            log_prev_journal: names(self.log_prev_journal@),
            pending_probes: self.pending_probes,
            pending_reads: self.pending_reads,
            tailing_reads: self.tailing_reads,
            stalled_reads: self.stalled_reads@,
            heap: self.ready_read_heap@,
            parked: parked_models(self.parked_mains@),
        }
    }
}

impl<D> ActorModel<D> {
    /// The binding of the read `id`.
    pub open spec fn binding(self, id: u32) -> Binding {
        self.topology.bindings@[self.reads[id as int].binding_index as int]
    }

    /// Clocks of `metas`, delayed by the binding of the read `id`, are representable.
    pub open spec fn delays_fit(self, id: u32, metas: Seq<Meta>) -> bool {
        forall|i: int|
            0 <= i < metas.len() ==> (#[trigger] metas[i]).clock.0 + self.binding(id).read_delay.0
                <= u64::MAX
    }

    /// Whether `ready` holds documents of a read of this Slice.
    pub open spec fn ready_valid(self, ready: ReadyModel<D>) -> bool {
        &&& ready.valid()
        &&& ready.read < self.reads.len()
        &&& self.delays_fit(ready.read, ready.metas)
    }

    /// The heap entry of `ready`: of its binding's priority, and ordered by the clock
    /// of its head, as delayed by the binding.
    pub open spec fn entry_of(self, ready: ReadyModel<D>) -> EntryModel<D> {
        EntryModel {
            priority: self.binding(ready.read).priority,
            adjusted_clock: Clock(
                (ready.metas[0].clock.0 + self.binding(ready.read).read_delay.0) as u64,
            ),
            ready,
        }
    }

    pub open spec fn entry_valid(self, entry: EntryModel<D>) -> bool {
        self.ready_valid(entry.ready) && entry == self.entry_of(entry.ready)
    }

    pub open spec fn parked_valid(self, main: ParkedModel<D>) -> bool {
        &&& self.ready_valid(main.ready)
        &&& main.target == main.trigger().producer
        &&& 0 <= main.gap_begin < main.trigger().begin_offset
        &&& main.io.valid()
        &&& main.io.read() == main.ready.read
    }

    /// Whether the read `id` is held by the heap.
    pub open spec fn is_ready(self, id: u32) -> bool {
        exists|i: int| 0 <= i < self.heap.len() && (#[trigger] self.heap[i]).ready.read == id
    }

    /// Whether the read `id` is parked.
    pub open spec fn is_parked(self, id: u32) -> bool {
        exists|i: int| 0 <= i < self.parked.len() && (#[trigger] self.parked[i]).ready.read == id
    }

    /// A read is held by at most one entry of the heap, or by one parked main read.
    pub open spec fn held_once(self) -> bool {
        &&& forall|i: int, j: int|
            0 <= i < j < self.heap.len() ==> self.heap[i].ready.read != self.heap[j].ready.read
        &&& forall|i: int, j: int|
            0 <= i < j < self.parked.len() ==> self.parked[i].ready.read
                != self.parked[j].ready.read
        &&& forall|i: int, j: int|
            #![trigger self.heap[i], self.parked[j]]
            0 <= i < self.heap.len() && 0 <= j < self.parked.len() ==> self.heap[i].ready.read
                != self.parked[j].ready.read
    }

    /// Pending reads are either tailing or stalled.
    pub open spec fn counts_valid(self) -> bool {
        &&& self.stalled_reads.finite()
        &&& self.tailing_reads + self.stalled_reads.len() == self.pending_reads
    }

    /// Every flush is of the Slice's shards.
    pub open spec fn shards_valid(self) -> bool {
        &&& self.flush.valid()
        &&& self.progress.valid()
        &&& self.flush.in_flight matches Some(held) ==> held.awaiting@.len()
            == self.topology.shard_count
        &&& self.log_prev_journal.len() == self.topology.shard_count
    }

    pub open spec fn reads_valid(self) -> bool {
        &&& self.reads.len() <= u32::MAX
        &&& forall|i: int|
            0 <= i < self.reads.len() ==> (#[trigger] self.reads[i]).binding_index
                < self.topology.bindings@.len()
    }

    pub open spec fn held_valid(self) -> bool {
        &&& in_drain_order(self.heap)
        &&& forall|i: int| 0 <= i < self.heap.len() ==> self.entry_valid(#[trigger] self.heap[i])
        &&& forall|i: int|
            0 <= i < self.parked.len() ==> self.parked_valid(#[trigger] self.parked[i])
    }

    /// The invariant of a Slice.
    pub open spec fn valid(self) -> bool {
        &&& self.topology.valid()
        &&& self.shards_valid()
        &&& self.counts_valid()
        &&& self.reads_valid()
        &&& self.held_valid()
        &&& self.held_once()
    }

    /// The Slice, with another state of the read `id`.
    pub open spec fn with_read(self, id: u32, read: ReadModel) -> ActorModel<D> {
        ActorModel { reads: self.reads.update(id as int, read), ..self }
    }

    /// The Slice, without the heap entry that drains next.
    pub open spec fn popped(self) -> ActorModel<D> {
        ActorModel { heap: self.heap.drop_first(), ..self }
    }

    /// The Slice, with `ready` added to its heap.
    pub open spec fn pushed(self, ready: ReadyModel<D>) -> ActorModel<D> {
        ActorModel { heap: drain_insert(self.heap, self.entry_of(ready)), ..self }
    }

    /// The Slice, past the head document of `ready`: which returns to the heap if
    /// further documents follow.
    pub open spec fn continued(self, ready: ReadyModel<D>) -> ActorModel<D> {
        if ready.metas.len() > 1 {
            self.pushed(ready.rest())
        } else {
            self
        }
    }

    /// The Slice, with another state of a parked main read.
    pub open spec fn with_parked(self, k: int, main: ParkedModel<D>) -> ActorModel<D> {
        ActorModel { parked: self.parked.update(k, main), ..self }
    }

    /// The Slice, with `main` parked.
    pub open spec fn parking(self, main: ParkedModel<D>) -> ActorModel<D> {
        ActorModel { parked: self.parked.push(main), ..self }
    }

    /// The Slice, with the parked main read `k` released.
    pub open spec fn unparked(self, k: int) -> ActorModel<D> {
        ActorModel { parked: self.parked.remove(k), ..self }
    }

    /// The Slice, once the read `id` awaits further content.
    pub open spec fn pended(self, id: u32, tailing: bool) -> ActorModel<D> {
        if tailing {
            ActorModel {
                pending_reads: (self.pending_reads + 1) as usize,
                tailing_reads: (self.tailing_reads + 1) as usize,
                ..self
            }
        } else {
            ActorModel {
                pending_reads: (self.pending_reads + 1) as usize,
                stalled_reads: self.stalled_reads.insert(id),
                ..self
            }
        }
    }

    /// The Slice, once the pending read `id` has resolved.
    pub open spec fn resolved(self, id: u32) -> ActorModel<D> {
        if self.stalled_reads.contains(id) {
            ActorModel {
                pending_reads: (self.pending_reads - 1) as usize,
                stalled_reads: self.stalled_reads.remove(id),
                ..self
            }
        } else {
            ActorModel {
                pending_reads: (self.pending_reads - 1) as usize,
                tailing_reads: (self.tailing_reads - 1) as usize,
                ..self
            }
        }
    }

    /// Whether the heap must not drain yet.
    pub open spec fn drain_blocked(self) -> bool {
        self.tailing_reads != self.pending_reads || self.pending_probes != 0
    }
}

/// Another state of a read, of the same binding, keeps the Slice valid.
pub proof fn lemma_with_read<D>(m: ActorModel<D>, id: u32, read: ReadModel)
    requires
        m.valid(),
        id < m.reads.len(),
        read.binding_index == m.reads[id as int].binding_index,
    ensures
        m.with_read(id, read).valid(),
        forall|ready: ReadyModel<D>| #[trigger]
            m.with_read(id, read).ready_valid(ready) == m.ready_valid(ready),
        forall|ready: ReadyModel<D>| #[trigger]
            m.with_read(id, read).entry_of(ready) == m.entry_of(ready) || ready.read
                >= m.reads.len(),
{
    let n = m.with_read(id, read);
    assert forall|r: u32| r < m.reads.len() implies #[trigger] n.binding(r) == m.binding(r) by {}
    assert forall|ready: ReadyModel<D>| #[trigger] n.ready_valid(ready) == m.ready_valid(ready) by {
        if ready.read < m.reads.len() {
            assert(n.binding(ready.read) == m.binding(ready.read));
        }
    }
    assert forall|ready: ReadyModel<D>| #[trigger]
        n.entry_of(ready) == m.entry_of(ready) || ready.read >= m.reads.len() by {
        if ready.read < m.reads.len() {
            assert(n.binding(ready.read) == m.binding(ready.read));
        }
    }
    assert forall|i: int| 0 <= i < n.heap.len() implies n.entry_valid(#[trigger] n.heap[i]) by {
        assert(m.entry_valid(m.heap[i]));
    }
    assert forall|i: int| 0 <= i < n.parked.len() implies n.parked_valid(
        #[trigger] n.parked[i],
    ) by {
        assert(m.parked_valid(m.parked[i]));
    }
}

/// Popping the heap keeps the Slice valid, and frees the popped read.
pub proof fn lemma_popped<D>(m: ActorModel<D>)
    requires
        m.valid(),
        m.heap.len() > 0,
    ensures
        m.popped().valid(),
        m.ready_valid(m.heap[0].ready),
        m.popped().ready_valid(m.heap[0].ready),
        !m.popped().is_ready(m.heap[0].ready.read),
        !m.popped().is_parked(m.heap[0].ready.read),
{
    let n = m.popped();
    assert(m.entry_valid(m.heap[0]));
    assert forall|i: int| 0 <= i < n.heap.len() implies n.entry_valid(#[trigger] n.heap[i]) by {
        assert(m.entry_valid(m.heap[i + 1]));
    }
    assert forall|i: int| 0 <= i < n.parked.len() implies n.parked_valid(
        #[trigger] n.parked[i],
    ) by {
        assert(m.parked_valid(m.parked[i]));
    }
    assert forall|i: int| 0 <= i < n.parked.len() implies (#[trigger] n.parked[i]).ready.read
        != m.heap[0].ready.read by {
        assert(m.heap[0].ready.read != m.parked[i].ready.read);
    }
    assert forall|i: int| 0 <= i < n.heap.len() implies (#[trigger] n.heap[i]).ready.read
        != m.heap[0].ready.read by {
        assert(n.heap[i] == m.heap[i + 1]);
    }
}

/// Pushing documents of a read that is not held keeps the Slice valid.
pub proof fn lemma_pushed<D>(m: ActorModel<D>, ready: ReadyModel<D>)
    requires
        m.valid(),
        m.ready_valid(ready),
        !m.is_ready(ready.read),
        !m.is_parked(ready.read),
    ensures
        m.pushed(ready).valid(),
{
    let n = m.pushed(ready);
    let at = lemma_drain_inserts(m.heap, m.entry_of(ready));
    assert forall|i: int| 0 <= i < n.heap.len() implies n.entry_valid(#[trigger] n.heap[i]) by {
        if i < at {
            assert(n.heap[i] == m.heap[i]);
            assert(m.entry_valid(m.heap[i]));
        } else if i > at {
            assert(n.heap[i] == m.heap[i - 1]);
            assert(m.entry_valid(m.heap[i - 1]));
        }
    }
    assert forall|i: int| 0 <= i < n.parked.len() implies n.parked_valid(
        #[trigger] n.parked[i],
    ) by {
        assert(m.parked_valid(m.parked[i]));
    }
    assert forall|i: int| 0 <= i < n.heap.len() && i != at implies (
    #[trigger] n.heap[i]).ready.read != ready.read by {
        if i < at {
            assert(n.heap[i] == m.heap[i]);
        } else {
            assert(n.heap[i] == m.heap[i - 1]);
        }
    }
    assert forall|i: int, j: int| 0 <= i < j < n.heap.len() implies n.heap[i].ready.read
        != n.heap[j].ready.read by {
        let gi = if i < at {
            i
        } else {
            i - 1
        };
        let gj = if j < at {
            j
        } else {
            j - 1
        };
        if i != at && j != at {
            assert(n.heap[i] == m.heap[gi] && n.heap[j] == m.heap[gj]);
        }
    }
    assert forall|i: int, j: int|
        #![trigger n.heap[i], n.parked[j]]
        0 <= i < n.heap.len() && 0 <= j < n.parked.len() implies n.heap[i].ready.read
        != n.parked[j].ready.read by {
        if i < at {
            assert(n.heap[i] == m.heap[i]);
        } else if i > at {
            assert(n.heap[i] == m.heap[i - 1]);
        }
        assert(n.parked[j] == m.parked[j]);
    }
}

impl<D> SliceActor<D> {
    /// A Slice which has no reads yet.
    pub fn new(topology: Topology) -> (actor: SliceActor<D>)
        requires
            topology.valid(),
        ensures
            actor@.valid(),
            actor.topology == topology,
            actor@.reads.len() == 0,
            actor@.causal_hints.len() == 0,
            !actor.flush.ready && actor.flush.in_flight is None && actor.flush.cycle == 0,
            !actor.progress.requested && actor.progress.progressed is None,
            actor@.log_prev_journal == Seq::new(
                topology.shard_count as nat,
                |i: int| Seq::<char>::empty(),
            ),
            actor.pending_probes == 0 && actor.pending_reads == 0 && actor.tailing_reads == 0,
            actor@.stalled_reads == Set::<u32>::empty(),
            actor@.heap.len() == 0,
            actor@.parked.len() == 0,
    {
        let mut log_prev_journal: Vec<String> = Vec::new();
        while log_prev_journal.len() < topology.shard_count
            invariant
                log_prev_journal@.len() <= topology.shard_count,
                forall|i: int|
                    0 <= i < log_prev_journal@.len() ==> (#[trigger] log_prev_journal@[i])@ == Seq::<
                        char,
                    >::empty(),
            decreases topology.shard_count - log_prev_journal@.len(),
        {
            log_prev_journal.push(String::new());
        }
        let actor = SliceActor {
            topology,
            reads: Vec::new(),
            causal_hints: Vec::new(),
            flush: FlushState::new(),
            progress: ProgressState::new(),
            log_prev_journal,
            pending_probes: 0,
            pending_reads: 0,
            tailing_reads: 0,
            stalled_reads: HashSet::new(),
            ready_read_heap: ReadyReadHeap::new(),
            parked_mains: Vec::new(),
        };
        assert(actor@.log_prev_journal =~= Seq::new(
            topology.shard_count as nat,
            |i: int| Seq::<char>::empty(),
        ));
        actor
    }

    /// Park a read which awaits further content. A tailing read is caught up with its
    /// write head, and any other is stalled.
    pub fn park(&mut self, read_id: u32, tailing: bool)
        requires
            old(self)@.valid(),
            old(self).pending_reads < usize::MAX,
            !tailing ==> !old(self)@.stalled_reads.contains(read_id),
        ensures
            final(self)@.valid(),
            final(self)@ == old(self)@.pended(read_id, tailing),
    {
        self.pending_reads = self.pending_reads + 1;
        if tailing {
            self.tailing_reads = self.tailing_reads + 1;
        } else {
            let _ = self.stalled_reads.insert(read_id);
        }
        proof {
            lemma_same_held(old(self)@, self@);
        }
    }

    /// A pending read has resolved. Undoes what [`SliceActor::park`] did for it, and
    /// returns whether the read had stalled.
    pub fn on_pending_read_resolved(&mut self, read_id: u32) -> (stalled: bool)
        requires
            old(self)@.valid(),
            old(self)@.stalled_reads.contains(read_id) || old(self).tailing_reads > 0,
        ensures
            final(self)@.valid(),
            stalled == old(self)@.stalled_reads.contains(read_id),
            final(self)@ == old(self)@.resolved(read_id),
    {
        let stalled = self.stalled_reads.remove(&read_id);
        self.pending_reads = self.pending_reads - 1;
        if !stalled {
            self.tailing_reads = self.tailing_reads - 1;
            assert(self.stalled_reads@ =~= old(self).stalled_reads@);
        }
        proof {
            lemma_same_held(old(self)@, self@);
        }
        stalled
    }

    /// Whether the heap must not drain yet: a stalled read, or one that is still being
    /// probed, could resolve to content which precedes that of the heap. Parked main
    /// reads and their backfills do not take part.
    pub fn heap_drain_blocked(&self) -> (blocked: bool)
        ensures
            blocked == self@.drain_blocked(),
    {
        self.tailing_reads != self.pending_reads || self.pending_probes != 0
    }
}

/// Validity of what a Slice holds depends only on its bindings, reads, heap and
/// parked main reads.
pub proof fn lemma_same_held<D>(m: ActorModel<D>, n: ActorModel<D>)
    requires
        m.valid(),
        n.topology == m.topology,
        n.reads == m.reads,
        n.heap == m.heap,
        n.parked == m.parked,
    ensures
        n.held_valid(),
        n.held_once(),
        n.reads_valid(),
{
    assert forall|r: ReadyModel<D>| n.ready_valid(r) == m.ready_valid(r) by {
        assert(n.binding(r.read) == m.binding(r.read));
    }
    assert forall|i: int| 0 <= i < n.heap.len() implies n.entry_valid(#[trigger] n.heap[i]) by {
        assert(m.entry_valid(m.heap[i]));
        assert(n.binding(n.heap[i].ready.read) == m.binding(n.heap[i].ready.read));
        assert(n.ready_valid(n.heap[i].ready) == m.ready_valid(m.heap[i].ready));
    }
    assert forall|i: int| 0 <= i < n.parked.len() implies n.parked_valid(
        #[trigger] n.parked[i],
    ) by {
        assert(m.parked_valid(m.parked[i]));
        assert(n.ready_valid(n.parked[i].ready) == m.ready_valid(m.parked[i].ready));
    }
}

} // verus!
