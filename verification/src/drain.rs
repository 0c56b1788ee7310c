//! Draining of the ready heap: what its head document does, and how it is consumed.

use crate::actor::{
    lemma_popped, lemma_pushed, lemma_same_held, lemma_with_read, ActorModel, SliceActor,
};
use crate::flush::FlushState;
use crate::gap::BackfillIo;
use crate::heap::ReadyReadEntry;
use crate::producer::{JournalHints, ProducerState};
use crate::read::{Meta, ReadModel, ReadyRead};
use crate::sequence::{
    gapped_outcome_of, sequence_gapped, settled_at, stepped, GappedOutcome, SequenceError,
    Sequenced,
};
use crate::topology::{sequence_producer, Binding, SliceError};
use crate::uuid::{Clock, Flags};
use vstd::prelude::*;

verus! {

/// What the document at the head of a main read does.
#[derive(Clone, Copy, Debug, PartialEq, Eq, Structural)]
pub enum HeadStep {
    /// A duplicate of a gapped producer: skip it, and keep the gap.
    Drop,
    /// An ACK which rolls back the span of a gapped producer, and so resolves its gap
    /// without historical I/O. A deep rollback regresses below the last commit.
    Rollback { deep: bool },
    /// A newer CONTINUE or ACK of a gapped producer, whose skipped span begins at
    /// `gap_begin`: park the read, and backfill.
    Trigger { gap_begin: i64 },
    /// Any other document, which is sequenced. It `resolves_gap` if its producer was
    /// gapped, and the document is a newer OUTSIDE.
    Sequence { sequenced: Sequenced, resolves_gap: bool },
}

impl HeadStep {
    /// Whether causal hints of the document of `meta` are extracted as it is consumed:
    /// it is an ACK, and makes commit progress.
    pub open spec fn spec_is_hinting(self, meta: Meta) -> bool {
        match self {
            HeadStep::Rollback { .. } => true,
            HeadStep::Sequence { sequenced, .. } => sequenced.is_commit && meta.flags
                == Flags::AckTxn,
            _ => false,
        }
    }

    pub fn is_hinting(self, meta: &Meta) -> (hinting: bool)
        ensures
            hinting == self.spec_is_hinting(*meta),
    {
        match self {
            HeadStep::Rollback { .. } => true,
            HeadStep::Sequence { sequenced, .. } => {
                sequenced.is_commit && match meta.flags {
                    Flags::AckTxn => true,
                    _ => false,
                }
            },
            _ => false,
        }
    }
}

/// What the document of `meta` does, for a producer in `state`.
///
/// A gapped producer is classified against its frozen state. Once a newer OUTSIDE
/// discards the gap, it is sequenced as if there had been none.
pub open spec fn head_step(state: ProducerState, meta: Meta) -> Result<HeadStep, SequenceError> {
    if state.is_gapped() {
        match gapped_outcome_of(state.last_commit, meta) {
            GappedOutcome::Drop => Ok(HeadStep::Drop),
            GappedOutcome::CleanRollback => Ok(HeadStep::Rollback { deep: false }),
            GappedOutcome::DeepRollback => Ok(HeadStep::Rollback { deep: true }),
            GappedOutcome::TriggerBackfill => Ok(HeadStep::Trigger { gap_begin: state.offset }),
            GappedOutcome::OutsideResolve => match stepped(state.reopened(), meta) {
                Ok(sequenced) => Ok(HeadStep::Sequence { sequenced, resolves_gap: true }),
                Err(error) => Err(error),
            },
        }
    } else {
        match stepped(state, meta) {
            Ok(sequenced) => Ok(HeadStep::Sequence { sequenced, resolves_gap: false }),
            Err(error) => Err(error),
        }
    }
}

/// Decide what the document of `meta` does, for a producer in `state`. This is pure:
/// nothing changes until the document is consumed.
pub fn classify_head(
    state: ProducerState,
    journal: &str,
    binding: &Binding,
    meta: &Meta,
) -> (step: Result<HeadStep, SliceError>)
    requires
        meta.valid(),
    ensures
        match head_step(state, *meta) {
            Ok(expect) => step == Ok::<HeadStep, SliceError>(expect),
            Err(error) => step matches Err(err) && err.reports_sequence(
                journal@,
                *binding,
                state,
                *meta,
                error,
            ),
        },
{
    if state.is_gapped() {
        match sequence_gapped(state.last_commit, meta) {
            GappedOutcome::Drop => Ok(HeadStep::Drop),
            GappedOutcome::CleanRollback => Ok(HeadStep::Rollback { deep: false }),
            GappedOutcome::DeepRollback => Ok(HeadStep::Rollback { deep: true }),
            GappedOutcome::TriggerBackfill => Ok(HeadStep::Trigger { gap_begin: state.offset }),
            GappedOutcome::OutsideResolve => match sequence_producer(
                state.reopened(),
                journal,
                binding,
                meta,
            ) {
                Ok(sequenced) => Ok(HeadStep::Sequence { sequenced, resolves_gap: true }),
                Err(err) => Err(err),
            },
        }
    } else {
        match sequence_producer(state, journal, binding, meta) {
            Ok(sequenced) => Ok(HeadStep::Sequence { sequenced, resolves_gap: false }),
            Err(err) => Err(err),
        }
    }
}

impl<D> ActorModel<D> {
    /// Metadata of the document at the head of the heap.
    pub open spec fn head(self) -> Meta {
        self.heap[0].ready.metas[0]
    }

    /// The read of the document at the head of the heap.
    pub open spec fn head_read(self) -> ReadModel {
        self.reads[self.heap[0].ready.read as int]
    }

    /// State of the producer of the document at the head of the heap.
    pub open spec fn head_state(self) -> ProducerState {
        self.head_read().producer_state(self.head().producer)
    }

    /// What the document at the head of the heap does.
    pub open spec fn step_of_head(self) -> Result<HeadStep, SequenceError> {
        head_step(self.head_state(), self.head())
    }

    /// The Slice, once its head document is consumed, and its producer is in `state`
    /// if that is given.
    pub open spec fn past_head(self, state: Option<ProducerState>) -> ActorModel<D> {
        let ready = self.heap[0].ready;
        let read = self.head_read().progressed_to(self.head().end_offset);
        let read = match state {
            Some(state) => read.with_producer(self.head().producer, state),
            None => read,
        };
        self.popped().with_read(ready.read, read).continued(ready)
    }

    /// The Slice, once commit progress was made which awaits a flush.
    pub open spec fn progressing(self) -> ActorModel<D> {
        ActorModel { flush: FlushState { ready: true, ..self.flush }, ..self }
    }

    /// The Slice, with further causal hints.
    pub open spec fn with_hints(self, hints: Seq<JournalHints>) -> ActorModel<D> {
        ActorModel { causal_hints: self.causal_hints + hints, ..self }
    }

    /// The Slice, once its head document is consumed by `step`, which is not a
    /// trigger. `hints` are those of the document, if it is an ACK that makes commit
    /// progress.
    pub open spec fn consumed(self, step: HeadStep, hints: Seq<JournalHints>) -> ActorModel<D> {
        match step {
            HeadStep::Drop => self.past_head(None),
            HeadStep::Rollback { .. } => self.with_hints(hints).progressing().past_head(
                Some(settled_at(self.head().clock, self.head().end_offset)),
            ),
            HeadStep::Sequence { sequenced, .. } => {
                let hinted = if step.spec_is_hinting(self.head()) {
                    self.with_hints(hints)
                } else {
                    self
                };
                let ready = if sequenced.is_commit {
                    hinted.progressing()
                } else {
                    hinted
                };
                ready.past_head(Some(sequenced.producer_state))
            },
            HeadStep::Trigger { .. } => self,
        }
    }
}

/// What the event loop does next.
#[derive(Clone, Copy, Debug, PartialEq, Eq, Structural)]
pub enum Step {
    /// Start a flush, which takes priority over all appends.
    Flush,
    /// Drain the batch which a backfill holds.
    DrainBackfill { parked: usize },
    /// Await an event.
    Idle,
    /// Sleep until wall-clock time reaches `until`.
    Delay { until: Clock },
    /// Take the step of the head document of the heap.
    Head { step: HeadStep },
}

impl<D> ActorModel<D> {
    /// Whether the backfill of a parked main read holds a batch to drain.
    pub open spec fn drains(self, k: int) -> bool {
        0 <= k < self.parked.len() && self.parked[k].io is Draining
    }

    /// Whether `k` is the first parked main read whose backfill holds a batch.
    pub open spec fn drains_first(self, k: int) -> bool {
        self.drains(k) && forall|j: int| 0 <= j < k ==> !self.drains(j)
    }

    /// Whether the backfill of any parked main read holds a batch.
    pub open spec fn drains_any(self) -> bool {
        exists|k: int| self.drains(k)
    }

    /// Whether `step` is what the event loop does next, as of the wall-clock time `now`.
    pub open spec fn steps(self, now: Clock, step: Result<Step, SliceError>) -> bool {
        if self.flush.should_flush() {
            step == Ok::<Step, SliceError>(Step::Flush)
        } else if self.drains_any() {
            step matches Ok(Step::DrainBackfill { parked }) && self.drains_first(
                parked as int,
            )
        } else if self.drain_blocked() || self.heap.len() == 0 {
            step == Ok::<Step, SliceError>(Step::Idle)
        } else if self.heap[0].adjusted_clock.0 > now.0 {
            step == Ok::<Step, SliceError>(
                Step::Delay { until: self.heap[0].adjusted_clock },
            )
        } else {
            match self.step_of_head() {
                Ok(expect) => step == Ok::<Step, SliceError>(Step::Head { step: expect }),
                Err(error) => step matches Err(err) && err.reports_sequence(
                    self.head_read().journal,
                    self.binding(self.heap[0].ready.read),
                    self.head_state(),
                    self.head(),
                    error,
                ),
            }
        }
    }
}

impl<D> SliceActor<D> {
    /// Decide what the event loop does next, as of the wall-clock time `now`.
    ///
    /// A flush takes priority. Batches of backfills drain next: they neither block nor
    /// are blocked by the heap, which drains only while no read could resolve to
    /// content that precedes its head, and once its head's delayed clock has come.
    pub fn next_step(&self, now: Clock) -> (step: Result<Step, SliceError>)
        requires
            self@.valid(),
        ensures
            self@.steps(now, step),
    {
        if self.flush.should_flush() {
            return Ok(Step::Flush);
        }
        let mut k: usize = 0;
        while k < self.parked_mains.len()
            invariant
                k <= self.parked_mains@.len(),
                !self.flush.should_flush(),
                forall|j: int| 0 <= j < k ==> !self@.drains(j),
            decreases self.parked_mains@.len() - k,
        {
            assert(self@.parked[k as int] == self.parked_mains@[k as int]@);
            match &self.parked_mains[k].backfill.io {
                BackfillIo::Draining(_) => {
                    assert(self@.drains(k as int));
                    return Ok(Step::DrainBackfill { parked: k });
                },
                BackfillIo::Reading(_) => {},
            }
            k += 1;
        }
        if self.heap_drain_blocked() {
            return Ok(Step::Idle);
        }
        let entry = match self.ready_read_heap.peek() {
            Some(entry) => entry,
            None => {
                return Ok(Step::Idle);
            },
        };
        if entry.adjusted_clock.0 > now.0 {
            return Ok(Step::Delay { until: entry.adjusted_clock });
        }
        let ready = &entry.inner;
        proof {
            lemma_popped(self@);
            assert(self@.heap[0] == entry@);
            assert(ready@.metas[0] == ready.meta);
            assert(self@.reads[ready.inner as int] == self.reads@[ready.inner as int]@);
        }
        let read = &self.reads[ready.inner as usize];
        let binding = &self.topology.bindings[read.binding_index as usize];
        let state = read.producer_state(ready.meta.producer);
        match classify_head(state, read.journal.as_str(), binding, &ready.meta) {
            Ok(step) => Ok(Step::Head { step }),
            Err(err) => Err(err),
        }
    }

    /// The heap entry of `ready`.
    fn entry(&self, ready: ReadyRead<D>) -> (entry: ReadyReadEntry<D>)
        requires
            self@.reads_valid(),
            self@.ready_valid(ready@),
        ensures
            entry@ == self@.entry_of(ready@),
    {
        let read = &self.reads[ready.inner as usize];
        assert(read@ == self@.reads[ready.inner as int]);
        let binding = &self.topology.bindings[read.binding_index as usize];
        assert(ready@.metas[0] == ready.meta);
        ReadyReadEntry {
            priority: binding.priority,
            adjusted_clock: Clock(ready.meta.clock.0 + binding.read_delay.0),
            inner: ready,
        }
    }

    /// Add documents of a read which is not held.
    pub(crate) fn push_ready(&mut self, ready: ReadyRead<D>)
        requires
            old(self)@.valid(),
            old(self)@.ready_valid(ready@),
            !old(self)@.is_ready(ready@.read),
            !old(self)@.is_parked(ready@.read),
        ensures
            final(self)@.valid(),
            final(self)@ == old(self)@.pushed(ready@),
    {
        proof {
            lemma_pushed(self@, ready@);
        }
        let entry = self.entry(ready);
        self.ready_read_heap.push(entry);
    }

    /// Advance a popped `ready` past its head document. It returns to the heap, or,
    /// when its batch is drained, the read is returned to await further content.
    pub(crate) fn continue_ready_read(&mut self, ready: ReadyRead<D>) -> (drained: Option<u32>)
        requires
            old(self)@.valid(),
            old(self)@.ready_valid(ready@),
            !old(self)@.is_ready(ready@.read),
            !old(self)@.is_parked(ready@.read),
        ensures
            final(self)@.valid(),
            final(self)@ == old(self)@.continued(ready@),
            drained == (if ready@.metas.len() > 1 {
                None
            } else {
                Some(ready@.read)
            }),
    {
        let ghost before = ready@;
        match ready.advance() {
            Ok(next) => {
                proof {
                    assert forall|i: int| 0 <= i < next@.metas.len() implies (
                    #[trigger] next@.metas[i]).clock.0 + self@.binding(before.read).read_delay.0
                        <= u64::MAX by {
                        assert(next@.metas[i] == before.metas[i + 1]);
                    }
                    assert(self@.ready_valid(next@));
                }
                self.push_ready(next);
                None
            },
            Err(read) => Some(read),
        }
    }

    /// Consume the head document, and install `state` of its producer if given.
    fn advance_head(&mut self, state: Option<ProducerState>) -> (drained: Option<u32>)
        requires
            old(self)@.valid(),
            old(self)@.heap.len() > 0,
        ensures
            final(self)@.valid(),
            final(self)@ == old(self)@.past_head(state),
            drained == (if old(self)@.heap[0].ready.metas.len() > 1 {
                None
            } else {
                Some(old(self)@.heap[0].ready.read)
            }),
    {
        let ghost before = self@;
        proof {
            lemma_popped(before);
        }
        let entry = match self.ready_read_heap.pop() {
            Some(entry) => entry,
            None => {
                return None;
            },
        };
        let ready = entry.inner;
        let id = ready.inner as usize;
        assert(ready@ == before.heap[0].ready);
        assert(ready@.metas[0] == ready.meta);
        assert(self@ =~= before.popped());
        let ghost popped = self@;
        assert(self.reads@[id as int]@ == popped.reads[id as int]);
        let read = &mut self.reads[id];
        read.read_offset = ready.meta.end_offset;
        match state {
            Some(state) => read.pending.insert(ready.meta.producer, state),
            None => {},
        }
        proof {
            let model = popped.reads[id as int].progressed_to(ready.meta.end_offset);
            let model = match state {
                Some(state) => model.with_producer(ready.meta.producer, state),
                None => model,
            };
            assert(self.reads@[id as int]@ =~= model);
            assert(self@.reads =~= popped.reads.update(id as int, model));
            assert(self@ =~= popped.with_read(ready@.read, model));
            lemma_with_read(popped, ready@.read, model);
        }
        self.continue_ready_read(ready)
    }

    /// Note commit progress, and the causal `hints` that came with it.
    fn note_commit(&mut self, hints: Vec<JournalHints>)
        requires
            old(self)@.valid(),
        ensures
            final(self)@.valid(),
            final(self)@ == old(self)@.with_hints(hints@).progressing(),
    {
        let ghost before = self@;
        let ghost added = hints@;
        let mut hints = hints;
        self.causal_hints.append(&mut hints);
        self.flush.set_ready();
        proof {
            lemma_same_held(before, self@);
            assert(self@ =~= before.with_hints(added).progressing());
        }
    }

    /// Consume the head document of the heap, which does `step`, and which is not a
    /// trigger. Any append of it must have been sent: it cannot fail to be consumed.
    ///
    /// `hints` are the causal hints which an ACK holds of other journals. Those of a
    /// document for which `step` is not hinting are ignored. Returns the read if its
    /// batch is drained, and it must await further content.
    pub fn consume_head(&mut self, step: HeadStep, hints: Vec<JournalHints>) -> (drained: Option<
        u32,
    >)
        requires
            old(self)@.valid(),
            old(self)@.heap.len() > 0,
            old(self)@.step_of_head() == Ok::<HeadStep, SequenceError>(step),
            !(step is Trigger),
        ensures
            final(self)@.valid(),
            final(self)@ == old(self)@.consumed(step, hints@),
            drained == (if old(self)@.heap[0].ready.metas.len() > 1 {
                None
            } else {
                Some(old(self)@.heap[0].ready.read)
            }),
    {
        let meta: Meta = match self.ready_read_heap.peek() {
            Some(entry) => entry.inner.meta,
            None => {
                return None;
            },
        };
        assert(self@.heap[0].ready.metas[0] == meta);
        proof {
            lemma_popped(self@);
        }
        match step {
            HeadStep::Drop => self.advance_head(None),
            HeadStep::Rollback { .. } => {
                self.note_commit(hints);
                self.advance_head(
                    Some(
                        ProducerState {
                            last_commit: meta.clock,
                            max_continue: Clock(0),
                            offset: -meta.end_offset,
                        },
                    ),
                )
            },
            HeadStep::Sequence { sequenced, .. } => {
                if step.is_hinting(&meta) {
                    self.note_commit(hints);
                } else if sequenced.is_commit {
                    let none: Vec<JournalHints> = Vec::new();
                    let ghost before = self@;
                    self.note_commit(none);
                    assert(self@ =~= before.progressing());
                }
                self.advance_head(Some(sequenced.producer_state))
            },
            HeadStep::Trigger { .. } => None,
        }
    }
}

} // verus!
