//! Recovery of gapped producers by targeted backfill.

use crate::actor::{lemma_popped, lemma_with_read, ActorModel, SliceActor};
use crate::drain::HeadStep;
use crate::producer::ProducerState;
use crate::read::{Meta, ReadModel, ReadyModel, ReadyRead};
use crate::reading::ReadResult;
use crate::request::{backfill_read_request, ReadRequest};
use crate::sequence::{step, stepped, SequenceError};
use crate::topology::{sequence_producer, SliceError};
use crate::uuid::{Flags, Producer};
use vstd::prelude::*;

verus! {

/// State of the historical read of a backfill. Exactly one variant holds the inner
/// read at any time, so it is never both polled and drained.
#[derive(Debug)]
pub enum BackfillIo<D> {
    /// Awaiting the next historical batch of the read with this id. A resolved
    /// batch transitions to `Draining`, and the end of the read completes the
    /// backfill.
    Reading(u32),
    /// A resolved batch, being drained document by document. The inner read rides
    /// along, and returns to `Reading` only once the batch is fully drained.
    Draining(Box<ReadyRead<D>>),
}

/// What a [`BackfillIo`] holds.
#[verifier::ext_equal]
pub enum IoModel<D> {
    Reading { read: u32 },
    Draining { batch: ReadyModel<D> },
}

impl<D> View for BackfillIo<D> {
    type V = IoModel<D>;

    open spec fn view(&self) -> IoModel<D> {
        match self {
            BackfillIo::Reading(read) => IoModel::Reading { read: *read },
            BackfillIo::Draining(cursor) => IoModel::Draining { batch: cursor@ },
        }
    }
}

impl<D> IoModel<D> {
    /// Id of the journal read that is backfilled.
    pub open spec fn read(self) -> u32 {
        match self {
            IoModel::Reading { read } => read,
            IoModel::Draining { batch } => batch.read,
        }
    }

    pub open spec fn valid(self) -> bool {
        self matches IoModel::Draining { batch } ==> batch.valid()
    }

    /// Metadata of the documents which remain to be drained.
    pub open spec fn metas(self) -> Seq<Meta> {
        match self {
            IoModel::Reading { .. } => seq![],
            IoModel::Draining { batch } => batch.metas,
        }
    }

    /// A drained batch, once past its head document.
    pub open spec fn advanced(self) -> IoModel<D> {
        match self {
            IoModel::Draining { batch } if batch.metas.len() > 1 => IoModel::Draining {
                batch: batch.rest(),
            },
            _ => IoModel::Reading { read: self.read() },
        }
    }
}

/// Advance a `Draining` batch past its head document. When that was the last, the
/// inner historical read returns to `Reading`, so that no batch is held when the
/// read reaches its end.
pub fn advance_backfill_cursor<D>(io: BackfillIo<D>) -> (next: BackfillIo<D>)
    requires
        io is Draining,
        io@.valid(),
    ensures
        next@ == io@.advanced(),
        next@.valid(),
{
    match io {
        BackfillIo::Draining(cursor) => match (*cursor).advance() {
            Ok(next) => BackfillIo::Draining(Box::new(next)),
            Err(read) => BackfillIo::Reading(read),
        },
        BackfillIo::Reading(read) => BackfillIo::Reading(read),
    }
}

/// The backfill of a gapped producer's pending transaction.
#[derive(Debug)]
pub struct Backfill<D> {
    /// The gapped producer, whose newer document triggered the backfill.
    pub target: Producer,
    /// Begin of the recovered span, and of the historical read.
    pub gap_begin: i64,
    /// The historical read.
    pub io: BackfillIo<D>,
    /// When the backfill was triggered, in milliseconds of a monotonic clock.
    pub started_at: u64,
    /// Bytes fetched by the historical read so far, including those of documents
    /// which it skips.
    pub physical_bytes: u64,
}

/// A main read, parked at a gapped producer's trigger while its backfill runs.
#[derive(Debug)]
pub struct ParkedMain<D> {
    /// The documents that the read holds. Its head is the trigger.
    pub ready: ReadyRead<D>,
    pub backfill: Backfill<D>,
}

/// What a [`ParkedMain`] holds.
#[verifier::ext_equal]
pub struct ParkedModel<D> {
    pub ready: ReadyModel<D>,
    pub target: Producer,
    pub gap_begin: i64,
    pub io: IoModel<D>,
    pub started_at: u64,
    pub physical_bytes: u64,
}

impl<D> ParkedModel<D> {
    /// The parked document.
    pub open spec fn trigger(self) -> Meta {
        self.ready.metas[0]
    }

    /// The same parked read, at another state of its historical read.
    pub open spec fn with_io(self, io: IoModel<D>) -> ParkedModel<D> {
        ParkedModel { io, ..self }
    }
}

impl<D> View for ParkedMain<D> {
    type V = ParkedModel<D>;

    open spec fn view(&self) -> ParkedModel<D> {
        ParkedModel {
            ready: self.ready@,
            target: self.backfill.target,
            gap_begin: self.backfill.gap_begin,
            io: self.backfill.io@,
            started_at: self.backfill.started_at,
            physical_bytes: self.backfill.physical_bytes,
        }
    }
}

/// A backfill which was triggered, and whose historical read is to be opened.
#[derive(Debug)]
pub struct StartedBackfill {
    pub read_key: u32,
    pub target: Producer,
    pub gap_begin: i64,
    pub trigger_begin: i64,
    pub trigger_is_ack: bool,
    pub request: ReadRequest,
}

/// A backfill which completed, and whose trigger is on the heap again.
#[derive(Clone, Copy, Debug, PartialEq, Eq, Structural)]
pub struct CompletedBackfill {
    pub read_key: u32,
    pub target: Producer,
    /// Length of the historical range.
    pub range_bytes: i64,
    /// Bytes fetched by the historical read.
    pub physical_bytes: u64,
    pub duration_ms: u64,
    /// Whether no document of the pending span was found: historical content was
    /// unavailable or filtered, or the producer was only hinted.
    pub span_empty: bool,
}

/// What becomes of a backfill whose historical read resolved.
#[derive(Clone, Copy, Debug, PartialEq, Eq, Structural)]
pub enum BackfillOutcome {
    /// It has a batch to drain.
    Draining,
    /// Its read is to be polled again.
    Retry,
    /// It has completed.
    Completed(CompletedBackfill),
    /// It was released together with its main read, as their journal was removed.
    Removed,
}

/// Why draining a batch of a backfill ended.
pub enum DrainEnd {
    /// The batch is drained.
    Drained,
    /// The head of the batch is to be appended.
    Append,
    /// The head of the batch is not allowed by the producer protocol.
    Invalid { error: SequenceError },
    /// The head of the batch commits.
    Commit,
}

/// Where draining a batch of a backfill ended.
#[verifier::ext_equal]
pub struct Drained<D> {
    pub read: ReadModel,
    pub io: IoModel<D>,
    pub end: DrainEnd,
}

/// Draining the batch of `io`, of a backfill of `target` over a read. Documents of
/// other producers are skipped, and so are duplicates. It ends at the first document
/// that is to be appended, or that is an error.
pub open spec fn drained<D>(read: ReadModel, target: Producer, io: IoModel<D>) -> Drained<D>
    decreases io.metas().len(),
{
    if io.metas().len() == 0 {
        Drained { read, io, end: DrainEnd::Drained }
    } else {
        let meta = io.metas()[0];
        if meta.producer != target {
            drained(read, target, io.advanced())
        } else {
            match stepped(read.producer_state(target), meta) {
                Err(error) => Drained { read, io, end: DrainEnd::Invalid { error } },
                Ok(sequenced) => if sequenced.is_commit {
                    Drained { read, io, end: DrainEnd::Commit }
                } else if sequenced.is_append {
                    Drained { read, io, end: DrainEnd::Append }
                } else {
                    drained(
                        read.with_producer(target, sequenced.producer_state),
                        target,
                        io.advanced(),
                    )
                },
            }
        }
    }
}

impl<D> ActorModel<D> {
    /// Whether the parked main read `k` is the read `id`.
    pub open spec fn parks(self, k: int, id: u32) -> bool {
        0 <= k < self.parked.len() && self.parked[k].ready.read == id
    }

    /// The Slice, once its head document triggered a backfill: the main read is parked
    /// at it, and the recovered open span of its producer is reinstated.
    pub open spec fn triggered(self, started_at: u64) -> ActorModel<D> {
        let ready = self.heap[0].ready;
        let read = self.head_read().with_producer(
            self.head().producer,
            self.head_state().reopened(),
        );
        self.popped().with_read(ready.read, read).parking(
            ParkedModel {
                ready,
                target: self.head().producer,
                gap_begin: self.head_state().offset,
                io: IoModel::Reading { read: ready.read },
                started_at,
                physical_bytes: 0,
            },
        )
    }

    /// Whether `started` is the backfill which the head document triggers: of the range
    /// from the begin of its producer's span to the document itself.
    pub open spec fn opens_backfill(self, started: StartedBackfill) -> bool {
        &&& started.read_key == self.heap[0].ready.read
        &&& started.target == self.head().producer
        &&& started.gap_begin == self.head_state().offset
        &&& started.trigger_begin == self.head().begin_offset
        &&& started.trigger_is_ack == (self.head().flags == Flags::AckTxn)
        &&& started.request.reads(
            self.head_read().journal,
            self.binding(started.read_key),
            started.gap_begin as int,
        )
        &&& started.request.ends_at(started.trigger_begin as int)
        &&& started.request.min_etcd_revision == 0
        &&& started.request.header is None
    }

    /// The Slice, once the backfill of the parked main read `k` drained its batch.
    pub open spec fn drained(self, k: int) -> ActorModel<D> {
        let main = self.parked[k];
        let end = drained(self.reads[main.ready.read as int], main.target, main.io);
        self.with_read(main.ready.read, end.read).with_parked(k, main.with_io(end.io))
    }

    /// Where draining the batch of the parked main read `k` ends.
    pub open spec fn drain_end(self, k: int) -> DrainEnd {
        let main = self.parked[k];
        drained(self.reads[main.ready.read as int], main.target, main.io).end
    }

    /// The read which is parked as `k`.
    pub open spec fn parked_read(self, k: int) -> ReadModel {
        self.reads[self.parked[k].ready.read as int]
    }

    /// State of the producer which the parked main read `k` awaits.
    pub open spec fn target_state(self, k: int) -> ProducerState {
        let main = self.parked[k];
        self.reads[main.ready.read as int].producer_state(main.target)
    }

    /// Whether the head of the batch of the parked main read `k` is to be appended.
    pub open spec fn append_due(self, k: int) -> bool {
        let main = self.parked[k];
        &&& self.drains(k)
        &&& main.io.metas()[0].producer == main.target
        &&& stepped(self.target_state(k), main.io.metas()[0]) matches Ok(sequenced)
        &&& sequenced.is_append
        &&& !sequenced.is_commit
    }

    /// The Slice, once the head of the batch of the parked main read `k` was appended.
    pub open spec fn appended(self, k: int) -> ActorModel<D> {
        let main = self.parked[k];
        let state = stepped(self.target_state(k), main.io.metas()[0])->Ok_0.producer_state;
        self.with_read(
            main.ready.read,
            self.reads[main.ready.read as int].with_producer(main.target, state),
        ).with_parked(k, main.with_io(main.io.advanced()))
    }

    /// Whether `next` is the Slice once the historical read of the parked main read `k`
    /// resolved to `result` at `now`, and `outcome` is what became of the backfill.
    pub open spec fn backfill_resolves(
        self,
        k: int,
        result: ReadResult<D>,
        now: u64,
        outcome: Result<BackfillOutcome, SliceError>,
        next: ActorModel<D>,
    ) -> bool {
        match result {
            ReadResult::Batch { physical_bytes, docs, metas, .. } => {
                &&& outcome == Ok::<BackfillOutcome, SliceError>(
                    BackfillOutcome::Draining,
                )
                &&& next == self.with_parked(
                    k,
                    ParkedModel {
                        io: IoModel::Draining {
                            batch: ReadyModel {
                                docs: docs@,
                                metas: metas@,
                                read: self.parked[k].ready.read,
                            },
                        },
                        physical_bytes: (self.parked[k].physical_bytes
                            + physical_bytes) as u64,
                        ..self.parked[k]
                    },
                )
            },
            ReadResult::Eof => {
                &&& outcome == Ok::<BackfillOutcome, SliceError>(
                    BackfillOutcome::Completed(self.completion(k, now)),
                )
                &&& next == self.unparked(k).pushed(
                    self.parked[k].ready,
                )
            },
            ReadResult::JournalNotFound | ReadResult::Suspended => {
                &&& outcome == Ok::<BackfillOutcome, SliceError>(BackfillOutcome::Removed)
                &&& next == self.unparked(k)
            },
            ReadResult::Transient => {
                &&& outcome == Ok::<BackfillOutcome, SliceError>(BackfillOutcome::Retry)
                &&& next == self
            },
            ReadResult::Terminal(failure) => {
                &&& outcome matches Err(err)
                &&& err.reports_read(
                    self.parked_read(k).journal,
                    self.binding(self.parked[k].ready.read),
                    true,
                    failure,
                )
                &&& next == self
            },
        }
    }

    /// The report of the parked main read `k`, whose backfill completed at `now`.
    pub open spec fn completion(self, k: int, now: u64) -> CompletedBackfill {
        let main = self.parked[k];
        CompletedBackfill {
            read_key: main.ready.read,
            target: main.target,
            range_bytes: (main.trigger().begin_offset - main.gap_begin) as i64,
            physical_bytes: main.physical_bytes,
            duration_ms: if now >= main.started_at {
                (now - main.started_at) as u64
            } else {
                0
            },
            span_empty: self.target_state(k).max_continue.0 == 0,
        }
    }
}

/// Parking a main read that is not held keeps the Slice valid.
pub proof fn lemma_parking<D>(m: ActorModel<D>, main: ParkedModel<D>)
    requires
        m.valid(),
        m.parked_valid(main),
        !m.is_ready(main.ready.read),
        !m.is_parked(main.ready.read),
    ensures
        m.parking(main).valid(),
{
    let n = m.parking(main);
    assert forall|i: int| 0 <= i < n.heap.len() implies n.entry_valid(#[trigger] n.heap[i]) by {
        assert(m.entry_valid(m.heap[i]));
    }
    assert forall|i: int| 0 <= i < n.parked.len() implies n.parked_valid(
        #[trigger] n.parked[i],
    ) by {
        if i < m.parked.len() {
            assert(m.parked_valid(m.parked[i]));
        }
    }
    assert forall|i: int, j: int|
        #![trigger n.heap[i], n.parked[j]]
        0 <= i < n.heap.len() && 0 <= j < n.parked.len() implies n.heap[i].ready.read
        != n.parked[j].ready.read by {
        if j < m.parked.len() {
            assert(m.heap[i].ready.read != m.parked[j].ready.read);
        } else {
            assert(m.heap[i].ready.read != main.ready.read);
        }
    }
    assert forall|i: int, j: int| 0 <= i < j < n.parked.len() implies n.parked[i].ready.read
        != n.parked[j].ready.read by {
        assert(m.parked[i].ready.read != main.ready.read);
    }
}

/// Another state of a historical read keeps the Slice valid.
pub proof fn lemma_with_parked<D>(m: ActorModel<D>, k: int, main: ParkedModel<D>)
    requires
        m.valid(),
        0 <= k < m.parked.len(),
        m.parked_valid(main),
        main.ready == m.parked[k].ready,
    ensures
        m.with_parked(k, main).valid(),
{
    let n = m.with_parked(k, main);
    assert forall|i: int| 0 <= i < n.heap.len() implies n.entry_valid(#[trigger] n.heap[i]) by {
        assert(m.entry_valid(m.heap[i]));
    }
    assert forall|i: int| 0 <= i < n.parked.len() implies n.parked_valid(
        #[trigger] n.parked[i],
    ) by {
        assert(m.parked_valid(m.parked[i]));
    }
    assert forall|i: int| 0 <= i < n.parked.len() implies (#[trigger] n.parked[i]).ready
        == m.parked[i].ready by {}
    assert forall|i: int, j: int|
        #![trigger n.heap[i], n.parked[j]]
        0 <= i < n.heap.len() && 0 <= j < n.parked.len() implies n.heap[i].ready.read
        != n.parked[j].ready.read by {
        assert(m.heap[i].ready.read != m.parked[j].ready.read);
    }
}

/// Releasing a parked main read keeps the Slice valid, and frees the read.
pub proof fn lemma_unparked<D>(m: ActorModel<D>, k: int)
    requires
        m.valid(),
        0 <= k < m.parked.len(),
    ensures
        m.unparked(k).valid(),
        m.unparked(k).ready_valid(m.parked[k].ready),
        !m.unparked(k).is_ready(m.parked[k].ready.read),
        !m.unparked(k).is_parked(m.parked[k].ready.read),
{
    let n = m.unparked(k);
    assert(m.parked_valid(m.parked[k]));
    assert forall|i: int| 0 <= i < n.heap.len() implies n.entry_valid(#[trigger] n.heap[i]) by {
        assert(m.entry_valid(m.heap[i]));
    }
    assert forall|i: int| 0 <= i < n.heap.len() implies (#[trigger] n.heap[i]).ready.read
        != m.parked[k].ready.read by {
        assert(m.heap[i].ready.read != m.parked[k].ready.read);
    }
    assert forall|i: int| 0 <= i < n.parked.len() implies #[trigger] n.parked[i] == m.parked[if i
        < k {
        i
    } else {
        i + 1
    }] by {}
    assert forall|i: int| 0 <= i < n.parked.len() implies n.parked_valid(
        #[trigger] n.parked[i],
    ) by {
        let at = if i < k {
            i
        } else {
            i + 1
        };
        assert(m.parked_valid(m.parked[at]));
    }
    assert forall|i: int| 0 <= i < n.parked.len() implies (#[trigger] n.parked[i]).ready.read
        != m.parked[k].ready.read by {
        let at = if i < k {
            i
        } else {
            i + 1
        };
        assert(n.parked[i] == m.parked[at]);
    }
    assert forall|i: int, j: int|
        #![trigger n.heap[i], n.parked[j]]
        0 <= i < n.heap.len() && 0 <= j < n.parked.len() implies n.heap[i].ready.read
        != n.parked[j].ready.read by {
        let at = if j < k {
            j
        } else {
            j + 1
        };
        assert(n.parked[j] == m.parked[at]);
        assert(m.heap[i].ready.read != m.parked[at].ready.read);
    }
}

impl<D> SliceActor<D> {
    /// Begin a backfill for the head document of the heap, which is the trigger of a
    /// gapped producer. The trigger is not sequenced. It is parked, together with all
    /// that follows it in its journal, and the position of its read does not advance.
    ///
    /// The recovered open span of the producer is reinstated as it was checkpointed,
    /// and historical documents are then sequenced against it. That clears the gap, and
    /// it is safe for a flush to carry: it changes nothing that is durable.
    pub fn start_backfill(&mut self, started_at: u64) -> (started: StartedBackfill)
        requires
            old(self)@.valid(),
            old(self)@.heap.len() > 0,
            old(self)@.step_of_head() matches Ok(HeadStep::Trigger { gap_begin }) && 0 <= gap_begin
                < old(self)@.head().begin_offset,
        ensures
            final(self)@.valid(),
            final(self)@ == old(self)@.triggered(started_at),
            old(self)@.opens_backfill(started),
    {
        let ghost before = self@;
        proof {
            lemma_popped(before);
        }
        let ready = self.ready_read_heap.pop().unwrap().inner;
        let trigger = ready.meta;
        let read_key = ready.inner;
        let ghost popped = self@;
        assert(ready@ == before.heap[0].ready);
        assert(ready@.metas[0] == trigger);
        assert(popped =~= before.popped());
        assert(self.reads@[read_key as int]@ == popped.reads[read_key as int]);
        let read = &mut self.reads[read_key as usize];
        let frozen = read.producer_state(trigger.producer);
        read.pending.insert(trigger.producer, frozen.reopened());
        let ghost model = popped.reads[read_key as int].with_producer(
            trigger.producer,
            frozen.reopened(),
        );
        proof {
            assert(self@.reads =~= popped.reads.update(read_key as int, model));
            assert(self@ =~= popped.with_read(read_key, model));
            lemma_with_read(popped, read_key, model);
        }
        let ghost installed = self@;
        let read = &self.reads[read_key as usize];
        let binding = &self.topology.bindings[read.binding_index as usize];
        let request = backfill_read_request(
            read.journal.as_str(),
            binding,
            frozen.offset,
            trigger.begin_offset,
        );
        let main = ParkedMain {
            ready,
            backfill: Backfill {
                target: trigger.producer,
                gap_begin: frozen.offset,
                io: BackfillIo::Reading(read_key),
                started_at,
                physical_bytes: 0,
            },
        };
        let ghost parked = main@;
        self.parked_mains.push(main);
        proof {
            assert(self@.parked =~= installed.parked.push(parked));
            assert(self@ =~= installed.parking(parked));
            lemma_parking(installed, parked);
        }
        StartedBackfill {
            read_key,
            target: trigger.producer,
            gap_begin: frozen.offset,
            trigger_begin: trigger.begin_offset,
            trigger_is_ack: match trigger.flags {
                Flags::AckTxn => true,
                _ => false,
            },
            request,
        }
    }

    /// Drain the batch of the backfill of a parked main read, as far as its next
    /// document that is to be appended, which is then its head. Documents of other
    /// producers are skipped: they are represented by the checkpoint, or belong to
    /// other gaps. Returns whether there is a document to append.
    ///
    /// Positions of the main read are not touched. A commit within the historical range
    /// contradicts the recovered checkpoint, and is an error.
    pub fn try_drain_backfill(&mut self, parked: usize) -> (append: Result<bool, SliceError>)
        requires
            old(self)@.valid(),
            parked < old(self)@.parked.len(),
        ensures
            final(self)@.valid(),
            final(self)@ == old(self)@.drained(parked as int),
            match old(self)@.drain_end(parked as int) {
                DrainEnd::Drained => append == Ok::<bool, SliceError>(false),
                DrainEnd::Append => {
                    &&& append == Ok::<bool, SliceError>(true)
                    &&& final(self)@.append_due(parked as int)
                },
                DrainEnd::Invalid { error } => append matches Err(err) && err.reports_sequence(
                    final(self)@.parked_read(parked as int).journal,
                    final(self)@.binding(final(self)@.parked[parked as int].ready.read),
                    final(self)@.target_state(parked as int),
                    final(self)@.parked[parked as int].io.metas()[0],
                    error,
                ),
                DrainEnd::Commit => append matches Err(err) && err.reports_commit(
                    final(self)@.parked_read(parked as int).journal,
                    final(self)@.binding(final(self)@.parked[parked as int].ready.read),
                    final(self)@.parked[parked as int].io.metas()[0],
                ),
            },
    {
        let ghost k = parked as int;
        loop
            invariant
                self@.valid(),
                parked < self@.parked.len(),
                k == parked,
                self@.drained(k) == old(self)@.drained(k),
                self@.drain_end(k) == old(self)@.drain_end(k),
            ensures
                self@.valid(),
                self@ == old(self)@.drained(k),
                old(self)@.drain_end(k) is Drained,
            decreases self@.parked[k].io.metas().len(),
        {
            let ghost current = self@;
            let ghost id = current.parked[k].ready.read;
            proof {
                assert(current.parked_valid(current.parked[k]));
                assert(self.parked_mains@[k]@ == current.parked[k]);
                assert(self.reads@[id as int]@ == current.reads[id as int]);
            }
            let main = &self.parked_mains[parked];
            let target = main.backfill.target;
            let read_id = main.ready.inner;
            let meta = match &main.backfill.io {
                BackfillIo::Draining(cursor) => {
                    assert(cursor@.metas[0] == cursor.meta);
                    cursor.meta
                },
                BackfillIo::Reading(_) => {
                    assert(current.parked[k].io.metas().len() == 0);
                    assert(current.drained(k) =~= current);
                    break;
                },
            };
            if meta.producer.0 != target.0 {
                self.advance_parked(parked);
                assert(self@.reads =~= self@.reads.update(id as int, self@.reads[id as int]));
                assert(self@.drained(k) =~= current.drained(k));
                continue ;
            }
            let read = &self.reads[read_id as usize];
            let binding = &self.topology.bindings[read.binding_index as usize];
            let state = read.producer_state(target);
            let sequenced = match sequence_producer(state, read.journal.as_str(), binding, &meta) {
                Ok(sequenced) => sequenced,
                Err(err) => {
                    assert(current.drained(k) =~= current);
                    return Err(err);
                },
            };
            if sequenced.is_commit {
                assert(current.drained(k) =~= current);
                return Err(
                    SliceError::CommitWithinBackfill {
                        journal: read.journal.clone(),
                        binding: binding.state_key.clone(),
                        meta,
                    },
                );
            }
            if sequenced.is_append {
                assert(current.drained(k) =~= current);
                return Ok(true);
            }
            self.install_target(parked, sequenced.producer_state);
            self.advance_parked(parked);
            assert(self@.drained(k) =~= current.drained(k));
        }
        Ok(false)
    }

    /// Advance the batch of the backfill of a parked main read past its head.
    fn advance_parked(&mut self, parked: usize)
        requires
            old(self)@.valid(),
            old(self)@.drains(parked as int),
        ensures
            final(self)@.valid(),
            final(self)@ == old(self)@.with_parked(
                parked as int,
                old(self)@.parked[parked as int].with_io(
                    old(self)@.parked[parked as int].io.advanced(),
                ),
            ),
    {
        let ghost before = self@;
        let ghost k = parked as int;
        proof {
            assert(before.parked_valid(before.parked[k]));
            assert(self.parked_mains@[k]@ == before.parked[k]);
        }
        let main = &mut self.parked_mains[parked];
        let mut io: BackfillIo<D> = BackfillIo::Reading(main.ready.inner);
        std::mem::swap(&mut main.backfill.io, &mut io);
        main.backfill.io = advance_backfill_cursor(io);
        proof {
            let next = before.parked[k].with_io(before.parked[k].io.advanced());
            assert(self.parked_mains@[k]@ == next);
            assert(self@.parked =~= before.parked.update(k, next));
            assert(self@ =~= before.with_parked(k, next));
            lemma_with_parked(before, k, next);
        }
    }

    /// Install `state` of the producer which a parked main read awaits.
    fn install_target(&mut self, parked: usize, state: ProducerState)
        requires
            old(self)@.valid(),
            parked < old(self)@.parked.len(),
        ensures
            final(self)@.valid(),
            final(self)@ == old(self)@.with_read(
                old(self)@.parked[parked as int].ready.read,
                old(self)@.parked_read(parked as int).with_producer(
                    old(self)@.parked[parked as int].target,
                    state,
                ),
            ),
    {
        let ghost before = self@;
        let ghost k = parked as int;
        proof {
            assert(before.parked_valid(before.parked[k]));
            assert(self.parked_mains@[k]@ == before.parked[k]);
        }
        let main = &self.parked_mains[parked];
        let target = main.backfill.target;
        let id = main.ready.inner;
        assert(self.reads@[id as int]@ == before.reads[id as int]);
        let read = &mut self.reads[id as usize];
        read.pending.insert(target, state);
        proof {
            let model = before.reads[id as int].with_producer(target, state);
            assert(self@.reads =~= before.reads.update(id as int, model));
            assert(self@ =~= before.with_read(id, model));
            lemma_with_read(before, id, model);
        }
    }

    /// The head of the batch of a parked main read's backfill was appended. It steps
    /// the producer, and is consumed.
    pub fn backfill_appended(&mut self, parked: usize)
        requires
            old(self)@.valid(),
            old(self)@.append_due(parked as int),
        ensures
            final(self)@.valid(),
            final(self)@ == old(self)@.appended(parked as int),
    {
        let ghost before = self@;
        let ghost k = parked as int;
        let ghost id = before.parked[k].ready.read;
        proof {
            assert(before.parked_valid(before.parked[k]));
            assert(self.parked_mains@[k]@ == before.parked[k]);
            assert(self.reads@[id as int]@ == before.reads[id as int]);
        }
        let main = &self.parked_mains[parked];
        match &main.backfill.io {
            BackfillIo::Draining(cursor) => {
                assert(cursor@.metas[0] == cursor.meta);
                let state = self.reads[main.ready.inner as usize].producer_state(
                    main.backfill.target,
                );
                let sequenced = step(state, &cursor.meta).unwrap();
                self.install_target(parked, sequenced.producer_state);
                self.advance_parked(parked);
                assert(self@ =~= before.appended(k));
            },
            BackfillIo::Reading(_) => {},
        }
    }

    /// The place of the read `read_key` among parked main reads, if it is parked.
    pub fn parked_index(&self, read_key: u32) -> (parked: Option<usize>)
        ensures
            match parked {
                Some(k) => self@.parks(k as int, read_key),
                None => !self@.is_parked(read_key),
            },
    {
        let mut k: usize = 0;
        while k < self.parked_mains.len()
            invariant
                k <= self.parked_mains@.len(),
                forall|j: int|
                    0 <= j < k ==> (#[trigger] self@.parked[j]).ready.read != read_key,
            decreases self.parked_mains@.len() - k,
        {
            assert(self@.parked[k as int] == self.parked_mains@[k as int]@);
            if self.parked_mains[k].ready.inner == read_key {
                return Some(k);
            }
            k += 1;
        }
        None
    }

    /// Whether documents of the read `read_id` are held, by the heap or by a parked main
    /// read. A held read does not resolve.
    pub fn is_held(&self, read_id: u32) -> (held: bool)
        ensures
            held == (self@.is_ready(read_id) || self@.is_parked(read_id)),
    {
        if self.ready_read_heap.holds(read_id) {
            proof {
                let heap = self.ready_read_heap@;
                let i = choose|i: int|
                    0 <= i < heap.len() && (#[trigger] heap[i]).ready.read == read_id;
                assert(self@.heap[i].ready.read == read_id);
            }
            return true;
        }
        match self.parked_index(read_id) {
            Some(k) => {
                assert(self@.parked[k as int].ready.read == read_id);
                true
            },
            None => false,
        }
    }

    /// Complete a backfill, once its historical range is fully read. Completion commits
    /// and installs nothing: the trigger returns to the heap, and is sequenced against
    /// the reconstructed span as any other document. A CONTINUE extends or begins the
    /// span, and an ACK commits it.
    fn complete_backfill(&mut self, parked: usize, now: u64) -> (completed: CompletedBackfill)
        requires
            old(self)@.valid(),
            parked < old(self)@.parked.len(),
        ensures
            final(self)@.valid(),
            final(self)@ == old(self)@.unparked(parked as int).pushed(
                old(self)@.parked[parked as int].ready,
            ),
            completed == old(self)@.completion(parked as int, now),
    {
        let ghost before = self@;
        let ghost k = parked as int;
        proof {
            assert(before.parked_valid(before.parked[k]));
            assert(self.parked_mains@[k]@ == before.parked[k]);
            lemma_unparked(before, k);
        }
        let ParkedMain { ready, backfill } = self.parked_mains.remove(parked);
        proof {
            assert(self@.parked =~= before.parked.remove(k));
            assert(self@ =~= before.unparked(k));
            assert(ready@.metas[0] == ready.meta);
            assert(self.reads@[ready.inner as int]@ == before.reads[ready.inner as int]);
        }
        let state = self.reads[ready.inner as usize].producer_state(backfill.target);
        let completed = CompletedBackfill {
            read_key: ready.inner,
            target: backfill.target,
            range_bytes: ready.meta.begin_offset - backfill.gap_begin,
            physical_bytes: backfill.physical_bytes,
            duration_ms: now.saturating_sub(backfill.started_at),
            span_empty: state.max_continue.0 == 0,
        };
        self.push_ready(ready);
        completed
    }

    /// The historical read of the main read `read_key` has resolved, as of `now`.
    ///
    /// A batch is drained next. The end of the read completes its backfill, and the
    /// removal of its journal releases it, together with its main read. A transient
    /// error has the read polled again, and any other fails the Slice. The positions
    /// and the write head of the main read are never touched.
    pub fn process_backfill_result(
        &mut self,
        read_key: u32,
        result: ReadResult<D>,
        now: u64,
    ) -> (outcome: Result<BackfillOutcome, SliceError>)
        requires
            old(self)@.valid(),
            old(self)@.is_parked(read_key),
            result.batch_valid(),
            forall|k: int| #[trigger]
                old(self)@.parks(k, read_key) ==> {
                    &&& old(self)@.parked[k].io is Reading
                    &&& result matches ReadResult::Batch { physical_bytes, .. }
                        ==> old(self)@.parked[k].physical_bytes + physical_bytes <= u64::MAX
                },
        ensures
            final(self)@.valid(),
            forall|k: int| #[trigger]
                old(self)@.parks(k, read_key) ==> old(self)@.backfill_resolves(
                    k,
                    result,
                    now,
                    outcome,
                    final(self)@,
                ),
    {
        let ghost before = self@;
        let parked = self.parked_index(read_key).unwrap();
        let ghost k = parked as int;
        proof {
            assert(before.parks(k, read_key));
            assert forall|j: int| #[trigger] before.parks(j, read_key) implies j == k by {
                assert(before.parked[j].ready.read == before.parked[k].ready.read);
            }
            assert(before.parked_valid(before.parked[k]));
            assert(self.parked_mains@[k]@ == before.parked[k]);
        }
        match result {
            ReadResult::Eof => Ok(BackfillOutcome::Completed(self.complete_backfill(parked, now))),
            ReadResult::JournalNotFound | ReadResult::Suspended => {
                let _ = self.release_read_gaps(read_key);
                Ok(BackfillOutcome::Removed)
            },
            ReadResult::Transient => Ok(BackfillOutcome::Retry),
            ReadResult::Terminal(failure) => Err(self.read_failed(read_key, true, failure)),
            ReadResult::Batch { write_head: _, physical_bytes, docs, metas } => {
                let ready = ReadyRead::new(docs, metas, read_key).unwrap();
                let ghost batch = ready@;
                let main = &mut self.parked_mains[parked];
                main.backfill.physical_bytes = main.backfill.physical_bytes + physical_bytes;
                main.backfill.io = BackfillIo::Draining(Box::new(ready));
                proof {
                    let next = ParkedModel {
                        io: IoModel::Draining { batch },
                        physical_bytes: (before.parked[k].physical_bytes
                            + physical_bytes) as u64,
                        ..before.parked[k]
                    };
                    assert(self.parked_mains@[k]@ == next);
                    assert(self@.parked =~= before.parked.update(k, next));
                    assert(self@ =~= before.with_parked(k, next));
                    lemma_with_parked(before, k, next);
                }
                Ok(BackfillOutcome::Draining)
            },
        }
    }

    /// Release the backfill of a read whose journal was removed, together with its
    /// parked main read. Returns whether there was one. Gaps of the read are inert: it
    /// is never served again.
    pub fn release_read_gaps(&mut self, read_key: u32) -> (released: bool)
        requires
            old(self)@.valid(),
        ensures
            final(self)@.valid(),
            released == old(self)@.is_parked(read_key),
            !released ==> final(self)@ == old(self)@,
            forall|k: int| #[trigger]
                old(self)@.parks(k, read_key) ==> final(self)@ == old(self)@.unparked(k),
    {
        let ghost before = self@;
        match self.parked_index(read_key) {
            Some(parked) => {
                let ghost k = parked as int;
                let _ = self.parked_mains.remove(parked);
                proof {
                    assert forall|j: int| #[trigger] before.parks(j, read_key) implies j == k by {
                        assert(before.parked[j].ready.read == before.parked[k].ready.read);
                    }
                    assert(before.parked[k].ready.read == read_key);
                    lemma_unparked(before, k);
                    assert(self@.parked =~= before.parked.remove(k));
                    assert(self@ =~= before.unparked(k));
                }
                true
            },
            None => {
                proof {
                    assert forall|j: int| !#[trigger] before.parks(j, read_key) by {
                        if before.parks(j, read_key) {
                            assert(before.parked[j].ready.read == read_key);
                        }
                    }
                }
                false
            },
        }
    }

    /// Release every backfill as the session ends. Nothing of them is persisted:
    /// recovery derives them anew from the checkpoint. Returns how many there were.
    pub fn release_backfills(&mut self) -> (released: usize)
        requires
            old(self)@.valid(),
        ensures
            final(self)@.valid(),
            released == old(self)@.parked.len(),
            final(self)@ == (ActorModel { parked: Seq::empty(), ..old(self)@ }),
    {
        let ghost before = self@;
        let released = self.parked_mains.len();
        self.parked_mains.clear();
        proof {
            assert(self@.parked =~= Seq::empty());
            assert forall|i: int| 0 <= i < self@.heap.len() implies self@.entry_valid(
                #[trigger] self@.heap[i],
            ) by {
                assert(before.entry_valid(before.heap[i]));
            }
        }
        released
    }
}

} // verus!
