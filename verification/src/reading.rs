//! Events of main reads: their start, and the content which they yield.

use crate::actor::{lemma_same_held, lemma_with_read, ActorModel, SliceActor};
use crate::checkpoint::{
    checkpoint_valid, furthest, recovered_gaps, recovered_states, resolve_checkpoint, Gap,
};
use crate::frontier::ProducerFrontier;
use crate::read::{metas_valid, Meta, ReadModel, ReadState, ReadyModel, ReadyRead};
use crate::request::{main_read_request, Header, ReadRequest};
use crate::topology::{ReadFailure, SliceError};
use std::collections::VecDeque;
use vstd::prelude::*;

verus! {

/// Specification of a journal.
#[derive(Debug)]
pub struct JournalSpec {
    pub name: String,
}

/// A request of the Session to read a journal.
#[derive(Debug)]
pub struct StartRead {
    /// Index of the binding to read for.
    pub binding: u32,
    pub spec: Option<JournalSpec>,
    /// Etcd revision at which the journal was created.
    pub create_revision: i64,
    /// A hint of the brokers which serve the journal.
    pub route: Option<Header>,
    /// Checkpoint of the journal's producers.
    pub checkpoint: Vec<ProducerFrontier>,
}

/// A read which was started, and is to be probed.
#[derive(Debug)]
pub struct StartedRead {
    pub read_id: u32,
    pub request: ReadRequest,
    /// Producers which the read skips ahead of, each of which is reported.
    pub gaps: Vec<Gap>,
}

/// How a main or historical read resolved.
#[derive(Debug)]
pub enum ReadResult<D> {
    /// The read reached its end.
    Eof,
    /// The journal does not exist.
    JournalNotFound,
    /// The journal is suspended.
    Suspended,
    /// An error after which the read may be retried.
    Transient,
    /// Any other error, of the read or of its documents.
    Terminal(ReadFailure),
    /// Documents, which were read while the journal's write head was at `write_head`,
    /// and for which `physical_bytes` were fetched.
    Batch { write_head: i64, physical_bytes: u64, docs: VecDeque<D>, metas: VecDeque<Meta> },
}

/// What becomes of a main read which resolved.
#[derive(Clone, Copy, Debug, PartialEq, Eq, Structural)]
pub enum ReadOutcome {
    /// Its documents are on the heap.
    Ready,
    /// It is to be polled again.
    Retry,
    /// It has stopped, at the end of its journal.
    StoppedEof,
    /// It has stopped, as its journal was deleted.
    StoppedNotFound,
    /// It has stopped, as its journal was suspended.
    StoppedSuspended,
}

impl<D> ReadResult<D> {
    /// Whether a batch holds documents which are valid, of which there is at least one.
    pub open spec fn batch_valid(self) -> bool {
        self matches ReadResult::Batch { docs, metas, .. } ==> {
            &&& docs@.len() == metas@.len()
            &&& metas@.len() > 0
            &&& metas_valid(metas@)
        }
    }
}

impl<D> ActorModel<D> {
    /// Whether the documents of `result` can be ordered by their delayed clocks.
    pub open spec fn result_fits(self, id: u32, result: ReadResult<D>) -> bool {
        result matches ReadResult::Batch { metas, .. } ==> self.delays_fit(id, metas@)
    }

    /// The Slice, once the read `id` observed its journal's write head.
    pub open spec fn with_write_head(self, id: u32, write_head: i64) -> ActorModel<D> {
        self.with_read(id, ReadModel { write_head, ..self.reads[id as int] })
    }

    /// Whether `next` is the Slice once its main read `read_id` resolved to `result`, and
    /// `outcome` is what became of the read.
    pub open spec fn read_resolves(
        self,
        read_id: u32,
        result: ReadResult<D>,
        outcome: Result<ReadOutcome, SliceError>,
        next: ActorModel<D>,
    ) -> bool {
        match result {
            ReadResult::Batch { write_head, docs, metas, .. } => {
                &&& outcome == Ok::<ReadOutcome, SliceError>(ReadOutcome::Ready)
                &&& next == self.with_write_head(read_id, write_head).pushed(
                    ReadyModel { docs: docs@, metas: metas@, read: read_id },
                )
            },
            ReadResult::Terminal(failure) => {
                &&& outcome matches Err(err)
                &&& err.reports_read(
                    self.reads[read_id as int].journal,
                    self.binding(read_id),
                    false,
                    failure,
                )
                &&& next == self
            },
            ReadResult::Eof => outcome == Ok::<ReadOutcome, SliceError>(
                ReadOutcome::StoppedEof,
            ) && next == self,
            ReadResult::JournalNotFound => outcome == Ok::<ReadOutcome, SliceError>(
                ReadOutcome::StoppedNotFound,
            ) && next == self,
            ReadResult::Suspended => outcome == Ok::<ReadOutcome, SliceError>(
                ReadOutcome::StoppedSuspended,
            ) && next == self,
            ReadResult::Transient => outcome == Ok::<ReadOutcome, SliceError>(
                ReadOutcome::Retry,
            ) && next == self,
        }
    }

    /// Whether `start_read` is refused with `err`: its binding does not exist, or else
    /// it lacks a journal spec.
    pub open spec fn start_error(self, start_read: StartRead, err: SliceError) -> bool {
        if start_read.binding >= self.topology.bindings@.len() {
            err is InvalidBinding
        } else {
            start_read.spec is None && err is MissingSpec
        }
    }

    /// Whether `started` is the read which `start_read` starts: the next in turn, of
    /// the journal from the furthest position of its checkpoint and onwards.
    pub open spec fn starts(self, start_read: StartRead, started: StartedRead) -> bool {
        let entries = start_read.checkpoint@;
        let start = furthest(entries);
        &&& start_read.binding < self.topology.bindings@.len()
        &&& start_read.spec matches Some(spec)
        &&& started.read_id == self.reads.len()
        &&& started.request.reads(
            spec.name@,
            self.topology.bindings@[start_read.binding as int],
            start,
        )
        &&& started.request.tails()
        &&& started.request.min_etcd_revision == start_read.create_revision
        &&& started.request.header == start_read.route
        &&& started.gaps@ == recovered_gaps(entries, start)
    }

    /// The Slice, once `start_read` started a read, which is being probed.
    pub open spec fn started(self, start_read: StartRead) -> ActorModel<D> {
        let entries = start_read.checkpoint@;
        let start = furthest(entries);
        ActorModel {
            pending_probes: (self.pending_probes + 1) as usize,
            ..self.reading(
                ReadModel::recovered(
                    start_read.binding as u16,
                    start_read.spec->0.name@,
                    recovered_states(entries, start),
                    start as i64,
                ),
            )
        }
    }

    /// The Slice, with a further read.
    pub open spec fn reading(self, read: ReadModel) -> ActorModel<D> {
        ActorModel { reads: self.reads.push(read), ..self }
    }
}

/// A further read of a binding keeps the Slice valid.
pub proof fn lemma_reading<D>(m: ActorModel<D>, read: ReadModel)
    requires
        m.valid(),
        m.reads.len() < u32::MAX,
        read.binding_index < m.topology.bindings@.len(),
    ensures
        m.reading(read).valid(),
{
    let n = m.reading(read);
    assert forall|r: u32| r < m.reads.len() implies #[trigger] n.binding(r) == m.binding(r) by {}
    assert forall|ready: ReadyModel<D>| m.ready_valid(ready) implies #[trigger] n.ready_valid(
        ready,
    ) && n.entry_of(ready) == m.entry_of(ready) by {
        assert(n.binding(ready.read) == m.binding(ready.read));
    }
    assert forall|i: int| 0 <= i < n.heap.len() implies n.entry_valid(#[trigger] n.heap[i]) by {
        assert(m.entry_valid(m.heap[i]));
        assert(n.ready_valid(n.heap[i].ready));
    }
    assert forall|i: int| 0 <= i < n.parked.len() implies n.parked_valid(
        #[trigger] n.parked[i],
    ) by {
        assert(m.parked_valid(m.parked[i]));
        assert(n.ready_valid(n.parked[i].ready));
    }
}

impl<D> SliceActor<D> {
    /// Start a read of a journal, from the furthest position that its checkpoint
    /// justifies. Producers whose pending spans begin before that are gapped. The read
    /// is then probed for where it effectively begins.
    pub fn on_start_read(&mut self, start_read: StartRead) -> (started: Result<
        StartedRead,
        SliceError,
    >)
        requires
            old(self)@.valid(),
            old(self)@.reads.len() < u32::MAX,
            old(self).pending_probes < usize::MAX,
            checkpoint_valid(start_read.checkpoint@),
        ensures
            final(self)@.valid(),
            match started {
                Ok(started) => {
                    &&& old(self)@.starts(start_read, started)
                    &&& final(self)@ == old(self)@.started(start_read)
                },
                Err(err) => {
                    &&& old(self)@.start_error(start_read, err)
                    &&& final(self)@ == old(self)@
                },
            },
    {
        let ghost before = self@;
        let StartRead { binding: binding_index, spec, create_revision, route, checkpoint } =
            start_read;
        if binding_index as usize >= self.topology.bindings.len() {
            return Err(SliceError::InvalidBinding);
        }
        let spec = match spec {
            Some(spec) => spec,
            None => {
                return Err(SliceError::MissingSpec);
            },
        };
        let binding = &self.topology.bindings[binding_index as usize];
        assert(binding.index == binding_index);
        let resolved = resolve_checkpoint(&checkpoint);
        let request = main_read_request(
            spec.name.as_str(),
            binding,
            resolved.offset,
            create_revision,
            route,
        );
        let read_id = self.reads.len() as u32;
        let read = ReadState::recovered(
            binding_index as u16,
            spec.name,
            resolved.producers,
            resolved.offset,
        );
        let ghost model = read@;
        self.reads.push(read);
        self.pending_probes = self.pending_probes + 1;
        proof {
            lemma_reading(before, model);
            assert(self@.reads =~= before.reads.push(model));
            lemma_same_held(before.reading(model), self@);
        }
        Ok(StartedRead { read_id, request, gaps: resolved.gaps })
    }

    /// The probe of a read has resolved: it effectively begins at `start_offset`, so
    /// that its byte deltas exclude the content which it skips. The read may then be
    /// polled for its first batch.
    pub fn on_probe_resolved(&mut self, read_id: u32, start_offset: i64)
        requires
            old(self)@.valid(),
            read_id < old(self)@.reads.len(),
            old(self).pending_probes > 0,
        ensures
            final(self)@.valid(),
            final(self)@ == (ActorModel {
                pending_probes: (old(self).pending_probes - 1) as usize,
                ..old(self)@.with_read(
                    read_id,
                    old(self)@.reads[read_id as int].started_at(start_offset),
                )
            }),
    {
        let ghost before = self@;
        assert(self.reads@[read_id as int]@ == before.reads[read_id as int]);
        let read = &mut self.reads[read_id as usize];
        read.start_at(start_offset);
        self.pending_probes = self.pending_probes - 1;
        proof {
            let model = before.reads[read_id as int].started_at(start_offset);
            assert(self@.reads =~= before.reads.update(read_id as int, model));
            lemma_with_read(before, read_id, model);
            lemma_same_held(before.with_read(read_id, model), self@);
        }
    }

    /// Whether the read `read_id` may resolve to `result`: the documents of a batch are
    /// valid, there is at least one, and their clocks can be delayed.
    pub fn accepts(&self, read_id: u32, result: &ReadResult<D>) -> (accepts: bool)
        requires
            self@.valid(),
            read_id < self@.reads.len(),
        ensures
            accepts == (result.batch_valid() && self@.result_fits(read_id, *result)),
    {
        let (docs, metas) = match result {
            ReadResult::Batch { docs, metas, .. } => (docs, metas),
            _ => {
                return true;
            },
        };
        if docs.len() != metas.len() || metas.len() == 0 {
            return false;
        }
        assert(self.reads@[read_id as int]@ == self@.reads[read_id as int]);
        let read = &self.reads[read_id as usize];
        let delay: u64 = self.topology.bindings[read.binding_index as usize].read_delay.0;
        let mut i: usize = 0;
        while i < metas.len()
            invariant
                i <= metas@.len(),
                delay == self@.binding(read_id).read_delay.0,
                *result matches ReadResult::Batch { metas: held, .. } && held == *metas,
                forall|j: int| 0 <= j < i ==> (#[trigger] metas@[j]).valid(),
                forall|j: int|
                    0 <= j < i ==> (#[trigger] metas@[j]).clock.0 + delay <= u64::MAX,
            decreases metas@.len() - i,
        {
            let meta = metas[i];
            if meta.begin_offset < 0 || meta.begin_offset > meta.end_offset {
                assert(!metas@[i as int].valid());
                return false;
            }
            if meta.clock.0 > u64::MAX - delay {
                assert(metas@[i as int].clock.0 + delay > u64::MAX);
                return false;
            }
            i += 1;
        }
        true
    }

    /// A main read, which is not held, has resolved. Its documents go onto the heap, or
    /// its status is handled: the end or removal of its journal stops it, a transient
    /// error has it polled again, and any other error fails the Slice.
    ///
    /// Gaps of a read which has stopped are inert: it is never served again.
    pub fn process_read_result(&mut self, read_id: u32, result: ReadResult<D>) -> (outcome: Result<
        ReadOutcome,
        SliceError,
    >)
        requires
            old(self)@.valid(),
            read_id < old(self)@.reads.len(),
            !old(self)@.is_ready(read_id),
            !old(self)@.is_parked(read_id),
            result.batch_valid(),
            old(self)@.result_fits(read_id, result),
        ensures
            final(self)@.valid(),
            old(self)@.read_resolves(read_id, result, outcome, final(self)@),
    {
        let ghost before = self@;
        assert(self.reads@[read_id as int]@ == before.reads[read_id as int]);
        match result {
            ReadResult::Eof => Ok(ReadOutcome::StoppedEof),
            ReadResult::JournalNotFound => Ok(ReadOutcome::StoppedNotFound),
            ReadResult::Suspended => Ok(ReadOutcome::StoppedSuspended),
            ReadResult::Transient => Ok(ReadOutcome::Retry),
            ReadResult::Terminal(failure) => Err(self.read_failed(read_id, false, failure)),
            ReadResult::Batch { write_head, physical_bytes: _, docs, metas } => {
                let read = &mut self.reads[read_id as usize];
                read.write_head = write_head;
                proof {
                    let model = ReadModel { write_head, ..before.reads[read_id as int] };
                    assert(self@.reads =~= before.reads.update(read_id as int, model));
                    lemma_with_read(before, read_id, model);
                    assert(self@ =~= before.with_write_head(read_id, write_head));
                }
                let ghost expect = ReadyModel { docs: docs@, metas: metas@, read: read_id };
                match ReadyRead::new(docs, metas, read_id) {
                    Some(ready) => {
                        assert(before.ready_valid(ready@));
                        assert(self@.ready_valid(ready@));
                        self.push_ready(ready);
                    },
                    None => {},
                }
                Ok(ReadOutcome::Ready)
            },
        }
    }

    /// The error of a read which failed terminally.
    pub(crate) fn read_failed(
        &self,
        read_id: u32,
        historical: bool,
        failure: ReadFailure,
    ) -> (err: SliceError)
        requires
            self@.valid(),
            read_id < self@.reads.len(),
        ensures
            err.reports_read(
                self@.reads[read_id as int].journal,
                self@.binding(read_id),
                historical,
                failure,
            ),
    {
        assert(self.reads@[read_id as int]@ == self@.reads[read_id as int]);
        let read = &self.reads[read_id as usize];
        let binding = &self.topology.bindings[read.binding_index as usize];
        SliceError::ReadFailed {
            journal: read.journal.clone(),
            binding: binding.state_key.clone(),
            historical,
            failure,
        }
    }
}

} // verus!
