//! Exchanges with the Session and with Log shards: requests, flushes, and progress.

use crate::actor::{lemma_same_held, ActorModel, SliceActor};
use crate::checkpoint::checkpoint_valid;
use crate::flush::{FlushInFlight, ProgressState};
use crate::frontier::{
    bytes_behind_in, bytes_read_in, clamped, journals_reduced, lsns_reduced, producers_in,
    Frontier, JournalModel, Lsn, Measures,
};
use crate::order::JournalKey;
use crate::producer::{build_flush_frontier, flush_progress, reads_flushable, JournalHints};
use crate::read::ReadModel;
use crate::reading::{StartRead, StartedRead};
use crate::topology::SliceError;
use vstd::prelude::*;

verus! {

/// A request of the Session.
#[derive(Debug)]
pub enum SliceRequest {
    /// The initial request.
    Start,
    /// Report the next progress.
    Progress,
    /// Start a read.
    StartRead(StartRead),
    /// A request that is none of these, as it describes itself.
    Other(String),
}

/// A response of a Log shard.
#[derive(Debug)]
pub enum LogResponse {
    /// The shard flushed through `flushed_lsn`, as of the flush `cycle`.
    Flushed { cycle: u64, flushed_lsn: Lsn },
    /// Any other response, as it describes itself.
    Other(String),
}

/// How a listing task ended before the Slice did, and the error that it ended with.
#[derive(Debug)]
pub enum ListingEnd {
    Panicked { cause: String },
    Canceled,
    Failed { cause: String },
}

/// The Session must open with a Start request.
pub fn accept_start(request: SliceRequest) -> (accepted: Result<(), SliceError>)
    ensures
        match accepted {
            Ok(_) => request is Start,
            Err(err) => !(request is Start) && err == (SliceError::UnexpectedRequest { request }),
        },
{
    match request {
        SliceRequest::Start => Ok(()),
        request => Err(SliceError::UnexpectedRequest { request }),
    }
}

/// A listing task runs for as long as its Slice does, so every end of it is an error.
pub fn on_listing_task_done(end: ListingEnd) -> (err: SliceError)
    ensures
        match end {
            ListingEnd::Panicked { cause } => err == (SliceError::ListingPanicked { cause }),
            ListingEnd::Canceled => err is ListingCanceled,
            ListingEnd::Failed { cause } => err == (SliceError::ListingFailed { cause }),
        },
{
    match end {
        ListingEnd::Panicked { cause } => SliceError::ListingPanicked { cause },
        ListingEnd::Canceled => SliceError::ListingCanceled,
        ListingEnd::Failed { cause } => SliceError::ListingFailed { cause },
    }
}

/// A shard answered the flush `held`, through `lsn`.
pub open spec fn answered_lsns(held: FlushInFlight, shard_index: int, lsn: Lsn) -> Seq<Lsn> {
    held.frontier.flushed_lsn@.update(shard_index, lsn)
}

/// Whether `next` is the state of progress once a flush of `journals` and `lsns`
/// completed in `progress`: it is reduced into the progress that is yet to be reported.
pub open spec fn progress_reduced(
    progress: ProgressState,
    journals: Map<JournalKey, JournalModel>,
    lsns: Seq<Lsn>,
    next: ProgressState,
) -> bool {
    &&& next.requested == progress.requested
    &&& next.progressed matches Some(frontier)
    &&& match progress.progressed {
        Some(held) => {
            &&& frontier.map() == journals_reduced(held.map(), journals)
            &&& frontier.flushed_lsn@ == lsns_reduced(held.flushed_lsn@, lsns)
        },
        None => frontier.map() == journals && frontier.flushed_lsn@ == lsns,
    }
}

impl<D> ActorModel<D> {
    /// Whether `next` is the Slice once `shard_index` sent `response`, and `accepted` is
    /// whether that is accepted.
    pub open spec fn log_responds(
        self,
        shard_index: usize,
        response: LogResponse,
        accepted: Result<(), SliceError>,
        next: ActorModel<D>,
    ) -> bool {
        &&& next == (ActorModel { flush: next.flush, progress: next.progress, ..self })
        &&& next.flush.cycle == self.flush.cycle
        &&& next.flush.ready == self.flush.ready
        &&& match response {
            LogResponse::Flushed { cycle, flushed_lsn } if cycle == self.flush.cycle => {
                match self.flush.in_flight {
                    Some(held) if held.awaits(shard_index as int) => {
                        let lsns = answered_lsns(held, shard_index as int, flushed_lsn);
                        &&& accepted is Ok
                        &&& if held.awaits_only(shard_index as int) {
                            &&& next.flush.in_flight is None
                            &&& progress_reduced(
                                self.progress,
                                held.frontier.map(),
                                lsns,
                                next.progress,
                            )
                        } else {
                            &&& next.flush.in_flight matches Some(still)
                            &&& still.awaiting@ == held.awaiting@.update(
                                shard_index as int,
                                false,
                            )
                            &&& still.frontier.map() == held.frontier.map()
                            &&& still.frontier.flushed_lsn@ == lsns
                            &&& next.progress == self.progress
                        }
                    },
                    _ => {
                        &&& accepted matches Err(err)
                        &&& err == (SliceError::UnexpectedFlushed { shard_index })
                        &&& next == self
                    },
                }
            },
            _ => {
                &&& accepted matches Err(err)
                &&& err == (SliceError::UnexpectedLogResponse { shard_index, response })
                &&& next == self
            },
        }
    }

    /// Whether `next` is the Slice once it took the progress to report, if it was requested
    /// and there is any, and `report` is that with its totals.
    pub open spec fn reports(
        self,
        report: Option<(Frontier, Measures)>,
        next: ActorModel<D>,
    ) -> bool {
        if self.progress.has_progressed() {
            &&& report matches Some((frontier, measures))
            &&& self.progress.progressed == Some(frontier)
            &&& measures.journals == frontier.journals@.len()
            &&& measures.journal_producers == clamped(producers_in(frontier.journals@))
            &&& measures.bytes_read_delta == bytes_read_in(frontier.journals@)
            &&& measures.bytes_behind_delta == bytes_behind_in(frontier.journals@)
            &&& next == (ActorModel {
                progress: ProgressState { requested: false, progressed: None },
                ..self
            })
        } else {
            report is None && next == self
        }
    }

    /// Whether `next` is the Slice once it started the flush `cycle`.
    pub open spec fn flushes(self, cycle: u64, next: ActorModel<D>) -> bool {
        let shards = self.topology.shard_count as nat;
        &&& cycle == self.flush.cycle + 1
        &&& next.flush.cycle == cycle
        &&& !next.flush.ready
        &&& next.flush.in_flight matches Some(held)
        &&& held.frontier.map() == flush_progress(self.reads, self.causal_hints)
        &&& held.frontier.flushed_lsn@ == Seq::new(shards, |i: int| Lsn(0))
        &&& held.awaiting@ == Seq::new(shards, |i: int| true)
        &&& next == (ActorModel {
            reads: self.reads.map_values(|read: ReadModel| read.flushed()),
            causal_hints: Seq::empty(),
            flush: next.flush,
            ..self
        })
    }
}

impl<D> SliceActor<D> {
    /// A Log shard responded. Once every shard has answered a flush, its frontier is
    /// progress to report. Any other response is an error.
    pub fn on_log_response(&mut self, shard_index: usize, response: LogResponse) -> (accepted:
        Result<(), SliceError>)
        requires
            old(self)@.valid(),
        ensures
            final(self)@.valid(),
            old(self)@.log_responds(shard_index, response, accepted, final(self)@),
    {
        let ghost before = self@;
        let (cycle, flushed_lsn) = match response {
            LogResponse::Flushed { cycle, flushed_lsn } => (cycle, flushed_lsn),
            response => {
                return Err(SliceError::UnexpectedLogResponse { shard_index, response });
            },
        };
        if cycle != self.flush.cycle {
            return Err(
                SliceError::UnexpectedLogResponse {
                    shard_index,
                    response: LogResponse::Flushed { cycle, flushed_lsn },
                },
            );
        }
        let answered = self.flush.on_flushed(shard_index, flushed_lsn);
        match answered {
            Ok(Some(completed)) => {
                self.progress.on_flush_completed(completed);
            },
            Ok(None) => {},
            Err(err) => {
                return Err(err);
            },
        }
        proof {
            lemma_same_held(before, self@);
        }
        Ok(())
    }

    /// The Session requests the next progress report, or the start of a read. Any other
    /// request is an error. Returns the read which was started.
    pub fn on_slice_request(&mut self, request: SliceRequest) -> (started: Result<
        Option<StartedRead>,
        SliceError,
    >)
        requires
            old(self)@.valid(),
            request matches SliceRequest::StartRead(start_read) ==> {
                &&& old(self)@.reads.len() < u32::MAX
                &&& old(self).pending_probes < usize::MAX
                &&& checkpoint_valid(start_read.checkpoint@)
            },
        ensures
            final(self)@.valid(),
            match request {
                SliceRequest::Progress => {
                    &&& final(self)@ == (ActorModel {
                        progress: ProgressState { requested: true, ..old(self).progress },
                        ..old(self)@
                    })
                    &&& match started {
                        Ok(started) => started is None && !old(self).progress.requested,
                        Err(err) => err is ProgressAlreadyRequested
                            && old(self).progress.requested,
                    }
                },
                SliceRequest::StartRead(start_read) => match started {
                    Ok(started) => started matches Some(started) && old(self)@.starts(
                        start_read,
                        started,
                    ) && final(self)@ == old(self)@.started(start_read),
                    Err(err) => {
                        &&& old(self)@.start_error(start_read, err)
                        &&& final(self)@ == old(self)@
                    },
                },
                _ => {
                    &&& started matches Err(err)
                    &&& err == (SliceError::UnexpectedRequest { request })
                    &&& final(self)@ == old(self)@
                },
            },
    {
        let ghost before = self@;
        match request {
            SliceRequest::Progress => {
                let accepted = self.progress.request();
                proof {
                    lemma_same_held(before, self@);
                }
                match accepted {
                    Ok(_) => Ok(None),
                    Err(err) => Err(err),
                }
            },
            SliceRequest::StartRead(start_read) => match self.on_start_read(start_read) {
                Ok(started) => Ok(Some(started)),
                Err(err) => Err(err),
            },
            request => Err(SliceError::UnexpectedRequest { request }),
        }
    }

    /// Whether the byte deltas of every read are representable, so that it can be
    /// flushed.
    pub fn is_flushable(&self) -> (flushable: bool)
        ensures
            flushable == reads_flushable(self@.reads),
    {
        let mut i: usize = 0;
        while i < self.reads.len()
            invariant
                i <= self.reads@.len(),
                forall|j: int| 0 <= j < i ==> (#[trigger] self@.reads[j]).flushable(),
            decreases self.reads@.len() - i,
        {
            let read = &self.reads[i];
            assert(self@.reads[i as int] == read@);
            if !read.is_flushable() {
                assert(!self@.reads[i as int].flushable());
                return false;
            }
            i += 1;
        }
        true
    }

    /// Start a flush cycle with every Log shard: of all progress of the reads, and of
    /// the causal hints, since the last. Returns its cycle, which each shard is sent.
    pub fn start_flush(&mut self) -> (cycle: u64)
        requires
            old(self)@.valid(),
            old(self).flush.should_flush(),
            old(self).flush.cycle < u64::MAX,
            reads_flushable(old(self)@.reads),
        ensures
            final(self)@.valid(),
            old(self)@.flushes(cycle, final(self)@),
    {
        let ghost before = self@;
        let mut hints: Vec<JournalHints> = Vec::new();
        std::mem::swap(&mut self.causal_hints, &mut hints);
        let shards = self.topology.shard_count;
        let frontier = build_flush_frontier(&mut self.reads, hints, shards);
        let cycle = self.flush.start(shards, frontier);
        proof {
            lemma_reads_replaced(before, self@);
        }
        cycle
    }

    /// Take the progress to report to the Session, with its totals, if a report was
    /// requested and there is any. There must be capacity to send it.
    pub fn take_progressed(&mut self) -> (report: Option<(Frontier, Measures)>)
        requires
            old(self)@.valid(),
        ensures
            final(self)@.valid(),
            old(self)@.reports(report, final(self)@),
    {
        let ghost before = self@;
        let taken = self.progress.take_progressed();
        proof {
            lemma_same_held(before, self@);
        }
        match taken {
            Some(frontier) => {
                let measures = frontier.measures();
                Some((frontier, measures))
            },
            None => None,
        }
    }
}

/// Other states of the reads, of the same bindings, keep what the Slice holds valid.
proof fn lemma_reads_replaced<D>(m: ActorModel<D>, n: ActorModel<D>)
    requires
        m.valid(),
        n.topology == m.topology,
        n.reads.len() == m.reads.len(),
        forall|i: int|
            0 <= i < m.reads.len() ==> (#[trigger] n.reads[i]).binding_index
                == m.reads[i].binding_index,
        n.heap == m.heap,
        n.parked == m.parked,
    ensures
        n.held_valid(),
        n.held_once(),
        n.reads_valid(),
{
    assert forall|r: u32| r < m.reads.len() implies #[trigger] n.binding(r) == m.binding(r) by {
        assert(n.reads[r as int].binding_index == m.reads[r as int].binding_index);
    }
    assert forall|i: int| 0 <= i < n.heap.len() implies n.entry_valid(#[trigger] n.heap[i]) by {
        assert(m.entry_valid(m.heap[i]));
        assert(n.binding(n.heap[i].ready.read) == m.binding(n.heap[i].ready.read));
    }
    assert forall|i: int| 0 <= i < n.parked.len() implies n.parked_valid(
        #[trigger] n.parked[i],
    ) by {
        assert(m.parked_valid(m.parked[i]));
        assert(n.binding(n.parked[i].ready.read) == m.binding(n.parked[i].ready.read));
    }
}

} // verus!
