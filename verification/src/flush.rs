//! Flush cycles with Log shards, and progress reports to the Session.

use crate::frontier::{journals_reduced, lsns_reduced, Frontier, Lsn};
use crate::topology::SliceError;
use vstd::prelude::*;

verus! {

/// A flush which awaits its Log shards.
#[derive(Debug)]
pub struct FlushInFlight {
    /// Frontier which the flush makes durable.
    pub frontier: Frontier,
    /// Whether each shard is yet to answer.
    pub awaiting: Vec<bool>,
}

impl FlushInFlight {
    pub open spec fn valid(&self) -> bool {
        &&& self.frontier.valid()
        &&& self.frontier.flushed_lsn@.len() == self.awaiting@.len()
    }

    /// Whether `shard_index` is yet to answer.
    pub open spec fn awaits(&self, shard_index: int) -> bool {
        0 <= shard_index < self.awaiting@.len() && self.awaiting@[shard_index]
    }

    /// Whether `shard_index` is the only shard that is yet to answer.
    pub open spec fn awaits_only(&self, shard_index: int) -> bool {
        self.awaits(shard_index) && forall|i: int|
            0 <= i < self.awaiting@.len() && i != shard_index ==> !#[trigger] self.awaiting@[i]
    }
}

/// State machine of flush cycles.
#[derive(Debug)]
pub struct FlushState {
    /// The current, or else the last completed flush cycle.
    pub cycle: u64,
    /// Whether commit progress awaits a flush.
    pub ready: bool,
    /// The flush in flight, if there is one. There is at most one.
    pub in_flight: Option<FlushInFlight>,
}

impl FlushState {
    pub open spec fn valid(&self) -> bool {
        self.in_flight matches Some(in_flight) ==> in_flight.valid()
    }

    pub fn new() -> (flush: FlushState)
        ensures
            flush.valid(),
            flush.cycle == 0,
            !flush.ready,
            flush.in_flight is None,
    {
        FlushState { cycle: 0, ready: false, in_flight: None }
    }

    pub open spec fn spec_should_flush(&self) -> bool {
        self.ready && self.in_flight is None
    }

    /// Whether a flush should start: progress awaits it, and none is in flight.
    #[verifier::when_used_as_spec(spec_should_flush)]
    pub fn should_flush(&self) -> (should: bool)
        ensures
            should == self.spec_should_flush(),
    {
        self.ready && self.in_flight.is_none()
    }

    /// Note commit progress, which awaits a flush.
    pub fn set_ready(&mut self)
        ensures
            final(self).ready,
            final(self).cycle == old(self).cycle,
            final(self).in_flight == old(self).in_flight,
    {
        self.ready = true;
    }

    /// Whether `next` is this state once the flush `cycle` of `frontier` was started, with
    /// every one of `shards` shards.
    pub open spec fn begins(
        self,
        shards: usize,
        frontier: Frontier,
        cycle: u64,
        next: FlushState,
    ) -> bool {
        &&& cycle == self.cycle + 1
        &&& next.cycle == cycle
        &&& !next.ready
        &&& next.in_flight matches Some(in_flight)
        &&& in_flight.frontier == frontier
        &&& in_flight.awaiting@ == Seq::new(shards as nat, |i: int| true)
    }

    /// Whether `next` is this state once `shard_index` answered that it flushed through
    /// `lsn`, and `completed` is what that came to.
    pub open spec fn answers(
        self,
        shard_index: usize,
        lsn: Lsn,
        completed: Result<Option<Frontier>, SliceError>,
        next: FlushState,
    ) -> bool {
        &&& next.cycle == self.cycle
        &&& next.ready == self.ready
        &&& match self.in_flight {
            Some(held) if held.awaits(shard_index as int) => {
                let lsns = held.frontier.flushed_lsn@.update(shard_index as int, lsn);
                match completed {
                    Ok(Some(frontier)) => {
                        &&& held.awaits_only(shard_index as int)
                        &&& next.in_flight is None
                        &&& frontier.valid()
                        &&& frontier.journals == held.frontier.journals
                        &&& frontier.flushed_lsn@ == lsns
                    },
                    Ok(None) => {
                        &&& !held.awaits_only(shard_index as int)
                        &&& next.in_flight matches Some(still)
                        &&& still.awaiting@ == held.awaiting@.update(shard_index as int, false)
                        &&& still.frontier.journals == held.frontier.journals
                        &&& still.frontier.flushed_lsn@ == lsns
                    },
                    Err(_) => false,
                }
            },
            _ => {
                &&& completed matches Err(err)
                &&& err == (SliceError::UnexpectedFlushed { shard_index })
                &&& next == self
            },
        }
    }

    /// Start the next flush cycle, of `frontier`, with every one of `shards` shards.
    pub fn start(&mut self, shards: usize, frontier: Frontier) -> (cycle: u64)
        requires
            old(self).in_flight is None,
            old(self).cycle < u64::MAX,
            frontier.valid(),
            frontier.flushed_lsn@.len() == shards,
        ensures
            final(self).valid(),
            old(self).begins(shards, frontier, cycle, *final(self)),
    {
        let mut awaiting: Vec<bool> = Vec::new();
        while awaiting.len() < shards
            invariant
                awaiting@.len() <= shards,
                forall|i: int| 0 <= i < awaiting@.len() ==> #[trigger] awaiting@[i],
            decreases shards - awaiting@.len(),
        {
            awaiting.push(true);
        }
        assert(awaiting@ =~= Seq::new(shards as nat, |i: int| true));
        self.cycle = self.cycle + 1;
        self.ready = false;
        self.in_flight = Some(FlushInFlight { frontier, awaiting });
        self.cycle
    }

    /// A shard has flushed through `lsn`. Returns the flushed frontier if it was the
    /// last to answer. A shard that is not awaited is an error.
    pub fn on_flushed(&mut self, shard_index: usize, lsn: Lsn) -> (completed: Result<
        Option<Frontier>,
        SliceError,
    >)
        requires
            old(self).valid(),
        ensures
            final(self).valid(),
            old(self).answers(shard_index, lsn, completed, *final(self)),
    {
        let awaited = match &self.in_flight {
            Some(held) => shard_index < held.awaiting.len() && held.awaiting[shard_index],
            None => false,
        };
        if !awaited {
            return Err(SliceError::UnexpectedFlushed { shard_index });
        }
        let held = self.in_flight.take();
        match held {
            Some(held) => {
                let FlushInFlight { frontier, awaiting } = held;
                let Frontier { unresolved_hints, journals, flushed_lsn } = frontier;
                let mut awaiting = awaiting;
                let mut flushed_lsn = flushed_lsn;
                let ghost was = awaiting@;
                awaiting.set(shard_index, false);
                flushed_lsn.set(shard_index, lsn);
                let frontier = Frontier { unresolved_hints, journals, flushed_lsn };
                let mut i: usize = 0;
                while i < awaiting.len() && !awaiting[i]
                    invariant
                        i <= awaiting@.len(),
                        forall|j: int| 0 <= j < i ==> !#[trigger] awaiting@[j],
                    decreases awaiting@.len() - i,
                {
                    i += 1;
                }
                if i < awaiting.len() {
                    assert(was[i as int]);
                    self.in_flight = Some(FlushInFlight { frontier, awaiting });
                    Ok(None)
                } else {
                    assert forall|j: int|
                        0 <= j < was.len() && j != shard_index implies !#[trigger] was[j] by {
                        assert(!awaiting@[j]);
                    }
                    Ok(Some(frontier))
                }
            },
            None => Ok(None),
        }
    }
}

/// State machine of progress reports, each of which is requested by the Session.
#[derive(Debug)]
pub struct ProgressState {
    /// Whether a report has been requested, and is yet to be sent.
    pub requested: bool,
    /// Flushed progress since the last report.
    pub progressed: Option<Frontier>,
}

impl ProgressState {
    pub open spec fn valid(&self) -> bool {
        self.progressed matches Some(frontier) ==> frontier.valid()
    }

    pub fn new() -> (progress: ProgressState)
        ensures
            progress.valid(),
            !progress.requested,
            progress.progressed is None,
    {
        ProgressState { requested: false, progressed: None }
    }

    /// The Session requests a report. It may not have another outstanding.
    pub fn request(&mut self) -> (accepted: Result<(), SliceError>)
        ensures
            final(self).requested,
            final(self).progressed == old(self).progressed,
            match accepted {
                Ok(_) => !old(self).requested,
                Err(err) => old(self).requested && err is ProgressAlreadyRequested,
            },
    {
        if self.requested {
            return Err(SliceError::ProgressAlreadyRequested);
        }
        self.requested = true;
        Ok(())
    }

    /// Reduce the frontier of a completed flush into that of the next report.
    pub fn on_flush_completed(&mut self, completed: Frontier)
        requires
            old(self).valid(),
            completed.valid(),
        ensures
            final(self).valid(),
            final(self).requested == old(self).requested,
            final(self).progressed matches Some(next) && match old(self).progressed {
                Some(held) => {
                    &&& next.map() == journals_reduced(held.map(), completed.map())
                    &&& next.flushed_lsn@ == lsns_reduced(
                        held.flushed_lsn@,
                        completed.flushed_lsn@,
                    )
                },
                None => next == completed,
            },
    {
        match self.progressed.take() {
            Some(held) => {
                self.progressed = Some(held.reduce(completed));
            },
            None => {
                self.progressed = Some(completed);
            },
        }
    }

    pub open spec fn spec_has_progressed(&self) -> bool {
        self.requested && self.progressed is Some
    }

    /// Whether a report is requested, and there is progress to report.
    #[verifier::when_used_as_spec(spec_has_progressed)]
    pub fn has_progressed(&self) -> (has: bool)
        ensures
            has == self.spec_has_progressed(),
    {
        self.requested && self.progressed.is_some()
    }

    /// Take the progress to report, if it is requested and there is any.
    pub fn take_progressed(&mut self) -> (progressed: Option<Frontier>)
        requires
            old(self).valid(),
        ensures
            final(self).valid(),
            if old(self).has_progressed() {
                &&& progressed == old(self).progressed
                &&& !final(self).requested
                &&& final(self).progressed is None
            } else {
                &&& progressed is None
                &&& *final(self) == *old(self)
            },
            progressed matches Some(frontier) ==> frontier.valid(),
    {
        if self.requested && self.progressed.is_some() {
            self.requested = false;
            self.progressed.take()
        } else {
            None
        }
    }
}

} // verus!
