//! Resolution of a checkpoint into the state from which a read restarts.

use crate::frontier::{magnitude, ProducerFrontier, SPAN_AT_HEAD_MARKER};
use crate::producer::ProducerState;
use crate::producer_map::ProducerMap;
use crate::uuid::{Clock, Producer};
use vstd::prelude::*;

verus! {

/// A producer whose uncommitted span begins before the position that a read
/// restarts from.
#[derive(Clone, Copy, Debug, PartialEq, Eq, Structural)]
pub struct Gap {
    pub producer: Producer,
    /// Begin offset of the producer's uncommitted span.
    pub begin: i64,
}

/// A checkpoint, resolved for the restart of its read.
#[derive(Debug)]
pub struct ResolvedCheckpoint {
    /// Journal offset at which the read restarts.
    pub offset: i64,
    /// Recovered producer states.
    pub producers: ProducerMap,
    /// Producers which are gapped.
    pub gaps: Vec<Gap>,
}

/// The furthest position that is justified by `entries`: their greatest magnitude,
/// or zero if there are none.
pub open spec fn furthest(entries: Seq<ProducerFrontier>) -> int
    decreases entries.len(),
{
    if entries.len() == 0 {
        0
    } else {
        let rest = furthest(entries.drop_last());
        let last = magnitude(entries.last().offset);
        if last > rest {
            last
        } else {
            rest
        }
    }
}

/// The commit clock which `entry` records. The marker of a span at the journal's
/// head stands for none.
pub open spec fn recovered_commit(entry: ProducerFrontier) -> Clock {
    if entry.offset == 0 && entry.last_commit.0 == SPAN_AT_HEAD_MARKER {
        Clock(0)
    } else {
        entry.last_commit
    }
}

/// Whether a read which restarts at `start` skips the head of the uncommitted span
/// of `entry`.
pub open spec fn skips(entry: ProducerFrontier, start: int) -> bool {
    0 <= entry.offset < start
}

/// The state in which the producer of `entry` is recovered, by a read which
/// restarts at `start`.
pub open spec fn recovered_state(entry: ProducerFrontier, start: int) -> ProducerState {
    let last_commit = recovered_commit(entry);
    ProducerState {
        last_commit,
        max_continue: if skips(entry, start) {
            Clock((last_commit.0 + 1) as u64)
        } else {
            Clock(0)
        },
        offset: entry.offset,
    }
}

/// The states of the producers of `entries`. Of entries of one producer, the last
/// holds.
pub open spec fn recovered_states(entries: Seq<ProducerFrontier>, start: int) -> Map<
    u64,
    ProducerState,
>
    decreases entries.len(),
{
    if entries.len() == 0 {
        Map::empty()
    } else {
        recovered_states(entries.drop_last(), start).insert(
            entries.last().producer.0,
            recovered_state(entries.last(), start),
        )
    }
}

/// The gaps which a read that restarts at `start` leaves, in the order of `entries`.
pub open spec fn recovered_gaps(entries: Seq<ProducerFrontier>, start: int) -> Seq<Gap>
    decreases entries.len(),
{
    if entries.len() == 0 {
        seq![]
    } else {
        let rest = recovered_gaps(entries.drop_last(), start);
        if skips(entries.last(), start) {
            rest.push(Gap { producer: entries.last().producer, begin: entries.last().offset })
        } else {
            rest
        }
    }
}

/// Every entry of a checkpoint is valid, and the clock of an entry which its restart
/// skips has a successor.
pub open spec fn checkpoint_valid(entries: Seq<ProducerFrontier>) -> bool {
    forall|i: int|
        0 <= i < entries.len() ==> (#[trigger] entries[i]).valid() && (skips(
            entries[i],
            furthest(entries),
        ) ==> entries[i].last_commit.0 < u64::MAX)
}

/// The furthest position of `entries`.
fn furthest_of(entries: &Vec<ProducerFrontier>) -> (start: i64)
    requires
        forall|i: int| 0 <= i < entries@.len() ==> (#[trigger] entries@[i]).valid(),
    ensures
        start == furthest(entries@),
{
    let mut start: i64 = 0;
    let mut i: usize = 0;
    while i < entries.len()
        invariant
            i <= entries@.len(),
            forall|i: int| 0 <= i < entries@.len() ==> (#[trigger] entries@[i]).valid(),
            start == furthest(entries@.take(i as int)),
        decreases entries@.len() - i,
    {
        assert(entries@.take(i + 1).drop_last() =~= entries@.take(i as int));
        assert(entries@[i as int].valid());
        let offset: i64 = entries[i].offset;
        let reach: i64 = if offset >= 0 {
            offset
        } else {
            -offset
        };
        if reach > start {
            start = reach;
        }
        i += 1;
    }
    assert(entries@.take(entries@.len() as int) =~= entries@);
    start
}

/// Whether a checkpoint can be resolved.
pub fn is_resolvable(entries: &Vec<ProducerFrontier>) -> (resolvable: bool)
    ensures
        resolvable == checkpoint_valid(entries@),
{
    let mut i: usize = 0;
    while i < entries.len()
        invariant
            i <= entries@.len(),
            forall|j: int| 0 <= j < i ==> (#[trigger] entries@[j]).valid(),
        decreases entries@.len() - i,
    {
        if entries[i].offset == i64::MIN {
            assert(!entries@[i as int].valid());
            return false;
        }
        i += 1;
    }
    let start = furthest_of(entries);
    let mut i: usize = 0;
    while i < entries.len()
        invariant
            i <= entries@.len(),
            start == furthest(entries@),
            forall|j: int| 0 <= j < entries@.len() ==> (#[trigger] entries@[j]).valid(),
            forall|j: int|
                0 <= j < i ==> (skips(#[trigger] entries@[j], start as int)
                    ==> entries@[j].last_commit.0 < u64::MAX),
        decreases entries@.len() - i,
    {
        let entry = entries[i];
        if 0 <= entry.offset && entry.offset < start && entry.last_commit.0 == u64::MAX {
            assert(skips(entries@[i as int], furthest(entries@)));
            return false;
        }
        i += 1;
    }
    true
}

/// Resolve a checkpoint. The read restarts at its furthest justified position, and
/// a producer whose uncommitted span begins before that is gapped.
///
/// An entry at offset zero may be of a hinted producer that has written nothing, or
/// of a span which began at the journal's head. Both are gapped alike: it is safe to
/// backfill a span that turns out to be empty.
pub fn resolve_checkpoint(entries: &Vec<ProducerFrontier>) -> (resolved: ResolvedCheckpoint)
    requires
        checkpoint_valid(entries@),
    ensures
        resolved.offset == furthest(entries@),
        resolved.producers@ == recovered_states(entries@, furthest(entries@)),
        resolved.gaps@ == recovered_gaps(entries@, furthest(entries@)),
{
    let start = furthest_of(entries);
    let mut producers = ProducerMap::new();
    let mut gaps: Vec<Gap> = Vec::new();
    let mut i: usize = 0;
    while i < entries.len()
        invariant
            i <= entries@.len(),
            checkpoint_valid(entries@),
            start == furthest(entries@),
            producers@ == recovered_states(entries@.take(i as int), start as int),
            gaps@ == recovered_gaps(entries@.take(i as int), start as int),
        decreases entries@.len() - i,
    {
        assert(entries@.take(i + 1).drop_last() =~= entries@.take(i as int));
        assert(entries@[i as int].valid());
        let entry = entries[i];
        let last_commit = if entry.offset == 0 && entry.last_commit.0 == SPAN_AT_HEAD_MARKER {
            Clock(0)
        } else {
            entry.last_commit
        };
        let mut state = ProducerState {
            last_commit,
            max_continue: Clock(0),
            offset: entry.offset,
        };
        if 0 <= entry.offset && entry.offset < start {
            state.mark_gapped();
            gaps.push(Gap { producer: entry.producer, begin: entry.offset });
        }
        producers.insert(entry.producer, state);
        i += 1;
    }
    assert(entries@.take(entries@.len() as int) =~= entries@);
    ResolvedCheckpoint { offset: start, producers, gaps }
}

} // verus!
