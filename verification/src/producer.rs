//! Per-producer sequencing state, and its reduction into flushed frontiers.

use crate::frontier::{
    journal_keys, journals_map, journals_reduced, lsns_reduced, producer_keys, producers_map,
    upsert_journal, upsert_producer, with_journal, with_producer, Frontier, JournalFrontier,
    JournalModel, Lsn, ProducerFrontier,
};
use crate::order::JournalKey;
use crate::read::{read_models, ReadModel, ReadState};
use crate::uuid::{Clock, Producer};
use vstd::prelude::*;

verus! {

/// Per-producer sequencing state of one `(binding, journal)` read.
///
/// `offset` encodes a journal position by its sign:
///   - Non-negative: begin offset of the first pending CONTINUE document.
///   - Negative: negated end offset of the last committing ACK or OUTSIDE document.
/// The default state uses zero, before any document has been observed.
#[derive(Clone, Copy, Debug, PartialEq, Eq, Structural)]
pub struct ProducerState {
    /// Clock of the last committing ACK or OUTSIDE document.
    pub last_commit: Clock,
    /// Maximum clock of an uncommitted CONTINUE, or zero if there is no pending span.
    ///
    /// Doubles as the in-memory *gapped* sentinel: a producer is gapped if and only
    /// if this is `last_commit + 1`. By protocol, a producer's CONTINUE that follows
    /// its ACK at `last_commit` carries a clock greater than `last_commit + 1`. No
    /// document of such a producer lands on the sentinel, as
    /// `laws::producers_are_gapped_only_in_recovery` states. It is never persisted:
    /// recovery derives it anew from the checkpoint.
    pub max_continue: Clock,
    /// Journal byte offset, encoded by sign.
    pub offset: i64,
}

impl ProducerState {
    /// The state of a producer of which nothing has been observed.
    pub open spec fn spec_new() -> ProducerState {
        ProducerState { last_commit: Clock(0), max_continue: Clock(0), offset: 0 }
    }

    #[verifier::when_used_as_spec(spec_new)]
    pub fn new() -> (state: ProducerState)
        ensures
            state == Self::spec_new(),
    {
        ProducerState { last_commit: Clock(0), max_continue: Clock(0), offset: 0 }
    }

    /// Whether the producer is gapped. The sentinel one past `u64::MAX` is zero.
    pub open spec fn spec_is_gapped(&self) -> bool {
        self.max_continue.0 == (self.last_commit.0 + 1) % 0x1_0000_0000_0000_0000
    }

    /// Whether this producer is *gapped*: its uncommitted span begins at `offset`,
    /// below the position at which the main read started, so the read skipped the
    /// span's head and the entry is frozen until it resolves.
    #[verifier::when_used_as_spec(spec_is_gapped)]
    pub fn is_gapped(&self) -> (gapped: bool)
        ensures
            gapped == self.spec_is_gapped(),
    {
        self.max_continue.0 == self.last_commit.0.wrapping_add(1)
    }

    /// Mark this producer gapped, by installing the sentinel into `max_continue`.
    pub fn mark_gapped(&mut self)
        requires
            old(self).last_commit.0 < u64::MAX,
        ensures
            final(self).last_commit == old(self).last_commit,
            final(self).offset == old(self).offset,
            final(self).max_continue.0 == old(self).last_commit.0 + 1,
            final(self).is_gapped(),
    {
        self.max_continue = Clock(self.last_commit.0 + 1);
    }

    /// The open span which a gapped entry stands for: its recovered `last_commit`
    /// and begin offset, with no CONTINUE sequenced yet.
    pub open spec fn spec_reopened(&self) -> ProducerState {
        ProducerState {
            last_commit: self.last_commit,
            max_continue: Clock(0),
            offset: self.offset,
        }
    }

    #[verifier::when_used_as_spec(spec_reopened)]
    pub fn reopened(&self) -> (span: ProducerState)
        ensures
            span == self.spec_reopened(),
    {
        ProducerState {
            last_commit: self.last_commit,
            max_continue: Clock(0),
            offset: self.offset,
        }
    }
}

impl Default for ProducerState {
    fn default() -> (state: ProducerState)
        ensures
            state == ProducerState::spec_new(),
    {
        ProducerState::new()
    }
}

/// Causal hints for the producers of one journal and binding: the clocks at which
/// they are said to commit. A producer may be hinted more than once.
#[derive(Debug)]
pub struct JournalHints {
    pub journal: String,
    pub binding: u16,
    pub producers: Vec<(Producer, Clock)>,
}

/// The checkpoint entry of a causal hint.
pub open spec fn hint_entry(hint: (Producer, Clock)) -> ProducerFrontier {
    ProducerFrontier {
        producer: hint.0,
        last_commit: Clock(0),
        hinted_commit: hint.1,
        offset: 0,
    }
}

/// The checkpoint entries of causal hints. Of the hints of one producer, the
/// greatest clock holds.
pub open spec fn hint_entries(hints: Seq<(Producer, Clock)>) -> Map<u64, ProducerFrontier>
    decreases hints.len(),
{
    if hints.len() == 0 {
        Map::empty()
    } else {
        with_producer(hint_entries(hints.drop_last()), hint_entry(hints.last()))
    }
}

impl JournalHints {
    pub open spec fn key(&self) -> JournalKey {
        (self.journal@, self.binding)
    }

    /// What a flush reports of the hints.
    pub open spec fn progress(&self) -> JournalModel {
        JournalModel {
            producers: hint_entries(self.producers@),
            bytes_read_delta: 0,
            bytes_behind_delta: 0,
        }
    }

    fn into_frontier(self) -> (journal: JournalFrontier)
        ensures
            journal.valid(),
            journal.key() == self.key(),
            journal@ == self.progress(),
    {
        let mut producers: Vec<ProducerFrontier> = Vec::new();
        let mut i: usize = 0;
        proof {
            assert(producer_keys(producers@) =~= seq![]);
            assert(producers_map(producers@) =~= Map::empty());
        }
        while i < self.producers.len()
            invariant
                i <= self.producers@.len(),
                crate::frontier::producers_sorted(producers@),
                producers_map(producers@) == hint_entries(self.producers@.take(i as int)),
            decreases self.producers@.len() - i,
        {
            let (producer, hinted_commit) = self.producers[i];
            upsert_producer(
                &mut producers,
                ProducerFrontier { producer, last_commit: Clock(0), hinted_commit, offset: 0 },
            );
            assert(self.producers@.take(i + 1).drop_last() =~= self.producers@.take(i as int));
            i += 1;
        }
        assert(self.producers@.take(self.producers@.len() as int) =~= self.producers@);
        JournalFrontier {
            binding: self.binding,
            journal: self.journal,
            producers,
            bytes_read_delta: 0,
            bytes_behind_delta: 0,
        }
    }
}

/// The progress of `reads`, by journal. A read without pending producers reports
/// nothing, and reads of one journal and binding reduce.
pub open spec fn reads_progress(reads: Seq<ReadModel>) -> Map<JournalKey, JournalModel>
    decreases reads.len(),
{
    if reads.len() == 0 {
        Map::empty()
    } else if reads.last().pending.is_empty() {
        reads_progress(reads.drop_last())
    } else {
        with_journal(reads_progress(reads.drop_last()), reads.last().key(), reads.last().progress())
    }
}

/// The progress of `hints`, by journal. Hints for one journal and binding reduce.
pub open spec fn hints_progress(hints: Seq<JournalHints>) -> Map<JournalKey, JournalModel>
    decreases hints.len(),
{
    if hints.len() == 0 {
        Map::empty()
    } else {
        with_journal(hints_progress(hints.drop_last()), hints.last().key(), hints.last().progress())
    }
}

/// What a flush reports of `reads` and `hints`.
pub open spec fn flush_progress(reads: Seq<ReadModel>, hints: Seq<JournalHints>) -> Map<
    JournalKey,
    JournalModel,
> {
    journals_reduced(reads_progress(reads), hints_progress(hints))
}

/// Every one of `reads` can be flushed.
pub open spec fn reads_flushable(reads: Seq<ReadModel>) -> bool {
    forall|i: int| 0 <= i < reads.len() ==> (#[trigger] reads[i]).flushable()
}

/// Build a [`Frontier`] by reducing the progress of `reads` with causal `hints`.
/// Pending producers of the reads settle.
///
/// Both inputs may arrive in arbitrary order. The frontier is sorted.
pub fn build_flush_frontier(
    reads: &mut Vec<ReadState>,
    hints: Vec<JournalHints>,
    shard_count: usize,
) -> (frontier: Frontier)
    requires
        reads_flushable(read_models(old(reads)@)),
    ensures
        frontier.valid(),
        frontier.map() == flush_progress(read_models(old(reads)@), hints@),
        frontier.flushed_lsn@ == Seq::new(shard_count as nat, |i: int| Lsn(0)),
        read_models(final(reads)@) == read_models(old(reads)@).map_values(
            |read: ReadModel| read.flushed(),
        ),
{
    let ghost before = read_models(reads@);
    let mut journals: Vec<JournalFrontier> = Vec::new();
    proof {
        assert(journal_keys(journals@) =~= seq![]);
        assert(journals_map(journals@) =~= Map::empty());
    }
    let mut i: usize = 0;
    while i < reads.len()
        invariant
            i <= before.len(),
            reads@.len() == before.len(),
            crate::frontier::journals_sorted(journals@),
            journals_map(journals@) == reads_progress(before.take(i as int)),
            forall|j: int| i <= j < before.len() ==> (#[trigger] reads@[j])@ == before[j],
            forall|j: int| 0 <= j < i ==> (#[trigger] reads@[j])@ == before[j].flushed(),
            reads_flushable(before),
        decreases before.len() - i,
    {
        assert(before[i as int].flushable());
        let read = &mut reads[i];
        let progress = read.take_progress();
        assert(before.take(i + 1).drop_last() =~= before.take(i as int));
        match progress {
            Some(journal) => {
                upsert_journal(&mut journals, journal);
            },
            None => {},
        }
        i += 1;
    }
    proof {
        assert(before.take(before.len() as int) =~= before);
        assert(read_models(reads@) =~= before.map_values(|read: ReadModel| read.flushed()));
    }
    let mut flushed_lsn: Vec<Lsn> = Vec::new();
    while flushed_lsn.len() < shard_count
        invariant
            flushed_lsn@.len() <= shard_count,
            forall|j: int| 0 <= j < flushed_lsn@.len() ==> #[trigger] flushed_lsn@[j] == Lsn(0),
        decreases shard_count - flushed_lsn@.len(),
    {
        flushed_lsn.push(Lsn(0));
    }
    let reads_frontier = Frontier::of_journals(journals, flushed_lsn);

    let ghost hinted = hints@;
    let mut hint_journals: Vec<JournalFrontier> = Vec::new();
    proof {
        assert(journal_keys(hint_journals@) =~= seq![]);
        assert(journals_map(hint_journals@) =~= Map::empty());
    }
    for hint in it: hints
        invariant
            it.seq() == hinted,
            crate::frontier::journals_sorted(hint_journals@),
            journals_map(hint_journals@) == hints_progress(hinted.take(it.index())),
    {
        assert(hinted.take(it.index() + 1).drop_last() =~= hinted.take(it.index()));
        upsert_journal(&mut hint_journals, hint.into_frontier());
    }
    assert(hinted.take(hinted.len() as int) =~= hinted);
    let hints_frontier = Frontier::of_journals(hint_journals, Vec::new());
    proof {
        assert(lsns_reduced(flushed_lsn@, seq![]) =~= Seq::new(
            shard_count as nat,
            |i: int| Lsn(0),
        ));
    }
    reads_frontier.reduce(hints_frontier)
}

} // verus!
