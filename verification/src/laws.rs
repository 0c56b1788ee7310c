//! Laws of gapped recovery, and of the Slice as a whole.

use crate::actor::ActorModel;
use crate::checkpoint::{
    checkpoint_valid, furthest, recovered_commit, recovered_gaps, recovered_state,
    recovered_states, skips, Gap,
};
use crate::drain::{head_step, HeadStep};
use crate::frontier::{
    at_or_beyond, magnitude, producers_reduced, ProducerFrontier, SPAN_AT_HEAD_MARKER,
};
use crate::gap::{drained, DrainEnd, IoModel};
use crate::heap::lemma_drain_inserts;
use crate::producer::{JournalHints, ProducerState};
use crate::read::{checkpoint_entries, checkpoint_entry, Meta, ReadModel, ReadyModel};
use crate::sequence::{
    gapped_outcome_of, outcome_of, settled_at, stepped, GappedOutcome, SequenceError,
    SequenceOutcome,
};
use crate::uuid::{Clock, Flags, Producer};
use vstd::prelude::*;

verus! {

// Restart resolution.

/// A read restarts at the furthest position of its checkpoint: no entry is beyond it,
/// and unless the checkpoint justifies none, some entry is at it.
pub proof fn restart_is_furthest(entries: Seq<ProducerFrontier>)
    ensures
        forall|i: int|
            0 <= i < entries.len() ==> magnitude((#[trigger] entries[i]).offset) <= furthest(
                entries,
            ),
        furthest(entries) == 0 || exists|i: int|
            0 <= i < entries.len() && magnitude((#[trigger] entries[i]).offset) == furthest(
                entries,
            ),
        furthest(entries) >= 0,
    decreases entries.len(),
{
    if entries.len() > 0 {
        let rest = entries.drop_last();
        restart_is_furthest(rest);
        assert forall|i: int| 0 <= i < entries.len() implies magnitude(
            (#[trigger] entries[i]).offset,
        ) <= furthest(entries) by {
            if i < rest.len() {
                assert(rest[i] == entries[i]);
            }
        }
        if furthest(rest) != 0 {
            let i = choose|i: int|
                0 <= i < rest.len() && magnitude((#[trigger] rest[i]).offset) == furthest(rest);
            assert(entries[i] == rest[i]);
        }
        assert(entries[entries.len() - 1] == entries.last());
    }
}

/// An entry of a checkpoint recovers as gapped exactly if it is of an uncommitted span
/// which begins before the restart. Its commit clock and its offset are retained. A span
/// which begins at the restart, and a committed entry, recover as normal, and no span
/// begins beyond the restart.
pub proof fn recovery_classifies(entries: Seq<ProducerFrontier>, i: int)
    requires
        checkpoint_valid(entries),
        0 <= i < entries.len(),
        entries[i].last_commit.0 < u64::MAX,
    ensures
        entries[i].offset <= furthest(entries),
        ({
            let state = recovered_state(entries[i], furthest(entries));
            &&& state.is_gapped() <==> 0 <= entries[i].offset < furthest(entries)
            &&& state.last_commit == recovered_commit(entries[i])
            &&& state.offset == entries[i].offset
            &&& !state.is_gapped() ==> state.max_continue == Clock(0)
        }),
{
    restart_is_furthest(entries);
    assert(entries[i].valid());
}

/// Every producer of a checkpoint is recovered, from its own entry.
pub proof fn every_producer_is_recovered(entries: Seq<ProducerFrontier>, start: int, i: int)
    requires
        forall|a: int, b: int|
            0 <= a < b < entries.len() ==> entries[a].producer != entries[b].producer,
        0 <= i < entries.len(),
    ensures
        recovered_states(entries, start).contains_key(entries[i].producer.0),
        recovered_states(entries, start)[entries[i].producer.0] == recovered_state(
            entries[i],
            start,
        ),
    decreases entries.len(),
{
    if i < entries.len() - 1 {
        let rest = entries.drop_last();
        assert forall|a: int, b: int| 0 <= a < b < rest.len() implies rest[a].producer
            != rest[b].producer by {
            assert(entries[a].producer != entries[b].producer);
        }
        every_producer_is_recovered(rest, start, i);
        assert(entries[i].producer != entries[entries.len() - 1].producer);
    }
}

/// Exactly the producers which a restart skips are reported as gaps, with the begins of
/// their spans.
pub proof fn gaps_are_reported(entries: Seq<ProducerFrontier>, start: int, gap: Gap)
    ensures
        recovered_gaps(entries, start).contains(gap) <==> exists|i: int|
            0 <= i < entries.len() && skips(#[trigger] entries[i], start) && gap == (Gap {
                producer: entries[i].producer,
                begin: entries[i].offset,
            }),
    decreases entries.len(),
{
    if entries.len() > 0 {
        let rest = entries.drop_last();
        let before = recovered_gaps(rest, start);
        let after = recovered_gaps(entries, start);
        gaps_are_reported(rest, start, gap);
        let last = Gap { producer: entries.last().producer, begin: entries.last().offset };
        if skips(entries.last(), start) {
            assert(after == before.push(last));
            assert(after[before.len() as int] == last);
            if before.contains(gap) {
                let j = choose|j: int| 0 <= j < before.len() && before[j] == gap;
                assert(after[j] == gap);
            }
        }
        if before.contains(gap) {
            let i = choose|i: int|
                0 <= i < rest.len() && skips(#[trigger] rest[i], start) && gap == (Gap {
                    producer: rest[i].producer,
                    begin: rest[i].offset,
                });
            assert(entries[i] == rest[i]);
        }
        if exists|i: int|
            0 <= i < entries.len() && skips(#[trigger] entries[i], start) && gap == (Gap {
                producer: entries[i].producer,
                begin: entries[i].offset,
            }) {
            let i = choose|i: int|
                0 <= i < entries.len() && skips(#[trigger] entries[i], start) && gap == (Gap {
                    producer: entries[i].producer,
                    begin: entries[i].offset,
                });
            if i < rest.len() {
                assert(rest[i] == entries[i]);
            } else {
                assert(entries[i] == entries.last());
            }
        }
    }
}

/// The historical range of a backfill is never empty: the span of a gapped producer
/// begins before the position from which its trigger was read.
pub proof fn backfill_range_is_not_empty(entry: ProducerFrontier, start: int, meta: Meta)
    requires
        entry.last_commit.0 < u64::MAX,
        start <= meta.begin_offset,
        recovered_state(entry, start).is_gapped(),
    ensures
        head_step(recovered_state(entry, start), meta) matches Ok(HeadStep::Trigger { gap_begin })
            ==> 0 <= gap_begin < meta.begin_offset,
{
}

// The gapped state.

/// A newer document of a gapped producer is never skipped. A CONTINUE or ACK triggers a
/// backfill from the begin of the producer's span, and an OUTSIDE is appended and
/// commits.
pub proof fn newer_documents_resolve_gaps(state: ProducerState, meta: Meta)
    requires
        state.is_gapped(),
        meta.clock.0 > state.last_commit.0,
    ensures
        meta.flags != Flags::OutsideTxn ==> head_step(state, meta) == Ok::<
            HeadStep,
            SequenceError,
        >(HeadStep::Trigger { gap_begin: state.offset }),
        meta.flags == Flags::OutsideTxn ==> (head_step(state, meta) matches Ok(
            HeadStep::Sequence { sequenced, resolves_gap },
        ) && resolves_gap && sequenced.is_append && sequenced.is_commit
            && sequenced.producer_state == settled_at(meta.clock, meta.end_offset)),
{
}

/// A duplicate of a gapped producer leaves all of its read as it is, but for the
/// position of the main read: nothing of the producer is to be flushed.
pub proof fn gapped_producers_are_frozen<D>(
    m: ActorModel<D>,
    hints: Seq<JournalHints>,
)
    requires
        m.valid(),
        m.heap.len() > 0,
        m.head_state().is_gapped(),
        m.head().clock.0 <= m.head_state().last_commit.0,
        m.head().flags != Flags::AckTxn,
    ensures
        m.step_of_head() == Ok::<HeadStep, SequenceError>(HeadStep::Drop),
        m.consumed(HeadStep::Drop, hints).reads == m.reads.update(
            m.heap[0].ready.read as int,
            m.head_read().progressed_to(m.head().end_offset),
        ),
        m.consumed(HeadStep::Drop, hints).flush == m.flush,
        m.consumed(HeadStep::Drop, hints).causal_hints == m.causal_hints,
{
}

/// A trigger reinstates exactly what the checkpoint records of its producer, so that a
/// flush which carries it changes nothing durable. The gap is cleared, so that the
/// trigger does not trigger again.
pub proof fn trigger_installs_the_recovered_span<D>(m: ActorModel<D>, started_at: u64)
    requires
        m.valid(),
        m.heap.len() > 0,
        m.head_state().is_gapped(),
        m.head_state().last_commit.0 < u64::MAX,
    ensures
        ({
            let id = m.heap[0].ready.read as int;
            let state = m.triggered(started_at).reads[id].producer_state(m.head().producer);
            &&& checkpoint_entry(m.head().producer.0, state) == checkpoint_entry(
                m.head().producer.0,
                m.head_state(),
            )
            &&& !state.is_gapped()
        }),
{
    assert(m.entry_valid(m.heap[0]));
}

// Backfills.

/// Draining a backfill never commits: it changes nothing of its read but the pending
/// state of its target, whose last commit it keeps. Positions of the main read are
/// untouched, and so is every other producer.
pub proof fn backfill_keeps_the_main_read<D>(read: ReadModel, target: Producer, io: IoModel<D>)
    ensures
        ({
            let after = drained(read, target, io).read;
            let state = after.producer_state(target);
            &&& state == read.producer_state(target)
            &&& after == (ReadModel { pending: after.pending, ..read })
            &&& forall|p: Producer|
                p != target ==> #[trigger] after.producer_state(p) == read.producer_state(p)
        }),
    decreases io.metas().len(),
{
    if io.metas().len() > 0 {
        let meta = io.metas()[0];
        if meta.producer != target {
            backfill_keeps_the_main_read(read, target, io.advanced());
        } else {
            match stepped(read.producer_state(target), meta) {
                Ok(sequenced) => {
                    if !sequenced.is_commit && !sequenced.is_append {
                        let next = read.with_producer(target, sequenced.producer_state);
                        backfill_keeps_the_main_read(next, target, io.advanced());
                        assert forall|p: Producer| p != target implies #[trigger] drained(
                            read,
                            target,
                            io,
                        ).read.producer_state(p) == read.producer_state(p) by {
                            assert(next.producer_state(p) == read.producer_state(p));
                        }
                    }
                },
                Err(_) => {},
            }
        }
    }
}

/// An appended document of a backfill extends or begins the open span of its target. It
/// commits nothing, and its read's positions are untouched.
pub proof fn backfill_appends_to_the_open_span<D>(m: ActorModel<D>, k: int)
    requires
        m.valid(),
        m.append_due(k),
    ensures
        ({
            let meta = m.parked[k].io.metas()[0];
            let next = m.appended(k);
            &&& next.target_state(k).last_commit == m.target_state(k).last_commit
            &&& next.target_state(k).max_continue == meta.clock
            &&& next.target_state(k).offset == if m.target_state(k).max_continue.0 == 0 {
                meta.begin_offset
            } else {
                m.target_state(k).offset
            }
            &&& meta.flags == Flags::ContinueTxn
            &&& next.flush == m.flush && next.causal_hints == m.causal_hints
            &&& next.heap == m.heap
            &&& next.parked_read(k) == (ReadModel {
                pending: next.parked_read(k).pending,
                ..m.parked_read(k)
            })
        }),
{
    assert(m.parked_valid(m.parked[k]));
}

/// A commit of the target within the historical range is always an error.
pub proof fn commit_within_backfill_is_an_error<D>(m: ActorModel<D>, k: int)
    requires
        m.drains(k),
        m.parked[k].io.metas().len() > 0,
        m.parked[k].io.metas()[0].producer == m.parked[k].target,
        stepped(m.target_state(k), m.parked[k].io.metas()[0]) matches Ok(s) && s.is_commit,
    ensures
        m.drain_end(k) is Commit,
{
}

/// Documents of other producers are skipped, whatever they are.
pub proof fn backfill_skips_other_producers<D>(read: ReadModel, target: Producer, io: IoModel<D>)
    requires
        io.metas().len() > 0,
        io.metas()[0].producer != target,
    ensures
        drained(read, target, io) == drained(read, target, io.advanced()),
{
}

/// A historical document of a clock at or below that of its trigger is of the same
/// priority, and is due once the trigger is: ordering and delaying it would do nothing.
pub proof fn backfilled_documents_are_due<D>(
    m: ActorModel<D>,
    historical: ReadyModel<D>,
    trigger: ReadyModel<D>,
)
    requires
        m.ready_valid(historical),
        m.ready_valid(trigger),
        historical.read == trigger.read,
        historical.metas[0].clock.0 <= trigger.metas[0].clock.0,
    ensures
        m.entry_of(historical).priority == m.entry_of(trigger).priority,
        m.entry_of(historical).adjusted_clock.0 <= m.entry_of(trigger).adjusted_clock.0,
{
    assert(historical.metas[0].clock.0 + m.binding(historical.read).read_delay.0 <= u64::MAX);
    assert(trigger.metas[0].clock.0 + m.binding(trigger.read).read_delay.0 <= u64::MAX);
}

/// Completion re-presents the trigger, with all that follows it in its journal, and
/// leaves reads, positions and flushes as they are.
pub proof fn completion_represents_the_trigger<D>(m: ActorModel<D>, k: int)
    requires
        m.valid(),
        0 <= k < m.parked.len(),
    ensures
        ({
            let ready = m.parked[k].ready;
            let next = m.unparked(k).pushed(ready);
            &&& next.heap.contains(m.entry_of(ready))
            &&& next.reads == m.reads
            &&& next.flush == m.flush
            &&& next.parked == m.parked.remove(k)
        }),
{
    let next = m.unparked(k).pushed(m.parked[k].ready);
    let entry = m.entry_of(m.parked[k].ready);
    assert(m.unparked(k).binding(m.parked[k].ready.read) == m.binding(m.parked[k].ready.read));
    assert(m.unparked(k).entry_of(m.parked[k].ready) == entry);
    let at = lemma_drain_inserts(m.heap, entry);
    assert(next.heap[at] == entry);
}

/// Once its producer is no longer gapped, a trigger is sequenced as any document. An ACK
/// commits the reconstructed span, and a CONTINUE extends it: or begins it, if the
/// backfill found nothing.
pub proof fn trigger_is_sequenced_after_backfill(state: ProducerState, trigger: Meta)
    requires
        !state.is_gapped(),
        trigger.clock.0 > state.last_commit.0,
        trigger.clock.0 > state.max_continue.0,
        trigger.flags != Flags::OutsideTxn,
    ensures
        head_step(state, trigger) matches Ok(HeadStep::Sequence { sequenced, resolves_gap }) && {
            &&& !resolves_gap
            &&& trigger.flags == Flags::AckTxn ==> {
                &&& sequenced.is_commit && !sequenced.is_append
                &&& sequenced.producer_state == settled_at(trigger.clock, trigger.end_offset)
            }
            &&& trigger.flags == Flags::ContinueTxn ==> {
                &&& sequenced.is_append && !sequenced.is_commit
                &&& sequenced.producer_state == (ProducerState {
                    last_commit: state.last_commit,
                    max_continue: trigger.clock,
                    offset: if state.max_continue.0 == 0 {
                        trigger.begin_offset
                    } else {
                        state.offset
                    },
                })
            }
        },
{
}

// Durability.

/// A rollback replaces the begin of a gapped span, which the ACK follows, by a committed
/// end. The gap does not return, wherever a later read restarts. The reduced commit
/// clock stays monotonic.
pub proof fn rollback_is_durable(base: ProducerFrontier, ack: Meta, start: int)
    requires
        0 <= base.offset < ack.end_offset,
    ensures
        ({
            let entry = checkpoint_entry(
                base.producer.0,
                settled_at(ack.clock, ack.end_offset),
            );
            let reduced = base.reduced(entry);
            &&& reduced.offset == -ack.end_offset
            &&& !skips(reduced, start)
            &&& reduced.last_commit.0 >= base.last_commit.0
        }),
{
}

/// An ACK at or below the last commit of a gapped producer rolls its span back without
/// historical I/O: its producer is settled at the ACK, and a flush is due.
pub proof fn rollback_resolves_the_gap<D>(m: ActorModel<D>, hints: Seq<JournalHints>)
    requires
        m.valid(),
        m.heap.len() > 0,
        m.head_state().is_gapped(),
        m.head().clock.0 <= m.head_state().last_commit.0,
        m.head().clock.0 < u64::MAX,
        m.head().flags == Flags::AckTxn,
    ensures
        ({
            let deep = m.head().clock.0 < m.head_state().last_commit.0;
            let step = HeadStep::Rollback { deep };
            let next = m.consumed(step, hints);
            let state = next.reads[m.heap[0].ready.read as int].producer_state(m.head().producer);
            &&& m.step_of_head() == Ok::<HeadStep, SequenceError>(step)
            &&& state == settled_at(m.head().clock, m.head().end_offset)
            &&& !state.is_gapped()
            &&& next.flush.ready
            &&& next.causal_hints == m.causal_hints + hints
            &&& next.parked == m.parked
        }),
{
    assert(m.entry_valid(m.heap[0]));
}

/// Offsets of a producer only advance, as its documents are sequenced in journal order.
pub proof fn offsets_only_advance(state: ProducerState, meta: Meta)
    requires
        magnitude(state.offset) <= meta.begin_offset < meta.end_offset,
    ensures
        stepped(state, meta) matches Ok(sequenced) ==> {
            &&& at_or_beyond(sequenced.producer_state.offset, state.offset)
            &&& magnitude(sequenced.producer_state.offset) <= meta.end_offset
        },
{
}

/// Whether a read which recovers from `entry` knows of its producer what `state` does.
pub open spec fn reflects(entry: ProducerFrontier, state: ProducerState) -> bool {
    entry.offset == state.offset && recovered_commit(entry) == state.last_commit
}

/// Recovery restores the commit clock and the offset which a flush recorded. The one
/// state that it cannot tell apart is of a commit at the clock of the head marker.
pub proof fn recovery_restores_flushed_states(producer: Producer, state: ProducerState, start: int)
    requires
        !(state.offset == 0 && state.last_commit.0 == SPAN_AT_HEAD_MARKER),
    ensures
        reflects(checkpoint_entry(producer.0, state), state),
        ({
            let recovered = recovered_state(checkpoint_entry(producer.0, state), start);
            &&& recovered.last_commit == state.last_commit
            &&& recovered.offset == state.offset
        }),
{
}

/// Whether `metas` are in the order of their journal, from the offset `from` on.
pub open spec fn in_journal_order(metas: Seq<Meta>, from: int) -> bool {
    &&& forall|i: int|
        0 <= i < metas.len() ==> from <= (#[trigger] metas[i]).begin_offset < metas[i].end_offset
    &&& forall|i: int, j: int|
        0 <= i < j < metas.len() ==> metas[i].end_offset <= metas[j].begin_offset
}

/// The offset of a producer only advances over any number of its documents, and never
/// beyond the last of them.
pub proof fn offsets_only_advance_over_runs(state: ProducerState, metas: Seq<Meta>)
    requires
        in_journal_order(metas, magnitude(state.offset)),
    ensures
        run(state, metas) matches Ok(after) ==> {
            &&& at_or_beyond(after.state.offset, state.offset)
            &&& magnitude(after.state.offset) <= if metas.len() == 0 {
                magnitude(state.offset)
            } else {
                metas.last().end_offset as int
            }
        },
    decreases metas.len(),
{
    if metas.len() > 0 {
        let rest = metas.drop_last();
        assert forall|i: int| 0 <= i < rest.len() implies magnitude(state.offset) <= (
        #[trigger] rest[i]).begin_offset < rest[i].end_offset by {
            assert(rest[i] == metas[i]);
        }
        offsets_only_advance_over_runs(state, rest);
        match run(state, rest) {
            Ok(before) => {
                if rest.len() > 0 {
                    assert(rest.last() == metas[rest.len() - 1]);
                    assert(metas[rest.len() - 1].end_offset <= metas[rest.len() as int].begin_offset);
                }
                offsets_only_advance(before.state, metas.last());
            },
            Err(_) => {},
        }
    }
}

/// A checkpoint follows its producers: one which reflects a producer, and into which a
/// flush is reduced after any number of the producer's documents, reflects the state that
/// they lead to.
///
/// Rollbacks below the last commit are left out, after which the reduced commit clock
/// stays monotonic. So is a commit at the clock of the head marker, and a span at the
/// journal's head which ends without a commit: its marker is retained as a clock.
pub proof fn checkpoints_follow_producers(
    entry: ProducerFrontier,
    state: ProducerState,
    metas: Seq<Meta>,
)
    requires
        reflects(entry, state),
        in_journal_order(metas, magnitude(state.offset)),
        run(state, metas) matches Ok(after) && {
            &&& after.state.last_commit.0 >= state.last_commit.0
            &&& after.state.offset == 0 || after.state.last_commit.0 >= entry.last_commit.0
            &&& !(after.state.offset == 0 && after.state.last_commit.0 == SPAN_AT_HEAD_MARKER)
        },
    ensures
        ({
            let after = run(state, metas)->Ok_0.state;
            reflects(entry.reduced(checkpoint_entry(entry.producer.0, after)), after)
        }),
{
    offsets_only_advance_over_runs(state, metas);
}

/// Whether `base` holds an entry of every producer that a read knows of, and each of its
/// entries reflects what the read knows. Of other producers it may hold hints.
pub open spec fn is_closed(base: Map<u64, ProducerFrontier>, read: ReadModel) -> bool {
    &&& forall|p: u64| #[trigger] read.knows(p) ==> base.contains_key(p)
    &&& forall|p: u64| #[trigger]
        base.contains_key(p) ==> base[p].producer.0 == p && reflects(
            base[p],
            read.producer_state(Producer(p)),
        )
}

/// The documents of `metas`, of any producers, sequenced by a read one after another.
pub open spec fn sequenced_by(read: ReadModel, metas: Seq<Meta>) -> Result<
    ReadModel,
    SequenceError,
>
    decreases metas.len(),
{
    if metas.len() == 0 {
        Ok(read)
    } else {
        match sequenced_by(read, metas.drop_last()) {
            Ok(before) => match stepped(
                before.producer_state(metas.last().producer),
                metas.last(),
            ) {
                Ok(sequenced) => Ok(
                    before.with_producer(metas.last().producer, sequenced.producer_state),
                ),
                Err(error) => Err(error),
            },
            Err(error) => Err(error),
        }
    }
}

/// Sequencing documents of many producers sequences those of each on their own.
proof fn lemma_sequenced_by(read: ReadModel, metas: Seq<Meta>, producer: Producer)
    requires
        sequenced_by(read, metas) is Ok,
    ensures
        run(read.producer_state(producer), documents_of(metas, producer)) matches Ok(after)
            && after.state == sequenced_by(read, metas)->Ok_0.producer_state(producer),
        sequenced_by(read, metas)->Ok_0.settled == read.settled,
        sequenced_by(read, metas)->Ok_0.pending.contains_key(producer.0)
            <==> read.pending.contains_key(producer.0) || documents_of(metas, producer).len() > 0,
    decreases metas.len(),
{
    if metas.len() > 0 {
        let rest = metas.drop_last();
        lemma_sequenced_by(read, rest, producer);
        lemma_documents_of_last(metas, producer);
        let before = documents_of(rest, producer);
        if metas.last().producer == producer {
            assert(before.push(metas.last()).drop_last() =~= before);
        }
    }
}

proof fn lemma_documents_of_last(metas: Seq<Meta>, producer: Producer)
    requires
        metas.len() > 0,
    ensures
        documents_of(metas, producer) == if metas.last().producer == producer {
            documents_of(metas.drop_last(), producer).push(metas.last())
        } else {
            documents_of(metas.drop_last(), producer)
        },
    decreases metas.len(),
{
    let rest = metas.drop_last();
    if metas.len() == 1 {
        assert(metas.drop_first() =~= seq![]);
        assert(rest =~= seq![]);
        assert(seq![metas[0]] + Seq::<Meta>::empty() =~= Seq::<Meta>::empty().push(metas[0]));
    } else {
        lemma_documents_of_last(metas.drop_first(), producer);
        assert(metas.drop_first().drop_last() =~= rest.drop_first());
        let inner = documents_of(rest.drop_first(), producer);
        assert((seq![metas[0]] + inner).push(metas.last()) =~= seq![metas[0]] + inner.push(
            metas.last(),
        ));
    }
}

/// Documents of one producer are in journal order if all are.
proof fn lemma_documents_in_order(metas: Seq<Meta>, producer: Producer, from: int)
    requires
        in_journal_order(metas, from),
    ensures
        in_journal_order(documents_of(metas, producer), from),
        documents_of(metas, producer).len() > 0 ==> metas.len() > 0 && documents_of(
            metas,
            producer,
        ).last().end_offset <= metas.last().end_offset,
    decreases metas.len(),
{
    if metas.len() > 0 {
        let rest = metas.drop_last();
        assert forall|i: int| 0 <= i < rest.len() implies from <= (
        #[trigger] rest[i]).begin_offset < rest[i].end_offset by {
            assert(rest[i] == metas[i]);
        }
        lemma_documents_in_order(rest, producer, from);
        lemma_documents_of_last(metas, producer);
        let before = documents_of(rest, producer);
        let after = documents_of(metas, producer);
        if rest.len() > 0 {
            assert(rest.last() == metas[rest.len() - 1]);
            assert(metas[rest.len() - 1].end_offset <= metas[rest.len() as int].begin_offset);
        }
        if metas.last().producer == producer {
            assert(metas[metas.len() - 1] == metas.last());
            assert forall|i: int, j: int| 0 <= i < j < after.len() implies after[i].end_offset
                <= after[j].begin_offset by {
                if j == before.len() {
                    assert(after[i] == before[i]);
                    if i < before.len() - 1 {
                        assert(before[i].end_offset <= before[before.len() - 1].begin_offset);
                    }
                } else {
                    assert(before[i].end_offset <= before[j].begin_offset);
                }
            }
        }
    }
}

/// A checkpoint is closed over every document that its read sequenced: once a flush is
/// reduced into it, it holds an entry of every producer that the read knows of, and each
/// reflects all of the producer's documents. It is closed again over the flushed read, and
/// so over all flushes to come. This is what makes a restart at its furthest position safe.
///
/// Of each producer, what [`checkpoints_follow_producers`] leaves out is left out.
pub proof fn checkpoints_are_closed(
    base: Map<u64, ProducerFrontier>,
    read: ReadModel,
    metas: Seq<Meta>,
    from: int,
)
    requires
        is_closed(base, read),
        read.pending.is_empty(),
        in_journal_order(metas, from),
        forall|p: Producer| magnitude((#[trigger] read.producer_state(p)).offset) <= from,
        sequenced_by(read, metas) matches Ok(after) && forall|p: u64| #[trigger]
            after.pending.contains_key(p) ==> {
                let state = after.pending[p];
                &&& state.last_commit.0 >= read.producer_state(Producer(p)).last_commit.0
                &&& base.contains_key(p) ==> state.offset == 0 || state.last_commit.0
                    >= base[p].last_commit.0
                &&& !(state.offset == 0 && state.last_commit.0 == SPAN_AT_HEAD_MARKER)
            },
    ensures
        ({
            let after = sequenced_by(read, metas)->Ok_0;
            let next = producers_reduced(base, checkpoint_entries(after.pending));
            is_closed(next, after) && is_closed(next, after.flushed())
        }),
{
    let after = sequenced_by(read, metas)->Ok_0;
    let next = producers_reduced(base, checkpoint_entries(after.pending));
    assert forall|p: u64| #[trigger] after.knows(p) implies next.contains_key(p) by {
        lemma_sequenced_by(read, metas, Producer(p));
        if after.settled.contains_key(p) {
            assert(read.knows(p));
        }
    }
    assert forall|p: u64| #[trigger] next.contains_key(p) implies next[p].producer.0 == p
        && reflects(next[p], after.producer_state(Producer(p))) by {
        let producer = Producer(p);
        let state = read.producer_state(producer);
        let documents = documents_of(metas, producer);
        lemma_sequenced_by(read, metas, producer);
        lemma_documents_in_order(metas, producer, from);
        assert(in_journal_order(documents, magnitude(state.offset)));
        if base.contains_key(p) {
            if after.pending.contains_key(p) {
                checkpoints_follow_producers(base[p], state, documents);
            } else {
                assert(documents.len() == 0);
            }
        }
    }
    assert forall|p: u64| #[trigger] after.flushed().knows(p) implies next.contains_key(p) by {
        assert(after.knows(p));
    }
    assert forall|p: u64| #[trigger] next.contains_key(p) implies next[p].producer.0 == p
        && reflects(next[p], after.flushed().producer_state(Producer(p))) by {
        flushes_keep_producer_states(after, Producer(p));
    }
}

/// Recovery from a closed checkpoint restores what the read before it knew of each producer:
/// its commit clock, and its offset, which is at or below the restart. The producer is
/// gapped exactly if that is of a span which begins before the restart.
pub proof fn closed_checkpoints_recover_every_producer(
    base: Map<u64, ProducerFrontier>,
    read: ReadModel,
    entries: Seq<ProducerFrontier>,
    i: int,
)
    requires
        is_closed(base, read),
        checkpoint_valid(entries),
        0 <= i < entries.len(),
        base.contains_key(entries[i].producer.0),
        base[entries[i].producer.0] == entries[i],
        entries[i].last_commit.0 < u64::MAX,
    ensures
        ({
            let known = read.producer_state(entries[i].producer);
            let recovered = recovered_state(entries[i], furthest(entries));
            &&& recovered.last_commit == known.last_commit
            &&& recovered.offset == known.offset
            &&& magnitude(known.offset) <= furthest(entries)
            &&& recovered.is_gapped() <==> 0 <= known.offset < furthest(entries)
        }),
{
    restart_is_furthest(entries);
    recovery_classifies(entries, i);
    assert(reflects(entries[i], read.producer_state(Producer(entries[i].producer.0))));
}

// Sequencing.

/// The sentinel of a gapped producer stands for a pending span. So the producer protocol
/// itself agrees with the outcomes of a gapped producer: a trigger would extend or commit
/// the span, a rollback would roll it back, and a duplicate would do nothing. An OUTSIDE
/// is left out, as is a CONTINUE at the clock of the sentinel, which no producer writes.
pub proof fn sentinel_stands_for_a_pending_span(state: ProducerState, meta: Meta)
    requires
        state.is_gapped(),
        state.last_commit.0 < u64::MAX,
        meta.flags != Flags::OutsideTxn,
        meta.flags == Flags::ContinueTxn ==> meta.clock != state.max_continue,
    ensures
        match gapped_outcome_of(state.last_commit, meta) {
            GappedOutcome::TriggerBackfill => outcome_of(state, meta) == Ok::<_, SequenceError>(
                if meta.flags == Flags::AckTxn {
                    SequenceOutcome::AckCommit
                } else {
                    SequenceOutcome::ContinueExtendSpan
                },
            ),
            GappedOutcome::CleanRollback => outcome_of(state, meta) == Ok::<_, SequenceError>(
                SequenceOutcome::AckCleanRollback,
            ),
            GappedOutcome::DeepRollback => outcome_of(state, meta) == Ok::<_, SequenceError>(
                SequenceOutcome::AckDeepRollback,
            ),
            GappedOutcome::Drop => outcome_of(state, meta) == Ok::<_, SequenceError>(
                SequenceOutcome::ContinueDuplicate,
            ),
            GappedOutcome::OutsideResolve => false,
        },
{
}

/// No document leads a producer into the gapped state, which arises only in recovery. Left
/// out are a CONTINUE at the clock of the sentinel, as a producer's CONTINUE follows its
/// last commit by more than a tick, and the greatest clock of all, which has no successor.
pub proof fn producers_are_gapped_only_in_recovery(state: ProducerState, meta: Meta)
    requires
        !state.is_gapped(),
        meta.flags == Flags::ContinueTxn ==> meta.clock.0 != state.last_commit.0 + 1,
        meta.clock.0 < u64::MAX,
    ensures
        stepped(state, meta) matches Ok(sequenced) ==> !sequenced.producer_state.is_gapped(),
{
}

/// The greatest clock that a producer in `state` is known to have written.
pub open spec fn high_water(state: ProducerState) -> u64 {
    if state.last_commit.0 >= state.max_continue.0 {
        state.last_commit.0
    } else {
        state.max_continue.0
    }
}

/// Documents of one producer, sequenced one after another.
pub struct Run {
    pub state: ProducerState,
    /// Clocks of the documents which were appended, in order.
    pub appended: Seq<Clock>,
}

/// Sequence `metas`, of one producer, from `state`.
pub open spec fn run(state: ProducerState, metas: Seq<Meta>) -> Result<Run, SequenceError>
    decreases metas.len(),
{
    if metas.len() == 0 {
        Ok(Run { state, appended: seq![] })
    } else {
        match run(state, metas.drop_last()) {
            Ok(before) => match stepped(before.state, metas.last()) {
                Ok(sequenced) => Ok(
                    Run {
                        state: sequenced.producer_state,
                        appended: if sequenced.is_append {
                            before.appended.push(metas.last().clock)
                        } else {
                            before.appended
                        },
                    },
                ),
                Err(error) => Err(error),
            },
            Err(error) => Err(error),
        }
    }
}

/// Whether every ACK of `metas` that settles a transaction does so at or beyond all of
/// its producer's documents before it: it is not a rollback.
pub open spec fn without_rollback(state: ProducerState, metas: Seq<Meta>) -> bool
    decreases metas.len(),
{
    metas.len() == 0 || {
        &&& without_rollback(state, metas.drop_last())
        &&& run(state, metas.drop_last()) matches Ok(before) ==> metas.last().flags
            == Flags::AckTxn && outcome_of(before.state, metas.last()) != Ok::<
            SequenceOutcome,
            SequenceError,
        >(SequenceOutcome::AckDuplicate) ==> metas.last().clock.0 >= high_water(before.state)
    }
}

/// Whether `clocks` ascend strictly.
pub open spec fn ascends(clocks: Seq<Clock>) -> bool {
    forall|i: int, j: int| 0 <= i < j < clocks.len() ==> clocks[i].0 < clocks[j].0
}

/// Clocks of the appended documents of a producer ascend strictly, from its greatest
/// clock before, up to its greatest clock after. So none is appended twice.
pub proof fn producer_order_is_strict(state: ProducerState, metas: Seq<Meta>)
    requires
        without_rollback(state, metas),
    ensures
        run(state, metas) matches Ok(after) ==> {
            &&& high_water(state) <= high_water(after.state)
            &&& forall|i: int|
                0 <= i < after.appended.len() ==> high_water(state) < (
                #[trigger] after.appended[i]).0 <= high_water(after.state)
            &&& ascends(after.appended)
        },
    decreases metas.len(),
{
    if metas.len() > 0 {
        producer_order_is_strict(state, metas.drop_last());
    }
}

/// Sequencing two stretches of documents, such as those of a backfill and those which
/// follow its trigger, is sequencing them as one.
pub proof fn runs_compose(state: ProducerState, a: Seq<Meta>, b: Seq<Meta>)
    ensures
        match run(state, a) {
            Err(error) => run(state, a + b) is Err,
            Ok(first) => match run(first.state, b) {
                Err(error) => run(state, a + b) is Err,
                Ok(second) => run(state, a + b) == Ok::<Run, SequenceError>(
                    Run { state: second.state, appended: first.appended + second.appended },
                ),
            },
        },
    decreases b.len(),
{
    if b.len() == 0 {
        assert(a + b =~= a);
        match run(state, a) {
            Ok(first) => {
                assert(first.appended + Seq::<Clock>::empty() =~= first.appended);
            },
            Err(_) => {},
        }
    } else {
        assert((a + b).drop_last() =~= a + b.drop_last());
        assert((a + b).last() == b.last());
        runs_compose(state, a, b.drop_last());
        match run(state, a) {
            Ok(first) => match run(first.state, b.drop_last()) {
                Ok(second) => {
                    assert(first.appended + second.appended.push(b.last().clock) =~= (
                    first.appended + second.appended).push(b.last().clock));
                },
                Err(_) => {},
            },
            Err(_) => {},
        }
    }
}

/// The documents of `metas` which are of `producer`.
pub open spec fn documents_of(metas: Seq<Meta>, producer: Producer) -> Seq<Meta>
    decreases metas.len(),
{
    if metas.len() == 0 {
        seq![]
    } else {
        let rest = documents_of(metas.drop_first(), producer);
        if metas[0].producer == producer {
            seq![metas[0]] + rest
        } else {
            rest
        }
    }
}

/// A batch of a backfill which was drained to its end, and appended.
#[verifier::ext_equal]
pub struct Delivered {
    pub read: ReadModel,
    /// Clocks of the documents which were appended, in order.
    pub appended: Seq<Clock>,
}

/// The whole of draining and appending the batch of `io`, of a backfill of `target` over
/// a read, unless it fails.
pub open spec fn delivered<D>(read: ReadModel, target: Producer, io: IoModel<D>) -> Option<
    Delivered,
>
    decreases io.metas().len(),
{
    if io.metas().len() == 0 {
        Some(Delivered { read, appended: seq![] })
    } else {
        let meta = io.metas()[0];
        if meta.producer != target {
            delivered(read, target, io.advanced())
        } else {
            match stepped(read.producer_state(target), meta) {
                Err(_) => None,
                Ok(sequenced) => if sequenced.is_commit {
                    None
                } else {
                    match delivered(
                        read.with_producer(target, sequenced.producer_state),
                        target,
                        io.advanced(),
                    ) {
                        None => None,
                        Some(rest) => Some(
                            Delivered {
                                read: rest.read,
                                appended: if sequenced.is_append {
                                    seq![meta.clock] + rest.appended
                                } else {
                                    rest.appended
                                },
                            },
                        ),
                    }
                },
            }
        }
    }
}

/// Draining a batch up to each document that is to be appended, and then past it, again
/// and again until its end, is draining all of it.
pub proof fn draining_resumes_after_each_append<D>(
    read: ReadModel,
    target: Producer,
    io: IoModel<D>,
)
    ensures
        ({
            let at = drained(read, target, io);
            match at.end {
                DrainEnd::Drained => delivered(read, target, io) == Some(
                    Delivered { read: at.read, appended: seq![] },
                ),
                DrainEnd::Append => {
                    let meta = at.io.metas()[0];
                    let state = stepped(at.read.producer_state(target), meta)->Ok_0.producer_state;
                    let rest = delivered(
                        at.read.with_producer(target, state),
                        target,
                        at.io.advanced(),
                    );
                    match delivered(read, target, io) {
                        None => rest is None,
                        Some(all) => rest matches Some(rest) && all == (Delivered {
                            read: rest.read,
                            appended: seq![meta.clock] + rest.appended,
                        }),
                    }
                },
                _ => delivered(read, target, io) is None,
            }
        }),
    decreases io.metas().len(),
{
    if io.metas().len() > 0 {
        let meta = io.metas()[0];
        if meta.producer != target {
            draining_resumes_after_each_append(read, target, io.advanced());
        } else {
            match stepped(read.producer_state(target), meta) {
                Ok(sequenced) => {
                    if !sequenced.is_commit && !sequenced.is_append {
                        draining_resumes_after_each_append(
                            read.with_producer(target, sequenced.producer_state),
                            target,
                            io.advanced(),
                        );
                    }
                },
                Err(_) => {},
            }
        }
    }
}

/// A backfill delivers the span of its target: it appends exactly what sequencing the
/// target's documents, one after another, appends. It leaves the producer in that state.
pub proof fn backfill_delivers_the_span<D>(read: ReadModel, target: Producer, io: IoModel<D>)
    ensures
        delivered(read, target, io) matches Some(all) ==> run(
            read.producer_state(target),
            documents_of(io.metas(), target),
        ) == Ok::<Run, SequenceError>(
            Run { state: all.read.producer_state(target), appended: all.appended },
        ),
    decreases io.metas().len(),
{
    if io.metas().len() > 0 {
        let meta = io.metas()[0];
        assert(io.advanced().metas() =~= io.metas().drop_first());
        let rest = documents_of(io.advanced().metas(), target);
        if meta.producer != target {
            backfill_delivers_the_span(read, target, io.advanced());
        } else {
            match stepped(read.producer_state(target), meta) {
                Ok(sequenced) => {
                    let next = read.with_producer(target, sequenced.producer_state);
                    backfill_delivers_the_span(next, target, io.advanced());
                    let one = seq![meta];
                    assert(one.drop_last() =~= seq![]);
                    assert(run(read.producer_state(target), one.drop_last()) is Ok);
                    runs_compose(read.producer_state(target), one, rest);
                    match delivered(next, target, io.advanced()) {
                        Some(all) => {
                            assert(seq![meta.clock] =~= Seq::<Clock>::empty().push(meta.clock));
                            assert(Seq::<Clock>::empty() + all.appended =~= all.appended);
                        },
                        None => {},
                    }
                },
                Err(_) => {},
            }
        }
    }
}

/// Whether no document of `metas`, sequenced from `state`, commits.
pub open spec fn stays_open(state: ProducerState, metas: Seq<Meta>) -> bool
    decreases metas.len(),
{
    metas.len() == 0 || {
        &&& stays_open(state, metas.drop_last())
        &&& run(state, metas.drop_last()) matches Ok(before) && stepped(
            before.state,
            metas.last(),
        ) matches Ok(sequenced) && !sequenced.is_commit
    }
}

/// Two stretches of documents which stay open, one after another, stay open.
pub proof fn open_runs_compose(state: ProducerState, a: Seq<Meta>, b: Seq<Meta>)
    requires
        stays_open(state, a),
        run(state, a) matches Ok(first) && stays_open(first.state, b),
    ensures
        stays_open(state, a + b),
    decreases b.len(),
{
    if b.len() == 0 {
        assert(a + b =~= a);
    } else {
        assert((a + b).drop_last() =~= a + b.drop_last());
        assert((a + b).last() == b.last());
        open_runs_compose(state, a, b.drop_last());
        runs_compose(state, a, b.drop_last());
    }
}

/// A batch of a backfill is only drained to its end if no document of its target commits.
pub proof fn backfill_stays_open<D>(read: ReadModel, target: Producer, io: IoModel<D>)
    requires
        delivered(read, target, io) is Some,
    ensures
        stays_open(read.producer_state(target), documents_of(io.metas(), target)),
    decreases io.metas().len(),
{
    if io.metas().len() > 0 {
        let meta = io.metas()[0];
        assert(io.advanced().metas() =~= io.metas().drop_first());
        if meta.producer != target {
            backfill_stays_open(read, target, io.advanced());
        } else {
            let sequenced = stepped(read.producer_state(target), meta)->Ok_0;
            let next = read.with_producer(target, sequenced.producer_state);
            backfill_stays_open(next, target, io.advanced());
            let one = seq![meta];
            assert(one.drop_last() =~= seq![]);
            assert(run(read.producer_state(target), one.drop_last()) is Ok);
            assert(stays_open(read.producer_state(target), one.drop_last()));
            open_runs_compose(
                read.producer_state(target),
                one,
                documents_of(io.advanced().metas(), target),
            );
        }
    }
}

/// Whether the document `i` of `metas` is a CONTINUE which is newer than `known`.
pub open spec fn is_new(metas: Seq<Meta>, i: int, known: u64) -> bool {
    0 <= i < metas.len() && metas[i].flags == Flags::ContinueTxn && metas[i].clock.0 > known
}

/// Whether the document `i` of `metas` is beyond all before it.
pub open spec fn is_beyond(metas: Seq<Meta>, i: int) -> bool {
    forall|j: int| 0 <= j < i ==> (#[trigger] metas[j]).clock.0 < metas[i].clock.0
}

/// Whether the document `i` of `metas` repeats the document `j` before it.
pub open spec fn is_repeat(metas: Seq<Meta>, i: int, j: int) -> bool {
    0 <= j < i && metas[j].clock == metas[i].clock && metas[j].flags == metas[i].flags
}

/// Whether each CONTINUE of `metas` which is newer than `known` is either beyond all of
/// its producer's documents before it, or is one of them, delivered again.
pub open spec fn ascends_or_repeats(metas: Seq<Meta>, known: u64) -> bool {
    forall|i: int| #[trigger]
        is_new(metas, i, known) ==> is_beyond(metas, i) || exists|j: int| is_repeat(metas, i, j)
}

proof fn lemma_ascends_drop_last(metas: Seq<Meta>, known: u64)
    requires
        metas.len() > 0,
        ascends_or_repeats(metas, known),
    ensures
        ascends_or_repeats(metas.drop_last(), known),
{
    let rest = metas.drop_last();
    assert forall|i: int| #[trigger] is_new(rest, i, known) implies is_beyond(rest, i)
        || exists|j: int| is_repeat(rest, i, j) by {
        assert(is_new(metas, i, known));
        if is_beyond(metas, i) {
            assert forall|j: int| 0 <= j < i implies (#[trigger] rest[j]).clock.0
                < rest[i].clock.0 by {
                assert(metas[j] == rest[j]);
            }
            assert(is_beyond(rest, i));
        } else {
            let j = choose|j: int| is_repeat(metas, i, j);
            assert(is_repeat(rest, i, j));
        }
    }
}

/// A run which stays open keeps its commit clock, and its greatest clock is that of one
/// of its documents, or is unchanged.
proof fn lemma_open_run(state: ProducerState, metas: Seq<Meta>)
    requires
        stays_open(state, metas),
    ensures
        run(state, metas) matches Ok(after) && {
            &&& after.state.last_commit == state.last_commit
            &&& high_water(after.state) == high_water(state) || exists|i: int|
                0 <= i < metas.len() && (#[trigger] metas[i]).clock.0 == high_water(after.state)
        },
    decreases metas.len(),
{
    if metas.len() > 0 {
        let rest = metas.drop_last();
        lemma_open_run(state, rest);
        let before = run(state, rest)->Ok_0;
        assert(metas[metas.len() - 1] == metas.last());
        if high_water(before.state) != high_water(state) {
            let i = choose|i: int|
                0 <= i < rest.len() && (#[trigger] rest[i]).clock.0 == high_water(before.state);
            assert(metas[i] == rest[i]);
        }
    }
}

/// Every new document of an open span is appended.
pub proof fn open_spans_are_delivered_whole(state: ProducerState, metas: Seq<Meta>, i: int)
    requires
        stays_open(state, metas),
        ascends_or_repeats(metas, high_water(state)),
        is_new(metas, i, high_water(state)),
    ensures
        run(state, metas) matches Ok(after) && after.appended.contains(metas[i].clock),
    decreases metas.len(), i,
{
    let rest = metas.drop_last();
    let before = run(state, rest)->Ok_0;
    let after = run(state, metas)->Ok_0;
    lemma_ascends_drop_last(metas, high_water(state));
    if i < rest.len() {
        assert(is_new(rest, i, high_water(state)));
        open_spans_are_delivered_whole(state, rest, i);
        let at = choose|at: int|
            0 <= at < before.appended.len() && before.appended[at] == metas[i].clock;
        assert(after.appended[at] == metas[i].clock);
    } else if is_beyond(metas, i) {
        lemma_open_run(state, rest);
        if high_water(before.state) != high_water(state) {
            let j = choose|j: int|
                0 <= j < rest.len() && (#[trigger] rest[j]).clock.0 == high_water(before.state);
            assert(metas[j].clock.0 < metas[i].clock.0);
        }
        new_documents_are_delivered(before.state, metas.last());
        assert(after.appended[before.appended.len() as int] == metas[i].clock);
    } else {
        let j = choose|j: int| is_repeat(metas, i, j);
        assert(is_new(metas, j, high_water(state)));
        open_spans_are_delivered_whole(state, metas, j);
    }
}

/// The batches of a whole historical range, or of the part of it that was read so far,
/// drained and appended one after another.
pub open spec fn delivered_all<D>(
    read: ReadModel,
    target: Producer,
    batches: Seq<IoModel<D>>,
) -> Option<Delivered>
    decreases batches.len(),
{
    if batches.len() == 0 {
        Some(Delivered { read, appended: seq![] })
    } else {
        match delivered_all(read, target, batches.drop_last()) {
            None => None,
            Some(before) => match delivered(before.read, target, batches.last()) {
                None => None,
                Some(last) => Some(
                    Delivered { read: last.read, appended: before.appended + last.appended },
                ),
            },
        }
    }
}

/// The documents of `target` over all of `batches`.
pub open spec fn range_of<D>(batches: Seq<IoModel<D>>, target: Producer) -> Seq<Meta>
    decreases batches.len(),
{
    if batches.len() == 0 {
        seq![]
    } else {
        range_of(batches.drop_last(), target) + documents_of(batches.last().metas(), target)
    }
}

/// A backfill of any number of batches appends exactly what sequencing the documents of
/// its target appends, leaves the producer in that state, and commits nothing.
pub proof fn backfill_delivers_the_range<D>(
    read: ReadModel,
    target: Producer,
    batches: Seq<IoModel<D>>,
)
    requires
        delivered_all(read, target, batches) is Some,
    ensures
        ({
            let all = delivered_all(read, target, batches)->0;
            let state = read.producer_state(target);
            &&& run(state, range_of(batches, target)) == Ok::<Run, SequenceError>(
                Run { state: all.read.producer_state(target), appended: all.appended },
            )
            &&& stays_open(state, range_of(batches, target))
        }),
    decreases batches.len(),
{
    if batches.len() > 0 {
        let rest = batches.drop_last();
        backfill_delivers_the_range(read, target, rest);
        let before = delivered_all(read, target, rest)->0;
        let last = batches.last();
        let documents = documents_of(last.metas(), target);
        backfill_delivers_the_span(before.read, target, last);
        backfill_stays_open(before.read, target, last);
        runs_compose(read.producer_state(target), range_of(rest, target), documents);
        open_runs_compose(read.producer_state(target), range_of(rest, target), documents);
    }
}

/// What a backfill delivers depends only on the state of its target. So a flush between
/// its batches, which changes no producer's state, changes nothing of it.
pub proof fn flushes_do_not_disturb_a_backfill<D>(
    read: ReadModel,
    target: Producer,
    io: IoModel<D>,
)
    ensures
        match delivered(read, target, io) {
            None => delivered(read.flushed(), target, io) is None,
            Some(all) => delivered(read.flushed(), target, io) matches Some(other) && {
                &&& other.appended == all.appended
                &&& other.read.producer_state(target) == all.read.producer_state(target)
            },
        },
{
    flushes_keep_producer_states(read, target);
    lemma_delivery_depends_on_the_target(read, read.flushed(), target, io);
}

proof fn lemma_delivery_depends_on_the_target<D>(
    a: ReadModel,
    b: ReadModel,
    target: Producer,
    io: IoModel<D>,
)
    requires
        a.producer_state(target) == b.producer_state(target),
    ensures
        match delivered(a, target, io) {
            None => delivered(b, target, io) is None,
            Some(all) => delivered(b, target, io) matches Some(other) && {
                &&& other.appended == all.appended
                &&& other.read.producer_state(target) == all.read.producer_state(target)
            },
        },
    decreases io.metas().len(),
{
    if io.metas().len() > 0 {
        if io.metas()[0].producer != target {
            lemma_delivery_depends_on_the_target(a, b, target, io.advanced());
        } else {
            match stepped(a.producer_state(target), io.metas()[0]) {
                Ok(sequenced) => {
                    lemma_delivery_depends_on_the_target(
                        a.with_producer(target, sequenced.producer_state),
                        b.with_producer(target, sequenced.producer_state),
                        target,
                        io.advanced(),
                    );
                },
                Err(_) => {},
            }
        }
    }
}

/// Whether no CONTINUE of `metas` is at the clock of the sentinel of `last_commit`.
pub open spec fn avoids_sentinel(metas: Seq<Meta>, last_commit: Clock) -> bool {
    forall|i: int|
        0 <= i < metas.len() && (#[trigger] metas[i]).flags == Flags::ContinueTxn
            ==> metas[i].clock.0 != last_commit.0 + 1
}

/// A producer does not become gapped over an open span.
proof fn lemma_open_runs_are_not_gapped(state: ProducerState, metas: Seq<Meta>)
    requires
        stays_open(state, metas),
        !state.is_gapped(),
        avoids_sentinel(metas, state.last_commit),
    ensures
        run(state, metas) matches Ok(after) && !after.state.is_gapped(),
    decreases metas.len(),
{
    if metas.len() > 0 {
        let rest = metas.drop_last();
        assert forall|i: int|
            0 <= i < rest.len() && (#[trigger] rest[i]).flags
                == Flags::ContinueTxn implies rest[i].clock.0 != state.last_commit.0 + 1 by {
            assert(rest[i] == metas[i]);
        }
        lemma_open_runs_are_not_gapped(state, rest);
        lemma_open_run(state, rest);
        assert(metas[metas.len() - 1] == metas.last());
    }
}

/// All that was appended of an open span is new, once, and in ascending order: and it is
/// all that is new.
proof fn lemma_open_span_is_whole(state: ProducerState, metas: Seq<Meta>)
    requires
        stays_open(state, metas),
        ascends_or_repeats(metas, high_water(state)),
    ensures
        run(state, metas) matches Ok(after) && {
            &&& after.state.last_commit == state.last_commit
            &&& forall|i: int| #[trigger]
                is_new(metas, i, high_water(state)) ==> after.appended.contains(metas[i].clock)
            &&& ascends(after.appended)
        },
{
    lemma_open_run(state, metas);
    assert forall|i: int| #[trigger] is_new(metas, i, high_water(state)) implies run(
        state,
        metas,
    )->Ok_0.appended.contains(metas[i].clock) by {
        open_spans_are_delivered_whole(state, metas, i);
    }
    lemma_open_runs_have_no_rollback(state, metas);
    producer_order_is_strict(state, metas);
}

/// A gapped transaction is recovered whole, when its ACK is the trigger. Of the historical
/// documents of its producer, over all batches of the range, every CONTINUE after the last
/// commit is appended before the trigger, in ascending order and once. The producer is then
/// no longer gapped, and the trigger commits all of it at once.
pub proof fn gapped_transactions_are_recovered_whole<D>(
    read: ReadModel,
    target: Producer,
    batches: Seq<IoModel<D>>,
    trigger: Meta,
)
    requires
        read.producer_state(target).max_continue.0 == 0,
        read.producer_state(target).last_commit.0 < u64::MAX,
        delivered_all(read, target, batches) is Some,
        ascends_or_repeats(
            range_of(batches, target),
            read.producer_state(target).last_commit.0,
        ),
        avoids_sentinel(range_of(batches, target), read.producer_state(target).last_commit),
        trigger.producer == target,
        trigger.flags == Flags::AckTxn,
        trigger.clock.0 > read.producer_state(target).last_commit.0,
    ensures
        ({
            let all = delivered_all(read, target, batches)->0;
            let metas = range_of(batches, target);
            let last_commit = read.producer_state(target).last_commit;
            let state = all.read.producer_state(target);
            &&& forall|i: int| #[trigger]
                is_new(metas, i, last_commit.0) ==> all.appended.contains(metas[i].clock)
            &&& ascends(all.appended)
            &&& state.last_commit == last_commit
            &&& !state.is_gapped()
            &&& head_step(state, trigger) matches Ok(
                HeadStep::Sequence { sequenced, resolves_gap },
            )
            &&& !resolves_gap && sequenced.is_commit && !sequenced.is_append
            &&& sequenced.producer_state == settled_at(trigger.clock, trigger.end_offset)
        }),
{
    let state = read.producer_state(target);
    let metas = range_of(batches, target);
    backfill_delivers_the_range(read, target, batches);
    lemma_open_span_is_whole(state, metas);
    lemma_open_runs_are_not_gapped(state, metas);
}

/// A gapped transaction is recovered whole, when a CONTINUE of it is the trigger. The
/// historical documents of its producer, over all batches of the range, and those which
/// the main read then yields from the trigger on, are one span: of both, every CONTINUE
/// after the last commit is appended, in ascending order and once. The producer is not
/// gapped at any document from the trigger on, and the ACK which follows commits all of it
/// at once.
pub proof fn continued_transactions_are_recovered_whole<D>(
    read: ReadModel,
    target: Producer,
    batches: Seq<IoModel<D>>,
    main: Seq<Meta>,
    ack: Meta,
)
    requires
        read.producer_state(target).max_continue.0 == 0,
        read.producer_state(target).last_commit.0 < u64::MAX,
        delivered_all(read, target, batches) is Some,
        main.len() > 0,
        main[0].flags == Flags::ContinueTxn,
        stays_open(
            delivered_all(read, target, batches)->0.read.producer_state(target),
            main,
        ),
        ascends_or_repeats(
            range_of(batches, target) + main,
            read.producer_state(target).last_commit.0,
        ),
        avoids_sentinel(
            range_of(batches, target) + main,
            read.producer_state(target).last_commit,
        ),
        ack.flags == Flags::AckTxn,
        ack.clock.0 > read.producer_state(target).last_commit.0,
    ensures
        ({
            let all = delivered_all(read, target, batches)->0;
            let metas = range_of(batches, target) + main;
            let last_commit = read.producer_state(target).last_commit;
            let reached = all.read.producer_state(target);
            &&& run(reached, main) matches Ok(after)
            &&& ({
                let appended = all.appended + after.appended;
                &&& forall|i: int| #[trigger]
                    is_new(metas, i, last_commit.0) ==> appended.contains(metas[i].clock)
                &&& ascends(appended)
            })
            &&& forall|n: int|
                0 <= n < main.len() ==> (run(reached, #[trigger] main.take(n)) matches Ok(at) && {
                    &&& !at.state.is_gapped()
                    &&& at.state.last_commit == last_commit
                    &&& head_step(at.state, main[n]) matches Ok(HeadStep::Sequence { .. })
                })
            &&& head_step(after.state, ack) matches Ok(
                HeadStep::Sequence { sequenced, resolves_gap },
            )
            &&& !resolves_gap && sequenced.is_commit && !sequenced.is_append
            &&& sequenced.producer_state == settled_at(ack.clock, ack.end_offset)
        }),
{
    let state = read.producer_state(target);
    let range = range_of(batches, target);
    let metas = range + main;
    let reached = delivered_all(read, target, batches)->0.read.producer_state(target);
    backfill_delivers_the_range(read, target, batches);
    open_runs_compose(state, range, main);
    lemma_open_run(reached, main);
    runs_compose(state, range, main);
    lemma_open_span_is_whole(state, metas);
    lemma_open_runs_are_not_gapped(state, metas);
    let appended = delivered_all(read, target, batches)->0.appended + run(
        reached,
        main,
    )->Ok_0.appended;
    assert(run(state, metas)->Ok_0.appended == appended);
    assert(high_water(state) == state.last_commit.0);
    assert forall|i: int| #[trigger] is_new(
        metas,
        i,
        state.last_commit.0,
    ) implies appended.contains(metas[i].clock) by {
        assert(is_new(metas, i, high_water(state)));
    }
    assert(ascends(appended));
    assert forall|n: int| 0 <= n < main.len() implies (run(
        reached,
        #[trigger] main.take(n),
    ) matches Ok(at) && {
        &&& !at.state.is_gapped()
        &&& at.state.last_commit == state.last_commit
        &&& head_step(at.state, main[n]) matches Ok(HeadStep::Sequence { .. })
    }) by {
        let part = range + main.take(n);
        lemma_open_run_prefix(reached, main, n);
        open_runs_compose(state, range, main.take(n));
        lemma_open_run(reached, main.take(n));
        runs_compose(state, range, main.take(n));
        assert forall|i: int|
            0 <= i < part.len() && (#[trigger] part[i]).flags
                == Flags::ContinueTxn implies part[i].clock.0 != state.last_commit.0 + 1 by {
            assert(part[i] == metas[i]);
        }
        lemma_open_runs_are_not_gapped(state, part);
        lemma_open_run(state, part);
    }
}

/// Each document of an open run is sequenced, after an open run of those before it.
proof fn lemma_open_run_prefix(state: ProducerState, metas: Seq<Meta>, n: int)
    requires
        stays_open(state, metas),
        0 <= n < metas.len(),
    ensures
        stays_open(state, metas.take(n)),
        run(state, metas.take(n)) matches Ok(at) && stepped(at.state, metas[n]) is Ok,
    decreases metas.len(),
{
    if n == metas.len() - 1 {
        assert(metas.take(n) =~= metas.drop_last());
    } else {
        lemma_open_run_prefix(state, metas.drop_last(), n);
        assert(metas.drop_last().take(n) =~= metas.take(n));
    }
}

/// Whether the first CONTINUE of `metas` which is newer than `known`, if there is one,
/// begins at `offset`.
pub open spec fn begins_at(metas: Seq<Meta>, known: u64, offset: int) -> bool {
    forall|i: int| #[trigger]
        is_new(metas, i, known) && (forall|j: int| 0 <= j < i ==> !#[trigger] is_new(
            metas,
            j,
            known,
        )) ==> metas[i].begin_offset == offset
}

/// An open run from an empty span leaves it as it is, unless there is a new document. It
/// then holds the begin of the first.
proof fn lemma_open_run_offset(state: ProducerState, metas: Seq<Meta>, offset: int)
    requires
        stays_open(state, metas),
        state.max_continue.0 == 0,
        begins_at(metas, state.last_commit.0, offset),
    ensures
        run(state, metas) matches Ok(after) && {
            if after.state.max_continue.0 == 0 {
                &&& after.state == state
                &&& forall|i: int| !#[trigger] is_new(metas, i, state.last_commit.0)
            } else {
                &&& after.state.last_commit == state.last_commit
                &&& after.state.offset == offset
            }
        },
    decreases metas.len(),
{
    if metas.len() > 0 {
        let rest = metas.drop_last();
        let known = state.last_commit.0;
        let n = metas.len() - 1;
        assert forall|i: int| #[trigger]
            is_new(rest, i, known) && (forall|j: int| 0 <= j < i ==> !#[trigger] is_new(
                rest,
                j,
                known,
            )) implies rest[i].begin_offset == offset by {
            assert(is_new(metas, i, known));
            assert forall|j: int| 0 <= j < i implies !#[trigger] is_new(metas, j, known) by {
                assert(!is_new(rest, j, known));
            }
        }
        lemma_open_run_offset(state, rest, offset);
        let before = run(state, rest)->Ok_0;
        if before.state.max_continue.0 == 0 {
            assert forall|j: int| 0 <= j < n implies !#[trigger] is_new(metas, j, known) by {
                assert(!is_new(rest, j, known));
            }
            if is_new(metas, n, known) {
                assert(metas[n].begin_offset == offset);
            } else {
                assert forall|i: int| !#[trigger] is_new(metas, i, known) by {
                    if 0 <= i < n {
                        assert(!is_new(rest, i, known));
                    }
                }
            }
        }
    }
}

/// Recovery is idempotent. At any point of the backfill of a gapped producer, before its
/// transaction commits, a flush carries just what the checkpoint records of it: so that
/// the reduced checkpoint recovers to the same state, wherever a later read restarts.
/// `batches` are those which were delivered so far, and the last may be a part of a batch.
///
/// The begin of the recovered span is that of its first document.
pub proof fn recovery_is_idempotent<D>(
    base: ProducerFrontier,
    start: int,
    read: ReadModel,
    batches: Seq<IoModel<D>>,
    later: int,
)
    requires
        skips(base, start),
        read.producer_state(base.producer) == recovered_state(base, start).reopened(),
        delivered_all(read, base.producer, batches) is Some,
        begins_at(
            range_of(batches, base.producer),
            recovered_commit(base).0,
            base.offset as int,
        ),
    ensures
        ({
            let target = base.producer;
            let all = delivered_all(read, target, batches)->0;
            let entry = checkpoint_entry(target.0, all.read.producer_state(target));
            let reduced = base.reduced(entry);
            &&& entry == checkpoint_entry(target.0, read.producer_state(target))
            &&& recovered_state(entry, later) == recovered_state(
                checkpoint_entry(target.0, read.producer_state(target)),
                later,
            )
            &&& recovered_state(reduced, later) == recovered_state(base, later)
            &&& reduced.offset == base.offset
            &&& reduced.hinted_commit == base.hinted_commit
        }),
{
    backfill_delivers_the_range(read, base.producer, batches);
    lemma_open_run_offset(
        read.producer_state(base.producer),
        range_of(batches, base.producer),
        base.offset as int,
    );
}

/// If fragments at the begin of a historical range were lost, and its first document is
/// found at `found`, then a flush during the backfill advances the checkpoint to it. A later
/// read recovers the same commit, and the span from there.
pub proof fn lost_fragments_move_the_gap<D>(
    base: ProducerFrontier,
    start: int,
    read: ReadModel,
    batches: Seq<IoModel<D>>,
    found: i64,
    later: int,
)
    requires
        skips(base, start),
        read.producer_state(base.producer) == recovered_state(base, start).reopened(),
        delivered_all(read, base.producer, batches) is Some,
        base.offset < found,
        begins_at(range_of(batches, base.producer), recovered_commit(base).0, found as int),
        base.last_commit == recovered_commit(base),
    ensures
        ({
            let target = base.producer;
            let state = delivered_all(read, target, batches)->0.read.producer_state(target);
            let reduced = base.reduced(checkpoint_entry(target.0, state));
            let recovered = recovered_state(reduced, later);
            &&& recovered.last_commit == recovered_commit(base)
            &&& recovered.offset == base.offset || recovered.offset == found
            &&& state.max_continue.0 != 0 ==> recovered.offset == found
        }),
{
    backfill_delivers_the_range(read, base.producer, batches);
    lemma_open_run_offset(
        read.producer_state(base.producer),
        range_of(batches, base.producer),
        found as int,
    );
}

proof fn lemma_open_runs_have_no_rollback(state: ProducerState, metas: Seq<Meta>)
    requires
        stays_open(state, metas),
    ensures
        without_rollback(state, metas),
    decreases metas.len(),
{
    if metas.len() > 0 {
        lemma_open_runs_have_no_rollback(state, metas.drop_last());
    }
}

/// A document which its producer wrote before, and which is read again, does nothing.
pub proof fn documents_are_delivered_once(state: ProducerState, meta: Meta)
    requires
        meta.flags != Flags::AckTxn,
        meta.clock.0 <= high_water(state),
    ensures
        stepped(state, meta) matches Ok(sequenced) ==> {
            &&& !sequenced.is_append && !sequenced.is_commit
            &&& sequenced.producer_state == state
        },
{
}

/// A document beyond all that its producer wrote before is appended.
pub proof fn new_documents_are_delivered(state: ProducerState, meta: Meta)
    requires
        meta.flags != Flags::AckTxn,
        meta.clock.0 > high_water(state),
    ensures
        stepped(state, meta) matches Ok(sequenced) ==> sequenced.is_append && high_water(
            sequenced.producer_state,
        ) == meta.clock.0,
        stepped(state, meta) is Err ==> meta.flags == Flags::OutsideTxn && state.max_continue.0
            > 0,
{
}

/// Only an ACK, or an OUTSIDE document of its own, makes commit progress. A CONTINUE
/// leaves the last commit as it is, and its span stays open at a non-negative offset.
pub proof fn visibility_is_gated_by_acks(state: ProducerState, meta: Meta)
    requires
        meta.valid(),
        meta.flags == Flags::ContinueTxn,
    ensures
        stepped(state, meta) matches Ok(sequenced) && {
            &&& !sequenced.is_commit
            &&& sequenced.producer_state.last_commit == state.last_commit
            &&& sequenced.is_append ==> sequenced.producer_state.offset >= 0
                || sequenced.producer_state.offset == state.offset
        },
{
}

// The Slice.

/// No event of a running Slice leads a producer into the gapped state: neither consuming a
/// document, nor triggering a backfill, nor draining or appending its documents, nor a
/// flush. What [`producers_are_gapped_only_in_recovery`] leaves out of a document is left
/// out of those which are consumed and appended.
pub proof fn slices_gap_no_producer<D>(
    m: ActorModel<D>,
    step: HeadStep,
    hints: Seq<JournalHints>,
    started_at: u64,
    k: int,
    id: u32,
    producer: Producer,
)
    requires
        m.valid(),
        id < m.reads.len(),
        !m.reads[id as int].producer_state(producer).is_gapped(),
    ensures
        m.heap.len() > 0 && m.step_of_head() == Ok::<HeadStep, SequenceError>(step) && !(
        step is Trigger) && m.head().clock.0 < u64::MAX && (m.head().flags == Flags::ContinueTxn
            ==> m.head().clock.0 != m.head_state().last_commit.0 + 1) ==> !m.consumed(
            step,
            hints,
        ).reads[id as int].producer_state(producer).is_gapped(),
        m.heap.len() > 0 && m.head_state().last_commit.0 < u64::MAX ==> !m.triggered(
            started_at,
        ).reads[id as int].producer_state(producer).is_gapped(),
        0 <= k < m.parked.len() ==> !m.drained(k).reads[id as int].producer_state(
            producer,
        ).is_gapped(),
        m.append_due(k) && m.parked[k].io.metas()[0].clock.0 != m.target_state(k).last_commit.0
            + 1 ==> !m.appended(k).reads[id as int].producer_state(producer).is_gapped(),
        !m.reads[id as int].flushed().producer_state(producer).is_gapped(),
{
    flushes_keep_producer_states(m.reads[id as int], producer);
    if m.heap.len() > 0 {
        assert(m.entry_valid(m.heap[0]));
    }
    if 0 <= k < m.parked.len() {
        let main = m.parked[k];
        assert(m.parked_valid(main));
        backfill_keeps_the_main_read(m.reads[main.ready.read as int], main.target, main.io);
    }
}

/// Consuming a document changes nothing of other reads, and nothing of other producers.
pub proof fn consumption_is_local<D>(
    m: ActorModel<D>,
    step: HeadStep,
    hints: Seq<JournalHints>,
    id: u32,
    producer: Producer,
)
    requires
        m.valid(),
        m.heap.len() > 0,
        !(step is Trigger),
        id < m.reads.len(),
        id != m.heap[0].ready.read || producer != m.head().producer,
    ensures
        m.consumed(step, hints).reads.len() == m.reads.len(),
        m.consumed(step, hints).reads[id as int].producer_state(producer)
            == m.reads[id as int].producer_state(producer),
        m.consumed(step, hints).reads[id as int].settled == m.reads[id as int].settled,
        id != m.heap[0].ready.read ==> m.consumed(step, hints).reads[id as int]
            == m.reads[id as int],
{
    assert(m.entry_valid(m.heap[0]));
}

/// Consuming a document advances its main read to the document's end.
pub proof fn consumption_advances_the_read<D>(
    m: ActorModel<D>,
    step: HeadStep,
    hints: Seq<JournalHints>,
)
    requires
        m.valid(),
        m.heap.len() > 0,
        !(step is Trigger),
    ensures
        m.consumed(step, hints).reads[m.heap[0].ready.read as int].read_offset
            == m.head().end_offset,
{
    assert(m.entry_valid(m.heap[0]));
}

/// No document of the heap drains before its head: none is of a greater priority, and
/// none of the same priority has an earlier delayed clock.
pub proof fn head_drains_first<D>(m: ActorModel<D>, i: int)
    requires
        m.valid(),
        0 <= i < m.heap.len(),
    ensures
        m.heap[i].priority <= m.heap[0].priority,
        m.heap[i].priority == m.heap[0].priority ==> m.heap[0].adjusted_clock.0
            <= m.heap[i].adjusted_clock.0,
{
    if i > 0 {
        assert(!m.heap[i].drains_before(m.heap[0]));
    }
}

/// A read has at most one backfill, and while it is parked no other document of its
/// journal is reachable from the heap.
pub proof fn parked_reads_are_withheld<D>(m: ActorModel<D>, k: int)
    requires
        m.valid(),
        0 <= k < m.parked.len(),
    ensures
        forall|j: int|
            0 <= j < m.parked.len() && (#[trigger] m.parked[j]).ready.read == m.parked[k].ready.read
                ==> j == k,
        !m.is_ready(m.parked[k].ready.read),
{
    assert forall|i: int| 0 <= i < m.heap.len() implies (#[trigger] m.heap[i]).ready.read
        != m.parked[k].ready.read by {
        assert(m.parked[k] == m.parked[k]);
    }
}

/// The heap drains exactly while no read is stalled, and none is being probed.
pub proof fn stalled_reads_block_draining<D>(m: ActorModel<D>)
    requires
        m.valid(),
    ensures
        m.drain_blocked() <==> m.stalled_reads.len() > 0 || m.pending_probes > 0,
{
}

/// A read which awaits content blocks draining unless it is tailing, and its resolution
/// undoes what its parking did.
pub proof fn resolution_undoes_parking<D>(m: ActorModel<D>, id: u32, tailing: bool)
    requires
        m.valid(),
        m.pending_reads < usize::MAX,
        !m.stalled_reads.contains(id),
    ensures
        m.pended(id, tailing).resolved(id) == m,
        tailing ==> m.pended(id, tailing).drain_blocked() == m.drain_blocked(),
        !tailing ==> m.pended(id, tailing).drain_blocked(),
{
    assert(m.stalled_reads.insert(id).remove(id) =~= m.stalled_reads);
}

/// Neither a parked main read, nor a historical read, bears on whether the heap may
/// drain, at any point of a backfill.
pub proof fn backfills_do_not_block_draining<D>(m: ActorModel<D>, k: int, started_at: u64)
    ensures
        m.triggered(started_at).drain_blocked() == m.drain_blocked(),
        m.drained(k).drain_blocked() == m.drain_blocked(),
        m.appended(k).drain_blocked() == m.drain_blocked(),
        m.unparked(k).drain_blocked() == m.drain_blocked(),
        m.unparked(k).pushed(m.parked[k].ready).drain_blocked() == m.drain_blocked(),
        m.triggered(started_at).stalled_reads == m.stalled_reads,
        m.triggered(started_at).pending_reads == m.pending_reads,
{
}

/// A trigger does not advance its main read, nor any position that a flush reports.
pub proof fn triggers_do_not_advance_the_read<D>(m: ActorModel<D>, started_at: u64)
    requires
        m.valid(),
        m.heap.len() > 0,
    ensures
        ({
            let id = m.heap[0].ready.read as int;
            let next = m.triggered(started_at);
            &&& next.reads[id] == (ReadModel { pending: next.reads[id].pending, ..m.reads[id] })
            &&& next.parked.last().ready == m.heap[0].ready
            &&& next.parked.last().trigger() == m.head()
            &&& next.flush == m.flush
        }),
{
    assert(m.entry_valid(m.heap[0]));
}

// Flushes.

/// A flush settles pending producers, and changes the state of none of them. There is
/// then nothing to report of the read.
pub proof fn flushes_keep_producer_states(read: ReadModel, producer: Producer)
    ensures
        read.flushed().producer_state(producer) == read.producer_state(producer),
        read.flushed().pending.is_empty(),
        read.flushed().read_offset == read.read_offset,
        read.flushed().write_head == read.write_head,
{
}

/// What changes of a read between two flushes.
pub struct ReadUpdate {
    pub read_offset: i64,
    pub write_head: i64,
    pub pending: Map<u64, ProducerState>,
}

/// A read, once it was updated.
pub open spec fn updated(read: ReadModel, update: ReadUpdate) -> ReadModel {
    ReadModel {
        read_offset: update.read_offset,
        write_head: update.write_head,
        pending: update.pending,
        ..read
    }
}

/// A read over a sequence of flushes, each of which follows an update.
pub open spec fn flushed_over(read: ReadModel, updates: Seq<ReadUpdate>) -> ReadModel
    decreases updates.len(),
{
    if updates.len() == 0 {
        read
    } else {
        updated(flushed_over(read, updates.drop_last()), updates.last()).flushed()
    }
}

/// Whether every flush of the sequence can take the read's progress.
pub open spec fn flushable_over(read: ReadModel, updates: Seq<ReadUpdate>) -> bool
    decreases updates.len(),
{
    updates.len() == 0 || {
        &&& flushable_over(read, updates.drop_last())
        &&& updated(flushed_over(read, updates.drop_last()), updates.last()).flushable()
    }
}

/// The bytes read which are reported over the sequence. A flush which finds no pending
/// producer reports none.
pub open spec fn bytes_read_over(read: ReadModel, updates: Seq<ReadUpdate>) -> int
    decreases updates.len(),
{
    if updates.len() == 0 {
        0
    } else {
        let at = updated(flushed_over(read, updates.drop_last()), updates.last());
        bytes_read_over(read, updates.drop_last()) + if at.pending.is_empty() {
            0
        } else {
            at.progress().bytes_read_delta as int
        }
    }
}

/// The growth of bytes behind which is reported over the sequence.
pub open spec fn bytes_behind_over(read: ReadModel, updates: Seq<ReadUpdate>) -> int
    decreases updates.len(),
{
    if updates.len() == 0 {
        0
    } else {
        let at = updated(flushed_over(read, updates.drop_last()), updates.last());
        bytes_behind_over(read, updates.drop_last()) + if at.pending.is_empty() {
            0
        } else {
            at.progress().bytes_behind_delta as int
        }
    }
}

/// What was reported is the distance between the baselines.
proof fn lemma_reported_is_the_baseline(read: ReadModel, updates: Seq<ReadUpdate>)
    requires
        flushable_over(read, updates),
    ensures
        ({
            let after = flushed_over(read, updates);
            &&& bytes_read_over(read, updates) == after.prev_read_offset - read.prev_read_offset
            &&& bytes_behind_over(read, updates) == (after.prev_write_head
                - after.prev_read_offset) - (read.prev_write_head - read.prev_read_offset)
        }),
    decreases updates.len(),
{
    if updates.len() > 0 {
        lemma_reported_is_the_baseline(read, updates.drop_last());
    }
}

/// Byte deltas telescope over any sequence of flushes, with any updates between them. Once
/// a flush reports the read, all that was ever reported of it is its total advance: what a
/// flush without pending producers passed over is reported by a later one, and nothing is
/// lost or counted twice.
pub proof fn byte_deltas_telescope(read: ReadModel, updates: Seq<ReadUpdate>)
    requires
        flushable_over(read, updates),
        updates.len() > 0,
        !updates.last().pending.is_empty(),
    ensures
        bytes_read_over(read, updates) == updates.last().read_offset - read.prev_read_offset,
        bytes_behind_over(read, updates) == (updates.last().write_head
            - updates.last().read_offset) - (read.prev_write_head - read.prev_read_offset),
{
    lemma_reported_is_the_baseline(read, updates);
}

} // verus!
