//! Laws of single operations: what each does, over the fields which it takes and gives.

use crate::actor::{lemma_popped, ActorModel};
use crate::append::{are_appends_of, held, names_sent, Append, AppendTarget};
use crate::checkpoint::{
    checkpoint_valid, furthest, recovered_gaps, recovered_state, recovered_states, Gap,
};
use crate::drain::{head_step, HeadStep, Step};
use crate::flush::{FlushState, ProgressState};
use crate::frontier::{
    bytes_behind_in, bytes_read_in, lsns_reduced, producers_in, unresolved_in, Frontier,
    JournalModel, Lsn, Measures, ProducerFrontier,
};
use crate::gap::{
    drained, BackfillOutcome, DrainEnd, IoModel, ParkedModel, StartedBackfill,
};
use crate::heap::{drain_insert, lemma_drain_inserts};
use crate::order::{key_before, JournalKey};
use crate::producer::{JournalHints, ProducerState};
use crate::read::{checkpoint_entry, Meta, ReadModel, ReadyModel};
use crate::reading::{ReadOutcome, ReadResult, StartRead, StartedRead};
use crate::request::ReadRequest;
use crate::sequence::{outcome_of, stepped, SequenceError, SequenceOutcome, Sequenced};
use crate::session::{progress_reduced, LogResponse};
use crate::topology::{Binding, ReadFailure, SliceError};
use crate::uuid::{Clock, Flags, Producer};
use vstd::prelude::*;
use vstd::set_lib::{lemma_int_range, lemma_len_subset, lemma_subset_equality, set_int_range};

verus! {

// Recovery.

/// Whether two entries record the same of their producer, but for its causal hint.
pub open spec fn differs_in_hint(a: ProducerFrontier, b: ProducerFrontier) -> bool {
    a.producer == b.producer && a.last_commit == b.last_commit && a.offset == b.offset
}

/// Recovery does not depend on causal hints: two checkpoints which differ in them alone
/// restart at the same position, with the same states and the same gaps. A hint is resolved
/// by reading the commit that it hints of.
pub proof fn recovery_does_not_depend_on_hints(
    a: Seq<ProducerFrontier>,
    b: Seq<ProducerFrontier>,
    start: int,
)
    requires
        a.len() == b.len(),
        forall|i: int| 0 <= i < a.len() ==> differs_in_hint(#[trigger] a[i], b[i]),
    ensures
        furthest(a) == furthest(b),
        recovered_states(a, start) == recovered_states(b, start),
        recovered_gaps(a, start) == recovered_gaps(b, start),
        forall|i: int|
            0 <= i < a.len() ==> recovered_state(#[trigger] a[i], start) == recovered_state(
                b[i],
                start,
            ),
    decreases a.len(),
{
    if a.len() > 0 {
        let (ra, rb) = (a.drop_last(), b.drop_last());
        assert forall|i: int| 0 <= i < ra.len() implies differs_in_hint(
            #[trigger] ra[i],
            rb[i],
        ) by {
            assert(differs_in_hint(a[i], b[i]));
        }
        recovery_does_not_depend_on_hints(ra, rb, start);
        assert(differs_in_hint(a[a.len() - 1], b[b.len() - 1]));
    }
}

/// A producer recovers the commit clock and the offset which its entry records, and nothing
/// else. The one exception is the marker of a span at the journal's head, which stands for
/// no commit. The producer has no pending span, unless it is gapped: its `max_continue` is
/// then one past its commit.
pub proof fn recovery_restores_the_recorded_commit(entry: ProducerFrontier, start: int)
    ensures
        recovered_state(entry, start).offset == entry.offset,
        entry.offset != 0 || entry.last_commit.0 != 1 ==> recovered_state(entry, start).last_commit
            == entry.last_commit,
        entry.offset == 0 && entry.last_commit.0 == 1 ==> recovered_state(
            entry,
            start,
        ).last_commit.0 == 0,
        entry.offset < 0 || entry.offset >= start ==> recovered_state(entry, start).max_continue.0
            == 0,
        0 <= entry.offset < start && entry.last_commit.0 < u64::MAX ==> recovered_state(
            entry,
            start,
        ).max_continue.0 == recovered_state(entry, start).last_commit.0 + 1,
{
}

/// After the recovery of a producer that is not gapped, every document of a clock greater
/// than its recorded commit is new, whatever a causal hint says: it is appended, or it is an
/// ACK and commits. Every other document but an ACK was committed before, and does nothing.
pub proof fn documents_after_the_recorded_commit_are_new(
    entry: ProducerFrontier,
    start: int,
    meta: Meta,
)
    requires
        entry.offset < 0 || (entry.offset >= start && entry.offset > 0),
        entry.last_commit.0 < u64::MAX,
    ensures
        head_step(recovered_state(entry, start), meta) matches Ok(
            HeadStep::Sequence { sequenced, resolves_gap },
        ) && {
            &&& !resolves_gap
            &&& meta.clock.0 > entry.last_commit.0 && meta.flags != Flags::AckTxn
                ==> sequenced.is_append
            &&& meta.clock.0 > entry.last_commit.0 && meta.flags == Flags::AckTxn
                ==> sequenced.is_commit
            &&& meta.clock.0 <= entry.last_commit.0 ==> !sequenced.is_append
                && !sequenced.is_commit && sequenced.producer_state.last_commit
                == entry.last_commit
        },
{
}

/// The producers which are recovered are those of the checkpoint.
pub proof fn recovered_producers_are_those_of_the_checkpoint(
    entries: Seq<ProducerFrontier>,
    start: int,
    producer: u64,
)
    ensures
        recovered_states(entries, start).contains_key(producer) <==> exists|i: int|
            0 <= i < entries.len() && (#[trigger] entries[i]).producer.0 == producer,
    decreases entries.len(),
{
    if entries.len() > 0 {
        let rest = entries.drop_last();
        recovered_producers_are_those_of_the_checkpoint(rest, start, producer);
        if recovered_states(rest, start).contains_key(producer) {
            let i = choose|i: int|
                0 <= i < rest.len() && (#[trigger] rest[i]).producer.0 == producer;
            assert(entries[i].producer.0 == producer);
        }
        if exists|i: int| 0 <= i < entries.len() && (#[trigger] entries[i]).producer.0 == producer {
            let i = choose|i: int|
                0 <= i < entries.len() && (#[trigger] entries[i]).producer.0 == producer;
            if i < rest.len() {
                assert(rest[i].producer.0 == producer);
            }
        }
        assert(entries[entries.len() - 1] == entries.last());
    }
}

/// A restart is at the greatest distance from the journal's head of any recorded offset,
/// whether of a commit or of a span: none is further, and some entry is at it, or it is the
/// head itself.
pub proof fn restart_is_at_the_greatest_offset(entries: Seq<ProducerFrontier>)
    ensures
        forall|i: int|
            0 <= i < entries.len() ==> -furthest(entries) <= (#[trigger] entries[i]).offset
                <= furthest(entries),
        furthest(entries) == 0 || exists|i: int|
            0 <= i < entries.len() && ((#[trigger] entries[i]).offset == furthest(entries)
                || entries[i].offset == -furthest(entries)),
    decreases entries.len(),
{
    if entries.len() > 0 {
        let rest = entries.drop_last();
        restart_is_at_the_greatest_offset(rest);
        assert forall|i: int| 0 <= i < entries.len() implies -furthest(entries) <= (
        #[trigger] entries[i]).offset <= furthest(entries) by {
            if i < rest.len() {
                assert(rest[i] == entries[i]);
            }
        }
        if furthest(rest) != 0 {
            let i = choose|i: int|
                0 <= i < rest.len() && ((#[trigger] rest[i]).offset == furthest(rest)
                    || rest[i].offset == -furthest(rest));
            assert(entries[i] == rest[i]);
        }
        assert(entries[entries.len() - 1] == entries.last());
    }
}

/// The gaps which are reported are of the entries of spans which begin before the restart,
/// each with the begin of its span, in the order of the checkpoint.
pub proof fn reported_gaps_begin_before_the_restart(entries: Seq<ProducerFrontier>, start: int)
    ensures
        recovered_gaps(entries, start) == entries.filter(
            |e: ProducerFrontier| 0 <= e.offset < start,
        ).map_values(|e: ProducerFrontier| Gap { producer: e.producer, begin: e.offset }),
    decreases entries.len(),
{
    reveal(Seq::filter);
    let pred = |e: ProducerFrontier| 0 <= e.offset < start;
    let f = |e: ProducerFrontier| Gap { producer: e.producer, begin: e.offset };
    if entries.len() == 0 {
        assert(entries.filter(pred).map_values(f) =~= seq![]);
    } else {
        let rest = entries.drop_last();
        reported_gaps_begin_before_the_restart(rest, start);
        if pred(entries.last()) {
            assert(entries.filter(pred) == rest.filter(pred).push(entries.last()));
            assert(rest.filter(pred).push(entries.last()).map_values(f) =~= rest.filter(
                pred,
            ).map_values(f).push(f(entries.last())));
        }
    }
}

// Flush cycles.

/// A sequence of answers of shards, `completed` by each, over the `states` between them.
pub open spec fn answered_in_turn(
    states: Seq<FlushState>,
    answers: Seq<(usize, Lsn)>,
    completed: Seq<Option<Frontier>>,
) -> bool {
    &&& states.len() == answers.len() + 1
    &&& completed.len() == answers.len()
    &&& forall|i: int|
        0 <= i < answers.len() ==> states[i].answers(
            answers[i].0,
            answers[i].1,
            Ok::<Option<Frontier>, SliceError>(#[trigger] completed[i]),
            states[i + 1],
        )
}

/// Whether the shard `s` is among the first `n` of `answers`.
pub open spec fn has_answered(answers: Seq<(usize, Lsn)>, n: int, s: int) -> bool {
    exists|j: int| 0 <= j < n && (#[trigger] answers[j]).0 == s
}

/// While none of the first `i` answers completes the flush, it awaits just the shards which
/// have not answered, and holds what the others did.
proof fn lemma_answers(
    before: FlushState,
    shards: usize,
    frontier: Frontier,
    cycle: u64,
    states: Seq<FlushState>,
    answers: Seq<(usize, Lsn)>,
    completed: Seq<Option<Frontier>>,
    i: int,
)
    requires
        states.len() > 0,
        before.begins(shards, frontier, cycle, states[0]),
        frontier.flushed_lsn@.len() == shards,
        answered_in_turn(states, answers, completed),
        0 <= i <= answers.len(),
        forall|j: int| 0 <= j < i ==> (#[trigger] completed[j]) is None,
    ensures
        states[i].in_flight matches Some(held) && {
            &&& held.awaiting@.len() == shards
            &&& held.frontier.flushed_lsn@.len() == shards
            &&& held.frontier.journals == frontier.journals
            &&& forall|s: int|
                0 <= s < shards ==> (#[trigger] held.awaiting@[s] <==> !has_answered(
                    answers,
                    i,
                    s,
                ))
            &&& forall|j: int|
                0 <= j < i ==> (#[trigger] answers[j]).0 < shards
                    && held.frontier.flushed_lsn@[answers[j].0 as int] == answers[j].1
        },
        forall|j: int, k: int| 0 <= j < k < i ==> answers[j].0 != answers[k].0,
    decreases i,
{
    if i == 0 {
        assert forall|s: int| 0 <= s < shards implies !has_answered(answers, 0, s) by {}
    } else {
        lemma_answers(before, shards, frontier, cycle, states, answers, completed, i - 1);
        assert(completed[i - 1] is None);
        let held = states[i - 1].in_flight->0;
        let next = states[i].in_flight->0;
        let at = answers[i - 1].0 as int;
        assert(held.awaiting@[at]);
        assert(!has_answered(answers, i - 1, at));
        assert forall|s: int| 0 <= s < shards implies (#[trigger] next.awaiting@[s]
            <==> !has_answered(answers, i, s)) by {
            assert(held.awaiting@[s] <==> !has_answered(answers, i - 1, s));
            if has_answered(answers, i - 1, s) {
                let j = choose|j: int| 0 <= j < i - 1 && (#[trigger] answers[j]).0 == s;
                assert(answers[j].0 == s);
            }
            if s == at {
                assert(answers[i - 1].0 == s);
            }
        }
        assert forall|j: int, k: int| 0 <= j < k < i implies answers[j].0 != answers[k].0 by {
            if k == i - 1 && answers[j].0 == answers[k].0 {
                assert(has_answered(answers, i - 1, at));
            }
        }
        assert forall|j: int| 0 <= j < i implies (#[trigger] answers[j]).0 < shards
            && next.frontier.flushed_lsn@[answers[j].0 as int] == answers[j].1 by {
            if j < i - 1 {
                assert(answers[j].0 != answers[i - 1].0);
            }
        }
    }
}

/// A flush of `shards` shards completes exactly at the answer by which every one of them has
/// answered, in whatever order they do: which is the `shards`-th, as none answers twice. Its
/// frontier is the one that was flushed, with the position which each shard answered.
pub proof fn flush_completes_once_every_shard_answered(
    before: FlushState,
    shards: usize,
    frontier: Frontier,
    cycle: u64,
    states: Seq<FlushState>,
    answers: Seq<(usize, Lsn)>,
    completed: Seq<Option<Frontier>>,
    i: int,
)
    requires
        states.len() > 0,
        before.begins(shards, frontier, cycle, states[0]),
        frontier.flushed_lsn@.len() == shards,
        answered_in_turn(states, answers, completed),
        0 <= i < answers.len(),
        forall|j: int| 0 <= j < i ==> (#[trigger] completed[j]) is None,
    ensures
        completed[i] is Some <==> forall|s: int|
            0 <= s < shards ==> #[trigger] has_answered(answers, i + 1, s),
        completed[i] is Some <==> i + 1 == shards,
        completed[i] is Some <==> states[i + 1].in_flight is None,
        completed[i] matches Some(done) ==> {
            &&& done.journals == frontier.journals
            &&& done.flushed_lsn@.len() == shards
            &&& forall|j: int|
                0 <= j <= i ==> (#[trigger] answers[j]).0 < shards
                    && done.flushed_lsn@[answers[j].0 as int] == answers[j].1
        },
        forall|j: int, k: int| 0 <= j < k <= i ==> answers[j].0 != answers[k].0,
{
    lemma_answers(before, shards, frontier, cycle, states, answers, completed, i);
    let held = states[i].in_flight->0;
    let at = answers[i].0 as int;
    assert(states[i].answers(
        answers[i].0,
        answers[i].1,
        Ok::<Option<Frontier>, SliceError>(completed[i]),
        states[i + 1],
    ));
    assert(held.awaiting@[at]);
    assert(!has_answered(answers, i, at));
    assert forall|j: int, k: int| 0 <= j < k <= i implies answers[j].0 != answers[k].0 by {
        if k == i && answers[j].0 == answers[k].0 {
            assert(has_answered(answers, i, at));
        }
    }
    assert forall|s: int| 0 <= s < shards implies (#[trigger] has_answered(answers, i + 1, s)
        <==> !held.awaiting@[s] || s == at) by {
        if s == at {
            assert(answers[i].0 == s);
        }
        if has_answered(answers, i, s) {
            let j = choose|j: int| 0 <= j < i && (#[trigger] answers[j]).0 == s;
            assert(answers[j].0 == s);
        }
        if has_answered(answers, i + 1, s) {
            let j = choose|j: int| 0 <= j < i + 1 && (#[trigger] answers[j]).0 == s;
            if j < i {
                assert(has_answered(answers, i, s));
            }
        }
    }
    if completed[i] is Some {
        assert forall|s: int| 0 <= s < shards implies #[trigger] has_answered(
            answers,
            i + 1,
            s,
        ) by {
            if s != at {
                assert(!held.awaiting@[s]);
            }
        }
    } else {
        assert(exists|s: int| 0 <= s < shards && s != at && #[trigger] held.awaiting@[s]);
        let s = choose|s: int| 0 <= s < shards && s != at && #[trigger] held.awaiting@[s];
        assert(!has_answered(answers, i + 1, s));
    }
    assert forall|j: int| 0 <= j <= i implies (#[trigger] answers[j]).0 < shards by {
        if j == i {
            assert(held.awaits(at));
        }
    }
    lemma_distinct_answers(answers, i + 1, shards);
    if completed[i] is Some {
        let done = completed[i]->0;
        assert forall|j: int| 0 <= j <= i implies (#[trigger] answers[j]).0 < shards
            && done.flushed_lsn@[answers[j].0 as int] == answers[j].1 by {
            if j < i {
                assert(answers[j].0 != answers[i].0);
            }
        }
    }
}

/// `n` distinct shards of `shards` are all of them exactly if `n` is `shards`.
proof fn lemma_distinct_answers(answers: Seq<(usize, Lsn)>, n: int, shards: usize)
    requires
        0 <= n <= answers.len(),
        forall|j: int, k: int| 0 <= j < k < n ==> answers[j].0 != answers[k].0,
        forall|j: int| 0 <= j < n ==> (#[trigger] answers[j]).0 < shards,
    ensures
        n <= shards,
        n == shards <==> forall|s: int|
            0 <= s < shards ==> #[trigger] has_answered(answers, n, s),
{
    let named = Seq::new(n as nat, |j: int| answers[j].0 as int);
    let all = set_int_range(0, shards as int);
    lemma_int_range(0, shards as int);
    named.unique_seq_to_set();
    let given = named.to_set();
    assert(given.len() == n);
    assert forall|s: int| given.contains(s) implies all.contains(s) by {
        let j = choose|j: int| 0 <= j < named.len() && named[j] == s;
        assert(answers[j].0 == s);
    }
    lemma_len_subset(given, all);
    if n == shards {
        lemma_subset_equality(given, all);
        assert forall|s: int| 0 <= s < shards implies #[trigger] has_answered(answers, n, s) by {
            assert(all.contains(s));
            assert(given.contains(s));
            let j = choose|j: int| 0 <= j < named.len() && named[j] == s;
            assert(answers[j].0 == s);
        }
    }
    if forall|s: int| 0 <= s < shards ==> #[trigger] has_answered(answers, n, s) {
        assert forall|s: int| all.contains(s) implies given.contains(s) by {
            assert(has_answered(answers, n, s));
            let j = choose|j: int| 0 <= j < n && (#[trigger] answers[j]).0 == s;
            assert(named[j] == s);
        }
        assert(given =~= all);
    }
}

/// A shard answers a flush once. Another answer of it, or one without a flush, is an error
/// and changes nothing.
pub proof fn shards_answer_once(
    flush: FlushState,
    shard_index: usize,
    lsn: Lsn,
    completed: Result<Option<Frontier>, SliceError>,
    next: FlushState,
)
    requires
        flush.answers(shard_index, lsn, completed, next),
    ensures
        completed is Err <==> (flush.in_flight matches Some(held) ==> shard_index
            >= held.awaiting@.len() || !held.awaiting@[shard_index as int]),
        completed is Err ==> next == flush,
        completed is Ok ==> (next.in_flight matches Some(still)
            ==> !still.awaiting@[shard_index as int]),
        next.cycle == flush.cycle && next.ready == flush.ready,
{
}

// Appends.

/// The binding of a read of the Slice.
pub open spec fn binding_of<D>(m: ActorModel<D>, id: u32) -> Binding {
    m.topology.bindings@[m.reads[id as int].binding_index as int]
}

/// An Append carries what its document is ordered by in the Slice: the priority of its
/// binding, and the clock and delay which add up to its delayed clock. So two documents
/// compare in the log as they do in the heap.
pub proof fn appends_are_ordered_as_the_heap<D>(
    m: ActorModel<D>,
    ready: ReadyModel<D>,
    append: Append,
)
    requires
        m.ready_valid(ready),
        append.appends(binding_of(m, ready.read), ready.metas[0]),
    ensures
        append.priority == m.entry_of(ready).priority,
        append.clock + append.read_delay == m.entry_of(ready).adjusted_clock.0,
        append.priority == binding_of(m, ready.read).priority,
        append.read_delay == binding_of(m, ready.read).read_delay.0,
        append.clock == ready.metas[0].clock.0,
{
    assert(ready.metas[0].clock.0 + binding_of(m, ready.read).read_delay.0 <= u64::MAX);
}

/// An Append identifies its document: the binding, producer, flags and length that it was
/// read with. Appends of documents which differ in any of these differ in them.
pub proof fn appends_identify_their_document(
    append: Append,
    binding: Binding,
    meta: Meta,
    other: Append,
    other_binding: Binding,
    other_meta: Meta,
)
    requires
        append.appends(binding, meta),
        other.appends(other_binding, other_meta),
    ensures
        append.binding == other.binding <==> binding.index == other_binding.index,
        append.producer == other.producer <==> meta.producer == other_meta.producer,
        append.clock == other.clock <==> meta.clock == other_meta.clock,
        append.flags == other.flags <==> meta.flags == other_meta.flags,
        append.binding == binding.index,
        append.producer == meta.producer,
        append.flags == meta.flags,
        meta.begin_offset + append.source_byte_length == meta.end_offset,
{
}

/// An Append names its journal as its target encodes it.
pub proof fn appends_name_their_journal(append: Append, target: AppendTarget)
    requires
        append.names(target),
    ensures
        append.journal_name_suffix@ == target.suffix@,
        append.journal_name_truncate_delta == target.truncate_delta,
{
}

/// Each target of an append was sent the name of the document's journal last, and every
/// other shard what it was sent before.
pub proof fn names_are_those_last_sent(
    sent: Seq<Seq<char>>,
    targets: Seq<AppendTarget>,
    journal: Seq<char>,
    shard: int,
)
    requires
        0 <= shard < sent.len(),
    ensures
        names_sent(sent, targets, journal).len() == sent.len(),
        (exists|i: int| 0 <= i < targets.len() && (#[trigger] targets[i]).shard_index == shard)
            ==> names_sent(sent, targets, journal)[shard] == journal,
        (forall|i: int| 0 <= i < targets.len() ==> (#[trigger] targets[i]).shard_index != shard)
            ==> names_sent(sent, targets, journal)[shard] == sent[shard],
{
}

// Draining.

/// The clock of the head document of `ready`, plus the delay of its binding.
pub open spec fn delayed_clock<D>(m: ActorModel<D>, ready: ReadyModel<D>) -> int {
    ready.metas[0].clock.0 + binding_of(m, ready.read).read_delay.0
}

/// No document is taken before wall-clock time reaches its clock plus the delay of its
/// binding, whatever its priority, nor while a read is stalled or probed, nor before a
/// flush that is due. The wait for a document is until just that time.
pub proof fn documents_are_withheld_until_due<D>(
    m: ActorModel<D>,
    now: Clock,
    step: Result<Step, SliceError>,
)
    requires
        m.valid(),
        m.steps(now, step),
    ensures
        step matches Ok(Step::Head { .. }) ==> {
            &&& m.heap.len() > 0
            &&& delayed_clock(m, m.heap[0].ready) <= now.0
            &&& m.stalled_reads.len() == 0 && m.pending_probes == 0
            &&& !(m.flush.ready && m.flush.in_flight is None)
        },
        step is Err ==> m.heap.len() > 0 && delayed_clock(m, m.heap[0].ready) <= now.0,
        step matches Ok(Step::Delay { until }) ==> {
            &&& m.heap.len() > 0
            &&& until.0 == delayed_clock(m, m.heap[0].ready)
            &&& until.0 > now.0
        },
{
    if m.heap.len() > 0 {
        assert(m.entry_valid(m.heap[0]));
        let ready = m.heap[0].ready;
        assert(ready.metas[0].clock.0 + binding_of(m, ready.read).read_delay.0 <= u64::MAX);
    }
}

/// A flush is started exactly if commit progress awaits one, and none is in flight. Else the
/// first batch of a backfill is drained, if there is one. Else the Slice idles exactly while
/// a read is stalled or probed, or there is no ready document.
pub proof fn steps_are_taken_in_turn<D>(
    m: ActorModel<D>,
    now: Clock,
    step: Result<Step, SliceError>,
)
    requires
        m.valid(),
        m.steps(now, step),
    ensures
        step matches Ok(Step::Flush) <==> m.flush.ready && m.flush.in_flight is None,
        step matches Ok(Step::DrainBackfill { parked }) ==> {
            &&& parked < m.parked.len()
            &&& m.parked[parked as int].io is Draining
            &&& forall|j: int| 0 <= j < parked ==> !((#[trigger] m.parked[j]).io is Draining)
        },
        !(m.flush.ready && m.flush.in_flight is None) && (exists|k: int|
            0 <= k < m.parked.len() && (#[trigger] m.parked[k]).io is Draining) ==> (
        step matches Ok(Step::DrainBackfill { .. })),
        step matches Ok(Step::Idle) ==> m.heap.len() == 0 || m.stalled_reads.len() > 0
            || m.pending_probes > 0,
        step matches Ok(Step::Head { .. }) || step matches Ok(Step::Delay { .. }) || step is Err
            ==> m.heap.len() > 0 && m.stalled_reads.len() == 0 && m.pending_probes == 0,
{
    if exists|k: int| 0 <= k < m.parked.len() && (#[trigger] m.parked[k]).io is Draining {
        let k = choose|k: int| 0 <= k < m.parked.len() && (#[trigger] m.parked[k]).io is Draining;
        assert(m.drains(k));
    }
    if let Ok(Step::DrainBackfill { parked }) = step {
        assert forall|j: int| 0 <= j < parked implies !((#[trigger] m.parked[j]).io is Draining) by {
            assert(!m.drains(j));
        }
    }
}

/// The head of the heap is of the greatest priority of all bindings with ready documents,
/// and of those of one priority, of the least clock plus delay.
pub proof fn head_is_of_the_least_delayed_clock<D>(m: ActorModel<D>, i: int)
    requires
        m.valid(),
        0 <= i < m.heap.len(),
    ensures
        ({
            let head = m.heap[0].ready;
            let other = m.heap[i].ready;
            &&& binding_of(m, head.read).priority >= binding_of(m, other.read).priority
            &&& binding_of(m, head.read).priority == binding_of(m, other.read).priority
                ==> delayed_clock(m, head) <= delayed_clock(m, other)
        }),
{
    assert(m.entry_valid(m.heap[0]));
    assert(m.entry_valid(m.heap[i]));
    let (a, b) = (m.heap[0].ready, m.heap[i].ready);
    assert(a.metas[0].clock.0 + binding_of(m, a.read).read_delay.0 <= u64::MAX);
    assert(b.metas[0].clock.0 + binding_of(m, b.read).read_delay.0 <= u64::MAX);
    if i > 0 {
        assert(!m.heap[i].drains_before(m.heap[0]));
    }
}

/// Whether the documents of `a` drain strictly before those of `b`.
pub open spec fn precedes<D>(m: ActorModel<D>, a: ReadyModel<D>, b: ReadyModel<D>) -> bool {
    binding_of(m, a.read).priority > binding_of(m, b.read).priority || (binding_of(
        m,
        a.read,
    ).priority == binding_of(m, b.read).priority && delayed_clock(m, a) < delayed_clock(m, b))
}

/// Ready documents take their turn: they go in behind all which they do not strictly
/// precede, and before all which they do. Nothing else of the Slice changes.
pub proof fn ready_documents_take_their_turn<D>(m: ActorModel<D>, ready: ReadyModel<D>)
    requires
        m.valid(),
        m.ready_valid(ready),
    ensures
        ({
            let n = m.pushed(ready);
            exists|at: int|
                #![trigger n.heap[at]]
                {
                    &&& 0 <= at <= m.heap.len()
                    &&& n.heap == m.heap.insert(at, n.heap[at])
                    &&& n.heap[at].ready == ready
                    &&& forall|j: int| 0 <= j < at ==> !precedes(m, ready, (#[trigger] m.heap[j]).ready)
                    &&& forall|j: int|
                        at <= j < m.heap.len() ==> precedes(m, ready, (#[trigger] m.heap[j]).ready)
                }
        }),
        m.pushed(ready) == (ActorModel { heap: m.pushed(ready).heap, ..m }),
{
    let entry = m.entry_of(ready);
    let n = m.pushed(ready);
    let at = lemma_drain_inserts(m.heap, entry);
    assert(n.heap[at] == entry);
    assert(ready.metas[0].clock.0 + binding_of(m, ready.read).read_delay.0 <= u64::MAX);
    assert forall|j: int| 0 <= j < m.heap.len() implies precedes(
        m,
        ready,
        (#[trigger] m.heap[j]).ready,
    ) == entry.drains_before(m.heap[j]) by {
        assert(m.entry_valid(m.heap[j]));
        let other = m.heap[j].ready;
        assert(other.metas[0].clock.0 + binding_of(m, other.read).read_delay.0 <= u64::MAX);
    }
    assert(n.heap == m.heap.insert(at, entry));
}

// Sequencing and consumption.

/// How a document is sequenced follows from its flags, and from how its clock compares to
/// the last commit and to the greatest pending CONTINUE.
pub proof fn sequencing_follows_the_clocks(state: ProducerState, meta: Meta)
    ensures
        ({
            let newer = meta.clock.0 > state.last_commit.0;
            let open = state.max_continue.0 > 0;
            &&& stepped(state, meta) is Err <==> meta.flags == Flags::OutsideTxn && newer && open
            &&& stepped(state, meta) matches Ok(s) ==> {
                &&& s.is_append <==> meta.flags != Flags::AckTxn && newer && meta.clock.0
                    > state.max_continue.0
                &&& s.is_commit <==> (meta.flags == Flags::OutsideTxn && newer) || (meta.flags
                    == Flags::AckTxn && (newer || open))
                &&& s.is_commit ==> {
                    &&& s.producer_state.last_commit == meta.clock
                    &&& s.producer_state.max_continue.0 == 0
                    &&& meta.end_offset > i64::MIN ==> s.producer_state.offset == -meta.end_offset
                }
                &&& !s.is_commit ==> s.producer_state.last_commit == state.last_commit
                &&& !s.is_commit && !s.is_append ==> s.producer_state == state
                &&& s.is_append && !s.is_commit ==> {
                    &&& s.producer_state.max_continue == meta.clock
                    &&& s.producer_state.offset == if open {
                        state.offset
                    } else {
                        meta.begin_offset
                    }
                }
            }
        }),
{
}

/// A producer is gapped exactly if its greatest pending CONTINUE is one tick after its last
/// commit.
pub proof fn gapped_producers_are_one_tick_ahead(state: ProducerState)
    requires
        state.last_commit.0 < u64::MAX,
    ensures
        state.is_gapped() <==> state.max_continue.0 == state.last_commit.0 + 1,
        !state.reopened().is_gapped(),
        state.reopened().last_commit == state.last_commit,
        state.reopened().offset == state.offset,
        state.reopened().max_continue.0 == 0,
{
}

/// What a document does follows from whether its producer is gapped. If it is not, the
/// document is sequenced. If it is, a newer CONTINUE or ACK triggers a backfill from the
/// begin of the span, a newer OUTSIDE is sequenced as if the span had not been, an ACK which
/// is not newer rolls the span back, and anything else is dropped.
pub proof fn steps_follow_the_gap(state: ProducerState, meta: Meta)
    ensures
        ({
            let newer = meta.clock.0 > state.last_commit.0;
            let step = head_step(state, meta);
            if !state.is_gapped() {
                match stepped(state, meta) {
                    Ok(s) => step == Ok::<HeadStep, SequenceError>(
                        HeadStep::Sequence { sequenced: s, resolves_gap: false },
                    ),
                    Err(error) => step == Err::<HeadStep, SequenceError>(error),
                }
            } else if newer && meta.flags == Flags::OutsideTxn {
                step matches Ok(HeadStep::Sequence { sequenced, resolves_gap }) && resolves_gap
                    && sequenced.is_append && sequenced.is_commit
                    && sequenced.producer_state.last_commit == meta.clock
                    && sequenced.producer_state.max_continue.0 == 0 && (meta.end_offset
                    > i64::MIN ==> sequenced.producer_state.offset == -meta.end_offset)
            } else if newer {
                step == Ok::<HeadStep, SequenceError>(
                    HeadStep::Trigger { gap_begin: state.offset },
                )
            } else if meta.flags == Flags::AckTxn {
                step == Ok::<HeadStep, SequenceError>(
                    HeadStep::Rollback { deep: meta.clock.0 < state.last_commit.0 },
                )
            } else {
                step == Ok::<HeadStep, SequenceError>(HeadStep::Drop)
            }
        }),
{
}

/// A producer's state is what was last installed of it: since the last flush, or else before
/// it, or else it is new.
pub proof fn states_are_those_last_installed(
    read: ReadModel,
    producer: Producer,
    state: ProducerState,
    other: Producer,
)
    ensures
        read.with_producer(producer, state).producer_state(producer) == state,
        other != producer ==> read.with_producer(producer, state).producer_state(other)
            == read.producer_state(other),
        read.pending.contains_key(producer.0) ==> read.producer_state(producer)
            == read.pending[producer.0],
        !read.pending.contains_key(producer.0) && read.settled.contains_key(producer.0)
            ==> read.producer_state(producer) == read.settled[producer.0],
        !read.pending.contains_key(producer.0) && !read.settled.contains_key(producer.0) ==> {
            &&& read.producer_state(producer).last_commit.0 == 0
            &&& read.producer_state(producer).max_continue.0 == 0
            &&& read.producer_state(producer).offset == 0
        },
{
}

/// Whether a step makes commit progress.
pub open spec fn commits(step: HeadStep) -> bool {
    match step {
        HeadStep::Rollback { .. } => true,
        HeadStep::Sequence { sequenced, .. } => sequenced.is_commit,
        _ => false,
    }
}

/// Consuming an ACK which makes commit progress keeps exactly its hints, after those before
/// it, whatever else the Slice is doing. Any other document adds none.
pub proof fn committing_acks_keep_their_hints<D>(
    m: ActorModel<D>,
    step: HeadStep,
    hints: Seq<JournalHints>,
)
    requires
        m.valid(),
        m.heap.len() > 0,
        m.step_of_head() == Ok::<HeadStep, SequenceError>(step),
        !(step is Trigger),
    ensures
        commits(step) && m.head().flags == Flags::AckTxn ==> m.consumed(step, hints).causal_hints
            == m.causal_hints + hints,
        !(commits(step) && m.head().flags == Flags::AckTxn) ==> m.consumed(
            step,
            hints,
        ).causal_hints == m.causal_hints,
{
}

/// Consuming a document makes a flush due exactly if it makes commit progress, or if one was
/// due already. The flush in flight, progress, counts of reads, parked main reads and names
/// that were sent are left as they are.
pub proof fn consumption_makes_a_flush_due<D>(
    m: ActorModel<D>,
    step: HeadStep,
    hints: Seq<JournalHints>,
)
    requires
        m.valid(),
        m.heap.len() > 0,
        m.step_of_head() == Ok::<HeadStep, SequenceError>(step),
        !(step is Trigger),
    ensures
        ({
            let n = m.consumed(step, hints);
            &&& n.flush.ready <==> m.flush.ready || commits(step)
            &&& n.flush.in_flight == m.flush.in_flight
            &&& n.flush.cycle == m.flush.cycle
            &&& n.progress == m.progress
            &&& n.topology == m.topology
            &&& n.log_prev_journal == m.log_prev_journal
            &&& n.pending_probes == m.pending_probes
            &&& n.pending_reads == m.pending_reads
            &&& n.tailing_reads == m.tailing_reads
            &&& n.stalled_reads == m.stalled_reads
            &&& n.parked == m.parked
        }),
{
}

/// Consuming a document installs what it leads its producer to, and advances its read past
/// it. A dropped document installs nothing. Nothing else of the read changes, and no other
/// read does.
pub proof fn consumption_installs_the_state<D>(
    m: ActorModel<D>,
    step: HeadStep,
    hints: Seq<JournalHints>,
)
    requires
        m.valid(),
        m.heap.len() > 0,
        m.step_of_head() == Ok::<HeadStep, SequenceError>(step),
        !(step is Trigger),
    ensures
        ({
            let id = m.heap[0].ready.read as int;
            let meta = m.heap[0].ready.metas[0];
            let before = m.reads[id];
            let after = m.consumed(step, hints).reads[id];
            &&& m.consumed(step, hints).reads == m.reads.update(id, after)
            &&& after.read_offset == meta.end_offset
            &&& after == (ReadModel {
                read_offset: after.read_offset,
                pending: after.pending,
                ..before
            })
            &&& match step {
                HeadStep::Drop => after.pending == before.pending,
                HeadStep::Sequence { sequenced, .. } => after.pending == before.pending.insert(
                    meta.producer.0,
                    sequenced.producer_state,
                ),
                _ => {
                    &&& after.pending == before.pending.insert(
                        meta.producer.0,
                        after.pending[meta.producer.0],
                    )
                    &&& after.pending[meta.producer.0].last_commit == meta.clock
                    &&& after.pending[meta.producer.0].max_continue.0 == 0
                    &&& after.pending[meta.producer.0].offset == -meta.end_offset
                },
            }
        }),
{
    assert(m.entry_valid(m.heap[0]));
    assert(m.heap[0].ready.metas[0].valid());
}

/// Consuming a document removes just it from the heap. Those which follow it in its batch
/// take their turn, and all others keep theirs.
pub proof fn consumption_continues_the_batch<D>(
    m: ActorModel<D>,
    step: HeadStep,
    hints: Seq<JournalHints>,
)
    requires
        m.valid(),
        m.heap.len() > 0,
        m.step_of_head() == Ok::<HeadStep, SequenceError>(step),
        !(step is Trigger),
    ensures
        ({
            let ready = m.heap[0].ready;
            let n = m.consumed(step, hints);
            if ready.metas.len() == 1 {
                n.heap == m.heap.drop_first()
            } else {
                exists|at: int|
                    #![trigger n.heap[at]]
                    {
                        &&& 0 <= at < m.heap.len()
                        &&& n.heap == m.heap.drop_first().insert(at, n.heap[at])
                        &&& n.heap[at].ready.read == ready.read
                        &&& n.heap[at].ready.metas == ready.metas.drop_first()
                        &&& n.heap[at].ready.docs == ready.docs.drop_first()
                    }
            }
        }),
{
    let ready = m.heap[0].ready;
    assert(m.entry_valid(m.heap[0]));
    lemma_popped(m);
    if ready.metas.len() > 1 {
        let n = m.consumed(step, hints);
        let base = ActorModel { heap: m.heap.drop_first(), ..n };
        let entry = base.entry_of(ready.rest());
        assert(n.heap == drain_insert(m.heap.drop_first(), entry));
        let at = lemma_drain_inserts(m.heap.drop_first(), entry);
        assert(n.heap[at] == entry);
    }
}

// Backfills.

/// A trigger parks its main read at it, with all that follows it, and nothing else of the
/// heap. The backfill is of the trigger's producer, from the begin of its span, and awaits
/// its first batch. The span is reinstated with the commit and begin that it had.
pub proof fn triggers_park_their_read<D>(m: ActorModel<D>, started_at: u64)
    requires
        m.valid(),
        m.heap.len() > 0,
    ensures
        ({
            let ready = m.heap[0].ready;
            let id = ready.read as int;
            let target = ready.metas[0].producer;
            let before = m.reads[id].producer_state(target);
            let n = m.triggered(started_at);
            let main = n.parked.last();
            &&& n.heap == m.heap.drop_first()
            &&& n.parked == m.parked.push(main)
            &&& main.ready == ready
            &&& main.target == target
            &&& main.gap_begin == before.offset
            &&& main.io is Reading && main.io.read() == ready.read
            &&& main.started_at == started_at && main.physical_bytes == 0
            &&& n.reads == m.reads.update(id, n.reads[id])
            &&& n.reads[id].pending == m.reads[id].pending.insert(
                target.0,
                n.reads[id].pending[target.0],
            )
            &&& n.reads[id].pending[target.0].last_commit == before.last_commit
            &&& n.reads[id].pending[target.0].max_continue.0 == 0
            &&& n.reads[id].pending[target.0].offset == before.offset
            &&& n == (ActorModel { heap: n.heap, parked: n.parked, reads: n.reads, ..m })
        }),
{
    assert(m.entry_valid(m.heap[0]));
}

/// Past the head of a batch, its other documents remain, in order. The read is awaited again
/// once there are none.
pub proof fn batches_advance_by_one_document<D>(io: IoModel<D>)
    requires
        io.metas().len() > 0,
    ensures
        io.advanced().metas() == io.metas().drop_first(),
        io.advanced().read() == io.read(),
        io.advanced() is Reading <==> io.metas().len() == 1,
{
    assert(io.advanced().metas() =~= io.metas().drop_first());
}

/// Draining and appending documents of a backfill touches just its own parked main read, of
/// which just the batch advances, and just the pending state of its target.
pub proof fn backfills_touch_their_target_only<D>(m: ActorModel<D>, k: int)
    requires
        m.valid(),
        0 <= k < m.parked.len(),
    ensures
        ({
            let id = m.parked[k].ready.read as int;
            let n = m.drained(k);
            &&& n == (ActorModel { reads: n.reads, parked: n.parked, ..m })
            &&& n.parked == m.parked.update(k, n.parked[k])
            &&& n.parked[k] == (ParkedModel { io: n.parked[k].io, ..m.parked[k] })
            &&& n.reads == m.reads.update(id, n.reads[id])
        }),
        m.append_due(k) ==> ({
            let id = m.parked[k].ready.read as int;
            let n = m.appended(k);
            &&& n == (ActorModel { reads: n.reads, parked: n.parked, ..m })
            &&& n.parked == m.parked.update(k, n.parked[k])
            &&& n.parked[k] == (ParkedModel { io: n.parked[k].io, ..m.parked[k] })
            &&& n.parked[k].io.metas() == m.parked[k].io.metas().drop_first()
            &&& n.reads == m.reads.update(id, n.reads[id])
            &&& n.reads[id].pending == m.reads[id].pending.insert(
                m.parked[k].target.0,
                n.reads[id].pending[m.parked[k].target.0],
            )
        }),
{
    assert(m.parked_valid(m.parked[k]));
    if m.append_due(k) {
        batches_advance_by_one_document(m.parked[k].io);
    }
}

/// What becomes of a backfill follows from how its historical read resolved. In every case
/// the reads of the Slice are untouched: their states, positions and write heads. The end of
/// the range completes it, and the trigger takes its turn again. The removal of its journal
/// releases it together with its trigger. A transient error changes nothing. A batch is held
/// to be drained, and its bytes are counted.
pub proof fn backfills_resolve_with_their_read<D>(
    m: ActorModel<D>,
    k: int,
    result: ReadResult<D>,
    now: u64,
    outcome: Result<BackfillOutcome, SliceError>,
    n: ActorModel<D>,
)
    requires
        m.valid(),
        0 <= k < m.parked.len(),
        m.backfill_resolves(k, result, now, outcome, n),
    ensures
        n.reads == m.reads && n.flush == m.flush && n.causal_hints == m.causal_hints,
        n == (ActorModel { heap: n.heap, parked: n.parked, ..m }),
        outcome is Err <==> result is Terminal,
        outcome matches Ok(BackfillOutcome::Completed(_)) <==> result is Eof,
        outcome matches Ok(BackfillOutcome::Removed) <==> result is JournalNotFound
            || result is Suspended,
        outcome matches Ok(BackfillOutcome::Retry) <==> result is Transient,
        outcome matches Ok(BackfillOutcome::Draining) <==> result is Batch,
        result is Terminal || result is Transient ==> n == m,
        result is Eof || result is JournalNotFound || result is Suspended ==> n.parked
            == m.parked.remove(k),
        result is JournalNotFound || result is Suspended ==> n.heap == m.heap,
        result is Eof ==> exists|at: int|
            #![trigger n.heap[at]]
            0 <= at <= m.heap.len() && n.heap == m.heap.insert(at, n.heap[at])
                && n.heap[at].ready == m.parked[k].ready,
        result matches ReadResult::Batch { physical_bytes, docs, metas, .. } ==> {
            let main = n.parked[k];
            &&& n.heap == m.heap
            &&& n.parked == m.parked.update(k, main)
            &&& main.io matches IoModel::Draining { batch }
            &&& batch.docs == docs@ && batch.metas == metas@ && batch.read
                == m.parked[k].ready.read
            &&& m.parked[k].physical_bytes + physical_bytes <= u64::MAX ==> main.physical_bytes
                == m.parked[k].physical_bytes + physical_bytes
            &&& main.ready == m.parked[k].ready && main.target == m.parked[k].target
            &&& main.gap_begin == m.parked[k].gap_begin
            &&& main.started_at == m.parked[k].started_at
        },
{
    assert(m.parked_valid(m.parked[k]));
    if result is Eof {
        let ready = m.parked[k].ready;
        let entry = m.unparked(k).entry_of(ready);
        let at = lemma_drain_inserts(m.heap, entry);
        assert(n.heap[at] == entry);
    }
}

/// A completed backfill reports the length of its range, from the begin of the span to the
/// trigger, the bytes that it fetched, how long it took, and whether the span is still empty.
pub proof fn completed_backfills_report_their_range<D>(m: ActorModel<D>, k: int, now: u64)
    requires
        m.valid(),
        0 <= k < m.parked.len(),
    ensures
        ({
            let main = m.parked[k];
            let done = m.completion(k, now);
            let state = m.reads[main.ready.read as int].producer_state(main.target);
            &&& done.read_key == main.ready.read
            &&& done.target == main.target
            &&& main.gap_begin + done.range_bytes == main.ready.metas[0].begin_offset
            &&& done.physical_bytes == main.physical_bytes
            &&& now >= main.started_at ==> main.started_at + done.duration_ms == now
            &&& now < main.started_at ==> done.duration_ms == 0
            &&& done.span_empty <==> state.max_continue.0 == 0
        }),
{
    assert(m.parked_valid(m.parked[k]));
}

// Reads.

/// What becomes of a main read follows from how it resolved. Just a batch changes the Slice:
/// the write head of the read is as was observed, and its documents take their turn, all of
/// them and in order. Positions and producers of the read are as before.
pub proof fn reads_resolve_with_their_result<D>(
    m: ActorModel<D>,
    id: u32,
    result: ReadResult<D>,
    outcome: Result<ReadOutcome, SliceError>,
    n: ActorModel<D>,
)
    requires
        m.valid(),
        id < m.reads.len(),
        m.read_resolves(id, result, outcome, n),
    ensures
        outcome is Err <==> result is Terminal,
        outcome matches Ok(ReadOutcome::Ready) <==> result is Batch,
        outcome matches Ok(ReadOutcome::Retry) <==> result is Transient,
        outcome matches Ok(ReadOutcome::StoppedEof) <==> result is Eof,
        outcome matches Ok(ReadOutcome::StoppedNotFound) <==> result is JournalNotFound,
        outcome matches Ok(ReadOutcome::StoppedSuspended) <==> result is Suspended,
        !(result is Batch) ==> n == m,
        n == (ActorModel { heap: n.heap, reads: n.reads, ..m }),
        result matches ReadResult::Batch { write_head, docs, metas, .. } ==> {
            &&& n.reads == m.reads.update(id as int, n.reads[id as int])
            &&& n.reads[id as int].write_head == write_head
            &&& n.reads[id as int] == (ReadModel {
                write_head: n.reads[id as int].write_head,
                ..m.reads[id as int]
            })
            &&& exists|at: int|
                #![trigger n.heap[at]]
                0 <= at <= m.heap.len() && n.heap == m.heap.insert(at, n.heap[at])
                    && n.heap[at].ready.docs == docs@ && n.heap[at].ready.metas == metas@
                    && n.heap[at].ready.read == id
        },
{
    if let ReadResult::Batch { write_head, docs, metas, .. } = result {
        let ready = ReadyModel { docs: docs@, metas: metas@, read: id };
        let entry = m.with_write_head(id, write_head).entry_of(ready);
        let at = lemma_drain_inserts(m.heap, entry);
        assert(n.heap[at] == entry);
    }
}

/// A failed read is reported with its journal and binding, whether it is historical, and the
/// failure itself.
pub proof fn failed_reads_report_their_failure(
    err: SliceError,
    journal: Seq<char>,
    binding: Binding,
    historical: bool,
    failure: ReadFailure,
)
    requires
        err.reports_read(journal, binding, historical, failure),
    ensures
        err matches SliceError::ReadFailed { journal: j, binding: b, historical: h, failure: f }
            && j@ == journal && b@ == binding.state_key@ && h == historical && f.cause@
            == failure.cause@ && f.stage == failure.stage,
{
}

/// A document which may not be sequenced, or which commits within a backfill, is reported
/// with its journal and binding, the document itself, and the state that it met.
pub proof fn failed_documents_report_their_context(
    err: SliceError,
    journal: Seq<char>,
    binding: Binding,
    state: ProducerState,
    meta: Meta,
    error: SequenceError,
)
    ensures
        err.reports_sequence(journal, binding, state, meta, error) ==> (err matches
            SliceError::Sequence { journal: j, binding: b, meta: m, producer_state: s, error: e }
            && j@ == journal && b@ == binding.state_key@ && m == meta && s == state && e == error),
        err.reports_commit(journal, binding, meta) ==> (err matches
            SliceError::CommitWithinBackfill { journal: j, binding: b, meta: m } && j@ == journal
            && b@ == binding.state_key@ && m == meta),
{
}

/// A read which is started is the next in turn. Its request is of its journal under its
/// binding's suffix, from the greatest offset of its checkpoint on and without end, and not
/// before the binding's time. All of its offsets are at that of the request, and it has no
/// progress to report.
pub proof fn started_reads_follow_their_checkpoint<D>(
    m: ActorModel<D>,
    start_read: StartRead,
    started: StartedRead,
)
    requires
        m.valid(),
        m.pending_probes < usize::MAX,
        checkpoint_valid(start_read.checkpoint@),
        m.starts(start_read, started),
    ensures
        ({
            let n = m.started(start_read);
            let read = n.reads.last();
            let binding = m.topology.bindings@[start_read.binding as int];
            &&& started.read_id == m.reads.len()
            &&& started.request.journal@ == start_read.spec->0.name@ + seq![';']
                + binding.journal_read_suffix@
            &&& started.request.begin_mod_time == binding.not_before
            &&& started.request.block && started.request.end_offset == 0
            &&& started.request.do_not_proxy && !started.request.metadata_only
            &&& started.request.min_etcd_revision == start_read.create_revision
            &&& started.request.header == start_read.route
            &&& started.request.offset == furthest(start_read.checkpoint@)
            &&& n.reads == m.reads.push(read)
            &&& read.binding_index == start_read.binding
            &&& read.journal == start_read.spec->0.name@
            &&& read.settled == recovered_states(
                start_read.checkpoint@,
                started.request.offset as int,
            )
            &&& read.pending == Map::<u64, ProducerState>::empty()
            &&& read.read_offset == started.request.offset
            &&& read.prev_read_offset == started.request.offset
            &&& read.write_head == started.request.offset
            &&& read.prev_write_head == started.request.offset
            &&& n.pending_probes == m.pending_probes + 1
            &&& n == (ActorModel { reads: n.reads, pending_probes: n.pending_probes, ..m })
        }),
{
    assert(m.topology.bindings@[start_read.binding as int].index == start_read.binding);
}

/// A read is refused exactly if its binding does not exist, or else if it has no journal.
pub proof fn refused_reads_lack_a_binding_or_journal<D>(
    m: ActorModel<D>,
    start_read: StartRead,
    started: StartedRead,
    err: SliceError,
)
    ensures
        m.start_error(start_read, err) ==> (start_read.binding >= m.topology.bindings@.len()
            && err is InvalidBinding) || (start_read.binding < m.topology.bindings@.len()
            && start_read.spec is None && err is MissingSpec),
        m.starts(start_read, started) ==> start_read.binding < m.topology.bindings@.len()
            && start_read.spec is Some,
{
}

/// A historical request is of just the range from the begin of a span to its trigger, of the
/// journal and content that the main read is of, and it does not wait for more.
pub proof fn historical_requests_are_of_their_range(
    request: ReadRequest,
    journal: Seq<char>,
    binding: Binding,
    begin: int,
    end: int,
)
    requires
        request.reads(journal, binding, begin),
        request.ends_at(end),
    ensures
        request.journal@ == journal + seq![';'] + binding.journal_read_suffix@,
        request.begin_mod_time == binding.not_before,
        request.offset == begin && request.end_offset == end,
        !request.block && request.do_not_proxy && !request.metadata_only,
{
}

/// A read which awaits content is counted as pending, and either as tailing or as stalled.
/// Once it resolved, it is counted as neither.
pub proof fn pending_reads_are_tailing_or_stalled<D>(m: ActorModel<D>, id: u32, tailing: bool)
    requires
        m.valid(),
        m.pending_reads < usize::MAX,
    ensures
        ({
            let n = m.pended(id, tailing);
            &&& n.pending_reads == m.pending_reads + 1
            &&& n.tailing_reads == m.tailing_reads + if tailing {
                1int
            } else {
                0
            }
            &&& tailing ==> n.stalled_reads == m.stalled_reads
            &&& !tailing ==> n.stalled_reads == m.stalled_reads.insert(id)
            &&& n == (ActorModel {
                pending_reads: n.pending_reads,
                tailing_reads: n.tailing_reads,
                stalled_reads: n.stalled_reads,
                ..m
            })
        }),
        m.stalled_reads.contains(id) || m.tailing_reads > 0 ==> ({
            let n = m.resolved(id);
            &&& n.pending_reads == m.pending_reads - 1
            &&& n.stalled_reads == m.stalled_reads.remove(id)
            &&& n.tailing_reads == m.tailing_reads - if m.stalled_reads.contains(id) {
                0int
            } else {
                1
            }
            &&& n == (ActorModel {
                pending_reads: n.pending_reads,
                tailing_reads: n.tailing_reads,
                stalled_reads: n.stalled_reads,
                ..m
            })
        }),
{
    if m.stalled_reads.contains(id) {
        assert(m.stalled_reads.len() > 0);
    } else {
        assert(m.stalled_reads.remove(id) =~= m.stalled_reads);
    }
}

/// The offsets at which a read effectively starts are all the same one, and it has advanced
/// by nothing. Progress moves its position alone.
pub proof fn reads_start_without_progress(read: ReadModel, offset: i64)
    ensures
        ({
            let n = read.started_at(offset);
            &&& n.read_offset == offset && n.prev_read_offset == offset
            &&& n.write_head == offset && n.prev_write_head == offset
            &&& n.pending == read.pending && n.settled == read.settled
            &&& n.journal == read.journal && n.binding_index == read.binding_index
            &&& n.bytes_read_delta() == 0 && n.bytes_behind_delta() == 0
        }),
        read.progressed_to(offset) == (ReadModel { read_offset: offset, ..read }),
{
}

// Flushes.

/// A flush takes all pending progress and hints, and awaits every shard. It settles every
/// producer in the state that it was in, and moves no position.
pub proof fn flushes_take_all_progress<D>(m: ActorModel<D>, cycle: u64, n: ActorModel<D>, i: int)
    requires
        m.valid(),
        m.flushes(cycle, n),
        0 <= i < m.reads.len(),
    ensures
        n.flush.cycle == m.flush.cycle + 1 && cycle == n.flush.cycle,
        !n.flush.ready && n.causal_hints.len() == 0,
        n.flush.in_flight matches Some(held) && held.awaiting@.len() == m.topology.shard_count
            && forall|s: int| 0 <= s < held.awaiting@.len() ==> #[trigger] held.awaiting@[s],
        n.reads.len() == m.reads.len(),
        n.reads[i].pending == Map::<u64, ProducerState>::empty(),
        n.reads[i].settled == m.reads[i].settled.union_prefer_right(m.reads[i].pending),
        n.reads[i].read_offset == m.reads[i].read_offset,
        n.reads[i].write_head == m.reads[i].write_head,
        !m.reads[i].pending.is_empty() ==> n.reads[i].prev_read_offset == m.reads[i].read_offset
            && n.reads[i].prev_write_head == m.reads[i].write_head,
        m.reads[i].pending.is_empty() ==> n.reads[i] == m.reads[i],
        n == (ActorModel {
            reads: n.reads,
            causal_hints: n.causal_hints,
            flush: n.flush,
            ..m
        }),
{
    if m.reads[i].pending.is_empty() {
        assert(m.reads[i].pending =~= Map::<u64, ProducerState>::empty());
        assert(m.reads[i].settled.union_prefer_right(m.reads[i].pending) =~= m.reads[i].settled);
    }
}

/// A response of a shard completes a flush exactly if it is the only one which was awaited,
/// and the frontier is then progress to report. It is refused exactly if it is not of the
/// current cycle, or of a shard that is not awaited.
pub proof fn responses_complete_the_flush<D>(
    m: ActorModel<D>,
    shard_index: usize,
    cycle: u64,
    lsn: Lsn,
    accepted: Result<(), SliceError>,
    n: ActorModel<D>,
)
    requires
        m.valid(),
        m.log_responds(
            shard_index,
            LogResponse::Flushed { cycle, flushed_lsn: lsn },
            accepted,
            n,
        ),
    ensures
        ({
            let awaited = m.flush.in_flight matches Some(held) && shard_index
                < held.awaiting@.len() && held.awaiting@[shard_index as int];
            &&& accepted is Ok <==> cycle == m.flush.cycle && awaited
            &&& accepted is Err ==> n == m
            &&& accepted is Ok ==> {
                let held = m.flush.in_flight->0;
                let last = forall|s: int|
                    0 <= s < held.awaiting@.len() && s != shard_index
                        ==> !#[trigger] held.awaiting@[s];
                &&& n.flush.in_flight is None <==> last
                &&& !last ==> n.progress == m.progress
                &&& last ==> n.progress.progressed is Some
                &&& last && m.progress.progressed is None ==> {
                    &&& n.progress.progressed->0.map() == held.frontier.map()
                    &&& n.progress.progressed->0.flushed_lsn@ == held.frontier.flushed_lsn@.update(
                        shard_index as int,
                        lsn,
                    )
                }
                &&& n.progress.requested == m.progress.requested
            }
            &&& n == (ActorModel { flush: n.flush, progress: n.progress, ..m })
            &&& n.flush.ready == m.flush.ready && n.flush.cycle == m.flush.cycle
        }),
{
}

/// What a flush records of a producer is its commit clock and its offset as they are, and no
/// hint. A span at the journal's head of a producer that never committed is marked by the
/// clock one.
pub proof fn flushes_record_states_as_they_are(producer: u64, state: ProducerState)
    ensures
        ({
            let entry = checkpoint_entry(producer, state);
            &&& entry.producer.0 == producer
            &&& entry.offset == state.offset
            &&& entry.hinted_commit.0 == 0
            &&& state.offset != 0 || state.last_commit.0 != 0 ==> entry.last_commit
                == state.last_commit
            &&& state.offset == 0 && state.last_commit.0 == 0 ==> entry.last_commit.0 == 1
        }),
{
}

/// Which outcome a document has follows from its flags, from whether it is newer than the last
/// commit, and from whether a span is pending: which an ACK commits or rolls back, and a
/// CONTINUE extends or is already part of.
pub proof fn outcomes_follow_the_clocks(state: ProducerState, meta: Meta)
    ensures
        ({
            let newer = meta.clock.0 > state.last_commit.0;
            let open = state.max_continue.0 > 0;
            let (out, con, ack) = (
                meta.flags == Flags::OutsideTxn,
                meta.flags == Flags::ContinueTxn,
                meta.flags == Flags::AckTxn,
            );
            let part = meta.clock.0 <= state.max_continue.0;
            let is = |o: SequenceOutcome|
                outcome_of(state, meta) == Ok::<SequenceOutcome, SequenceError>(o);
            &&& is(SequenceOutcome::OutsideCommit) <==> out && newer && !open
            &&& is(SequenceOutcome::OutsideDuplicate) <==> out && !newer
            &&& is(SequenceOutcome::ContinueBeginSpan) <==> con && newer && !open
            &&& is(SequenceOutcome::ContinueExtendSpan) <==> con && newer && open && !part
            &&& is(SequenceOutcome::ContinueDuplicate) <==> con && (!newer || part)
            &&& is(SequenceOutcome::AckCommit) <==> ack && newer && open
            &&& is(SequenceOutcome::AckEmpty) <==> ack && newer && !open
            &&& is(SequenceOutcome::AckCleanRollback) <==> ack && open && meta.clock
                == state.last_commit
            &&& is(SequenceOutcome::AckDeepRollback) <==> ack && open && meta.clock.0
                < state.last_commit.0
            &&& is(SequenceOutcome::AckDuplicate) <==> ack && !newer && !open
        }),
{
}

/// Causal hints are extracted of just the ACKs which make commit progress.
pub proof fn hints_are_of_committing_acks(state: ProducerState, meta: Meta, step: HeadStep)
    requires
        head_step(state, meta) == Ok::<HeadStep, SequenceError>(step),
    ensures
        step.spec_is_hinting(meta) <==> commits(step) && meta.flags == Flags::AckTxn,
{
}

/// The head of the heap is sequenced against the state of its own producer, of its own read,
/// and a backfill against that of its target. Each is of the binding of its read.
pub proof fn documents_meet_their_own_producer<D>(m: ActorModel<D>, k: int, id: u32)
    ensures
        m.head() == m.heap[0].ready.metas[0],
        m.head_read() == m.reads[m.heap[0].ready.read as int],
        m.head_state() == m.reads[m.heap[0].ready.read as int].producer_state(
            m.heap[0].ready.metas[0].producer,
        ),
        m.step_of_head() == head_step(
            m.reads[m.heap[0].ready.read as int].producer_state(
                m.heap[0].ready.metas[0].producer,
            ),
            m.heap[0].ready.metas[0],
        ),
        m.target_state(k) == m.reads[m.parked[k].ready.read as int].producer_state(
            m.parked[k].target,
        ),
        m.parked_read(k) == m.reads[m.parked[k].ready.read as int],
        m.parked[k].trigger() == m.parked[k].ready.metas[0],
        m.binding(id) == binding_of(m, id),
{
}

/// A read is ready exactly if an entry of the heap is of it, and parked exactly if a parked
/// main read is.
pub proof fn held_reads_are_ready_or_parked<D>(m: ActorModel<D>, id: u32, k: int)
    ensures
        m.is_ready(id) <==> exists|i: int|
            0 <= i < m.heap.len() && (#[trigger] m.heap[i]).ready.read == id,
        m.is_parked(id) <==> exists|i: int|
            0 <= i < m.parked.len() && (#[trigger] m.parked[i]).ready.read == id,
        m.parks(k, id) <==> 0 <= k < m.parked.len() && m.parked[k].ready.read == id,
{
}

/// A batch is drained up to its first document of the target which is to be appended, commits,
/// or is not allowed, and which is which: or else to its end. What is left is a tail of it.
pub proof fn drains_end_at_their_head<D>(read: ReadModel, target: Producer, io: IoModel<D>)
    ensures
        ({
            let at = drained(read, target, io);
            let left = at.io.metas();
            let met = stepped(at.read.producer_state(target), left[0]);
            &&& left.len() <= io.metas().len()
            &&& left == io.metas().skip(io.metas().len() - left.len())
            &&& at.end is Drained <==> left.len() == 0
            &&& left.len() > 0 ==> left[0].producer == target
            &&& at.end is Append ==> (met matches Ok(s) && s.is_append && !s.is_commit)
            &&& at.end is Commit ==> (met matches Ok(s) && s.is_commit)
            &&& at.end matches DrainEnd::Invalid { error } ==> met == Err::<
                Sequenced,
                SequenceError,
            >(error)
            &&& forall|i: int|
                0 <= i < io.metas().len() - left.len() ==> {
                    ||| (#[trigger] io.metas()[i]).producer != target
                    ||| stepped(read.producer_state(target), io.metas()[i]) matches Ok(s)
                        && !s.is_append && !s.is_commit
                }
        }),
    decreases io.metas().len(),
{
    if io.metas().len() == 0 {
        assert(io.metas().skip(0) =~= io.metas());
    } else {
        let meta = io.metas()[0];
        assert(io.metas().skip(0) =~= io.metas());
        assert(io.advanced().metas() =~= io.metas().drop_first());
        let skipped = meta.producer != target || (stepped(
            read.producer_state(target),
            meta,
        ) matches Ok(s) && !s.is_append && !s.is_commit);
        if skipped {
            let next = if meta.producer != target {
                read
            } else {
                read.with_producer(
                    target,
                    stepped(read.producer_state(target), meta)->Ok_0.producer_state,
                )
            };
            drains_end_at_their_head(next, target, io.advanced());
            let left = drained(read, target, io).io.metas();
            let n = io.metas().len() - left.len();
            assert(io.metas().drop_first().skip(n - 1) =~= io.metas().skip(n));
            assert forall|i: int| 0 <= i < n implies {
                ||| (#[trigger] io.metas()[i]).producer != target
                ||| stepped(read.producer_state(target), io.metas()[i]) matches Ok(s)
                    && !s.is_append && !s.is_commit
            } by {
                if i > 0 {
                    assert(io.advanced().metas()[i - 1] == io.metas()[i]);
                }
            }
        }
    }
}

/// An append of a backfill is due exactly if the head of its batch is of its target, and is to
/// be appended without a commit.
pub proof fn appends_are_due_of_the_target<D>(m: ActorModel<D>, k: int)
    requires
        m.valid(),
    ensures
        m.append_due(k) <==> {
            &&& 0 <= k < m.parked.len()
            &&& m.parked[k].io is Draining
            &&& m.parked[k].io.metas()[0].producer == m.parked[k].target
            &&& stepped(
                m.reads[m.parked[k].ready.read as int].producer_state(m.parked[k].target),
                m.parked[k].io.metas()[0],
            ) matches Ok(s)
            &&& s.is_append && !s.is_commit
        },
{
}

/// A batch is accepted of a read exactly if it has documents, each with its metadata, which
/// begin at or after the journal's head and end at or after their begin, and whose clocks can
/// be delayed. Any other resolution is accepted.
pub proof fn batches_of_valid_documents_are_accepted<D>(
    m: ActorModel<D>,
    id: u32,
    result: ReadResult<D>,
)
    ensures
        !(result is Batch) ==> result.batch_valid() && m.result_fits(id, result),
        result matches ReadResult::Batch { docs, metas, .. } ==> (result.batch_valid()
            && m.result_fits(id, result) <==> {
            &&& docs@.len() == metas@.len()
            &&& metas@.len() > 0
            &&& forall|i: int|
                0 <= i < metas@.len() ==> 0 <= (#[trigger] metas@[i]).begin_offset
                    <= metas@[i].end_offset && metas@[i].clock.0 + binding_of(m, id).read_delay.0
                    <= u64::MAX
        }),
{
    if let ReadResult::Batch { docs, metas, .. } = result {
        if result.batch_valid() && m.result_fits(id, result) {
            assert forall|i: int| 0 <= i < metas@.len() implies 0 <= (
            #[trigger] metas@[i]).begin_offset <= metas@[i].end_offset && metas@[i].clock.0
                + binding_of(m, id).read_delay.0 <= u64::MAX by {
                assert(metas@[i].valid());
            }
        }
        if docs@.len() == metas@.len() && metas@.len() > 0 && (forall|i: int|
            0 <= i < metas@.len() ==> 0 <= (#[trigger] metas@[i]).begin_offset
                <= metas@[i].end_offset && metas@[i].clock.0 + binding_of(m, id).read_delay.0
                <= u64::MAX) {
            assert(result.batch_valid());
            assert(m.result_fits(id, result));
        }
    }
}

/// A checkpoint can be resolved whose offsets have a magnitude, and whose clocks have a
/// successor: the clocks of skipped spans alone must have one.
pub proof fn representable_checkpoints_resolve(entries: Seq<ProducerFrontier>)
    ensures
        checkpoint_valid(entries) <==> forall|i: int|
            0 <= i < entries.len() ==> (#[trigger] entries[i]).offset > i64::MIN && (0
                <= entries[i].offset < furthest(entries) ==> entries[i].last_commit.0
                < u64::MAX),
{
}

/// A read can be flushed exactly if it has nothing to report, or if the bytes by which it
/// advanced and by which it fell behind are representable, as are its distances from its write
/// head, now and as last reported.
pub proof fn representable_reads_are_flushable(read: ReadModel)
    ensures
        read.flushable() <==> read.pending.is_empty() || ({
            let read_delta = read.read_offset - read.prev_read_offset;
            let behind = read.write_head - read.read_offset;
            let prev_behind = read.prev_write_head - read.prev_read_offset;
            &&& i64::MIN <= read_delta <= i64::MAX
            &&& i64::MIN <= behind <= i64::MAX
            &&& i64::MIN <= prev_behind <= i64::MAX
            &&& i64::MIN <= behind - prev_behind <= i64::MAX
        }),
{
}

/// A flush which is started is the next in turn. It awaits every shard, is of the frontier that
/// it was given, and takes the progress which it was due for.
pub proof fn flushes_begin_with_every_shard(
    flush: FlushState,
    shards: usize,
    frontier: Frontier,
    cycle: u64,
    next: FlushState,
)
    requires
        flush.begins(shards, frontier, cycle, next),
    ensures
        cycle == flush.cycle + 1 && next.cycle == cycle,
        !next.ready && !next.should_flush(),
        next.in_flight matches Some(held) && held.frontier == frontier && held.awaiting@.len()
            == shards && forall|s: int| 0 <= s < shards ==> #[trigger] held.awaiting@[s],
        flush.should_flush() <==> flush.ready && flush.in_flight is None,
{
}

/// A completed flush is reduced into the progress which is yet to be reported, and there is
/// then something to report exactly if a report was requested.
pub proof fn progress_accumulates_until_reported(
    progress: ProgressState,
    journals: Map<JournalKey, JournalModel>,
    lsns: Seq<Lsn>,
    next: ProgressState,
    key: JournalKey,
)
    requires
        progress_reduced(progress, journals, lsns, next),
    ensures
        next.has_progressed() <==> progress.requested,
        progress.has_progressed() <==> progress.requested && progress.progressed is Some,
        next.progressed is Some,
        progress.progressed is None ==> next.progressed->0.map() == journals
            && next.progressed->0.flushed_lsn@ == lsns,
        progress.progressed matches Some(held) ==> {
            let map = next.progressed->0.map();
            &&& map.contains_key(key) <==> held.map().contains_key(key) || journals.contains_key(key)
            &&& held.map().contains_key(key) && journals.contains_key(key) ==> map[key]
                == held.map()[key].reduced(journals[key])
            &&& held.map().contains_key(key) && !journals.contains_key(key) ==> map[key]
                == held.map()[key]
            &&& !held.map().contains_key(key) && journals.contains_key(key) ==> map[key]
                == journals[key]
            &&& next.progressed->0.flushed_lsn@ == lsns_reduced(held.flushed_lsn@, lsns)
        },
{
}

/// A frontier counts the producers which are hinted to commit beyond what was read of them, and
/// its journals ascend by name and binding, each with ascending producers.
pub proof fn frontiers_are_sorted_and_counted(frontier: Frontier, i: int, j: int, a: int, b: int)
    requires
        frontier.valid(),
        0 <= i < j < frontier.journals@.len(),
    ensures
        key_before(
            (frontier.journals@[i].journal@, frontier.journals@[i].binding),
            (frontier.journals@[j].journal@, frontier.journals@[j].binding),
        ),
        0 <= a < b < frontier.journals@[i].producers@.len()
            ==> frontier.journals@[i].producers@[a].producer.0
            < frontier.journals@[i].producers@[b].producer.0,
        unresolved_in(frontier.journals@) <= usize::MAX ==> frontier.unresolved_hints
            == unresolved_in(frontier.journals@),
{
    assert(frontier.journals@[i].valid());
    assert(key_before(frontier.journals@[i].key(), frontier.journals@[j].key()));
}

/// A backfill reads just what was skipped of its producer's span: from the offset which is
/// recorded of the producer, up to and without its trigger, which the main read then presents
/// again. So the two ranges meet, and do not overlap.
pub proof fn backfills_read_up_to_their_trigger<D>(m: ActorModel<D>, started: StartedBackfill)
    requires
        m.opens_backfill(started),
    ensures
        ({
            let ready = m.heap[0].ready;
            let read = m.reads[ready.read as int];
            let binding = binding_of(m, ready.read);
            &&& started.read_key == ready.read
            &&& started.target == ready.metas[0].producer
            &&& started.gap_begin == read.producer_state(ready.metas[0].producer).offset
            &&& started.trigger_begin == ready.metas[0].begin_offset
            &&& started.trigger_is_ack <==> ready.metas[0].flags == Flags::AckTxn
            &&& started.request.offset == read.producer_state(ready.metas[0].producer).offset
            &&& started.request.end_offset == ready.metas[0].begin_offset
            &&& started.request.journal@ == read.journal + seq![';']
                + binding.journal_read_suffix@
            &&& started.request.begin_mod_time == binding.not_before
            &&& !started.request.block && started.request.do_not_proxy
            &&& !started.request.metadata_only
            &&& started.request.min_etcd_revision == 0 && started.request.header is None
        }),
{
}

/// Every target of a document is sent one Append, in order, and all of them are of the same
/// key and the same archived document.
pub proof fn every_target_is_sent_the_document(
    requests: Seq<(usize, Append)>,
    binding: Binding,
    meta: Meta,
    key: Seq<u8>,
    doc: Seq<u8>,
    targets: Seq<AppendTarget>,
    i: int,
)
    requires
        are_appends_of(requests, binding, meta, key, doc, targets),
        0 <= i < targets.len(),
    ensures
        requests.len() == targets.len(),
        requests[i].0 == targets[i].shard_index,
        held(requests[i].1.packed_key) == key,
        held(requests[i].1.doc_archived) == doc,
        requests[i].1.journal_name_suffix@ == targets[i].suffix@,
        requests[i].1.journal_name_truncate_delta == targets[i].truncate_delta,
        requests[i].1.binding == binding.index,
        requests[i].1.priority == binding.priority,
        requests[i].1.read_delay == binding.read_delay.0,
        requests[i].1.producer == meta.producer,
        requests[i].1.clock == meta.clock.0,
        requests[i].1.flags == meta.flags,
        requests[i].1.source_byte_length == meta.end_offset - meta.begin_offset,
{
    let (shard_index, append) = requests[i];
}

/// Progress is reported exactly if it was requested and there is any. It is then reported
/// whole and with its totals, and neither the request nor the progress remains. Else nothing
/// changes.
pub proof fn progress_is_reported_once<D>(
    m: ActorModel<D>,
    report: Option<(Frontier, Measures)>,
    next: ActorModel<D>,
)
    requires
        m.reports(report, next),
    ensures
        report is Some <==> m.progress.requested && m.progress.progressed is Some,
        report is None ==> next == m,
        report matches Some((frontier, measures)) ==> {
            &&& m.progress.progressed == Some(frontier)
            &&& !next.progress.requested && next.progress.progressed is None
            &&& next == (ActorModel { progress: next.progress, ..m })
            &&& measures.journals == frontier.journals@.len()
            &&& producers_in(frontier.journals@) <= usize::MAX ==> measures.journal_producers
                == producers_in(frontier.journals@)
            &&& measures.bytes_read_delta == bytes_read_in(frontier.journals@)
            &&& measures.bytes_behind_delta == bytes_behind_in(frontier.journals@)
        },
{
}

} // verus!
