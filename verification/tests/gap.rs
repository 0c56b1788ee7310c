use shuffle::actor::SliceActor;
use shuffle::drain::{HeadStep, Step};
use shuffle::frontier::ProducerFrontier;
use shuffle::gap::{advance_backfill_cursor, BackfillIo, BackfillOutcome, CompletedBackfill};
use shuffle::producer::{JournalHints, ProducerState};
use shuffle::read::{Meta, ReadyRead};
use shuffle::reading::{JournalSpec, ReadOutcome, ReadResult, StartRead};
use shuffle::request::backfill_read_request;
use shuffle::topology::{
    sequence_producer, Binding, ReadFailure, ReadStage, SliceError, Topology,
};
use shuffle::uuid::{Clock, Flags, Producer};

const OUTSIDE: Flags = Flags::OutsideTxn;
const CONTINUE: Flags = Flags::ContinueTxn;
const ACK: Flags = Flags::AckTxn;

fn producer(id: u8) -> Producer {
    Producer::from_bytes([id | 0x01, 0, 0, 0, 0, 0])
}

fn meta(
    producer: Producer,
    clock: Clock,
    flags: Flags,
    begin_offset: i64,
    end_offset: i64,
) -> Meta {
    Meta {
        producer,
        clock,
        flags,
        begin_offset,
        end_offset,
    }
}

fn test_binding(index: u16, journal_read_suffix: &str) -> Binding {
    Binding {
        index,
        state_key: format!("binding/{index}"),
        priority: 0,
        read_delay: Clock::zero(),
        not_before: 1_700_000_000,
        journal_read_suffix: journal_read_suffix.to_string(),
    }
}

#[test]
fn test_backfill_read_request() {
    // The bounded historical read reads `[F, trigger_begin)` non-blocking, with the
    // journal and the `begin_mod_time` of the main read.
    let binding = test_binding(0, "/suffix");
    let req = backfill_read_request("test/journal", &binding, 300, 500);

    assert_eq!(
        req.journal,
        format!("test/journal;{}", binding.journal_read_suffix),
    );
    assert_eq!(req.offset, 300, "reads from F");
    assert_eq!(req.end_offset, 500, "exclusive end at ack begin");
    assert!(!req.block, "bounded historical read never blocks");
    assert!(req.do_not_proxy);
    assert_eq!(req.begin_mod_time, binding.not_before);
    assert_eq!(req.min_etcd_revision, 0);
    assert!(
        req.header.is_none(),
        "no write-head probe for a bounded range"
    );
}

#[test]
fn test_backfill_one_transaction_invariant() {
    let binding = test_binding(0, "/suffix");
    let p = producer(0x01);

    // The reconstructed span installed at trigger time: F = 200.
    let span = ProducerState {
        last_commit: Clock::from_u64(100),
        max_continue: Clock::zero(),
        offset: 200,
    };

    // A CONTINUE extends the reconstructed span, and is appended.
    let s = sequence_producer(
        span,
        "test/journal",
        &binding,
        &meta(p, Clock::from_u64(150), CONTINUE, 200, 210),
    )
    .expect("sequencing a CONTINUE succeeds");
    assert!(!s.is_commit, "a CONTINUE within the range never bails");

    // A committing ACK within the range is what a backfill fails upon.
    let s = sequence_producer(
        s.producer_state,
        "test/journal",
        &binding,
        &meta(p, Clock::from_u64(150), ACK, 210, 220),
    )
    .expect("sequencing an ACK succeeds");
    assert!(
        s.is_commit,
        "a committing ACK inside the range trips the one-transaction guard",
    );
}

const DEAD: Producer = Producer(0x03);
const FRESH: Producer = Producer(0x05);

type Document = (Producer, u64, Flags, i64, i64);

fn batch(documents: &[Document]) -> ReadResult<u64> {
    ReadResult::Batch {
        write_head: 5000,
        physical_bytes: 77,
        docs: documents.iter().map(|(_, clock, ..)| *clock).collect(),
        metas: documents
            .iter()
            .map(|&(p, clock, flags, begin, end)| meta(p, Clock::from_u64(clock), flags, begin, end))
            .collect(),
    }
}

fn entry(producer: Producer, last_commit: u64, offset: i64) -> ProducerFrontier {
    ProducerFrontier {
        producer,
        last_commit: Clock::from_u64(last_commit),
        hinted_commit: Clock::zero(),
        offset,
    }
}

fn state(last_commit: u64, max_continue: u64, offset: i64) -> ProducerState {
    ProducerState {
        last_commit: Clock::from_u64(last_commit),
        max_continue: Clock::from_u64(max_continue),
        offset,
    }
}

fn new_actor() -> SliceActor<u64> {
    SliceActor::new(Topology {
        session_id: 1,
        bindings: vec![test_binding(0, "/suffix"), test_binding(1, "/other")],
        shard_count: 2,
        slice_shard_index: 0,
    })
}

fn start(actor: &mut SliceActor<u64>, journal: &str, checkpoint: Vec<ProducerFrontier>) -> u32 {
    let started = actor
        .on_start_read(StartRead {
            binding: 0,
            spec: Some(JournalSpec { name: journal.to_string() }),
            create_revision: 12,
            route: None,
            checkpoint,
        })
        .unwrap();
    let offset = started.request.offset;
    actor.on_probe_resolved(started.read_id, offset);
    started.read_id
}

/// A Slice with one read, which restarted at 1000 and skipped a span of `DEAD` that
/// begins at 300.
fn gapped_actor(documents: &[Document]) -> SliceActor<u64> {
    let mut actor = new_actor();
    let id = start(
        &mut actor,
        "test/journal",
        vec![entry(DEAD, 100, 300), entry(FRESH, 200, -1000)],
    );
    assert_eq!(id, 0);
    let outcome = actor.process_read_result(0, batch(documents)).unwrap();
    assert_eq!(outcome, ReadOutcome::Ready);
    actor
}

fn next(actor: &SliceActor<u64>) -> Step {
    actor.next_step(Clock::from_u64(1_000_000)).unwrap()
}

fn head(actor: &SliceActor<u64>) -> HeadStep {
    match next(actor) {
        Step::Head { step } => step,
        other => panic!("not a head step: {other:?}"),
    }
}

/// Drain the backfill of the only parked main read, and return appended documents.
fn drain(actor: &mut SliceActor<u64>) -> Result<Vec<u64>, SliceError> {
    let mut appended = vec![];
    while actor.try_drain_backfill(0)? {
        let BackfillIo::Draining(cursor) = &actor.parked_mains[0].backfill.io else {
            panic!("an append is due of a batch");
        };
        appended.push(cursor.doc);
        actor.backfill_appended(0);
    }
    Ok(appended)
}

#[test]
fn ack_triggers_a_backfill_which_then_commits() {
    let mut actor = gapped_actor(&[(DEAD, 170, ACK, 1100, 1110), (FRESH, 300, OUTSIDE, 1110, 1120)]);
    assert_eq!(head(&actor), HeadStep::Trigger { gap_begin: 300 });

    let started = actor.start_backfill(10_000);
    assert_eq!(started.read_key, 0);
    assert_eq!(started.target, DEAD);
    assert_eq!((started.gap_begin, started.trigger_begin), (300, 1100));
    assert!(started.trigger_is_ack);
    assert_eq!(started.request.journal, "test/journal;/suffix");
    assert_eq!((started.request.offset, started.request.end_offset), (300, 1100));

    // The main read is parked at its trigger, and nothing else of it is reachable.
    assert_eq!(next(&actor), Step::Idle);
    assert_eq!(actor.ready_read_heap.len(), 0);
    assert_eq!(actor.reads[0].read_offset, 1000);
    assert_eq!(actor.reads[0].producer_state(DEAD), state(100, 0, 300));
    assert!(!actor.heap_drain_blocked());

    let resolved = actor.process_backfill_result(
        0,
        batch(&[
            (DEAD, 90, CONTINUE, 300, 310),   // Duplicate, of before the last commit.
            (DEAD, 150, CONTINUE, 310, 320),  // Appended.
            (FRESH, 150, ACK, 320, 330),      // Of another producer.
            (DEAD, 150, CONTINUE, 330, 340),  // Duplicate.
            (DEAD, 160, CONTINUE, 340, 350),  // Appended.
        ]),
        10_100,
    );
    assert_eq!(resolved.unwrap(), BackfillOutcome::Draining);
    assert_eq!(next(&actor), Step::DrainBackfill { parked: 0 });
    assert_eq!(drain(&mut actor).unwrap(), vec![150, 160]);
    assert_eq!(actor.reads[0].producer_state(DEAD), state(100, 160, 310));
    assert_eq!(actor.reads[0].producer_state(FRESH), state(200, 0, -1000));
    // Positions of the main read are untouched, and nothing committed.
    assert_eq!(actor.reads[0].read_offset, 1000);
    assert_eq!(actor.reads[0].write_head, 5000);
    assert!(!actor.flush.should_flush());
    assert_eq!(next(&actor), Step::Idle);

    // A transient error is retried, and the end of the range completes the backfill.
    let resolved = actor.process_backfill_result(0, ReadResult::Transient, 10_150);
    assert_eq!(resolved.unwrap(), BackfillOutcome::Retry);
    let resolved = actor.process_backfill_result(0, ReadResult::Eof, 10_250);
    assert_eq!(
        resolved.unwrap(),
        BackfillOutcome::Completed(CompletedBackfill {
            read_key: 0,
            target: DEAD,
            range_bytes: 800,
            physical_bytes: 77,
            duration_ms: 250,
            span_empty: false,
        }),
    );
    assert!(actor.parked_mains.is_empty());

    // The trigger is presented again, and commits.
    let step = head(&actor);
    let HeadStep::Sequence { sequenced, resolves_gap } = step else {
        panic!("the trigger is sequenced");
    };
    assert!(sequenced.is_commit && !sequenced.is_append && !resolves_gap);
    let hints = vec![JournalHints {
        journal: "other/journal".to_string(),
        binding: 1,
        producers: vec![(DEAD, Clock::from_u64(170))],
    }];
    assert_eq!(actor.consume_head(step, hints), None);
    assert_eq!(actor.reads[0].producer_state(DEAD), state(170, 0, -1110));
    assert_eq!(actor.reads[0].read_offset, 1110);
    assert_eq!(actor.causal_hints.len(), 1);
    assert!(actor.flush.should_flush());

    // What follows the trigger is next.
    assert_eq!(actor.ready_read_heap.peek().unwrap().inner.doc, 300);
}

#[test]
fn continue_triggers_a_backfill_which_stays_open() {
    let mut actor = gapped_actor(&[
        (DEAD, 170, CONTINUE, 1100, 1110),
        (DEAD, 180, CONTINUE, 1110, 1120),
        (DEAD, 180, ACK, 1120, 1130),
    ]);
    let started = actor.start_backfill(0);
    assert!(!started.trigger_is_ack);
    actor
        .process_backfill_result(0, batch(&[(DEAD, 150, CONTINUE, 300, 310)]), 0)
        .unwrap();
    assert_eq!(drain(&mut actor).unwrap(), vec![150]);
    actor.process_backfill_result(0, ReadResult::Eof, 0).unwrap();

    let mut appended = vec![];
    loop {
        let step = head(&actor);
        let HeadStep::Sequence { sequenced, .. } = step else {
            panic!("sequenced");
        };
        if sequenced.is_append {
            appended.push(actor.ready_read_heap.peek().unwrap().inner.doc);
        }
        let drained = actor.consume_head(step, vec![]);
        if drained.is_some() {
            assert_eq!(drained, Some(0));
            break;
        }
        assert!(!actor.flush.should_flush());
    }
    assert_eq!(appended, vec![170, 180]);
    assert_eq!(actor.reads[0].producer_state(DEAD), state(180, 0, -1130));
    assert!(actor.flush.should_flush());
}

#[test]
fn backfill_of_many_batches_recovers_the_whole_span() {
    let mut actor = gapped_actor(&[
        (DEAD, 190, CONTINUE, 1100, 1110),
        (DEAD, 190, CONTINUE, 1110, 1120), // Delivered again.
        (DEAD, 200, ACK, 1120, 1130),
    ]);
    actor.start_backfill(0);
    let mut appended = vec![];
    let batches: [&[Document]; 3] = [
        &[(DEAD, 150, CONTINUE, 300, 310), (FRESH, 160, OUTSIDE, 310, 320)],
        &[(DEAD, 150, CONTINUE, 320, 330), (DEAD, 160, CONTINUE, 330, 340)],
        &[(DEAD, 180, CONTINUE, 340, 350)],
    ];
    for documents in batches {
        actor.process_backfill_result(0, batch(documents), 0).unwrap();
        appended.extend(drain(&mut actor).unwrap());

        // A flush at any point carries the span as it was recovered, and disturbs nothing.
        actor.flush.set_ready();
        actor.start_flush();
        let frontier = &actor.flush.in_flight.as_ref().unwrap().frontier;
        assert_eq!(frontier.journals[0].producers[0], entry(DEAD, 100, 300));
        actor.flush.in_flight = None;
    }
    actor.process_backfill_result(0, ReadResult::Eof, 0).unwrap();
    loop {
        let step = head(&actor);
        let HeadStep::Sequence { sequenced, .. } = step else {
            panic!("sequenced");
        };
        assert!(!actor.reads[0].producer_state(DEAD).is_gapped());
        if sequenced.is_append {
            appended.push(actor.ready_read_heap.peek().unwrap().inner.doc);
        }
        if actor.consume_head(step, vec![]).is_some() {
            break;
        }
    }
    assert_eq!(appended, vec![150, 160, 180, 190]);
    assert_eq!(actor.reads[0].producer_state(DEAD), state(200, 0, -1130));
}

#[test]
fn lost_fragments_move_a_gap_to_what_was_found() {
    let mut actor = gapped_actor(&[(DEAD, 190, ACK, 1100, 1110)]);
    actor.start_backfill(0);
    actor.process_backfill_result(0, batch(&[(DEAD, 160, CONTINUE, 700, 710)]), 0).unwrap();
    assert_eq!(drain(&mut actor).unwrap(), vec![160]);
    actor.flush.set_ready();
    actor.start_flush();
    let frontier = &actor.flush.in_flight.as_ref().unwrap().frontier;
    let reduced = entry(DEAD, 100, 300).reduce(frontier.journals[0].producers[0]);
    assert_eq!(reduced, entry(DEAD, 100, 700));
}

#[test]
fn empty_backfill_begins_the_span_at_its_trigger() {
    let mut actor = gapped_actor(&[(DEAD, 170, CONTINUE, 1100, 1110)]);
    actor.start_backfill(500);
    let resolved = actor.process_backfill_result(0, ReadResult::Eof, 400);
    let BackfillOutcome::Completed(completed) = resolved.unwrap() else {
        panic!("completed");
    };
    assert!(completed.span_empty);
    assert_eq!(completed.duration_ms, 0); // A clock which regressed counts as none.
    assert_eq!(completed.physical_bytes, 0);

    // It does not trigger again.
    let step = head(&actor);
    let HeadStep::Sequence { sequenced, .. } = step else {
        panic!("sequenced");
    };
    assert!(sequenced.is_append);
    assert_eq!(sequenced.producer_state, state(100, 170, 1100));
    assert_eq!(actor.consume_head(step, vec![]), Some(0));
}

#[test]
fn gapped_duplicates_change_nothing() {
    let mut actor = gapped_actor(&[
        (DEAD, 100, CONTINUE, 1100, 1110),
        (DEAD, 90, OUTSIDE, 1110, 1120),
        (FRESH, 300, OUTSIDE, 1120, 1130),
    ]);
    for _ in 0..2 {
        let step = head(&actor);
        assert_eq!(step, HeadStep::Drop);
        assert_eq!(actor.consume_head(step, vec![]), None);
        assert!(actor.reads[0].pending.is_empty());
        assert!(actor.reads[0].producer_state(DEAD).is_gapped());
        assert!(!actor.flush.should_flush());
    }
    assert_eq!(actor.reads[0].read_offset, 1120);
    // Other producers continue.
    assert!(matches!(head(&actor), HeadStep::Sequence { .. }));
}

#[test]
fn rollbacks_resolve_a_gap_without_historical_reads() {
    for (clock, deep) in [(100, false), (90, true)] {
        let mut actor = gapped_actor(&[(DEAD, clock, ACK, 1100, 1110)]);
        let step = head(&actor);
        assert_eq!(step, HeadStep::Rollback { deep });
        let hints = vec![JournalHints {
            journal: "other/journal".to_string(),
            binding: 1,
            producers: vec![],
        }];
        assert_eq!(actor.consume_head(step, hints), Some(0));
        assert_eq!(actor.reads[0].producer_state(DEAD), state(clock, 0, -1110));
        assert_eq!(actor.causal_hints.len(), 1);
        assert!(actor.parked_mains.is_empty());
        assert!(actor.flush.should_flush());
    }
}

#[test]
fn outside_resolves_a_gap_without_historical_reads() {
    let mut actor = gapped_actor(&[(DEAD, 170, OUTSIDE, 1100, 1110)]);
    let step = head(&actor);
    let HeadStep::Sequence { sequenced, resolves_gap } = step else {
        panic!("sequenced");
    };
    assert!(resolves_gap && sequenced.is_append && sequenced.is_commit);
    // Hints are those of ACKs only.
    let hints = vec![JournalHints {
        journal: "other/journal".to_string(),
        binding: 1,
        producers: vec![],
    }];
    assert_eq!(actor.consume_head(step, hints), Some(0));
    assert!(actor.causal_hints.is_empty());
    assert_eq!(actor.reads[0].producer_state(DEAD), state(170, 0, -1110));
    assert!(actor.flush.should_flush());
}

#[test]
fn commit_within_a_backfill_is_an_error() {
    let mut actor = gapped_actor(&[(DEAD, 170, ACK, 1100, 1110)]);
    actor.start_backfill(0);
    actor
        .process_backfill_result(
            0,
            batch(&[(DEAD, 150, CONTINUE, 300, 310), (DEAD, 160, ACK, 310, 320)]),
            0,
        )
        .unwrap();
    assert!(actor.try_drain_backfill(0).unwrap());
    actor.backfill_appended(0);
    let err = actor.try_drain_backfill(0).unwrap_err();
    let SliceError::CommitWithinBackfill { journal, binding, meta } = err else {
        panic!("a commit within a backfill");
    };
    assert_eq!(journal, "test/journal");
    assert_eq!(binding, "binding/0");
    assert_eq!((meta.begin_offset, meta.producer), (310, DEAD));
    // The backfill is kept, and nothing committed.
    assert_eq!(actor.parked_mains.len(), 1);
    assert_eq!(actor.reads[0].producer_state(DEAD), state(100, 150, 300));
}

#[test]
fn outside_within_an_open_backfill_is_an_error() {
    let mut actor = gapped_actor(&[(DEAD, 170, ACK, 1100, 1110)]);
    actor.start_backfill(0);
    actor
        .process_backfill_result(
            0,
            batch(&[(DEAD, 150, CONTINUE, 300, 310), (DEAD, 160, OUTSIDE, 310, 320)]),
            0,
        )
        .unwrap();
    assert_eq!(actor.try_drain_backfill(0).unwrap(), true);
    actor.backfill_appended(0);
    assert!(matches!(actor.try_drain_backfill(0), Err(SliceError::Sequence { .. })));
}

#[test]
fn removed_journal_releases_its_backfill() {
    for removed in [ReadResult::JournalNotFound, ReadResult::Suspended] {
        let mut actor = gapped_actor(&[(DEAD, 170, ACK, 1100, 1110)]);
        actor.start_backfill(0);
        let resolved = actor.process_backfill_result(0, removed, 0);
        assert_eq!(resolved.unwrap(), BackfillOutcome::Removed);
        assert!(actor.parked_mains.is_empty());
        assert_eq!(actor.ready_read_heap.len(), 0);
        assert_eq!(next(&actor), Step::Idle);
        assert!(!actor.release_read_gaps(0));

        // A later appearance of the journal is a new read, which recovers nothing.
        assert_eq!(start(&mut actor, "test/journal", vec![]), 1);
        assert!(!actor.reads[1].producer_state(DEAD).is_gapped());
        assert_eq!(actor.reads[1].read_offset, 0);
    }
}

#[test]
fn failed_backfill_fails_the_slice() {
    let mut actor = gapped_actor(&[(DEAD, 170, ACK, 1100, 1110)]);
    actor.start_backfill(0);
    assert!(actor.is_held(0)); // It is parked.
    let failure = ReadFailure { stage: ReadStage::Reading, cause: "no fragment".to_string() };
    let err = actor.process_backfill_result(0, ReadResult::Terminal(failure), 0).unwrap_err();
    let SliceError::ReadFailed { journal, binding, historical, failure } = err else {
        panic!("a failed read");
    };
    assert!(historical);
    assert_eq!((failure.stage, failure.cause.as_str()), (ReadStage::Reading, "no fragment"));
    assert_eq!((journal.as_str(), binding.as_str()), ("test/journal", "binding/0"));
    // It is released as the session ends.
    assert_eq!(actor.release_backfills(), 1);
    assert_eq!(actor.release_backfills(), 0);
}

#[test]
fn backfills_do_not_block_other_reads() {
    let mut actor = gapped_actor(&[(DEAD, 170, ACK, 1100, 1110)]);
    actor.start_backfill(0);
    let other = start(&mut actor, "other/journal", vec![]);
    assert_eq!(other, 1);
    actor.process_read_result(1, batch(&[(FRESH, 400, OUTSIDE, 0, 10)])).unwrap();
    // A backfill which awaits a batch leaves the heap to drain.
    let step = head(&actor);
    assert!(matches!(step, HeadStep::Sequence { .. }));
    assert_eq!(actor.consume_head(step, vec![]), Some(1));
    assert!(actor.flush.should_flush());
    assert_eq!(next(&actor), Step::Flush);

    // An interim flush carries the unchanged span, and the backfill goes on.
    assert!(actor.is_flushable());
    actor.start_flush();
    let frontier = &actor.flush.in_flight.as_ref().unwrap().frontier;
    assert_eq!(frontier.journals.len(), 2);
    assert_eq!(frontier.journals[1].journal, "test/journal");
    assert_eq!(frontier.journals[1].producers, vec![entry(DEAD, 100, 300)]);
    assert_eq!(frontier.journals[1].bytes_read_delta, 0);
    assert_eq!(actor.reads[0].producer_state(DEAD), state(100, 0, 300));
    actor
        .process_backfill_result(0, batch(&[(DEAD, 150, CONTINUE, 300, 310)]), 0)
        .unwrap();
    assert_eq!(drain(&mut actor).unwrap(), vec![150]);
}

#[test]
fn each_read_may_have_a_backfill() {
    let checkpoint = || vec![entry(DEAD, 100, 300), entry(FRESH, 200, -1000)];
    let mut actor = new_actor();
    for id in 0..2 {
        assert_eq!(start(&mut actor, &format!("journal/{id}"), checkpoint()), id);
        actor.process_read_result(id, batch(&[(DEAD, 170, ACK, 1100, 1110)])).unwrap();
    }
    actor.start_backfill(0);
    actor.start_backfill(0);
    assert_eq!(actor.parked_mains.len(), 2);
    assert_eq!(actor.parked_index(1), Some(1));
    actor.process_backfill_result(1, batch(&[(DEAD, 150, CONTINUE, 300, 310)]), 0).unwrap();
    assert_eq!(next(&actor), Step::DrainBackfill { parked: 1 });
    actor.process_backfill_result(0, ReadResult::Eof, 0).unwrap();
    assert_eq!(actor.parked_index(0), None);
    assert_eq!(actor.parked_index(1), Some(0));
    assert_eq!(next(&actor), Step::DrainBackfill { parked: 0 });
}

#[test]
fn cursor_returns_its_read_once_drained() {
    let metas = [
        meta(DEAD, Clock::from_u64(1), CONTINUE, 0, 1),
        meta(DEAD, Clock::from_u64(2), CONTINUE, 1, 2),
    ];
    let ready = ReadyRead::new([10u64, 20].into(), metas.into(), 9).unwrap();
    let io = advance_backfill_cursor(BackfillIo::Draining(Box::new(ready)));
    let BackfillIo::Draining(cursor) = &io else {
        panic!("one document remains");
    };
    assert_eq!((cursor.doc, cursor.meta, cursor.inner), (20, metas[1], 9));
    assert!(matches!(advance_backfill_cursor(io), BackfillIo::Reading(9)));
}
