use bytes::{Bytes, BytesMut};
use shuffle::actor::SliceActor;
use shuffle::append::AppendTarget;
use shuffle::drain::{HeadStep, Step};
use shuffle::frontier::{Lsn, ProducerFrontier};
use shuffle::heap::{ReadyReadEntry, ReadyReadHeap};
use shuffle::read::{Meta, ReadyRead};
use shuffle::reading::{JournalSpec, ReadOutcome, ReadResult, StartRead};
use shuffle::request::{main_read_request, Header};
use shuffle::session::{accept_start, on_listing_task_done, ListingEnd, LogResponse, SliceRequest};
use shuffle::topology::{Binding, ReadFailure, ReadStage, SliceError, Topology};
use shuffle::uuid::{Clock, Flags, Producer};

fn binding(index: u16, priority: u32, read_delay: u64) -> Binding {
    Binding {
        index,
        state_key: format!("binding/{index}"),
        priority,
        read_delay: Clock::from_u64(read_delay),
        not_before: 1_700_000_000,
        journal_read_suffix: format!("suffix/{index}"),
    }
}

fn topology(shard_count: usize, slice_shard_index: usize) -> Topology {
    Topology {
        session_id: 1,
        bindings: vec![binding(0, 1, 0), binding(1, 1, 50), binding(2, 9, 0)],
        shard_count,
        slice_shard_index,
    }
}

fn new_actor() -> SliceActor<u64> {
    SliceActor::new(topology(2, 0))
}

fn start_read(binding: u32, journal: &str) -> StartRead {
    StartRead {
        binding,
        spec: Some(JournalSpec { name: journal.to_string() }),
        create_revision: 12,
        route: None,
        checkpoint: vec![],
    }
}

fn started(actor: &mut SliceActor<u64>, binding: u32, journal: &str) -> u32 {
    let read_id = actor.on_start_read(start_read(binding, journal)).unwrap().read_id;
    actor.on_probe_resolved(read_id, 0);
    read_id
}

fn meta(producer: u64, clock: u64, flags: Flags, begin_offset: i64, end_offset: i64) -> Meta {
    Meta {
        producer: Producer(producer),
        clock: Clock::from_u64(clock),
        flags,
        begin_offset,
        end_offset,
    }
}

fn batch(metas: &[Meta]) -> ReadResult<u64> {
    ReadResult::Batch {
        write_head: 100,
        physical_bytes: 10,
        docs: metas.iter().map(|m| m.clock.as_u64()).collect(),
        metas: metas.iter().copied().collect(),
    }
}

fn outside(clock: u64) -> Meta {
    meta(7, clock, Flags::OutsideTxn, 0, 10)
}

fn next_at(actor: &SliceActor<u64>, now: u64) -> Step {
    actor.next_step(Clock::from_u64(now)).unwrap()
}

fn consume(actor: &mut SliceActor<u64>, now: u64) -> u64 {
    let Step::Head { step } = next_at(actor, now) else {
        panic!("a head step");
    };
    let doc = actor.ready_read_heap.peek().unwrap().inner.doc;
    actor.consume_head(step, vec![]);
    doc
}

#[test]
fn bindings_are_listed_round_robin() {
    assert_eq!(topology(2, 0).listed_bindings(), vec![0, 2]);
    assert_eq!(topology(2, 1).listed_bindings(), vec![1]);
    assert_eq!(topology(1, 0).listed_bindings(), vec![0, 1, 2]);
    assert_eq!(topology(7, 5).listed_bindings(), Vec::<usize>::new());
}

#[test]
fn session_opens_with_start() {
    assert!(accept_start(SliceRequest::Start).is_ok());
    assert!(matches!(
        accept_start(SliceRequest::Progress),
        Err(SliceError::UnexpectedRequest { request: SliceRequest::Progress }),
    ));
    let err = accept_start(SliceRequest::Other("Stop".to_string())).unwrap_err();
    let SliceError::UnexpectedRequest { request: SliceRequest::Other(other) } = err else {
        panic!("an unexpected request");
    };
    assert_eq!(other, "Stop");
}

#[test]
fn listings_may_not_end() {
    let cause = "a cause".to_string();
    let err = on_listing_task_done(ListingEnd::Panicked { cause: cause.clone() });
    assert!(matches!(err, SliceError::ListingPanicked { cause } if cause == "a cause"));
    assert!(matches!(on_listing_task_done(ListingEnd::Canceled), SliceError::ListingCanceled));
    let err = on_listing_task_done(ListingEnd::Failed { cause });
    assert!(matches!(err, SliceError::ListingFailed { cause } if cause == "a cause"));
}

#[test]
fn requests_of_the_session() {
    let mut actor = new_actor();
    assert!(actor.on_slice_request(SliceRequest::Progress).unwrap().is_none());
    assert!(actor.progress.requested);
    assert!(matches!(
        actor.on_slice_request(SliceRequest::Progress),
        Err(SliceError::ProgressAlreadyRequested),
    ));
    assert!(matches!(
        actor.on_slice_request(SliceRequest::Start),
        Err(SliceError::UnexpectedRequest { request: SliceRequest::Start }),
    ));
    assert!(matches!(
        actor.on_slice_request(SliceRequest::Other("Stop".to_string())),
        Err(SliceError::UnexpectedRequest { request: SliceRequest::Other(_) }),
    ));
    let read = actor.on_slice_request(SliceRequest::StartRead(start_read(1, "a/journal")));
    assert_eq!(read.unwrap().unwrap().read_id, 0);
}

#[test]
fn reads_start_from_their_checkpoint() {
    let mut actor = new_actor();
    let mut request = start_read(1, "a/journal");
    request.route = Some(Header { route: vec![1, 2, 3] });
    request.checkpoint = vec![
        ProducerFrontier {
            producer: Producer(7),
            last_commit: Clock::from_u64(100),
            hinted_commit: Clock::zero(),
            offset: 300,
        },
        ProducerFrontier {
            producer: Producer(9),
            last_commit: Clock::from_u64(200),
            hinted_commit: Clock::zero(),
            offset: -1000,
        },
    ];
    let started = actor.on_start_read(request).unwrap();
    assert_eq!(started.read_id, 0);
    assert_eq!(started.gaps.len(), 1);
    assert_eq!((started.gaps[0].producer, started.gaps[0].begin), (Producer(7), 300));

    let request = started.request;
    assert_eq!(request.journal, "a/journal;suffix/1");
    assert_eq!(request.offset, 1000);
    assert_eq!(request.end_offset, 0);
    assert_eq!(request.begin_mod_time, 1_700_000_000);
    assert_eq!(request.min_etcd_revision, 12);
    assert!(request.block && request.do_not_proxy && !request.metadata_only);
    assert_eq!(request.header.unwrap().route, vec![1, 2, 3]);

    assert_eq!(actor.pending_probes, 1);
    assert!(actor.heap_drain_blocked());
    assert!(actor.reads[0].producer_state(Producer(7)).is_gapped());
    assert!(!actor.reads[0].producer_state(Producer(9)).is_gapped());
    assert_eq!(actor.reads[0].binding_index, 1);
    actor.on_probe_resolved(0, 1500);
    assert_eq!(actor.pending_probes, 0);
    assert_eq!(actor.reads[0].read_offset, 1500);
    assert_eq!(actor.reads[0].prev_read_offset, 1500);
    assert_eq!(actor.reads[0].write_head, 1500);
    assert_eq!(actor.reads[0].prev_write_head, 1500);
    assert!(!actor.heap_drain_blocked());
}

#[test]
fn invalid_reads_are_refused() {
    let mut actor = new_actor();
    let mut request = start_read(3, "a/journal");
    request.spec = None;
    assert!(matches!(actor.on_start_read(request), Err(SliceError::InvalidBinding)));
    let mut request = start_read(2, "a/journal");
    request.spec = None;
    assert!(matches!(actor.on_start_read(request), Err(SliceError::MissingSpec)));
    assert!(actor.reads.is_empty());
    assert_eq!(actor.pending_probes, 0);
}

#[test]
fn probes_fast_forward_their_read() {
    let request = || main_read_request("a/journal", &binding(0, 0, 0), 100, 12, None);
    let (probed, tailing) = request().probed(500, 900, Some(Header { route: vec![9] }));
    assert_eq!(probed.offset, 500);
    assert_eq!(probed.header.unwrap().route, vec![9]);
    assert_eq!(probed.journal, "a/journal;suffix/0");
    assert!(!tailing);
    assert!(request().probed(900, 900, None).1);
    assert!(request().probed(901, 900, None).1);
}

#[test]
fn stalled_reads_block_the_heap() {
    let mut actor = new_actor();
    let a = started(&mut actor, 0, "a/journal");
    let b = started(&mut actor, 0, "b/journal");
    let c = started(&mut actor, 0, "c/journal");
    actor.process_read_result(a, batch(&[outside(5)])).unwrap();

    actor.park(b, true);
    assert!(!actor.heap_drain_blocked());
    actor.park(c, false);
    assert!(actor.heap_drain_blocked());
    assert_eq!(next_at(&actor, 10), Step::Idle);
    assert_eq!((actor.pending_reads, actor.tailing_reads), (2, 1));

    // Resolution undoes parking.
    assert!(actor.on_pending_read_resolved(c));
    assert!(!actor.heap_drain_blocked());
    assert!(!actor.on_pending_read_resolved(b));
    assert_eq!((actor.pending_reads, actor.tailing_reads), (0, 0));
    assert!(matches!(next_at(&actor, 10), Step::Head { .. }));

    // A read which is being probed blocks too.
    actor.on_start_read(start_read(0, "d/journal")).unwrap();
    assert_eq!(next_at(&actor, 10), Step::Idle);
}

#[test]
fn reads_resolve_to_content_or_a_status() {
    let mut actor = new_actor();
    let read = started(&mut actor, 0, "a/journal");
    for (result, outcome) in [
        (ReadResult::Transient, ReadOutcome::Retry),
        (ReadResult::Eof, ReadOutcome::StoppedEof),
        (ReadResult::JournalNotFound, ReadOutcome::StoppedNotFound),
        (ReadResult::Suspended, ReadOutcome::StoppedSuspended),
    ] {
        assert_eq!(actor.process_read_result(read, result).unwrap(), outcome);
        assert_eq!(actor.ready_read_heap.len(), 0);
    }
    let failure = ReadFailure { stage: ReadStage::Transcoding, cause: "invalid JSON".to_string() };
    let err = actor.process_read_result(read, ReadResult::Terminal(failure)).unwrap_err();
    let SliceError::ReadFailed { journal, binding, historical, failure } = err else {
        panic!("a failed read");
    };
    assert!(!historical);
    assert_eq!((failure.stage, failure.cause.as_str()), (ReadStage::Transcoding, "invalid JSON"));
    assert_eq!((journal.as_str(), binding.as_str()), ("a/journal", "binding/0"));

    assert_eq!(actor.reads[0].write_head, 0);
    assert!(!actor.is_held(read));
    let outcome = actor.process_read_result(read, batch(&[outside(5)]));
    assert_eq!(outcome.unwrap(), ReadOutcome::Ready);
    assert_eq!(actor.reads[0].write_head, 100);
    assert_eq!(actor.reads[0].read_offset, 0);
    assert_eq!(actor.ready_read_heap.len(), 1);
    assert!(actor.is_held(read));
    assert!(!actor.is_held(read + 1));
}

#[test]
fn batches_are_validated() {
    let mut actor = new_actor();
    let read = started(&mut actor, 1, "a/journal"); // Of a delay of 50.
    assert!(actor.accepts(read, &ReadResult::Eof));
    assert!(actor.accepts(read, &batch(&[outside(5)])));
    assert!(!actor.accepts(read, &batch(&[])));
    assert!(!actor.accepts(read, &batch(&[meta(7, 5, Flags::AckTxn, -1, 5)])));
    assert!(!actor.accepts(read, &batch(&[outside(5), meta(7, 5, Flags::AckTxn, 6, 5)])));
    assert!(actor.accepts(read, &batch(&[outside(u64::MAX - 50)])));
    assert!(!actor.accepts(read, &batch(&[outside(u64::MAX - 49)])));
    let uneven = ReadResult::Batch {
        write_head: 0,
        physical_bytes: 0,
        docs: [1, 2].into(),
        metas: [outside(5)].into(),
    };
    assert!(!actor.accepts(read, &uneven));
}

#[test]
fn documents_drain_by_priority_and_delayed_clock() {
    let mut actor = new_actor();
    for (binding, journal) in [(0, "a"), (1, "b"), (2, "c"), (0, "d")] {
        started(&mut actor, binding, journal);
    }
    actor.process_read_result(0, batch(&[outside(60), meta(7, 75, Flags::ContinueTxn, 10, 20)])).unwrap();
    actor.process_read_result(1, batch(&[outside(20)])).unwrap(); // Delayed to 70.
    actor.process_read_result(2, batch(&[outside(90)])).unwrap(); // Of a greater priority.
    actor.process_read_result(3, batch(&[outside(71)])).unwrap();

    // The head is awaited, though others are due.
    assert_eq!(next_at(&actor, 89), Step::Delay { until: Clock::from_u64(90) });
    let mut order = vec![];
    for _ in 0..5 {
        order.push(consume(&mut actor, 90));
        actor.flush.ready = false;
    }
    assert_eq!(order, vec![90, 60, 20, 71, 75]);
    assert_eq!(next_at(&actor, 90), Step::Idle);
}

#[test]
fn equal_entries_drain_in_turn() {
    let mut heap: ReadyReadHeap<u64> = ReadyReadHeap::new();
    assert!(heap.peek().is_none());
    let mut push = |doc, priority, clock| {
        heap.push(ReadyReadEntry {
            priority,
            adjusted_clock: Clock::from_u64(clock),
            inner: ReadyRead::new([doc].into(), [outside(1)].into(), 0).unwrap(),
        })
    };
    push(1, 5, 10);
    push(2, 5, 10);
    push(3, 6, 99);
    push(4, 5, 9);
    push(5, 5, 10);
    let mut order = vec![];
    while let Some(entry) = heap.pop() {
        order.push(entry.inner.doc);
    }
    assert_eq!(order, vec![3, 4, 1, 2, 5]);
    assert_eq!(heap.len(), 0);
}

#[test]
fn invalid_documents_fail_the_slice() {
    let mut actor = new_actor();
    let read = started(&mut actor, 0, "a/journal");
    let open = meta(7, 60, Flags::ContinueTxn, 0, 10);
    let invalid = meta(7, 70, Flags::OutsideTxn, 10, 20);
    actor.process_read_result(read, batch(&[open, invalid])).unwrap();
    assert_eq!(consume(&mut actor, 100), 60);
    let err = actor.next_step(Clock::from_u64(100)).unwrap_err();
    assert!(matches!(err, SliceError::Sequence { .. }));
}

#[test]
fn flushes_and_progress_over_a_session() {
    let mut actor = new_actor();
    let read = started(&mut actor, 0, "a/journal");
    actor
        .process_read_result(
            read,
            batch(&[
                meta(7, 60, Flags::ContinueTxn, 0, 10),
                meta(7, 60, Flags::AckTxn, 10, 20),
                meta(9, 70, Flags::OutsideTxn, 20, 30),
            ]),
        )
        .unwrap();
    assert_eq!(consume(&mut actor, 100), 60);
    assert!(!actor.flush.should_flush());
    assert_eq!(consume(&mut actor, 100), 60);
    assert_eq!(next_at(&actor, 100), Step::Flush);
    assert!(actor.is_flushable());
    assert_eq!(actor.start_flush(), 1);
    assert!(actor.reads[0].pending.is_empty());

    // Documents drain while the flush is in flight, but another does not start.
    assert_eq!(consume(&mut actor, 100), 70);
    assert_eq!(next_at(&actor, 100), Step::Idle);

    actor.on_slice_request(SliceRequest::Progress).unwrap();
    assert!(actor.take_progressed().is_none());
    let flushed = |cycle, lsn| LogResponse::Flushed { cycle, flushed_lsn: Lsn(lsn) };
    assert!(matches!(
        actor.on_log_response(0, LogResponse::Other("Opened".to_string())),
        Err(SliceError::UnexpectedLogResponse { shard_index: 0, response: LogResponse::Other(_) }),
    ));
    assert!(matches!(
        actor.on_log_response(0, flushed(2, 5)),
        Err(SliceError::UnexpectedLogResponse {
            shard_index: 0,
            response: LogResponse::Flushed { cycle: 2, flushed_lsn: Lsn(5) },
        }),
    ));
    actor.on_log_response(1, flushed(1, 6)).unwrap();
    assert!(matches!(
        actor.on_log_response(1, flushed(1, 6)),
        Err(SliceError::UnexpectedFlushed { shard_index: 1 }),
    ));
    assert!(actor.take_progressed().is_none());
    actor.on_log_response(0, flushed(1, 5)).unwrap();

    let (frontier, measures) = actor.take_progressed().unwrap();
    assert_eq!(frontier.flushed_lsn, vec![Lsn(5), Lsn(6)]);
    assert_eq!(
        frontier.journals[0].producers,
        vec![ProducerFrontier {
            producer: Producer(7),
            last_commit: Clock::from_u64(60),
            hinted_commit: Clock::zero(),
            offset: -20,
        }],
    );
    assert_eq!((measures.journals, measures.journal_producers), (1, 1));
    assert_eq!((measures.bytes_read_delta, measures.bytes_behind_delta), (20, 80));
    assert_eq!(measures.counted_bytes(), 20);
    assert!(actor.take_progressed().is_none());
    assert_eq!(next_at(&actor, 100), Step::Flush);
}

#[test]
fn unrepresentable_deltas_are_not_flushable() {
    let mut actor = new_actor();
    let read = started(&mut actor, 0, "a/journal");
    actor.process_read_result(read, batch(&[outside(5)])).unwrap();
    consume(&mut actor, 100);
    assert!(actor.is_flushable());
    actor.reads[0].write_head = i64::MAX;
    actor.reads[0].read_offset = -1;
    assert!(!actor.is_flushable());
}

#[test]
fn appends_carry_their_document() {
    let mut actor = new_actor();
    let read = started(&mut actor, 1, "a/journal");
    let document = meta(7, 60, Flags::ContinueTxn, 100, 142);
    let mut packed_key = BytesMut::new();
    packed_key.extend_from_slice(b"a-key");
    let doc = Bytes::from_static(b"a-document");
    let target = |shard_index, truncate_delta, suffix: &str| AppendTarget {
        shard_index,
        truncate_delta,
        suffix: suffix.to_string(),
    };

    let requests = actor.append_requests(
        read,
        &document,
        &mut packed_key,
        &doc,
        vec![target(1, 0, "a/journal"), target(0, -3, "nal")],
    );
    assert!(packed_key.is_empty());
    assert_eq!(actor.log_prev_journal, vec!["a/journal".to_string(), "a/journal".to_string()]);
    assert_eq!(requests.len(), 2);
    assert_eq!((requests[0].0, requests[1].0), (1, 0));
    assert_eq!(requests[0].1.journal_name_truncate_delta, 0);
    assert_eq!(requests[0].1.journal_name_suffix, "a/journal");
    assert_eq!(requests[1].1.journal_name_truncate_delta, -3);
    assert_eq!(requests[1].1.journal_name_suffix, "nal");
    for (_, append) in &requests {
        assert_eq!(append.binding, 1);
        assert_eq!(append.priority, 1);
        assert_eq!(append.read_delay, 50);
        assert_eq!(append.producer, Producer(7));
        assert_eq!(append.clock, 60);
        assert_eq!(append.flags, Flags::ContinueTxn);
        assert_eq!(append.packed_key, &b"a-key"[..]);
        assert_eq!(append.doc_archived, &b"a-document"[..]);
        assert_eq!(append.source_byte_length, 42);
    }

    // A name is remembered only of the shards which were sent it.
    let other = started(&mut actor, 0, "b/journal");
    let requests = actor.append_requests(
        other,
        &document,
        &mut packed_key,
        &doc,
        vec![target(1, 0, "b/journal")],
    );
    assert_eq!(requests[0].1.packed_key, &b""[..]);
    assert_eq!(actor.log_prev_journal, vec!["a/journal".to_string(), "b/journal".to_string()]);
}

#[test]
fn consumption_leaves_other_producers() {
    let mut actor = new_actor();
    let read = started(&mut actor, 0, "a/journal");
    actor
        .process_read_result(
            read,
            batch(&[meta(7, 60, Flags::ContinueTxn, 0, 10), meta(9, 61, Flags::ContinueTxn, 10, 20)]),
        )
        .unwrap();
    let Step::Head { step } = next_at(&actor, 100) else {
        panic!("a head step");
    };
    assert!(matches!(step, HeadStep::Sequence { .. }));
    assert_eq!(actor.consume_head(step, vec![]), None);
    let first = actor.reads[0].producer_state(Producer(7));
    assert_eq!(actor.reads[0].producer_state(Producer(9)).offset, 0);
    consume(&mut actor, 100);
    assert_eq!(actor.reads[0].producer_state(Producer(7)), first);
    assert_eq!(actor.reads[0].producer_state(Producer(9)).offset, 10);
}
