use shuffle::frontier::{Frontier, JournalFrontier, Lsn, ProducerFrontier};
use shuffle::producer::{build_flush_frontier, JournalHints, ProducerState};
use shuffle::producer_map::ProducerMap;
use shuffle::read::ReadState;
use shuffle::uuid::{Clock, Producer};

fn producer(id: u8) -> Producer {
    Producer::from_bytes([id | 0x01, 0, 0, 0, 0, 0])
}

fn read_state(journal: &str, binding: u16, pending: &[(u8, u64, i64)]) -> ReadState {
    read_state_with_bytes(journal, binding, pending, 0, 0, 0, 0)
}

fn read_state_with_bytes(
    journal: &str,
    binding: u16,
    pending: &[(u8, u64, i64)],
    prev_read_offset: i64,
    write_head: i64,
    read_offset: i64,
    prev_write_head: i64,
) -> ReadState {
    let mut map = ProducerMap::new();
    for &(id, last_commit, offset) in pending {
        map.insert(
            producer(id),
            ProducerState {
                last_commit: Clock::from_u64(last_commit),
                max_continue: Clock::zero(),
                offset,
            },
        );
    }
    ReadState {
        binding_index: binding,
        journal: journal.to_string(),
        settled: ProducerMap::new(),
        pending: map,
        read_offset,
        prev_read_offset,
        write_head,
        prev_write_head,
    }
}

fn hint(journal: &str, binding: u16, producers: &[(u8, u64)]) -> JournalHints {
    JournalHints {
        journal: journal.to_string(),
        binding,
        producers: producers
            .iter()
            .map(|&(id, clock)| (producer(id), Clock::from_u64(clock)))
            .collect(),
    }
}

/// A journal entry: name, binding, (producer, last commit, hinted commit, offset)
/// entries, bytes read and bytes behind.
type Expect<'a> = (&'a str, u16, Vec<(u8, u64, u64, i64)>, i64, i64);

fn expect_frontier(frontier: &Frontier, unresolved_hints: usize, expect: &[Expect]) {
    assert_eq!(frontier.unresolved_hints, unresolved_hints);
    assert_eq!(frontier.flushed_lsn, vec![Lsn(0), Lsn(0), Lsn(0)]);
    assert_eq!(frontier.journals.len(), expect.len());
    for (journal, (name, binding, producers, read, behind)) in frontier.journals.iter().zip(expect)
    {
        expect_journal(journal, name, *binding, producers, *read, *behind);
    }
}

fn expect_journal(
    journal: &JournalFrontier,
    name: &str,
    binding: u16,
    producers: &[(u8, u64, u64, i64)],
    bytes_read_delta: i64,
    bytes_behind_delta: i64,
) {
    assert_eq!(journal.journal, name);
    assert_eq!(journal.binding, binding);
    assert_eq!(journal.bytes_read_delta, bytes_read_delta);
    assert_eq!(journal.bytes_behind_delta, bytes_behind_delta);
    let entries: Vec<ProducerFrontier> = producers
        .iter()
        .map(|&(id, last_commit, hinted_commit, offset)| ProducerFrontier {
            producer: producer(id),
            last_commit: Clock::from_u64(last_commit),
            hinted_commit: Clock::from_u64(hinted_commit),
            offset,
        })
        .collect();
    assert_eq!(journal.producers, entries);
}

/// Every pending producer has settled, and reported offsets are the new baselines.
fn expect_settled(
    read: &ReadState,
    journal: &str,
    binding: u16,
    settled: &[(u8, u64, i64)],
    read_offset: i64,
    write_head: i64,
) {
    assert_eq!(read.journal, journal);
    assert_eq!(read.binding_index, binding);
    assert!(read.pending.is_empty());
    let entries: Vec<(Producer, ProducerState)> = settled
        .iter()
        .map(|&(id, last_commit, offset)| {
            (
                producer(id),
                ProducerState {
                    last_commit: Clock::from_u64(last_commit),
                    max_continue: Clock::zero(),
                    offset,
                },
            )
        })
        .collect();
    assert_eq!(read.settled.entries(), entries);
    assert_eq!((read.read_offset, read.prev_read_offset), (read_offset, read_offset));
    assert_eq!((read.write_head, read.prev_write_head), (write_head, write_head));
}

#[test]
fn test_build_flush_frontier() {
    // Both empty.
    let mut reads = vec![];
    let f = build_flush_frontier(&mut reads, vec![], 3);
    expect_frontier(&f, 0, &[]);
    assert!(reads.is_empty());

    // Reads only. Reverse input order verifies sorting. journal/B fell 5000 bytes
    // behind, and advanced by 1200. journal/A is catching up.
    let mut reads = vec![
        read_state_with_bytes("journal/B", 0, &[(0x03, 200, -1000)], 43800, 50000, 45000, 43800),
        read_state_with_bytes("journal/A", 0, &[(0x01, 100, -500)], 8700, 10000, 9500, 9500),
        // No pending producers: not part of the frontier, and not modified.
        read_state_with_bytes("journal/C", 0, &[], 0, 25000, 123, 456),
    ];
    let f = build_flush_frontier(&mut reads, vec![], 3);
    expect_frontier(
        &f,
        0,
        &[
            ("journal/A", 0, vec![(0x01, 100, 0, -500)], 800, -300),
            ("journal/B", 0, vec![(0x03, 200, 0, -1000)], 1200, 5000),
        ],
    );
    expect_settled(&reads[0], "journal/B", 0, &[(0x03, 200, -1000)], 45000, 50000);
    expect_settled(&reads[1], "journal/A", 0, &[(0x01, 100, -500)], 9500, 10000);
    assert_eq!(reads[2].prev_read_offset, 0);
    assert_eq!(reads[2].read_offset, 123);
    assert_eq!(reads[2].prev_write_head, 456);
    assert_eq!(reads[2].write_head, 25000);
    assert!(reads[2].settled.is_empty() && reads[2].pending.is_empty());

    // Hints only. Reverse input order verifies sorting.
    let mut reads = vec![];
    let f = build_flush_frontier(
        &mut reads,
        vec![
            hint("journal/C", 1, &[(0x03, 300)]),
            hint("journal/A", 0, &[(0x01, 150)]),
        ],
        3,
    );
    expect_frontier(
        &f,
        2,
        &[
            ("journal/A", 0, vec![(0x01, 0, 150, 0)], 0, 0),
            ("journal/C", 1, vec![(0x03, 0, 300, 0)], 0, 0),
        ],
    );

    // Reads without pending producers are skipped.
    let mut reads = vec![
        read_state("journal/A", 0, &[(0x01, 100, -500)]),
        read_state("journal/B", 0, &[]),
    ];
    let f = build_flush_frontier(&mut reads, vec![], 3);
    expect_frontier(&f, 0, &[("journal/A", 0, vec![(0x01, 100, 0, -500)], 0, 0)]);
    expect_settled(&reads[0], "journal/A", 0, &[(0x01, 100, -500)], 0, 0);
    expect_settled(&reads[1], "journal/B", 0, &[], 0, 0);

    // Reads and hints reduce: journal/A is of reads only, journal/B is merged, and
    // journal/C is of hints only.
    let mut reads = vec![
        read_state_with_bytes("journal/A", 0, &[(0x01, 100, -500)], 18500, 20000, 19000, 19000),
        read_state_with_bytes(
            "journal/B",
            0,
            &[(0x03, 200, -1000), (0x05, 50, -200)],
            73000,
            80000,
            75000,
            76000,
        ),
    ];
    let f = build_flush_frontier(
        &mut reads,
        vec![
            hint("journal/B", 0, &[(0x03, 300)]),
            hint("journal/C", 1, &[(0x03, 300)]),
        ],
        3,
    );
    expect_frontier(
        &f,
        2,
        &[
            ("journal/A", 0, vec![(0x01, 100, 0, -500)], 500, 500),
            ("journal/B", 0, vec![(0x03, 200, 300, -1000), (0x05, 50, 0, -200)], 2000, 2000),
            ("journal/C", 1, vec![(0x03, 0, 300, 0)], 0, 0),
        ],
    );
    expect_settled(&reads[0], "journal/A", 0, &[(0x01, 100, -500)], 19000, 20000);
    let settled = [(0x03, 200, -1000), (0x05, 50, -200)];
    expect_settled(&reads[1], "journal/B", 0, &settled, 75000, 80000);

    // The same journal of different bindings: sorted by journal and then binding, and
    // the producers of each are independent.
    let mut reads = vec![
        read_state("journal/X", 2, &[(0x01, 100, -400)]),
        read_state("journal/X", 0, &[(0x03, 50, -200)]),
    ];
    let f = build_flush_frontier(&mut reads, vec![hint("journal/X", 1, &[(0x05, 250)])], 3);
    expect_frontier(
        &f,
        1,
        &[
            ("journal/X", 0, vec![(0x03, 50, 0, -200)], 0, 0),
            ("journal/X", 1, vec![(0x05, 0, 250, 0)], 0, 0),
            ("journal/X", 2, vec![(0x01, 100, 0, -400)], 0, 0),
        ],
    );
    expect_settled(&reads[0], "journal/X", 2, &[(0x01, 100, -400)], 0, 0);
    expect_settled(&reads[1], "journal/X", 0, &[(0x03, 50, -200)], 0, 0);

    // A producer which is hinted twice has one entry, of the greater clock.
    let mut reads = vec![];
    let f = build_flush_frontier(
        &mut reads,
        vec![hint("journal/A", 0, &[(0x01, 100), (0x01, 200)])],
        3,
    );
    expect_frontier(&f, 1, &[("journal/A", 0, vec![(0x01, 0, 200, 0)], 0, 0)]);

    // And that entry merges with the one of its read.
    let mut reads = vec![read_state("journal/A", 0, &[(0x01, 50, -300)])];
    let f = build_flush_frontier(
        &mut reads,
        vec![hint("journal/A", 0, &[(0x01, 100), (0x01, 200)])],
        3,
    );
    expect_frontier(&f, 1, &[("journal/A", 0, vec![(0x01, 50, 200, -300)], 0, 0)]);
    expect_settled(&reads[0], "journal/A", 0, &[(0x01, 50, -300)], 0, 0);

    // A span at the journal's head, of a producer which never committed, records the
    // marker. A span beyond the head does not, and neither does an entry at the head
    // with a real commit, nor one of a hint.
    let mut reads = vec![read_state(
        "journal/A",
        0,
        &[(0x01, 0, 0), (0x03, 0, 700), (0x05, 90, 0)],
    )];
    let f = build_flush_frontier(&mut reads, vec![hint("journal/B", 0, &[(0x07, 150)])], 3);
    expect_frontier(
        &f,
        1,
        &[
            ("journal/A", 0, vec![(0x01, 1, 0, 0), (0x03, 0, 0, 700), (0x05, 90, 0, 0)], 0, 0),
            ("journal/B", 0, vec![(0x07, 0, 150, 0)], 0, 0),
        ],
    );
    // The marker is of the frontier only.
    let settled = [(0x01, 0, 0), (0x03, 0, 700), (0x05, 90, 0)];
    expect_settled(&reads[0], "journal/A", 0, &settled, 0, 0);
}

#[test]
fn sentinel_marks_a_gapped_producer() {
    let mut state = ProducerState {
        last_commit: Clock::from_u64(100),
        max_continue: Clock::zero(),
        offset: 300,
    };
    assert!(!state.is_gapped());
    state.mark_gapped();
    assert!(state.is_gapped());
    assert_eq!(state.max_continue, Clock::from_u64(101));
    assert_eq!(state.last_commit, Clock::from_u64(100));
    assert_eq!(state.offset, 300);

    // A reconstructed span is not gapped, though it is empty.
    let span = state.reopened();
    assert!(!span.is_gapped());
    assert_eq!(
        span,
        ProducerState { last_commit: Clock::from_u64(100), max_continue: Clock::zero(), offset: 300 },
    );
}

#[test]
fn sentinel_wraps_at_the_greatest_clock() {
    let state = ProducerState {
        last_commit: Clock::from_u64(u64::MAX),
        max_continue: Clock::zero(),
        offset: 0,
    };
    assert!(state.is_gapped());
}

#[test]
fn default_state_has_observed_nothing() {
    assert_eq!(ProducerState::default(), ProducerState::new());
    assert_eq!(ProducerState::new().offset, 0);
    assert!(!ProducerState::new().is_gapped());
}

#[test]
fn flush_does_not_depend_on_order() {
    let reads = || {
        vec![
            read_state_with_bytes("journal/A", 0, &[(0x01, 100, -500)], 0, 70, 50, 0),
            read_state_with_bytes("journal/A", 0, &[(0x01, 90, 600)], 10, 30, 20, 0),
            read_state("journal/B", 1, &[(0x03, 7, 8)]),
        ]
    };
    let hints = || vec![hint("journal/A", 0, &[(0x01, 150)]), hint("journal/B", 1, &[(0x03, 5)])];

    let mut forward = reads();
    let mut backward = reads();
    backward.reverse();
    let mut backward_hints = hints();
    backward_hints.reverse();

    let a = build_flush_frontier(&mut forward, hints(), 3);
    let b = build_flush_frontier(&mut backward, backward_hints, 3);
    let expect: Vec<Expect> = vec![
        ("journal/A", 0, vec![(0x01, 100, 150, 600)], 60, 40),
        ("journal/B", 1, vec![(0x03, 7, 5, 8)], 0, 0),
    ];
    expect_frontier(&a, 1, &expect);
    expect_frontier(&b, 1, &expect);
}

#[test]
fn hinted_producers_do_not_depend_on_order() {
    for hints in [
        [(0x01, 100), (0x03, 50), (0x01, 200)],
        [(0x01, 200), (0x01, 100), (0x03, 50)],
        [(0x03, 50), (0x01, 200), (0x01, 100)],
    ] {
        let f = build_flush_frontier(&mut vec![], vec![hint("journal/A", 0, &hints)], 3);
        expect_frontier(&f, 2, &[("journal/A", 0, vec![(0x01, 0, 200, 0), (0x03, 0, 50, 0)], 0, 0)]);
    }
}

#[test]
fn all_bytes_are_reported_over_many_flushes() {
    let mut reads = vec![read_state_with_bytes("journal/A", 0, &[], 10, 100, 10, 100)];
    let (mut bytes_read, mut bytes_behind) = (0, 0);
    for (read_offset, write_head, pending) in [
        (30, 120, true),
        (40, 150, false),
        (90, 150, false),
        (95, 400, true),
        (200, 210, false),
        (210, 300, true),
    ] {
        reads[0].read_offset = read_offset;
        reads[0].write_head = write_head;
        if pending {
            reads[0].pending.insert(producer(0x01), ProducerState::new());
        }
        let f = build_flush_frontier(&mut reads, vec![], 3);
        assert_eq!(f.journals.len(), pending as usize);
        for journal in &f.journals {
            bytes_read += journal.bytes_read_delta;
            bytes_behind += journal.bytes_behind_delta;
        }
    }
    assert_eq!(bytes_read, 210 - 10);
    assert_eq!(bytes_behind, (300 - 210) - (100 - 10));
}

#[test]
fn byte_deltas_telescope_over_flushes() {
    let mut once = vec![read_state_with_bytes("journal/A", 0, &[(0x01, 1, -5)], 0, 100, 40, 0)];
    let first = build_flush_frontier(&mut once, vec![], 3);
    once[0].read_offset = 70;
    once[0].write_head = 120;
    // Without a pending producer, offsets are deferred.
    let deferred = build_flush_frontier(&mut once, vec![], 3);
    assert!(deferred.journals.is_empty());
    once[0].pending.insert(producer(0x01), ProducerState::new());
    let second = build_flush_frontier(&mut once, vec![], 3);

    assert_eq!(first.journals[0].bytes_read_delta, 40);
    assert_eq!(first.journals[0].bytes_behind_delta, 60);
    assert_eq!(second.journals[0].bytes_read_delta, 30);
    assert_eq!(second.journals[0].bytes_behind_delta, -10);
}

#[test]
fn producers_are_ordered_by_their_bytes() {
    assert!(Producer::from_bytes([1, 0, 0, 0, 0, 0]) > Producer::from_bytes([0, 255, 255, 255, 255, 255]));
    assert_eq!(Producer::from_bytes([0, 0, 0, 0, 1, 2]), Producer(258));
}

#[test]
fn producer_maps_iterate_in_order() {
    let mut map = ProducerMap::new();
    assert!(map.is_empty());
    assert_eq!(map.get(producer(0x05)), None);
    let state = |clock| ProducerState {
        last_commit: Clock::from_u64(clock),
        max_continue: Clock::zero(),
        offset: 0,
    };
    map.insert(producer(0x05), state(1));
    map.insert(producer(0x03), state(2));
    map.insert(producer(0x05), state(3));
    assert_eq!(map.entries(), vec![(producer(0x03), state(2)), (producer(0x05), state(3))]);

    let mut other = ProducerMap::new();
    other.insert(producer(0x03), state(9));
    other.insert(producer(0x07), state(8));
    map.drain_into(&mut other);
    assert!(map.is_empty());
    assert_eq!(
        other.entries(),
        vec![
            (producer(0x03), state(2)),
            (producer(0x05), state(3)),
            (producer(0x07), state(8)),
        ],
    );
}
