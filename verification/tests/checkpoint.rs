use shuffle::checkpoint::{is_resolvable, resolve_checkpoint, Gap};
use shuffle::frontier::ProducerFrontier;
use shuffle::producer::{build_flush_frontier, ProducerState};
use shuffle::producer_map::ProducerMap;
use shuffle::read::ReadState;
use shuffle::uuid::{Clock, Producer};

fn entry(producer: u64, last_commit: u64, offset: i64) -> ProducerFrontier {
    ProducerFrontier {
        producer: Producer(producer),
        last_commit: Clock::from_u64(last_commit),
        hinted_commit: Clock::zero(),
        offset,
    }
}

fn state(last_commit: u64, max_continue: u64, offset: i64) -> ProducerState {
    ProducerState {
        last_commit: Clock::from_u64(last_commit),
        max_continue: Clock::from_u64(max_continue),
        offset,
    }
}

#[test]
fn empty_checkpoint_starts_at_the_head() {
    let resolved = resolve_checkpoint(&vec![]);
    assert_eq!(resolved.offset, 0);
    assert!(resolved.producers.is_empty());
    assert!(resolved.gaps.is_empty());
}

#[test]
fn restart_is_at_the_furthest_position() {
    let resolved = resolve_checkpoint(&vec![
        entry(1, 100, -500),  // Committed before the restart.
        entry(3, 110, 300),   // A span which begins before it.
        entry(5, 120, -1000), // The furthest position.
        entry(7, 130, 1000),  // A span which begins at it.
    ]);
    assert_eq!(resolved.offset, 1000);
    assert_eq!(
        resolved.producers.entries(),
        vec![
            (Producer(1), state(100, 0, -500)),
            (Producer(3), state(110, 111, 300)),
            (Producer(5), state(120, 0, -1000)),
            (Producer(7), state(130, 0, 1000)),
        ],
    );
    assert_eq!(resolved.gaps, vec![Gap { producer: Producer(3), begin: 300 }]);
    assert!(resolved.producers.get(Producer(3)).unwrap().is_gapped());
    assert!(!resolved.producers.get(Producer(7)).unwrap().is_gapped());
}

#[test]
fn lone_span_is_read_from_its_begin() {
    let resolved = resolve_checkpoint(&vec![entry(1, 100, 300)]);
    assert_eq!(resolved.offset, 300);
    assert!(resolved.gaps.is_empty());
}

#[test]
fn entries_at_offset_zero_are_gapped_conservatively() {
    // Of a hint only, of a span at the journal's head, and of one with a real commit.
    let resolved = resolve_checkpoint(&vec![
        entry(1, 0, 0),
        entry(3, 1, 0),
        entry(5, 90, 0),
        entry(7, 120, -1000),
    ]);
    assert_eq!(
        resolved.gaps,
        vec![
            Gap { producer: Producer(1), begin: 0 },
            Gap { producer: Producer(3), begin: 0 },
            Gap { producer: Producer(5), begin: 0 },
        ],
    );
    assert_eq!(resolved.producers.get(Producer(1)), Some(state(0, 1, 0)));
    // The marker stands for no commit.
    assert_eq!(resolved.producers.get(Producer(3)), Some(state(0, 1, 0)));
    assert_eq!(resolved.producers.get(Producer(5)), Some(state(90, 91, 0)));

    // With no further position, they are read from the head.
    let resolved = resolve_checkpoint(&vec![entry(1, 0, 0), entry(3, 1, 0)]);
    assert_eq!(resolved.offset, 0);
    assert!(resolved.gaps.is_empty());
}

fn flushed_entry(producer: u64, pending: ProducerState) -> ProducerFrontier {
    let mut map = ProducerMap::new();
    map.insert(Producer(producer), pending);
    let mut reads = vec![ReadState {
        binding_index: 0,
        journal: "a/journal".to_string(),
        settled: ProducerMap::new(),
        pending: map,
        read_offset: 0,
        prev_read_offset: 0,
        write_head: 0,
        prev_write_head: 0,
    }];
    build_flush_frontier(&mut reads, vec![], 1).journals[0].producers[0]
}

#[test]
fn recovery_of_a_reinstated_span_is_idempotent() {
    for base in [entry(3, 110, 300), entry(3, 0, 0), entry(3, 1, 0)] {
        let fresh = entry(5, 120, -1000);
        let resolved = resolve_checkpoint(&vec![base, fresh]);
        let span = resolved.producers.get(Producer(3)).unwrap().reopened();
        // A flush carries the span before it commits, and the session then ends.
        let reduced = base.reduce(flushed_entry(3, span));
        let again = resolve_checkpoint(&vec![reduced, fresh]);
        assert_eq!(again.offset, resolved.offset);
        assert_eq!(again.gaps, resolved.gaps);
        assert_eq!(again.producers.entries(), resolved.producers.entries());
    }
}

#[test]
fn rollback_is_durable_over_restart() {
    let base = entry(3, 110, 300);
    let fresh = entry(5, 120, -1000);
    // A deep rollback, at an ACK which ends at 1200.
    let reduced = base.reduce(flushed_entry(3, state(90, 0, -1200)));
    assert_eq!(reduced, entry(3, 110, -1200)); // The reduced clock is monotonic.
    let again = resolve_checkpoint(&vec![reduced, fresh]);
    assert_eq!(again.offset, 1200);
    assert!(again.gaps.is_empty());
    assert!(!again.producers.get(Producer(3)).unwrap().is_gapped());
}

#[test]
fn checkpoints_must_be_representable() {
    assert!(is_resolvable(&vec![]));
    assert!(is_resolvable(&vec![entry(1, 100, -500), entry(3, 110, i64::MAX)]));
    assert!(!is_resolvable(&vec![entry(1, 100, i64::MIN)]));
    // The clock of a skipped span must have a successor.
    assert!(is_resolvable(&vec![entry(1, u64::MAX, -500), entry(3, u64::MAX, 500)]));
    assert!(!is_resolvable(&vec![entry(1, u64::MAX, 499), entry(3, 100, -500)]));
}

#[test]
fn checkpoints_follow_their_producers() {
    // Each state of a producer is flushed, and reduced into its checkpoint.
    let mut checkpoint = flushed_entry(3, state(0, 150, 0));
    assert_eq!(checkpoint, entry(3, 1, 0)); // A span at the journal's head.
    assert_eq!(resolve_checkpoint(&vec![checkpoint]).producers.get(Producer(3)), Some(state(0, 0, 0)));
    for (next, recovered) in [
        (state(150, 0, -40), state(150, 0, -40)),
        (state(150, 170, 40), state(150, 0, 40)),
        (state(150, 180, 40), state(150, 0, 40)),
        (state(180, 0, -90), state(180, 0, -90)),
    ] {
        checkpoint = checkpoint.reduce(flushed_entry(3, next));
        let resolved = resolve_checkpoint(&vec![checkpoint]);
        assert_eq!(resolved.producers.get(Producer(3)), Some(recovered));
        assert_eq!(resolved.offset, next.offset.abs());
    }
}
