use shuffle::flush::{FlushState, ProgressState};
use shuffle::frontier::{Frontier, JournalFrontier, Lsn, Measures, ProducerFrontier};
use shuffle::topology::SliceError;
use shuffle::uuid::{Clock, Producer};

fn entry(producer: u64, last_commit: u64, hinted_commit: u64, offset: i64) -> ProducerFrontier {
    ProducerFrontier {
        producer: Producer(producer),
        last_commit: Clock::from_u64(last_commit),
        hinted_commit: Clock::from_u64(hinted_commit),
        offset,
    }
}

fn journal(name: &str, producers: Vec<ProducerFrontier>, read: i64, behind: i64) -> JournalFrontier {
    JournalFrontier {
        binding: 0,
        journal: name.to_string(),
        producers,
        bytes_read_delta: read,
        bytes_behind_delta: behind,
    }
}

fn lsns(positions: &[u64]) -> Vec<Lsn> {
    positions.iter().map(|p| Lsn(*p)).collect()
}

#[test]
fn entries_reduce_by_magnitude() {
    // The offset of greater magnitude wins, and clocks are monotonic.
    assert_eq!(entry(1, 100, 5, 300).reduce(entry(1, 90, 7, -400)), entry(1, 100, 7, -400));
    assert_eq!(entry(1, 100, 5, -300).reduce(entry(1, 110, 0, 200)), entry(1, 110, 5, -300));
    // A span begins where a commit ended.
    assert_eq!(entry(1, 100, 0, -300).reduce(entry(1, 100, 0, 300)), entry(1, 100, 0, 300));
    assert_eq!(entry(1, 100, 0, 300).reduce(entry(1, 100, 0, -300)), entry(1, 100, 0, 300));
}

#[test]
fn entries_reduce_in_any_order_and_grouping() {
    let (a, b, c) = (entry(1, 100, 5, 300), entry(1, 90, 7, -400), entry(1, 95, 6, i64::MIN));
    assert_eq!(a.reduce(b), b.reduce(a));
    assert_eq!(a.reduce(b).reduce(c), a.reduce(b.reduce(c)));
    assert_eq!(a.reduce(a), a);
    assert_eq!(a.reduce(b).reduce(c), entry(1, 100, 7, i64::MIN));
}

#[test]
fn commits_resolve_hinted_producers() {
    let resolved = |f: Frontier| f.unresolved_hints;
    let hinted = || Frontier::of_journals(vec![journal("a", vec![entry(1, 0, 150, 0)], 0, 0)], vec![]);
    let commit = |at| Frontier::of_journals(vec![journal("a", vec![entry(1, at, 0, -9)], 0, 0)], vec![]);
    assert_eq!(resolved(hinted()), 1);
    assert_eq!(resolved(hinted().reduce(commit(149))), 1);
    assert_eq!(resolved(hinted().reduce(commit(150))), 0);
}

#[test]
fn frontiers_reduce_journal_by_journal() {
    let a = Frontier::of_journals(
        vec![
            journal("a", vec![entry(1, 100, 150, -300)], 10, 1),
            journal("b", vec![entry(1, 100, 0, 5), entry(5, 1, 2, 3)], 20, 2),
        ],
        lsns(&[5, 9]),
    );
    assert_eq!(a.unresolved_hints, 2);
    let b = Frontier::of_journals(
        vec![
            journal("a", vec![entry(1, 160, 0, -400), entry(3, 0, 8, 0)], 30, -3),
            journal("c", vec![], 7, 7),
        ],
        lsns(&[7, 8, 1]),
    );
    let r = a.reduce(b);
    assert_eq!(r.flushed_lsn, lsns(&[7, 9, 1]));
    assert_eq!(r.unresolved_hints, 2); // The hint of "a" resolved, and another came.
    let names: Vec<&str> = r.journals.iter().map(|j| j.journal.as_str()).collect();
    assert_eq!(names, vec!["a", "b", "c"]);
    assert_eq!(r.journals[0].producers, vec![entry(1, 160, 150, -400), entry(3, 0, 8, 0)]);
    assert_eq!(r.journals[0].bytes_read_delta, 40);
    assert_eq!(r.journals[0].bytes_behind_delta, -2);
    assert_eq!(r.journals[1].producers, vec![entry(1, 100, 0, 5), entry(5, 1, 2, 3)]);
    assert_eq!(
        r.measures(),
        Measures {
            journals: 3,
            journal_producers: 4,
            bytes_read_delta: 67,
            bytes_behind_delta: 7,
        },
    );
}

#[test]
fn measures_do_not_overflow() {
    let f = Frontier::of_journals(
        vec![journal("a", vec![], i64::MAX, i64::MIN), journal("b", vec![], i64::MAX, i64::MIN)],
        vec![],
    );
    let measures = f.measures();
    assert_eq!(measures.bytes_read_delta, 2 * (i64::MAX as i128));
    assert_eq!(measures.bytes_behind_delta, 2 * (i64::MIN as i128));
    assert_eq!(measures.counted_bytes(), 2 * (i64::MAX as u64));

    let f = Frontier::of_journals(vec![journal("a", vec![], -5, 0)], vec![]);
    assert_eq!(f.measures().counted_bytes(), 0);
}

#[test]
fn journals_sort_by_bytes_and_then_binding() {
    let at = |name: &str, binding: u16| JournalFrontier {
        binding,
        journal: name.to_string(),
        producers: vec![],
        bytes_read_delta: 0,
        bytes_behind_delta: 0,
    };
    let mut r = Frontier::of_journals(vec![], vec![]);
    for (name, binding) in [("b", 0), ("a/b", 1), ("a", 7), ("\u{e9}", 0), ("a/b", 0), ("a-", 0)] {
        r = r.reduce(Frontier::of_journals(vec![at(name, binding)], vec![]));
    }
    let keys: Vec<(&str, u16)> = r.journals.iter().map(|j| (j.journal.as_str(), j.binding)).collect();
    assert_eq!(
        keys,
        vec![("a", 7), ("a-", 0), ("a/b", 0), ("a/b", 1), ("b", 0), ("\u{e9}", 0)],
    );
}

#[test]
fn flush_awaits_every_shard() {
    let mut flush = FlushState::new();
    assert!(!flush.should_flush());
    flush.set_ready();
    assert!(flush.should_flush());

    let frontier = Frontier::of_journals(vec![journal("a", vec![], 1, 1)], lsns(&[0, 0]));
    assert_eq!(flush.start(2, frontier), 1);
    assert!(!flush.should_flush());
    // Further progress awaits the flush in flight.
    flush.set_ready();
    assert!(!flush.should_flush());

    assert!(matches!(flush.on_flushed(2, Lsn(1)), Err(SliceError::UnexpectedFlushed { shard_index: 2 })));
    assert!(flush.on_flushed(1, Lsn(11)).unwrap().is_none());
    assert!(matches!(flush.on_flushed(1, Lsn(12)), Err(SliceError::UnexpectedFlushed { shard_index: 1 })));
    let done = flush.on_flushed(0, Lsn(10)).unwrap().unwrap();
    assert_eq!(done.flushed_lsn, lsns(&[10, 11]));
    assert_eq!(done.journals.len(), 1);
    assert!(flush.should_flush());
    assert!(matches!(flush.on_flushed(0, Lsn(1)), Err(SliceError::UnexpectedFlushed { shard_index: 0 })));
}

#[test]
fn progress_is_reported_upon_request() {
    let mut progress = ProgressState::new();
    let frontier = |lsn| Frontier::of_journals(vec![journal("a", vec![], 4, 1)], lsns(&[lsn]));

    assert!(progress.take_progressed().is_none());
    progress.on_flush_completed(frontier(5));
    assert!(!progress.has_progressed());
    assert!(progress.take_progressed().is_none());
    progress.on_flush_completed(frontier(6));
    progress.request().unwrap();
    assert!(matches!(progress.request(), Err(SliceError::ProgressAlreadyRequested)));
    assert!(progress.has_progressed());
    let taken = progress.take_progressed().unwrap();
    assert_eq!(taken.journals[0].bytes_read_delta, 8);
    assert_eq!(taken.flushed_lsn, lsns(&[6]));
    assert!(!progress.has_progressed());

    // A request may also precede progress.
    progress.request().unwrap();
    assert!(!progress.has_progressed());
    progress.on_flush_completed(frontier(7));
    assert!(progress.has_progressed());
}
