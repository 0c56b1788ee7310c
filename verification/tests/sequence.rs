use shuffle::drain::{classify_head, HeadStep};
use shuffle::producer::ProducerState;
use shuffle::read::Meta;
use shuffle::sequence::{
    sequence, sequence_gapped, step, GappedOutcome, SequenceError, SequenceOutcome,
};
use shuffle::topology::{sequence_producer, Binding, SliceError};
use shuffle::uuid::{Clock, Flags, Producer};

const OUTSIDE: Flags = Flags::OutsideTxn;
const CONTINUE: Flags = Flags::ContinueTxn;
const ACK: Flags = Flags::AckTxn;

fn clock(v: u64) -> Clock {
    Clock::from_u64(v)
}

fn meta(clock: u64, flags: Flags, begin_offset: i64, end_offset: i64) -> Meta {
    Meta {
        producer: Producer(7),
        clock: Clock::from_u64(clock),
        flags,
        begin_offset,
        end_offset,
    }
}

fn state(last_commit: u64, max_continue: u64, offset: i64) -> ProducerState {
    ProducerState {
        last_commit: Clock::from_u64(last_commit),
        max_continue: Clock::from_u64(max_continue),
        offset,
    }
}

fn binding() -> Binding {
    Binding {
        index: 0,
        state_key: "key/0".to_string(),
        priority: 0,
        read_delay: Clock::zero(),
        not_before: 0,
        journal_read_suffix: "suffix".to_string(),
    }
}

#[test]
fn documents_are_classified() {
    let cases = [
        // flags, clock, last commit, max continue, outcome
        (OUTSIDE, 101, 100, 0, Ok(SequenceOutcome::OutsideCommit)),
        (OUTSIDE, 100, 100, 0, Ok(SequenceOutcome::OutsideDuplicate)),
        (OUTSIDE, 99, 100, 150, Ok(SequenceOutcome::OutsideDuplicate)),
        (OUTSIDE, 160, 100, 150, Err(SequenceError::OutsideWithPrecedingContinue)),
        (CONTINUE, 101, 100, 0, Ok(SequenceOutcome::ContinueBeginSpan)),
        (CONTINUE, 100, 100, 0, Ok(SequenceOutcome::ContinueDuplicate)),
        (CONTINUE, 150, 100, 150, Ok(SequenceOutcome::ContinueDuplicate)),
        (CONTINUE, 151, 100, 150, Ok(SequenceOutcome::ContinueExtendSpan)),
        (ACK, 150, 100, 150, Ok(SequenceOutcome::AckCommit)),
        (ACK, 150, 100, 0, Ok(SequenceOutcome::AckEmpty)),
        (ACK, 100, 100, 150, Ok(SequenceOutcome::AckCleanRollback)),
        (ACK, 99, 100, 150, Ok(SequenceOutcome::AckDeepRollback)),
        (ACK, 100, 100, 0, Ok(SequenceOutcome::AckDuplicate)),
        (ACK, 99, 100, 0, Ok(SequenceOutcome::AckDuplicate)),
    ];
    for (flags, at, last_commit, max_continue, expect) in cases {
        assert_eq!(sequence(flags, clock(at), clock(last_commit), clock(max_continue)), expect);
    }
}

#[test]
fn documents_step_their_producer() {
    // A span begins, extends, and is committed.
    let s = step(state(100, 0, -50), &meta(150, CONTINUE, 200, 210)).unwrap();
    assert_eq!(s.producer_state, state(100, 150, 200));
    assert!(s.is_append && !s.is_commit);
    let s = step(s.producer_state, &meta(160, CONTINUE, 210, 220)).unwrap();
    assert_eq!(s.producer_state, state(100, 160, 200));
    assert!(s.is_append && !s.is_commit);
    let s = step(s.producer_state, &meta(160, ACK, 230, 240)).unwrap();
    assert_eq!(s.producer_state, state(160, 0, -240));
    assert!(!s.is_append && s.is_commit);

    // Rollbacks settle at the ACK, and are commit progress.
    let s = step(state(100, 150, 200), &meta(100, ACK, 230, 240)).unwrap();
    assert_eq!(s.producer_state, state(100, 0, -240));
    assert!(!s.is_append && s.is_commit);
    let s = step(state(100, 150, 200), &meta(90, ACK, 230, 240)).unwrap();
    assert_eq!(s.producer_state, state(90, 0, -240));
    assert!(!s.is_append && s.is_commit);

    // An OUTSIDE document commits itself.
    let s = step(state(100, 0, -50), &meta(150, OUTSIDE, 200, 210)).unwrap();
    assert_eq!(s.producer_state, state(150, 0, -210));
    assert!(s.is_append && s.is_commit);
}

#[test]
fn documents_read_again_do_nothing() {
    for flags in [OUTSIDE, CONTINUE] {
        let document = meta(150, flags, 200, 210);
        let once = step(state(100, 0, -50), &document).unwrap();
        assert!(once.is_append);
        let twice = step(once.producer_state, &document).unwrap();
        assert!(!twice.is_append && !twice.is_commit);
        assert_eq!(twice.producer_state, once.producer_state);
    }
}

#[test]
fn appended_clocks_ascend() {
    let documents = [
        meta(150, CONTINUE, 200, 210),
        meta(160, CONTINUE, 210, 220),
        meta(150, CONTINUE, 220, 230), // Duplicate.
        meta(170, ACK, 230, 240),
        meta(160, CONTINUE, 240, 250), // Duplicate.
        meta(180, OUTSIDE, 250, 260),
        meta(180, ACK, 260, 270), // Duplicate.
        meta(190, CONTINUE, 270, 280),
    ];
    let mut producer_state = state(100, 0, -50);
    let mut appended = vec![];
    for document in &documents {
        let s = step(producer_state, document).unwrap();
        if s.is_append {
            appended.push(document.clock.as_u64());
        }
        producer_state = s.producer_state;
    }
    assert_eq!(appended, vec![150, 160, 180, 190]);
}

#[test]
fn gapped_documents_are_classified() {
    let cases = [
        (CONTINUE, 101, GappedOutcome::TriggerBackfill),
        (CONTINUE, 100, GappedOutcome::Drop),
        (CONTINUE, 99, GappedOutcome::Drop),
        (ACK, 101, GappedOutcome::TriggerBackfill),
        (ACK, 100, GappedOutcome::CleanRollback),
        (ACK, 99, GappedOutcome::DeepRollback),
        (OUTSIDE, 101, GappedOutcome::OutsideResolve),
        (OUTSIDE, 100, GappedOutcome::Drop),
        (OUTSIDE, 99, GappedOutcome::Drop),
    ];
    for (flags, at, expect) in cases {
        assert_eq!(sequence_gapped(clock(100), &meta(at, flags, 900, 910)), expect);
    }
}

#[test]
fn heads_of_gapped_producers_take_their_step() {
    let gapped = state(100, 101, 300);
    assert!(gapped.is_gapped());
    let head = |flags, at| {
        classify_head(gapped, "a/journal", &binding(), &meta(at, flags, 900, 910)).unwrap()
    };
    assert_eq!(head(CONTINUE, 150), HeadStep::Trigger { gap_begin: 300 });
    assert_eq!(head(ACK, 150), HeadStep::Trigger { gap_begin: 300 });
    assert_eq!(head(CONTINUE, 100), HeadStep::Drop);
    assert_eq!(head(OUTSIDE, 100), HeadStep::Drop);
    assert_eq!(head(ACK, 100), HeadStep::Rollback { deep: false });
    assert_eq!(head(ACK, 99), HeadStep::Rollback { deep: true });

    // A newer OUTSIDE discards the gap, and commits as if there had been none.
    let HeadStep::Sequence { sequenced, resolves_gap } = head(OUTSIDE, 150) else {
        panic!("a newer OUTSIDE is sequenced");
    };
    assert!(resolves_gap && sequenced.is_append && sequenced.is_commit);
    assert_eq!(sequenced.producer_state, state(150, 0, -910));

    // Hints are extracted from ACKs which make commit progress.
    assert!(HeadStep::Rollback { deep: true }.is_hinting(&meta(99, ACK, 900, 910)));
    assert!(!HeadStep::Drop.is_hinting(&meta(99, CONTINUE, 900, 910)));
    assert!(!head(OUTSIDE, 150).is_hinting(&meta(150, OUTSIDE, 900, 910)));
    assert!(!head(ACK, 150).is_hinting(&meta(150, ACK, 900, 910)));
}

#[test]
fn heads_of_other_producers_are_sequenced() {
    let open = state(100, 150, 300);
    let step = classify_head(open, "a/journal", &binding(), &meta(160, ACK, 900, 910)).unwrap();
    let HeadStep::Sequence { sequenced, resolves_gap } = step else {
        panic!("an ACK of an open span is sequenced");
    };
    assert!(!resolves_gap && sequenced.is_commit && !sequenced.is_append);
    assert_eq!(sequenced.producer_state, state(160, 0, -910));
    assert!(step.is_hinting(&meta(160, ACK, 900, 910)));
}

#[test]
fn sequencing_errors_carry_their_context() {
    let open = state(100, 150, 300);
    let document = meta(160, OUTSIDE, 900, 910);
    let err = sequence_producer(open, "a/journal", &binding(), &document).unwrap_err();
    let SliceError::Sequence { journal, binding, meta, producer_state, error } = err else {
        panic!("a sequencing error");
    };
    assert_eq!(journal, "a/journal");
    assert_eq!(binding, "key/0");
    assert_eq!(meta, document);
    assert_eq!(producer_state, open);
    assert_eq!(error, SequenceError::OutsideWithPrecedingContinue);

    let ok = sequence_producer(open, "a/journal", &self::binding(), &self::meta(160, ACK, 900, 910));
    assert_eq!(ok.unwrap().producer_state, state(160, 0, -910));
}

#[test]
fn sentinel_sequences_as_a_pending_span() {
    let gapped = state(100, 101, 300);
    for (flags, at, expect) in [
        (CONTINUE, 150, SequenceOutcome::ContinueExtendSpan),
        (CONTINUE, 100, SequenceOutcome::ContinueDuplicate),
        (ACK, 150, SequenceOutcome::AckCommit),
        (ACK, 100, SequenceOutcome::AckCleanRollback),
        (ACK, 99, SequenceOutcome::AckDeepRollback),
    ] {
        let outcome = sequence(flags, clock(at), gapped.last_commit, gapped.max_continue);
        assert_eq!(outcome, Ok(expect));
    }
}

#[test]
fn offsets_advance_with_the_journal() {
    let mut producer_state = state(100, 0, -200);
    let mut offsets = vec![];
    for document in [
        meta(150, CONTINUE, 200, 210), // Begins where the last commit ended.
        meta(160, CONTINUE, 210, 220),
        meta(160, ACK, 220, 230),
        meta(170, OUTSIDE, 240, 250),
        meta(170, OUTSIDE, 250, 260), // Duplicate.
    ] {
        producer_state = step(producer_state, &document).unwrap().producer_state;
        offsets.push(producer_state.offset);
    }
    assert_eq!(offsets, vec![200, 200, -230, -250, -250]);
}

#[test]
fn documents_do_not_gap_their_producer() {
    for (from, document) in [
        (state(100, 0, -50), meta(102, CONTINUE, 200, 210)),
        (state(100, 150, 200), meta(160, CONTINUE, 210, 220)),
        (state(100, 150, 200), meta(150, ACK, 210, 220)),
        (state(100, 150, 200), meta(100, ACK, 210, 220)),
        (state(100, 150, 200), meta(99, ACK, 210, 220)),
        (state(100, 0, -50), meta(101, OUTSIDE, 200, 210)),
        (state(100, 0, -50), meta(101, ACK, 200, 210)),
    ] {
        assert!(!step(from, &document).unwrap().producer_state.is_gapped());
    }
    // A CONTINUE at the clock of the sentinel is not one that a producer writes.
    assert!(step(state(100, 0, -50), &meta(101, CONTINUE, 200, 210)).unwrap().producer_state.is_gapped());
}
