//! The producer protocol: how each document steps its producer's state.

use crate::producer::ProducerState;
use crate::read::Meta;
use crate::uuid::{Clock, Flags};
use vstd::prelude::*;

verus! {

/// How a document relates to the committed and pending documents before it.
#[derive(Clone, Copy, Debug, PartialEq, Eq, Structural)]
pub enum SequenceOutcome {
    /// An OUTSIDE document, which commits itself.
    OutsideCommit,
    /// An OUTSIDE document which was already committed.
    OutsideDuplicate,
    /// The first CONTINUE of a new pending span.
    ContinueBeginSpan,
    /// A further CONTINUE of the pending span.
    ContinueExtendSpan,
    /// A CONTINUE which was already committed, or is already part of the span.
    ContinueDuplicate,
    /// An ACK which commits the pending span.
    AckCommit,
    /// An ACK which advances the commit clock, without a pending span.
    AckEmpty,
    /// An ACK at the last commit, which discards the pending span.
    AckCleanRollback,
    /// An ACK below the last commit, which discards the pending span and regresses.
    AckDeepRollback,
    /// An ACK at or below the last commit, without a pending span.
    AckDuplicate,
}

/// A document which its producer may not write.
#[derive(Clone, Copy, Debug, PartialEq, Eq, Structural)]
pub enum SequenceError {
    /// A newer OUTSIDE document while a span is pending.
    OutsideWithPrecedingContinue,
}

/// The outcome of a document of `flags` and `clock`, given its producer's
/// `last_commit` and `max_continue`.
pub open spec fn spec_sequence(
    flags: Flags,
    clock: Clock,
    last_commit: Clock,
    max_continue: Clock,
) -> Result<SequenceOutcome, SequenceError> {
    let newer = clock.0 > last_commit.0;
    let pending = max_continue.0 != 0;
    match flags {
        Flags::OutsideTxn => if !newer {
            Ok(SequenceOutcome::OutsideDuplicate)
        } else if pending {
            Err(SequenceError::OutsideWithPrecedingContinue)
        } else {
            Ok(SequenceOutcome::OutsideCommit)
        },
        Flags::ContinueTxn => if !newer || clock.0 <= max_continue.0 {
            Ok(SequenceOutcome::ContinueDuplicate)
        } else if pending {
            Ok(SequenceOutcome::ContinueExtendSpan)
        } else {
            Ok(SequenceOutcome::ContinueBeginSpan)
        },
        Flags::AckTxn => if newer {
            Ok(
                if pending {
                    SequenceOutcome::AckCommit
                } else {
                    SequenceOutcome::AckEmpty
                },
            )
        } else if !pending {
            Ok(SequenceOutcome::AckDuplicate)
        } else if clock == last_commit {
            Ok(SequenceOutcome::AckCleanRollback)
        } else {
            Ok(SequenceOutcome::AckDeepRollback)
        },
    }
}

/// Classify a document of `flags` and `clock` against its producer's clocks.
pub fn sequence(flags: Flags, clock: Clock, last_commit: Clock, max_continue: Clock) -> (outcome:
    Result<SequenceOutcome, SequenceError>)
    ensures
        outcome == spec_sequence(flags, clock, last_commit, max_continue),
{
    match flags {
        Flags::OutsideTxn => {
            if clock.0 <= last_commit.0 {
                Ok(SequenceOutcome::OutsideDuplicate)
            } else if max_continue.0 == 0 {
                Ok(SequenceOutcome::OutsideCommit)
            } else {
                Err(SequenceError::OutsideWithPrecedingContinue)
            }
        },
        Flags::ContinueTxn => {
            if clock.0 <= last_commit.0 {
                Ok(SequenceOutcome::ContinueDuplicate)
            } else if max_continue.0 == 0 {
                Ok(SequenceOutcome::ContinueBeginSpan)
            } else if clock.0 <= max_continue.0 {
                Ok(SequenceOutcome::ContinueDuplicate)
            } else {
                Ok(SequenceOutcome::ContinueExtendSpan)
            }
        },
        Flags::AckTxn => {
            if max_continue.0 == 0 {
                if clock.0 > last_commit.0 {
                    Ok(SequenceOutcome::AckEmpty)
                } else {
                    Ok(SequenceOutcome::AckDuplicate)
                }
            } else if clock.0 > last_commit.0 {
                Ok(SequenceOutcome::AckCommit)
            } else if clock.0 == last_commit.0 {
                Ok(SequenceOutcome::AckCleanRollback)
            } else {
                Ok(SequenceOutcome::AckDeepRollback)
            }
        },
    }
}

/// A sequenced document: the state it leads to, and what else it asks for.
#[derive(Clone, Copy, Debug, PartialEq, Eq, Structural)]
pub struct Sequenced {
    /// State of the producer after the document.
    pub producer_state: ProducerState,
    /// Whether the document must be appended to shard logs.
    pub is_append: bool,
    /// Whether the document makes commit progress, and so causes a flush.
    pub is_commit: bool,
}

/// The state of a producer whose transaction settled at an ACK or OUTSIDE document.
pub open spec fn settled_at(clock: Clock, end_offset: i64) -> ProducerState {
    ProducerState {
        last_commit: clock,
        max_continue: Clock(0),
        offset: (-end_offset) as i64,
    }
}

/// The step which `outcome` takes from `state` over the document of `meta`.
///
/// Documents of CONTINUE and OUTSIDE are appended once. An ACK is never appended.
/// Every ACK which commits or rolls back a span, and every committed OUTSIDE,
/// settles the producer at the document. A duplicate changes nothing.
pub open spec fn applied(
    state: ProducerState,
    meta: Meta,
    outcome: SequenceOutcome,
) -> Sequenced {
    match outcome {
        SequenceOutcome::OutsideCommit => Sequenced {
            producer_state: settled_at(meta.clock, meta.end_offset),
            is_append: true,
            is_commit: true,
        },
        SequenceOutcome::ContinueBeginSpan => Sequenced {
            producer_state: ProducerState {
                max_continue: meta.clock,
                offset: meta.begin_offset,
                ..state
            },
            is_append: true,
            is_commit: false,
        },
        SequenceOutcome::ContinueExtendSpan => Sequenced {
            producer_state: ProducerState { max_continue: meta.clock, ..state },
            is_append: true,
            is_commit: false,
        },
        SequenceOutcome::AckCommit
        | SequenceOutcome::AckEmpty
        | SequenceOutcome::AckCleanRollback
        | SequenceOutcome::AckDeepRollback => Sequenced {
            producer_state: settled_at(meta.clock, meta.end_offset),
            is_append: false,
            is_commit: true,
        },
        SequenceOutcome::OutsideDuplicate
        | SequenceOutcome::ContinueDuplicate
        | SequenceOutcome::AckDuplicate => Sequenced {
            producer_state: state,
            is_append: false,
            is_commit: false,
        },
    }
}

/// The outcome of the document of `meta`, sequenced against `state`.
pub open spec fn outcome_of(state: ProducerState, meta: Meta) -> Result<
    SequenceOutcome,
    SequenceError,
> {
    spec_sequence(meta.flags, meta.clock, state.last_commit, state.max_continue)
}

/// The step of the document of `meta` from `state`.
pub open spec fn stepped(state: ProducerState, meta: Meta) -> Result<Sequenced, SequenceError> {
    match outcome_of(state, meta) {
        Ok(outcome) => Ok(applied(state, meta, outcome)),
        Err(err) => Err(err),
    }
}

/// Sequence the document of `meta` against its producer's `state`. This is pure:
/// a caller installs the resulting state only once the document is consumed.
pub fn step(state: ProducerState, meta: &Meta) -> (sequenced: Result<Sequenced, SequenceError>)
    requires
        meta.valid(),
    ensures
        sequenced == stepped(state, *meta),
{
    let outcome = match sequence(meta.flags, meta.clock, state.last_commit, state.max_continue) {
        Ok(outcome) => outcome,
        Err(err) => {
            return Err(err);
        },
    };
    let settled = ProducerState {
        last_commit: meta.clock,
        max_continue: Clock(0),
        offset: -meta.end_offset,
    };
    Ok(
        match outcome {
            SequenceOutcome::OutsideCommit => Sequenced {
                producer_state: settled,
                is_append: true,
                is_commit: true,
            },
            SequenceOutcome::ContinueBeginSpan => Sequenced {
                producer_state: ProducerState {
                    last_commit: state.last_commit,
                    max_continue: meta.clock,
                    offset: meta.begin_offset,
                },
                is_append: true,
                is_commit: false,
            },
            SequenceOutcome::ContinueExtendSpan => Sequenced {
                producer_state: ProducerState {
                    last_commit: state.last_commit,
                    max_continue: meta.clock,
                    offset: state.offset,
                },
                is_append: true,
                is_commit: false,
            },
            SequenceOutcome::AckCommit
            | SequenceOutcome::AckEmpty
            | SequenceOutcome::AckCleanRollback
            | SequenceOutcome::AckDeepRollback => Sequenced {
                producer_state: settled,
                is_append: false,
                is_commit: true,
            },
            SequenceOutcome::OutsideDuplicate
            | SequenceOutcome::ContinueDuplicate
            | SequenceOutcome::AckDuplicate => Sequenced {
                producer_state: state,
                is_append: false,
                is_commit: false,
            },
        },
    )
}

/// What a main-read document of a gapped producer does.
#[derive(Clone, Copy, Debug, PartialEq, Eq, Structural)]
pub enum GappedOutcome {
    /// A newer CONTINUE or ACK: park the read and backfill the skipped range.
    TriggerBackfill,
    /// An ACK at the last commit: the skipped span was rolled back.
    CleanRollback,
    /// An ACK below the last commit: the span was rolled back, and more.
    DeepRollback,
    /// A newer OUTSIDE: the skipped span cannot be recovered, and is discarded.
    OutsideResolve,
    /// A duplicate: drop it, and keep the gap.
    Drop,
}

/// The outcome of the document of `meta` for a producer that is gapped, and whose
/// recovered commit clock is `last_commit`.
pub open spec fn gapped_outcome_of(last_commit: Clock, meta: Meta) -> GappedOutcome {
    if meta.clock.0 > last_commit.0 {
        if meta.flags == Flags::OutsideTxn {
            GappedOutcome::OutsideResolve
        } else {
            GappedOutcome::TriggerBackfill
        }
    } else if meta.flags != Flags::AckTxn {
        GappedOutcome::Drop
    } else if meta.clock == last_commit {
        GappedOutcome::CleanRollback
    } else {
        GappedOutcome::DeepRollback
    }
}

/// Classify a main-read document of a gapped producer against its frozen
/// `last_commit`. The gap itself proves that a span is pending, so an ACK at or
/// below `last_commit` rolls that span back.
pub fn sequence_gapped(last_commit: Clock, meta: &Meta) -> (outcome: GappedOutcome)
    ensures
        outcome == gapped_outcome_of(last_commit, *meta),
{
    match meta.flags {
        Flags::OutsideTxn => {
            if meta.clock.0 > last_commit.0 {
                GappedOutcome::OutsideResolve
            } else {
                GappedOutcome::Drop
            }
        },
        Flags::ContinueTxn => {
            if meta.clock.0 > last_commit.0 {
                GappedOutcome::TriggerBackfill
            } else {
                GappedOutcome::Drop
            }
        },
        Flags::AckTxn => {
            if meta.clock.0 > last_commit.0 {
                GappedOutcome::TriggerBackfill
            } else if meta.clock.0 == last_commit.0 {
                GappedOutcome::CleanRollback
            } else {
                GappedOutcome::DeepRollback
            }
        },
    }
}

} // verus!
