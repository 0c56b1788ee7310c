//! Per-binding truncation epochs.
//!
//! Each binding tracks only its latest truncation boundary clock, which serves as
//! its epoch tag. Documents at or above the boundary are of the active epoch.
//! Documents below it are stale, and of epoch zero.

use crate::uuid::Clock;
use vstd::prelude::*;

verus! {

/// The latest truncation boundary of each binding.
#[derive(Debug)]
pub struct Epochs {
    boundaries: Vec<Option<Clock>>,
}

impl View for Epochs {
    type V = Seq<Option<Clock>>;

    closed spec fn view(&self) -> Seq<Option<Clock>> {
        self.boundaries@
    }
}

/// The boundary which follows from `latest` once `begin` has been observed.
pub open spec fn observed(latest: Option<Clock>, begin: Clock) -> Option<Clock> {
    match latest {
        Some(latest) => if begin.0 <= latest.0 {
            Some(latest)
        } else {
            Some(begin)
        },
        None => Some(begin),
    }
}

/// The epoch of a document of `clock`, given its binding's `boundary`.
pub open spec fn epoch_of(boundary: Option<Clock>, clock: Clock) -> u64 {
    match boundary {
        Some(boundary) => if clock.0 >= boundary.0 {
            boundary.0
        } else {
            0
        },
        None => 0,
    }
}

/// The active epoch of a binding: its boundary clock, or zero.
pub open spec fn active_epoch(boundary: Option<Clock>) -> u64 {
    match boundary {
        Some(boundary) => boundary.0,
        None => 0,
    }
}

impl Epochs {
    /// Epochs of `n_bindings` bindings, none of which has observed a boundary.
    pub fn new(n_bindings: usize) -> (epochs: Epochs)
        ensures
            epochs@ == Seq::new(n_bindings as nat, |i: int| None::<Clock>),
    {
        let mut boundaries: Vec<Option<Clock>> = Vec::new();
        while boundaries.len() < n_bindings
            invariant
                boundaries@.len() <= n_bindings,
                forall|i: int| 0 <= i < boundaries@.len() ==> (#[trigger] boundaries@[i]) is None,
            decreases n_bindings - boundaries@.len(),
        {
            boundaries.push(None);
        }
        let epochs = Epochs { boundaries };
        assert(epochs@ =~= Seq::new(n_bindings as nat, |i: int| None::<Clock>));
        epochs
    }

    /// Observe a boundary of `binding`. One at or below the latest is a no-op: begins
    /// are delivered again and again, and only advance.
    pub fn observe_begin(&mut self, binding: usize, begin: Clock)
        requires
            binding < old(self)@.len(),
        ensures
            final(self)@ == old(self)@.update(
                binding as int,
                observed(old(self)@[binding as int], begin),
            ),
    {
        match self.boundaries[binding] {
            Some(latest) => {
                if begin.0 > latest.0 {
                    self.boundaries.set(binding, Some(begin));
                }
            },
            None => {
                self.boundaries.set(binding, Some(begin));
            },
        }
        assert(self@ =~= old(self)@.update(
            binding as int,
            observed(old(self)@[binding as int], begin),
        ));
    }

    /// The epoch of a document of `binding`: the boundary clock if `clock` is at or
    /// above it, or else zero.
    pub fn epoch_for_clock(&self, binding: usize, clock: Clock) -> (epoch: u64)
        requires
            binding < self@.len(),
        ensures
            epoch == epoch_of(self@[binding as int], clock),
    {
        match self.boundaries[binding] {
            Some(boundary) => {
                if clock.0 >= boundary.0 {
                    boundary.0
                } else {
                    0
                }
            },
            None => 0,
        }
    }

    /// Whether `binding` has observed a boundary. Without one, every document is of
    /// the active epoch, whatever its clock.
    pub fn has_boundary(&self, binding: usize) -> (has: bool)
        requires
            binding < self@.len(),
        ensures
            has == (self@[binding as int] is Some),
    {
        self.boundaries[binding].is_some()
    }

    /// The active epoch of each binding, or `None` if none has observed a boundary.
    pub fn active_epochs(&self) -> (active: Option<Vec<u64>>)
        ensures
            active is None <==> forall|i: int|
                0 <= i < self@.len() ==> (#[trigger] self@[i]) is None,
            active matches Some(active) ==> active@ == self@.map_values(
                |boundary: Option<Clock>| active_epoch(boundary),
            ),
    {
        let mut truncated: bool = false;
        let mut active: Vec<u64> = Vec::new();
        let mut i: usize = 0;
        while i < self.boundaries.len()
            invariant
                i <= self@.len(),
                self@ == self.boundaries@,
                active@.len() == i,
                forall|j: int| 0 <= j < i ==> #[trigger] active@[j] == active_epoch(self@[j]),
                !truncated <==> forall|j: int| 0 <= j < i ==> (#[trigger] self@[j]) is None,
            decreases self@.len() - i,
        {
            match self.boundaries[i] {
                Some(boundary) => {
                    truncated = true;
                    active.push(boundary.0);
                },
                None => {
                    active.push(0);
                },
            }
            i += 1;
        }
        if truncated {
            assert(active@ =~= self@.map_values(
                |boundary: Option<Clock>| active_epoch(boundary),
            ));
            Some(active)
        } else {
            None
        }
    }
}

/// A boundary only advances, and is at or above every begin that was observed.
pub proof fn boundary_only_advances(latest: Option<Clock>, begin: Clock)
    ensures
        observed(latest, begin) matches Some(next) && next.0 >= begin.0 && (latest matches Some(
            latest,
        ) ==> next.0 >= latest.0),
{
}

/// The order in which begins are observed, and how often, does not matter.
pub proof fn begins_commute(latest: Option<Clock>, a: Clock, b: Clock)
    ensures
        observed(observed(latest, a), b) == observed(observed(latest, b), a),
        observed(observed(latest, a), a) == observed(latest, a),
{
}

/// Bindings advance independently: a begin of one binding changes the epoch of no
/// document of another.
pub proof fn bindings_are_independent(
    boundaries: Seq<Option<Clock>>,
    binding: int,
    begin: Clock,
    other: int,
    clock: Clock,
)
    requires
        0 <= binding < boundaries.len(),
        0 <= other < boundaries.len(),
        other != binding,
    ensures
        epoch_of(
            boundaries.update(binding, observed(boundaries[binding], begin))[other],
            clock,
        ) == epoch_of(boundaries[other], clock),
{
}

/// A document is of its binding's active epoch, or of epoch zero: which it is only
/// if it precedes the boundary, or if there is none. An advanced boundary retires
/// the documents before it.
pub proof fn documents_are_active_or_stale(latest: Option<Clock>, begin: Clock, clock: Clock)
    ensures
        epoch_of(latest, clock) == active_epoch(latest) || epoch_of(latest, clock) == 0,
        latest matches Some(latest) ==> (epoch_of(Some(latest), clock) == latest.0 || clock.0
            < latest.0),
        clock.0 < begin.0 ==> epoch_of(observed(latest, begin), clock) == 0,
{
}

/// The boundary of a binding is the greatest of the begins that were observed, in whatever
/// order: it is one of them, and none is greater.
pub proof fn boundary_is_the_greatest_begin(latest: Option<Clock>, begin: Clock)
    ensures
        observed(latest, begin) == Some(begin) || observed(latest, begin) == latest,
        latest is None ==> observed(latest, begin) == Some(begin),
        latest matches Some(latest) ==> (observed(Some(latest), begin) == Some(begin) <==> begin.0
            >= latest.0),
{
}

/// Every document at or above the boundary of its binding is of one epoch, which is the clock
/// of the boundary. Every other document is of epoch zero, and so are all without a boundary.
pub proof fn epochs_are_told_by_the_boundary(boundary: Option<Clock>, clock: Clock)
    ensures
        boundary is None ==> epoch_of(boundary, clock) == 0 && active_epoch(boundary) == 0,
        boundary matches Some(at) ==> {
            &&& active_epoch(boundary) == at.0
            &&& clock.0 >= at.0 ==> epoch_of(boundary, clock) == at.0
            &&& clock.0 < at.0 ==> epoch_of(boundary, clock) == 0
        },
{
}

} // verus!
