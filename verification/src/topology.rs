//! Immutable configuration of a Slice, and the errors that fail it.

use crate::producer::ProducerState;
use crate::read::Meta;
use crate::sequence::{step, stepped, SequenceError, Sequenced};
use crate::session::{LogResponse, SliceRequest};
use crate::uuid::Clock;
use vstd::prelude::*;

verus! {

/// A source binding of the shuffled task.
#[derive(Debug)]
pub struct Binding {
    /// Index of this binding among its task's bindings.
    pub index: u16,
    /// Stable key under which the binding's state is tracked.
    pub state_key: String,
    /// Priority of the binding's documents. Greater priorities are read first.
    pub priority: u32,
    /// Delay added to the clocks of the binding's documents.
    pub read_delay: Clock,
    /// Lower bound on the modification time of read content, in Unix seconds.
    pub not_before: i64,
    /// Metadata component which is added to the names of read journals.
    pub journal_read_suffix: String,
}

/// Configuration of a Slice.
#[derive(Debug)]
pub struct Topology {
    pub session_id: u64,
    /// Bindings of the task, by binding index.
    pub bindings: Vec<Binding>,
    /// Number of shards, and so of slices and logs.
    pub shard_count: usize,
    /// Index of this slice's own shard.
    pub slice_shard_index: usize,
}

impl Topology {
    /// Bindings are held by their index, and shards are counted by a `u16`.
    pub open spec fn valid(&self) -> bool {
        &&& forall|i: int|
            0 <= i < self.bindings@.len() ==> (#[trigger] self.bindings@[i]).index == i
        &&& 0 < self.shard_count <= u16::MAX
        &&& self.slice_shard_index < self.shard_count
    }

    /// Whether the binding at `i` is listed by this slice.
    pub open spec fn lists(&self, i: int) -> bool {
        i % (self.shard_count as int) == self.slice_shard_index
    }

    /// Indices of the bindings whose journals this slice lists, ascending. Bindings
    /// are dealt to slices round-robin.
    pub fn listed_bindings(&self) -> (listed: Vec<usize>)
        requires
            self.valid(),
        ensures
            forall|i: usize| #[trigger]
                listed@.contains(i) <==> i < self.bindings@.len() && self.lists(i as int),
            forall|j: int, k: int| 0 <= j < k < listed@.len() ==> listed@[j] < listed@[k],
    {
        let mut listed: Vec<usize> = Vec::new();
        let mut i: usize = 0;
        while i < self.bindings.len()
            invariant
                self.valid(),
                i <= self.bindings@.len(),
                forall|b: usize| #[trigger]
                    listed@.contains(b) <==> b < i && self.lists(b as int),
                forall|j: int, k: int| 0 <= j < k < listed@.len() ==> listed@[j] < listed@[k],
            decreases self.bindings@.len() - i,
        {
            let ghost before = listed@;
            let shards: u16 = self.shard_count as u16;
            if self.bindings[i].index % shards == self.slice_shard_index as u16 {
                listed.push(i);
            }
            proof {
                assert(self.bindings@[i as int].index == i);
                assert forall|k: int| 0 <= k < before.len() implies before[k] < i by {
                    assert(before.contains(before[k]));
                }
                assert forall|b: usize| #[trigger]
                    listed@.contains(b) <==> b < i + 1 && self.lists(b as int) by {
                    if before.contains(b) {
                        let k = choose|k: int| 0 <= k < before.len() && before[k] == b;
                        assert(listed@[k] == b);
                    }
                    if b == i && self.lists(b as int) {
                        assert(listed@[before.len() as int] == b);
                    }
                }
            }
            i += 1;
        }
        listed
    }
}

/// Each binding is listed by exactly one slice of a topology: the one at the
/// binding's index modulo the number of shards.
pub proof fn binding_is_listed_by_one_slice(a: Topology, b: Topology, i: int)
    requires
        a.valid(),
        b.valid(),
        a.shard_count == b.shard_count,
        0 <= i,
    ensures
        a.lists(i) && b.lists(i) ==> a.slice_shard_index == b.slice_shard_index,
        0 <= i % (a.shard_count as int) < a.shard_count,
{
}

/// What a read was doing as it failed.
#[derive(Clone, Copy, Debug, PartialEq, Eq, Structural)]
pub enum ReadStage {
    /// Reading the next lines of its journal.
    Reading,
    /// Transcoding lines into documents.
    Transcoding,
    /// Extracting and validating the metadata of documents.
    Extracting,
}

/// A terminal failure of a read.
#[derive(Debug)]
pub struct ReadFailure {
    pub stage: ReadStage,
    /// The underlying error, as it describes itself.
    pub cause: String,
}

/// An error which fails the Slice, and with it the session.
#[derive(Debug)]
pub enum SliceError {
    /// A StartRead named a binding that the task does not have.
    InvalidBinding,
    /// A StartRead lacked its journal spec.
    MissingSpec,
    /// A request that is neither Progress nor StartRead, or not an initial Start.
    UnexpectedRequest { request: SliceRequest },
    /// A Log response other than the Flushed of the current cycle.
    UnexpectedLogResponse { shard_index: usize, response: LogResponse },
    /// A Log shard answered a flush that it was not asked for, or twice.
    UnexpectedFlushed { shard_index: usize },
    /// A Progress request arrived while another was outstanding.
    ProgressAlreadyRequested,
    /// A listing task panicked.
    ListingPanicked { cause: String },
    /// A listing task was canceled before the Slice exited.
    ListingCanceled,
    /// A listing task failed.
    ListingFailed { cause: String },
    /// A main or historical read failed, terminally.
    ReadFailed { journal: String, binding: String, historical: bool, failure: ReadFailure },
    /// A document which its producer may not write.
    Sequence {
        journal: String,
        binding: String,
        meta: Meta,
        producer_state: ProducerState,
        error: SequenceError,
    },
    /// A committing document within the historical range of a backfill. It
    /// contradicts the recovered checkpoint.
    CommitWithinBackfill { journal: String, binding: String, meta: Meta },
}

impl SliceError {
    /// Whether this reports `error`, of the document of `meta` sequenced against `state`.
    pub open spec fn reports_sequence(
        &self,
        journal: Seq<char>,
        binding: Binding,
        state: ProducerState,
        meta: Meta,
        error: SequenceError,
    ) -> bool {
        self matches SliceError::Sequence {
            journal: j,
            binding: b,
            meta: m,
            producer_state: s,
            error: e,
        } && j@ == journal && b@ == binding.state_key@ && m == meta && s == state && e == error
    }

    /// Whether this reports that the document of `meta` committed within a backfill.
    pub open spec fn reports_commit(
        &self,
        journal: Seq<char>,
        binding: Binding,
        meta: Meta,
    ) -> bool {
        self matches SliceError::CommitWithinBackfill { journal: j, binding: b, meta: m } && j@
            == journal && b@ == binding.state_key@ && m == meta
    }

    /// Whether this reports the terminal `failure` of a main or historical read of
    /// `journal`.
    pub open spec fn reports_read(
        &self,
        journal: Seq<char>,
        binding: Binding,
        historical: bool,
        failure: ReadFailure,
    ) -> bool {
        self matches SliceError::ReadFailed { journal: j, binding: b, historical: h, failure: f }
            && j@ == journal && b@ == binding.state_key@ && h == historical && f == failure
    }
}

/// Sequence the document of `meta` against its producer's state. An error carries
/// the journal, binding, document and state that it arose from.
pub fn sequence_producer(
    producer_state: ProducerState,
    journal: &str,
    binding: &Binding,
    meta: &Meta,
) -> (sequenced: Result<Sequenced, SliceError>)
    requires
        meta.valid(),
    ensures
        match stepped(producer_state, *meta) {
            Ok(expect) => sequenced == Ok::<Sequenced, SliceError>(expect),
            Err(error) => sequenced matches Err(err) && err.reports_sequence(
                journal@,
                *binding,
                producer_state,
                *meta,
                error,
            ),
        },
{
    match step(producer_state, meta) {
        Ok(sequenced) => Ok(sequenced),
        Err(error) => Err(
            SliceError::Sequence {
                journal: journal.to_owned(),
                binding: binding.state_key.clone(),
                meta: *meta,
                producer_state,
                error,
            },
        ),
    }
}

/// Every binding is listed by some slice, whose index is below the number of shards: its index
/// modulo that number.
pub proof fn every_binding_is_listed(topology: Topology, i: int)
    requires
        topology.valid(),
        0 <= i,
    ensures
        topology.lists(i) <==> exists|rounds: int|
            0 <= rounds && i == #[trigger] (rounds * topology.shard_count)
                + topology.slice_shard_index,
{
    let n = topology.shard_count as int;
    let s = topology.slice_shard_index as int;
    if topology.lists(i) {
        let rounds = i / n;
        vstd::arithmetic::div_mod::lemma_fundamental_div_mod(i, n);
        vstd::arithmetic::div_mod::lemma_div_pos_is_pos(i, n);
        vstd::arithmetic::mul::lemma_mul_is_commutative(n, rounds);
        assert(i == rounds * n + s);
    }
    if exists|rounds: int| 0 <= rounds && i == #[trigger] (rounds * topology.shard_count) + s {
        let rounds = choose|rounds: int|
            0 <= rounds && i == #[trigger] (rounds * topology.shard_count) + s;
        vstd::arithmetic::div_mod::lemma_fundamental_div_mod_converse(i, n, rounds, s);
    }
}

} // verus!
