//! Journal reads: document metadata, ready documents, and per-read state.

use crate::frontier::{
    producer_keys, producers_map, JournalFrontier, JournalModel, ProducerFrontier,
    SPAN_AT_HEAD_MARKER,
};
use crate::keyed::lemma_keyed_index;
use crate::order::JournalKey;
use crate::producer::ProducerState;
use crate::producer_map::ProducerMap;
use crate::uuid::{Clock, Flags, Producer};
use std::collections::VecDeque;
use vstd::prelude::*;

verus! {

/// Metadata of one journal document.
#[derive(Clone, Copy, Debug, PartialEq, Eq, Structural)]
pub struct Meta {
    pub producer: Producer,
    pub clock: Clock,
    pub flags: Flags,
    /// Journal offset at which the document begins.
    pub begin_offset: i64,
    /// Journal offset at which the document ends.
    pub end_offset: i64,
}

impl Meta {
    /// Journal offsets are non-negative, and a document ends at or after its begin.
    pub open spec fn valid(&self) -> bool {
        0 <= self.begin_offset <= self.end_offset
    }
}

/// Every document of `metas` is valid.
pub open spec fn metas_valid(metas: Seq<Meta>) -> bool {
    forall|i: int| 0 <= i < metas.len() ==> (#[trigger] metas[i]).valid()
}

/// Documents of type `D` which a read holds ready: a head, and an undrained tail.
#[derive(Debug)]
pub struct ReadyRead<D> {
    /// The head document.
    pub doc: D,
    /// Metadata of the head document.
    pub meta: Meta,
    /// Documents which follow the head.
    pub doc_tail: VecDeque<D>,
    /// Metadata of the documents which follow the head.
    pub meta_tail: VecDeque<Meta>,
    /// Id of the journal read that resumes once the tail is drained.
    pub inner: u32,
}

/// The documents that a read holds, head first, and their metadata.
#[verifier::ext_equal]
pub struct ReadyModel<D> {
    pub docs: Seq<D>,
    pub metas: Seq<Meta>,
    pub read: u32,
}

impl<D> ReadyModel<D> {
    /// There is a head, and each document has its metadata.
    pub open spec fn valid(self) -> bool {
        &&& self.docs.len() == self.metas.len()
        &&& self.metas.len() > 0
        &&& metas_valid(self.metas)
    }

    /// The documents after the head.
    pub open spec fn rest(self) -> ReadyModel<D> {
        ReadyModel { docs: self.docs.drop_first(), metas: self.metas.drop_first(), read: self.read }
    }
}

impl<D> View for ReadyRead<D> {
    type V = ReadyModel<D>;

    open spec fn view(&self) -> ReadyModel<D> {
        ReadyModel {
            docs: seq![self.doc] + self.doc_tail@,
            metas: seq![self.meta] + self.meta_tail@,
            read: self.inner,
        }
    }
}

impl<D> ReadyRead<D> {
    /// Hold the documents of a batch, of which there is at least one.
    pub fn new(docs: VecDeque<D>, metas: VecDeque<Meta>, inner: u32) -> (ready: Option<
        ReadyRead<D>,
    >)
        ensures
            ready is Some <==> docs@.len() > 0 && metas@.len() > 0,
            ready matches Some(ready) ==> ready@ == (ReadyModel {
                docs: docs@,
                metas: metas@,
                read: inner,
            }),
    {
        let ghost all_docs = docs@;
        let ghost all_metas = metas@;
        let mut doc_tail = docs;
        let mut meta_tail = metas;
        match (doc_tail.pop_front(), meta_tail.pop_front()) {
            (Some(doc), Some(meta)) => {
                let ready = ReadyRead { doc, meta, doc_tail, meta_tail, inner };
                proof {
                    assert(ready@.docs =~= all_docs);
                    assert(ready@.metas =~= all_metas);
                }
                Some(ready)
            },
            _ => None,
        }
    }

    /// Consume the head document, and advance to the next. Returns the read to
    /// resume if there is none.
    pub fn advance(self) -> (next: Result<ReadyRead<D>, u32>)
        requires
            self@.valid(),
        ensures
            match next {
                Ok(next) => {
                    &&& self@.metas.len() > 1
                    &&& next@ == self@.rest()
                    &&& next@.valid()
                },
                Err(read) => read == self.inner && self@.metas.len() == 1,
            },
    {
        proof {
            assert(self@.rest().docs =~= self.doc_tail@);
            assert(self@.rest().metas =~= self.meta_tail@);
            assert forall|i: int| 0 <= i < self@.rest().metas.len() implies (
            #[trigger] self@.rest().metas[i]).valid() by {
                assert(self@.rest().metas[i] == self@.metas[i + 1]);
            }
        }
        let ReadyRead { doc: _, meta: _, doc_tail, meta_tail, inner } = self;
        match ReadyRead::new(doc_tail, meta_tail, inner) {
            Some(next) => Ok(next),
            None => Err(inner),
        }
    }
}

/// State of a read of one journal for one binding.
#[derive(Debug)]
pub struct ReadState {
    pub binding_index: u16,
    pub journal: String,
    /// Producer states as of the last flush.
    pub settled: ProducerMap,
    /// Producer states which changed since the last flush.
    pub pending: ProducerMap,
    /// Journal offset through which the read has progressed.
    pub read_offset: i64,
    /// `read_offset` as of the last flush that reported this read.
    pub prev_read_offset: i64,
    /// Journal write head, as last observed by the read.
    pub write_head: i64,
    /// `write_head` as of the last flush that reported this read.
    pub prev_write_head: i64,
}

/// What a [`ReadState`] holds.
#[verifier::ext_equal]
pub struct ReadModel {
    pub binding_index: u16,
    pub journal: Seq<char>,
    pub settled: Map<u64, ProducerState>,
    pub pending: Map<u64, ProducerState>,
    pub read_offset: i64,
    pub prev_read_offset: i64,
    pub write_head: i64,
    pub prev_write_head: i64,
}

impl View for ReadState {
    type V = ReadModel;

    open spec fn view(&self) -> ReadModel {
        ReadModel {
            binding_index: self.binding_index,
            journal: self.journal@,
            settled: self.settled@,
            pending: self.pending@,
            read_offset: self.read_offset,
            prev_read_offset: self.prev_read_offset,
            write_head: self.write_head,
            prev_write_head: self.prev_write_head,
        }
    }
}

/// What each of `reads` holds.
pub open spec fn read_models(reads: Seq<ReadState>) -> Seq<ReadModel> {
    reads.map_values(|read: ReadState| read@)
}

/// The checkpoint entry of a producer in `state`.
///
/// A pending span which begins at offset zero, of a producer that never committed,
/// records [`SPAN_AT_HEAD_MARKER`] as its last commit.
pub open spec fn checkpoint_entry(producer: u64, state: ProducerState) -> ProducerFrontier {
    ProducerFrontier {
        producer: Producer(producer),
        last_commit: if state.offset == 0 && state.last_commit.0 == 0 {
            Clock(SPAN_AT_HEAD_MARKER)
        } else {
            state.last_commit
        },
        hinted_commit: Clock(0),
        offset: state.offset,
    }
}

/// The checkpoint entries of `states`.
pub open spec fn checkpoint_entries(states: Map<u64, ProducerState>) -> Map<
    u64,
    ProducerFrontier,
> {
    states.map_entries(|producer: u64, state: ProducerState| checkpoint_entry(producer, state))
}

impl ReadModel {
    pub open spec fn key(self) -> JournalKey {
        (self.journal, self.binding_index)
    }

    /// A new read of `journal`, with `producers` recovered, which starts at `offset`.
    pub open spec fn recovered(
        binding_index: u16,
        journal: Seq<char>,
        producers: Map<u64, ProducerState>,
        offset: i64,
    ) -> ReadModel {
        ReadModel {
            binding_index,
            journal,
            settled: producers,
            pending: Map::empty(),
            read_offset: offset,
            prev_read_offset: offset,
            write_head: offset,
            prev_write_head: offset,
        }
    }

    /// The read, with every offset at the one where it effectively starts.
    pub open spec fn started_at(self, offset: i64) -> ReadModel {
        ReadModel {
            read_offset: offset,
            prev_read_offset: offset,
            write_head: offset,
            prev_write_head: offset,
            ..self
        }
    }

    /// Whether the read has a state of the producer `p`.
    pub open spec fn knows(self, p: u64) -> bool {
        self.pending.contains_key(p) || self.settled.contains_key(p)
    }

    /// The state of a producer: as pending, or else as settled, or else new.
    pub open spec fn producer_state(self, producer: Producer) -> ProducerState {
        if self.pending.contains_key(producer.0) {
            self.pending[producer.0]
        } else if self.settled.contains_key(producer.0) {
            self.settled[producer.0]
        } else {
            ProducerState::spec_new()
        }
    }

    /// The read, with a changed state of `producer`.
    pub open spec fn with_producer(self, producer: Producer, state: ProducerState) -> ReadModel {
        ReadModel { pending: self.pending.insert(producer.0, state), ..self }
    }

    /// The read, progressed through `offset`.
    pub open spec fn progressed_to(self, offset: i64) -> ReadModel {
        ReadModel { read_offset: offset, ..self }
    }

    /// Bytes by which the read advanced since it was last reported.
    pub open spec fn bytes_read_delta(self) -> int {
        self.read_offset - self.prev_read_offset
    }

    /// Bytes by which the read's distance from its write head grew since it was
    /// last reported.
    pub open spec fn bytes_behind_delta(self) -> int {
        (self.write_head - self.read_offset) - (self.prev_write_head - self.prev_read_offset)
    }

    /// Byte deltas of the read are representable.
    pub open spec fn deltas_fit(self) -> bool {
        &&& i64::MIN <= self.bytes_read_delta() <= i64::MAX
        &&& i64::MIN <= self.bytes_behind_delta() <= i64::MAX
        &&& i64::MIN <= self.write_head - self.read_offset <= i64::MAX
        &&& i64::MIN <= self.prev_write_head - self.prev_read_offset <= i64::MAX
    }

    /// A flush can take the read's progress.
    pub open spec fn flushable(self) -> bool {
        self.pending.is_empty() || self.deltas_fit()
    }

    /// What a flush reports of the read.
    pub open spec fn progress(self) -> JournalModel {
        JournalModel {
            producers: checkpoint_entries(self.pending),
            bytes_read_delta: self.bytes_read_delta() as i64,
            bytes_behind_delta: self.bytes_behind_delta() as i64,
        }
    }

    /// The read, once a flush has taken its progress: pending producers have settled,
    /// and reported offsets are the new baselines. A read without pending producers
    /// is not modified.
    pub open spec fn flushed(self) -> ReadModel {
        if self.pending.is_empty() {
            self
        } else {
            ReadModel {
                settled: self.settled.union_prefer_right(self.pending),
                pending: Map::empty(),
                prev_read_offset: self.read_offset,
                prev_write_head: self.write_head,
                ..self
            }
        }
    }
}

impl ReadState {
    /// A new read of `journal`, with `producers` recovered, which starts at `offset`.
    pub fn recovered(
        binding_index: u16,
        journal: String,
        producers: ProducerMap,
        offset: i64,
    ) -> (read: ReadState)
        ensures
            read@ == ReadModel::recovered(binding_index, journal@, producers@, offset),
    {
        ReadState {
            binding_index,
            journal,
            settled: producers,
            pending: ProducerMap::new(),
            read_offset: offset,
            prev_read_offset: offset,
            write_head: offset,
            prev_write_head: offset,
        }
    }

    /// Seed the offsets of the read with the one where it effectively starts, so that
    /// byte deltas exclude the content that it skips.
    pub fn start_at(&mut self, offset: i64)
        ensures
            final(self)@ == old(self)@.started_at(offset),
    {
        self.read_offset = offset;
        self.prev_read_offset = offset;
        self.write_head = offset;
        self.prev_write_head = offset;
    }

    /// The state of `producer`: as pending, or else as settled, or else new.
    pub fn producer_state(&self, producer: Producer) -> (state: ProducerState)
        ensures
            state == self@.producer_state(producer),
    {
        match self.pending.get(producer) {
            Some(state) => state,
            None => match self.settled.get(producer) {
                Some(state) => state,
                None => ProducerState::new(),
            },
        }
    }

    /// Whether the byte deltas of this read are representable, if it has any to report.
    pub fn is_flushable(&self) -> (flushable: bool)
        ensures
            flushable == self@.flushable(),
    {
        if self.pending.is_empty() {
            return true;
        }
        match (
            self.read_offset.checked_sub(self.prev_read_offset),
            self.write_head.checked_sub(self.read_offset),
            self.prev_write_head.checked_sub(self.prev_read_offset),
        ) {
            (Some(_), Some(behind), Some(prev_behind)) => {
                behind.checked_sub(prev_behind).is_some()
            },
            _ => false,
        }
    }

    /// Take the progress of this read since the last flush, or nothing if no
    /// producer has changed. Offsets are reported together with producers: they are
    /// deferred while there are none, and remain correct as later deltas are taken
    /// from the same baselines.
    pub fn take_progress(&mut self) -> (progress: Option<JournalFrontier>)
        requires
            old(self)@.flushable(),
        ensures
            final(self)@ == old(self)@.flushed(),
            match progress {
                None => old(self)@.pending.is_empty(),
                Some(journal) => {
                    &&& !old(self)@.pending.is_empty()
                    &&& journal.valid()
                    &&& journal.key() == old(self)@.key()
                    &&& journal@ == old(self)@.progress()
                },
            },
    {
        if self.pending.is_empty() {
            return None;
        }
        let ghost pending = self.pending@;
        let entries = self.pending.entries();
        let mut producers: Vec<ProducerFrontier> = Vec::new();
        let mut i: usize = 0;
        while i < entries.len()
            invariant
                i <= entries@.len(),
                producers@.len() == i,
                forall|j: int|
                    0 <= j < i ==> #[trigger] producers@[j] == checkpoint_entry(
                        entries@[j].0.0,
                        entries@[j].1,
                    ),
            decreases entries@.len() - i,
        {
            let (producer, state) = entries[i];
            let at_head = state.offset == 0 && state.last_commit.0 == 0;
            producers.push(
                ProducerFrontier {
                    producer,
                    last_commit: if at_head {
                        Clock(SPAN_AT_HEAD_MARKER)
                    } else {
                        state.last_commit
                    },
                    hinted_commit: Clock(0),
                    offset: state.offset,
                },
            );
            i += 1;
        }
        proof {
            let keys = producer_keys(producers@);
            assert forall|a: int, b: int|
                0 <= a < b < producers@.len() implies producers@[a].producer.0
                < producers@[b].producer.0 by {
                assert(entries@[a].0.0 < entries@[b].0.0);
            }
            let entered = checkpoint_entries(pending);
            assert forall|k: u64|
                producers_map(producers@).contains_key(k) == entered.contains_key(k) by {
                if keys.contains(k) {
                    let j = choose|j: int| 0 <= j < keys.len() && keys[j] == k;
                    assert(entries@[j].0.0 == k);
                }
                if pending.contains_key(k) {
                    let j = choose|j: int|
                        0 <= j < entries@.len() && (#[trigger] entries@[j]).0.0 == k;
                    assert(keys[j] == k);
                }
            }
            assert forall|k: u64| producers_map(producers@).contains_key(k) implies producers_map(
                producers@,
            )[k] == entered[k] by {
                let j = choose|j: int| 0 <= j < keys.len() && keys[j] == k;
                lemma_keyed_index(keys, producers@, j);
                assert(entries@[j].0.0 == k);
            }
            assert(producers_map(producers@) =~= entered);
        }
        let bytes_read_delta: i64 = self.read_offset - self.prev_read_offset;
        let bytes_behind_delta: i64 = (self.write_head - self.read_offset) - (self.prev_write_head
            - self.prev_read_offset);
        let journal = JournalFrontier {
            binding: self.binding_index,
            journal: self.journal.clone(),
            producers,
            bytes_read_delta,
            bytes_behind_delta,
        };
        self.prev_read_offset = self.read_offset;
        self.prev_write_head = self.write_head;
        self.pending.drain_into(&mut self.settled);
        Some(journal)
    }
}

} // verus!
