//! Append requests to Log shards.

use crate::actor::{lemma_same_held, names, ActorModel, SliceActor};
use crate::read::Meta;
use crate::topology::Binding;
use crate::uuid::{Flags, Producer};
use vstd::prelude::*;

verus! {

/// Declares `bytes::Bytes`, a shared and immutable slice of bytes.
#[verifier::external_type_specification]
#[verifier::external_body]
pub struct ExBytes(bytes::Bytes);

/// Declares `bytes::BytesMut`, a buffer of bytes.
#[verifier::external_type_specification]
#[verifier::external_body]
pub struct ExBytesMut(bytes::BytesMut);

/// The bytes which a `bytes::Bytes` holds.
pub uninterp spec fn held(bytes: bytes::Bytes) -> Seq<u8>;

/// The bytes which a `bytes::BytesMut` holds.
pub uninterp spec fn buffered(buffer: bytes::BytesMut) -> Seq<u8>;

/// `bytes::BytesMut::split` removes all bytes of the buffer, and returns them. The
/// buffer is then empty.
pub assume_specification[ bytes::BytesMut::split ](buffer: &mut bytes::BytesMut) -> (removed:
    bytes::BytesMut)
    ensures
        buffered(removed) == buffered(*old(buffer)),
        buffered(*final(buffer)) == Seq::<u8>::empty(),
;

/// `bytes::BytesMut::freeze` converts a buffer into an immutable slice of the bytes
/// which it holds.
pub assume_specification[ bytes::BytesMut::freeze ](buffer: bytes::BytesMut) -> (frozen:
    bytes::Bytes)
    ensures
        held(frozen) == buffered(buffer),
;

/// `<bytes::Bytes as Clone>::clone` returns another handle of the same bytes.
pub assume_specification[ <bytes::Bytes as Clone>::clone ](bytes: &bytes::Bytes) -> (cloned:
    bytes::Bytes)
    ensures
        held(cloned) == held(*bytes),
;

/// A Log shard to which a document is routed, and the name of the document's journal
/// as encoded relative to the name that was last sent to the shard: by an earlier target of
/// the same document, if that is of the same shard.
#[derive(Debug)]
pub struct AppendTarget {
    pub shard_index: usize,
    /// Length to which the previous name is truncated, as a delta.
    pub truncate_delta: i32,
    /// Suffix which is then added.
    pub suffix: String,
}

/// A request that a Log shard append a document.
#[derive(Debug)]
pub struct Append {
    pub journal_name_truncate_delta: i32,
    pub journal_name_suffix: String,
    pub binding: u32,
    pub priority: u32,
    pub read_delay: u64,
    pub producer: Producer,
    pub clock: u64,
    pub flags: Flags,
    /// The extracted key of the document.
    pub packed_key: bytes::Bytes,
    /// The document.
    pub doc_archived: bytes::Bytes,
    /// Length of the document within its journal.
    pub source_byte_length: u32,
}

impl Append {
    /// Whether this appends the document of `meta`, which is of `binding`.
    pub open spec fn appends(&self, binding: Binding, meta: Meta) -> bool {
        &&& self.binding == binding.index
        &&& self.priority == binding.priority
        &&& self.read_delay == binding.read_delay.0
        &&& self.producer == meta.producer
        &&& self.clock == meta.clock.0
        &&& self.flags == meta.flags
        &&& self.source_byte_length == meta.end_offset - meta.begin_offset
    }

    /// Whether this holds the encoded journal name of `target`.
    pub open spec fn names(&self, target: AppendTarget) -> bool {
        &&& self.journal_name_truncate_delta == target.truncate_delta
        &&& self.journal_name_suffix == target.suffix
    }
}

/// Whether `requests` are the Appends of one document to `targets`, one for each and in
/// order: of its `binding` and `meta`, its packed `key`, and its archived bytes `doc`.
pub open spec fn are_appends_of(
    requests: Seq<(usize, Append)>,
    binding: Binding,
    meta: Meta,
    key: Seq<u8>,
    doc: Seq<u8>,
    targets: Seq<AppendTarget>,
) -> bool {
    &&& requests.len() == targets.len()
    &&& forall|i: int|
        0 <= i < targets.len() ==> {
            let (shard_index, append) = #[trigger] requests[i];
            &&& shard_index == targets[i].shard_index
            &&& append.names(targets[i])
            &&& append.appends(binding, meta)
            &&& held(append.packed_key) == key
            &&& held(append.doc_archived) == doc
        }
}

/// Whether `shard_index` is among `targets`.
pub open spec fn is_target(targets: Seq<AppendTarget>, shard_index: int) -> bool {
    exists|i: int| 0 <= i < targets.len() && (#[trigger] targets[i]).shard_index == shard_index
}

/// The names last sent to each shard, once `journal` was sent to `targets`.
pub open spec fn names_sent(
    sent: Seq<Seq<char>>,
    targets: Seq<AppendTarget>,
    journal: Seq<char>,
) -> Seq<Seq<char>> {
    Seq::new(
        sent.len(),
        |shard_index: int|
            if is_target(targets, shard_index) {
                journal
            } else {
                sent[shard_index]
            },
    )
}

impl<D> SliceActor<D> {
    /// Build the Append requests of a document of the read `read_id`, one for each of
    /// `targets`, and note that each was sent the name of the document's journal.
    /// There must be capacity to send all of them. The buffered key is taken.
    pub fn append_requests(
        &mut self,
        read_id: u32,
        meta: &Meta,
        packed_key: &mut bytes::BytesMut,
        doc_archived: &bytes::Bytes,
        targets: Vec<AppendTarget>,
    ) -> (requests: Vec<(usize, Append)>)
        requires
            old(self)@.valid(),
            read_id < old(self)@.reads.len(),
            meta.valid(),
            meta.end_offset - meta.begin_offset <= u32::MAX,
            forall|i: int|
                0 <= i < targets@.len() ==> (#[trigger] targets@[i]).shard_index
                    < old(self).topology.shard_count,
        ensures
            final(self)@.valid(),
            final(self)@ == (ActorModel {
                log_prev_journal: names_sent(
                    old(self)@.log_prev_journal,
                    targets@,
                    old(self)@.reads[read_id as int].journal,
                ),
                ..old(self)@
            }),
            buffered(*final(packed_key)) == Seq::<u8>::empty(),
            are_appends_of(
                requests@,
                old(self)@.binding(read_id),
                *meta,
                buffered(*old(packed_key)),
                held(*doc_archived),
                targets@,
            ),
    {
        let ghost before = self@;
        let ghost all = targets@;
        assert(self.reads@[read_id as int]@ == before.reads[read_id as int]);
        let journal = self.reads[read_id as usize].journal.clone();
        let binding_index = self.reads[read_id as usize].binding_index as usize;
        let key = packed_key.split().freeze();
        let mut requests: Vec<(usize, Append)> = Vec::new();
        assert(names_sent(before.log_prev_journal, all.take(0), journal@)
            =~= before.log_prev_journal);
        for target in it: targets
            invariant
                it.seq() == all,
                before.valid(),
                read_id < before.reads.len(),
                binding_index == before.reads[read_id as int].binding_index,
                meta.valid(),
                meta.end_offset - meta.begin_offset <= u32::MAX,
                forall|i: int|
                    0 <= i < all.len() ==> (#[trigger] all[i]).shard_index
                        < before.topology.shard_count,
                journal@ == before.reads[read_id as int].journal,
                self@ == (ActorModel {
                    log_prev_journal: names_sent(
                        before.log_prev_journal,
                        all.take(it.index()),
                        journal@,
                    ),
                    ..before
                }),
                requests@.len() == it.index(),
                forall|i: int|
                    0 <= i < it.index() ==> {
                        let (shard_index, append) = #[trigger] requests@[i];
                        &&& shard_index == all[i].shard_index
                        &&& append.names(all[i])
                        &&& append.appends(before.binding(read_id), *meta)
                        &&& held(append.packed_key) == held(key)
                        &&& held(append.doc_archived) == held(*doc_archived)
                    },
        {
            let ghost sent = self@.log_prev_journal;
            let ghost n = it.index();
            assert(target == all[n]);
            let AppendTarget { shard_index, truncate_delta, suffix } = target;
            assert(sent == names(self.log_prev_journal@));
            assert(sent.len() == self.log_prev_journal@.len());
            assert(sent.len() == before.topology.shard_count);
            self.log_prev_journal.set(shard_index, journal.clone());
            proof {
                let next = names_sent(before.log_prev_journal, all.take(n + 1), journal@);
                assert forall|s: int| 0 <= s < sent.len() implies #[trigger] is_target(
                    all.take(n + 1),
                    s,
                ) == (is_target(all.take(n), s) || s == shard_index) by {
                    if is_target(all.take(n), s) {
                        let i = choose|i: int|
                            0 <= i < all.take(n).len() && (#[trigger] all.take(n)[i]).shard_index
                                == s;
                        assert(all.take(n + 1)[i].shard_index == s);
                    }
                    if s == shard_index {
                        assert(all.take(n + 1)[n].shard_index == s);
                    }
                    if is_target(all.take(n + 1), s) {
                        let i = choose|i: int|
                            0 <= i < all.take(n + 1).len() && (#[trigger] all.take(
                                n + 1,
                            )[i]).shard_index == s;
                        if i < n {
                            assert(all.take(n)[i].shard_index == s);
                        }
                    }
                }
                let current = names(self.log_prev_journal@);
                assert forall|s: int| 0 <= s < sent.len() implies #[trigger] current[s]
                    == next[s] by {
                    assert(is_target(all.take(n + 1), s) == (is_target(all.take(n), s) || s
                        == shard_index));
                    assert(sent[s] == if is_target(all.take(n), s) {
                        journal@
                    } else {
                        before.log_prev_journal[s]
                    });
                }
                assert(current =~= next);
            }
            let binding = &self.topology.bindings[binding_index];
            requests.push(
                (
                    shard_index,
                    Append {
                        journal_name_truncate_delta: truncate_delta,
                        journal_name_suffix: suffix,
                        binding: binding.index as u32,
                        priority: binding.priority,
                        read_delay: binding.read_delay.0,
                        producer: meta.producer,
                        clock: meta.clock.0,
                        flags: meta.flags,
                        packed_key: key.clone(),
                        doc_archived: doc_archived.clone(),
                        source_byte_length: (meta.end_offset - meta.begin_offset) as u32,
                    },
                ),
            );
        }
        proof {
            assert(all.take(all.len() as int) =~= all);
            lemma_same_held(before, self@);
        }
        requests
    }
}

} // verus!
