//! Requests for journal reads.

use crate::topology::Binding;
use vstd::prelude::*;
use vstd::string::StringExecFns;

verus! {

/// A hint of the brokers which serve a journal. It is an optimization, and is not
/// required for correctness.
#[derive(Debug)]
pub struct Header {
    /// The encoded route.
    pub route: Vec<u8>,
}

/// A request to read a journal.
#[derive(Debug)]
pub struct ReadRequest {
    pub header: Option<Header>,
    /// Journal to read, with a metadata component that identifies the reader.
    pub journal: String,
    /// Offset to read from.
    pub offset: i64,
    /// Whether to await further content at the write head.
    pub block: bool,
    pub do_not_proxy: bool,
    pub metadata_only: bool,
    /// Offset to read to, exclusive, or zero to read without end.
    pub end_offset: i64,
    /// Lower bound on the modification time of read content, in Unix seconds.
    pub begin_mod_time: i64,
    pub min_etcd_revision: i64,
}

/// The name under which a binding reads `journal`.
pub open spec fn read_name(journal: Seq<char>, binding: Binding) -> Seq<char> {
    journal + seq![';'] + binding.journal_read_suffix@
}

impl ReadRequest {
    /// Whether this reads `journal` for `binding` directly, from `offset`.
    pub open spec fn reads(&self, journal: Seq<char>, binding: Binding, offset: int) -> bool {
        &&& self.journal@ == read_name(journal, binding)
        &&& self.begin_mod_time == binding.not_before
        &&& self.offset == offset
        &&& self.do_not_proxy
        &&& !self.metadata_only
    }

    /// Whether this follows the content of its journal without end.
    pub open spec fn tails(&self) -> bool {
        self.block && self.end_offset == 0
    }

    /// Whether this reads the existing content before `end`, and then stops.
    pub open spec fn ends_at(&self, end: int) -> bool {
        !self.block && self.end_offset == end
    }

    /// Begin the read at the offset to which a probe fast-forwarded it, rather than
    /// at that of the checkpoint: the content between is filtered regardless. Returns
    /// whether the read is caught up with its write head from the start.
    pub fn probed(
        self,
        start_offset: i64,
        write_head: i64,
        header: Option<Header>,
    ) -> (probed: (ReadRequest, bool))
        ensures
            probed.0 == (ReadRequest { offset: start_offset, header, ..self }),
            probed.1 == (start_offset >= write_head),
    {
        (ReadRequest { offset: start_offset, header, ..self }, start_offset >= write_head)
    }
}

fn named(journal: &str, binding: &Binding) -> (name: String)
    ensures
        name@ == read_name(journal@, *binding),
{
    let mut name = journal.to_owned();
    name.append(";");
    name.append(binding.journal_read_suffix.as_str());
    proof {
        reveal_strlit(";");
        assert(";"@ =~= seq![';']);
    }
    name
}

/// The main read of `journal`, from `offset` and onwards.
pub fn main_read_request(
    journal: &str,
    binding: &Binding,
    offset: i64,
    create_revision: i64,
    header: Option<Header>,
) -> (request: ReadRequest)
    ensures
        request.reads(journal@, *binding, offset as int),
        request.tails(),
        request.min_etcd_revision == create_revision,
        request.header == header,
{
    ReadRequest {
        header,
        journal: named(journal, binding),
        offset,
        block: true,
        do_not_proxy: true,
        metadata_only: false,
        end_offset: 0,
        begin_mod_time: binding.not_before,
        min_etcd_revision: create_revision,
    }
}

/// The bounded, non-blocking historical read of `[gap_begin, trigger_begin)` of a
/// backfill. It needs no probe of the write head.
pub fn backfill_read_request(
    journal: &str,
    binding: &Binding,
    gap_begin: i64,
    trigger_begin: i64,
) -> (request: ReadRequest)
    ensures
        request.reads(journal@, *binding, gap_begin as int),
        request.ends_at(trigger_begin as int),
        request.min_etcd_revision == 0,
        request.header is None,
{
    ReadRequest {
        header: None,
        journal: named(journal, binding),
        offset: gap_begin,
        block: false,
        do_not_proxy: true,
        metadata_only: false,
        end_offset: trigger_begin,
        begin_mod_time: binding.not_before,
        min_etcd_revision: 0,
    }
}

} // verus!
