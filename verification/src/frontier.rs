//! Frontiers: sorted, mergeable checkpoints of producer progress.

use crate::keyed::{keyed, lemma_keyed_index, lemma_keyed_insert, lemma_keyed_push, lemma_keyed_update};
use crate::order::{compare_keys, key_before, key_order_is_total, key_order_is_transitive, JournalKey, Standing};
use crate::uuid::{Clock, Producer};
use vstd::prelude::*;
use vstd::wrapping::i64_specs::wrapping_add;

verus! {

/// Raw `last_commit` which a checkpoint records for a pending span that begins at
/// journal offset zero, of a producer that never committed. It tells such a span
/// apart from an entry which exists only because of a causal hint.
pub const SPAN_AT_HEAD_MARKER: u64 = 1;

/// Progress of a producer within a `(binding, journal)` read.
#[derive(Clone, Copy, Debug, PartialEq, Eq, Structural)]
pub struct ProducerFrontier {
    pub producer: Producer,
    /// Clock of the producer's last commit.
    pub last_commit: Clock,
    /// Clock at which a causal hint says that the producer commits, or zero.
    pub hinted_commit: Clock,
    /// Journal offset: the begin of an uncommitted span, or a negated commit end.
    pub offset: i64,
}

/// Distance of an encoded offset from the journal's head.
pub open spec fn magnitude(offset: i64) -> int {
    if offset >= 0 {
        offset as int
    } else {
        -offset
    }
}

/// Whether `a` records a position at or beyond that of `b`. Of a commit end and a
/// span begin at one position, the span follows the commit.
pub open spec fn at_or_beyond(a: i64, b: i64) -> bool {
    magnitude(a) > magnitude(b) || (magnitude(a) == magnitude(b) && a >= b)
}

pub open spec fn max_clock(a: Clock, b: Clock) -> Clock {
    if a.0 >= b.0 {
        a
    } else {
        b
    }
}

fn further_offset(a: i64, b: i64) -> (further: i64)
    ensures
        further == if at_or_beyond(a, b) {
            a
        } else {
            b
        },
{
    // Compare negated magnitudes, which are representable for every offset.
    let low_a: i64 = if a > 0 {
        -a
    } else {
        a
    };
    let low_b: i64 = if b > 0 {
        -b
    } else {
        b
    };
    if low_a < low_b || (low_a == low_b && a >= b) {
        a
    } else {
        b
    }
}

fn later_clock(a: Clock, b: Clock) -> (later: Clock)
    ensures
        later == max_clock(a, b),
{
    if a.0 >= b.0 {
        a
    } else {
        b
    }
}

impl ProducerFrontier {
    /// The magnitude of the offset is representable.
    pub open spec fn valid(&self) -> bool {
        self.offset > i64::MIN
    }

    /// The reduction of two entries of one producer: clocks are monotonic, and the
    /// offset of greater magnitude wins.
    pub open spec fn reduced(self, other: ProducerFrontier) -> ProducerFrontier {
        ProducerFrontier {
            producer: self.producer,
            last_commit: max_clock(self.last_commit, other.last_commit),
            hinted_commit: max_clock(self.hinted_commit, other.hinted_commit),
            offset: if at_or_beyond(self.offset, other.offset) {
                self.offset
            } else {
                other.offset
            },
        }
    }

    /// Reduce two entries of one producer.
    pub fn reduce(self, other: ProducerFrontier) -> (out: ProducerFrontier)
        ensures
            out == self.reduced(other),
    {
        ProducerFrontier {
            producer: self.producer,
            last_commit: later_clock(self.last_commit, other.last_commit),
            hinted_commit: later_clock(self.hinted_commit, other.hinted_commit),
            offset: further_offset(self.offset, other.offset),
        }
    }

    /// Whether a causal hint of this producer awaits its commit.
    pub open spec fn unresolved(&self) -> bool {
        self.hinted_commit.0 > self.last_commit.0
    }
}

/// Producers ascend strictly.
pub open spec fn producers_sorted(s: Seq<ProducerFrontier>) -> bool {
    forall|i: int, j: int| 0 <= i < j < s.len() ==> s[i].producer.0 < s[j].producer.0
}

pub open spec fn producer_keys(s: Seq<ProducerFrontier>) -> Seq<u64> {
    s.map_values(|p: ProducerFrontier| p.producer.0)
}

/// The entries of `s` by producer.
pub open spec fn producers_map(s: Seq<ProducerFrontier>) -> Map<u64, ProducerFrontier> {
    keyed(producer_keys(s), s)
}

/// `m` with the entry `p` reduced into it.
pub open spec fn with_producer(
    m: Map<u64, ProducerFrontier>,
    p: ProducerFrontier,
) -> Map<u64, ProducerFrontier> {
    m.insert(
        p.producer.0,
        if m.contains_key(p.producer.0) {
            m[p.producer.0].reduced(p)
        } else {
            p
        },
    )
}

/// The reduction of `a` and `b`, producer by producer.
pub open spec fn producers_reduced(
    a: Map<u64, ProducerFrontier>,
    b: Map<u64, ProducerFrontier>,
) -> Map<u64, ProducerFrontier> {
    Map::new(
        |k: u64| a.contains_key(k) || b.contains_key(k),
        |k: u64|
            if a.contains_key(k) && b.contains_key(k) {
                a[k].reduced(b[k])
            } else if a.contains_key(k) {
                a[k]
            } else {
                b[k]
            },
    )
}

/// Reduce the entry `p` into the sorted `producers`.
pub fn upsert_producer(producers: &mut Vec<ProducerFrontier>, p: ProducerFrontier)
    requires
        producers_sorted(old(producers)@),
    ensures
        producers_sorted(final(producers)@),
        producers_map(final(producers)@) == with_producer(producers_map(old(producers)@), p),
{
    let ghost before = producers@;
    let ghost keys = producer_keys(before);
    let mut i: usize = 0;
    while i < producers.len() && producers[i].producer.0 < p.producer.0
        invariant
            producers@ == before,
            i <= before.len(),
            forall|j: int| 0 <= j < i ==> (#[trigger] before[j]).producer.0 < p.producer.0,
        decreases before.len() - i,
    {
        i += 1;
    }
    if i < producers.len() && producers[i].producer.0 == p.producer.0 {
        let merged = producers[i].reduce(p);
        producers.set(i, merged);
        proof {
            assert(producer_keys(producers@) =~= keys);
            lemma_keyed_index(keys, before, i as int);
            lemma_keyed_update(keys, before, i as int, merged);
        }
    } else {
        producers.insert(i, p);
        proof {
            assert forall|j: int| 0 <= j < keys.len() implies keys[j] != p.producer.0 by {
                if j > i {
                    assert(before[i as int].producer.0 < before[j].producer.0);
                }
            }
            assert(producer_keys(producers@) =~= keys.insert(i as int, p.producer.0));
            lemma_keyed_insert(keys, before, i as int, p.producer.0, p);
        }
    }
}

/// Reduce each of `others` into the sorted `producers`.
pub fn upsert_producers(producers: &mut Vec<ProducerFrontier>, others: &Vec<ProducerFrontier>)
    requires
        producers_sorted(old(producers)@),
        producers_sorted(others@),
    ensures
        producers_sorted(final(producers)@),
        producers_map(final(producers)@) == producers_reduced(
            producers_map(old(producers)@),
            producers_map(others@),
        ),
{
    let ghost before = producers_map(producers@);
    let mut i: usize = 0;
    proof {
        let none = others@.take(0);
        assert(producer_keys(none) =~= seq![]);
        assert(producers_map(none) =~= Map::empty());
        assert(producers_reduced(before, producers_map(none)) =~= before);
    }
    while i < others.len()
        invariant
            producers_sorted(producers@),
            producers_sorted(others@),
            i <= others@.len(),
            producers_map(producers@) == producers_reduced(
                before,
                producers_map(others@.take(i as int)),
            ),
        decreases others@.len() - i,
    {
        let p = others[i];
        upsert_producer(producers, p);
        proof {
            let held = others@.take(i as int);
            let next = others@.take(i + 1);
            let keys = producer_keys(held);
            assert(next =~= held.push(p));
            assert(producer_keys(next) =~= keys.push(p.producer.0));
            assert(keys.no_duplicates());
            assert(!keys.contains(p.producer.0));
            lemma_keyed_push(keys, held, p.producer.0, p);
            assert(producers_reduced(before, producers_map(next)) =~= with_producer(
                producers_reduced(before, producers_map(held)),
                p,
            ));
        }
        i += 1;
    }
    assert(others@.take(others@.len() as int) =~= others@);
}

/// Progress of a `(binding, journal)` read.
#[derive(Debug)]
pub struct JournalFrontier {
    pub binding: u16,
    pub journal: String,
    /// Producers of the read, in ascending order.
    pub producers: Vec<ProducerFrontier>,
    /// Bytes by which the read advanced.
    pub bytes_read_delta: i64,
    /// Bytes by which the read's distance from its write head grew.
    pub bytes_behind_delta: i64,
}

/// What a [`JournalFrontier`] records of its journal and binding.
#[verifier::ext_equal]
pub struct JournalModel {
    pub producers: Map<u64, ProducerFrontier>,
    pub bytes_read_delta: i64,
    pub bytes_behind_delta: i64,
}

impl JournalModel {
    /// The reduction of two records of one journal. Byte deltas add up.
    pub open spec fn reduced(self, other: JournalModel) -> JournalModel {
        JournalModel {
            producers: producers_reduced(self.producers, other.producers),
            bytes_read_delta: wrapping_add(self.bytes_read_delta, other.bytes_read_delta),
            bytes_behind_delta: wrapping_add(self.bytes_behind_delta, other.bytes_behind_delta),
        }
    }
}

impl JournalFrontier {
    pub open spec fn key(&self) -> JournalKey {
        (self.journal@, self.binding)
    }

    pub open spec fn valid(&self) -> bool {
        producers_sorted(self.producers@)
    }

    /// How this journal stands to `other` in a sorted frontier.
    fn standing(&self, other: &JournalFrontier) -> (standing: Standing)
        ensures
            standing == Standing::Before <==> key_before(self.key(), other.key()),
            standing == Standing::Same <==> self.key() == other.key(),
            standing == Standing::After <==> key_before(other.key(), self.key()),
    {
        compare_keys(self.journal.as_str(), self.binding, other.journal.as_str(), other.binding)
    }

    /// Reduce `other`, of the same journal and binding, into this one.
    pub fn reduce(&mut self, other: &JournalFrontier)
        requires
            old(self).valid(),
            other.valid(),
        ensures
            final(self).valid(),
            final(self).key() == old(self).key(),
            final(self)@ == old(self)@.reduced(other@),
    {
        upsert_producers(&mut self.producers, &other.producers);
        self.bytes_read_delta = self.bytes_read_delta.wrapping_add(other.bytes_read_delta);
        self.bytes_behind_delta = self.bytes_behind_delta.wrapping_add(other.bytes_behind_delta);
    }
}

impl View for JournalFrontier {
    type V = JournalModel;

    open spec fn view(&self) -> JournalModel {
        JournalModel {
            producers: producers_map(self.producers@),
            bytes_read_delta: self.bytes_read_delta,
            bytes_behind_delta: self.bytes_behind_delta,
        }
    }
}

pub open spec fn journal_keys(s: Seq<JournalFrontier>) -> Seq<JournalKey> {
    s.map_values(|j: JournalFrontier| j.key())
}

pub open spec fn journal_models(s: Seq<JournalFrontier>) -> Seq<JournalModel> {
    s.map_values(|j: JournalFrontier| j@)
}

/// Journals ascend strictly by key, and each is valid.
pub open spec fn journals_sorted(s: Seq<JournalFrontier>) -> bool {
    &&& forall|i: int, j: int| 0 <= i < j < s.len() ==> key_before(s[i].key(), s[j].key())
    &&& forall|i: int| 0 <= i < s.len() ==> (#[trigger] s[i]).valid()
}

/// The journals of `s` by key.
pub open spec fn journals_map(s: Seq<JournalFrontier>) -> Map<JournalKey, JournalModel> {
    keyed(journal_keys(s), journal_models(s))
}

/// `m` with the journal of `key` reduced into it.
pub open spec fn with_journal(
    m: Map<JournalKey, JournalModel>,
    key: JournalKey,
    journal: JournalModel,
) -> Map<JournalKey, JournalModel> {
    m.insert(
        key,
        if m.contains_key(key) {
            m[key].reduced(journal)
        } else {
            journal
        },
    )
}

/// Strictly ascending keys are distinct.
proof fn lemma_journal_keys_distinct(s: Seq<JournalFrontier>)
    requires
        journals_sorted(s),
    ensures
        journal_keys(s).no_duplicates(),
{
    let keys = journal_keys(s);
    assert forall|i: int, j: int| 0 <= i < keys.len() && 0 <= j < keys.len() && i != j implies keys[i]
        != keys[j] by {
        if i < j {
            key_order_is_total(s[i].key(), s[j].key());
        } else {
            key_order_is_total(s[j].key(), s[i].key());
        }
    }
}

/// Reduce `journal` into the sorted `journals`.
pub fn upsert_journal(journals: &mut Vec<JournalFrontier>, journal: JournalFrontier)
    requires
        journals_sorted(old(journals)@),
        journal.valid(),
    ensures
        journals_sorted(final(journals)@),
        journals_map(final(journals)@) == with_journal(
            journals_map(old(journals)@),
            journal.key(),
            journal@,
        ),
{
    let ghost before = journals@;
    let ghost keys = journal_keys(before);
    let ghost models = journal_models(before);
    let mut i: usize = 0;
    while i < journals.len() && journals[i].standing(&journal) == Standing::Before
        invariant
            journals@ == before,
            i <= before.len(),
            forall|j: int| 0 <= j < i ==> key_before((#[trigger] before[j]).key(), journal.key()),
        decreases before.len() - i,
    {
        i += 1;
    }
    proof {
        lemma_journal_keys_distinct(before);
    }
    if i < journals.len() && journals[i].standing(&journal) == Standing::Same {
        let slot = &mut journals[i];
        slot.reduce(&journal);
        proof {
            assert(journal_keys(journals@) =~= keys);
            assert(journal_models(journals@) =~= models.update(
                i as int,
                models[i as int].reduced(journal@),
            ));
            lemma_keyed_index(keys, models, i as int);
            lemma_keyed_update(keys, models, i as int, models[i as int].reduced(journal@));
            assert forall|a: int, b: int| 0 <= a < b < journals@.len() implies key_before(
                journals@[a].key(),
                journals@[b].key(),
            ) by {
                assert(journals@[a].key() == keys[a] && journals@[b].key() == keys[b]);
                assert(key_before(before[a].key(), before[b].key()));
            }
        }
    } else {
        let ghost key = journal.key();
        let ghost model = journal@;
        journals.insert(i, journal);
        proof {
            if i < before.len() {
                key_order_is_total(before[i as int].key(), key);
            }
            assert forall|j: int| i <= j < before.len() implies key_before(
                key,
                (#[trigger] before[j]).key(),
            ) by {
                if j > i {
                    key_order_is_transitive(key, before[i as int].key(), before[j].key());
                }
            }
            assert forall|j: int| 0 <= j < keys.len() implies keys[j] != key by {
                key_order_is_total(before[j].key(), key);
                key_order_is_total(key, before[j].key());
            }
            assert(journal_keys(journals@) =~= keys.insert(i as int, key));
            assert(journal_models(journals@) =~= models.insert(i as int, model));
            lemma_keyed_insert(keys, models, i as int, key, model);
            assert forall|a: int, b: int| 0 <= a < b < journals@.len() implies key_before(
                journals@[a].key(),
                journals@[b].key(),
            ) by {
                let ga = if a < i {
                    a
                } else {
                    a - 1
                };
                let gb = if b < i {
                    b
                } else {
                    b - 1
                };
                if a != i {
                    assert(journals@[a] == before[ga]);
                }
                if b != i {
                    assert(journals@[b] == before[gb]);
                }
            }
        }
    }
}

/// A position within a shard log.
#[derive(Clone, Copy, Debug, PartialEq, Eq, Structural)]
pub struct Lsn(pub u64);

/// A checkpoint of producer progress.
#[derive(Debug)]
pub struct Frontier {
    /// Number of producers with a hinted commit that is yet to be read.
    pub unresolved_hints: usize,
    /// Journals of the frontier, ascending by journal name and then binding.
    pub journals: Vec<JournalFrontier>,
    /// Flushed position of each shard log.
    pub flushed_lsn: Vec<Lsn>,
}

/// The reduction of `a` and `b`, journal by journal.
pub open spec fn journals_reduced(
    a: Map<JournalKey, JournalModel>,
    b: Map<JournalKey, JournalModel>,
) -> Map<JournalKey, JournalModel> {
    Map::new(
        |k: JournalKey| a.contains_key(k) || b.contains_key(k),
        |k: JournalKey|
            if a.contains_key(k) && b.contains_key(k) {
                a[k].reduced(b[k])
            } else if a.contains_key(k) {
                a[k]
            } else {
                b[k]
            },
    )
}

/// The greater of the positions of each log. A log that only one side tracks keeps
/// its position.
pub open spec fn lsns_reduced(a: Seq<Lsn>, b: Seq<Lsn>) -> Seq<Lsn> {
    Seq::new(
        if a.len() >= b.len() {
            a.len()
        } else {
            b.len()
        },
        |i: int|
            if i >= b.len() || (i < a.len() && a[i].0 >= b[i].0) {
                a[i]
            } else {
                b[i]
            },
    )
}

/// Number of unresolved producers of `s`.
pub open spec fn unresolved_producers(s: Seq<ProducerFrontier>) -> nat
    decreases s.len(),
{
    if s.len() == 0 {
        0
    } else {
        unresolved_producers(s.drop_last()) + (if s.last().unresolved() {
            1nat
        } else {
            0nat
        })
    }
}

/// Number of unresolved producers over the journals of `s`.
pub open spec fn unresolved_in(s: Seq<JournalFrontier>) -> nat
    decreases s.len(),
{
    if s.len() == 0 {
        0
    } else {
        unresolved_in(s.drop_last()) + unresolved_producers(s.last().producers@)
    }
}

/// `n`, or the greatest `usize` if that is less.
pub open spec fn clamped(n: nat) -> usize {
    if n <= usize::MAX {
        n as usize
    } else {
        usize::MAX
    }
}

/// Number of producers over the journals of `s`.
pub open spec fn producers_in(s: Seq<JournalFrontier>) -> nat
    decreases s.len(),
{
    if s.len() == 0 {
        0
    } else {
        producers_in(s.drop_last()) + s.last().producers@.len()
    }
}

/// Bytes by which the reads of the journals of `s` advanced.
pub open spec fn bytes_read_in(s: Seq<JournalFrontier>) -> int
    decreases s.len(),
{
    if s.len() == 0 {
        0
    } else {
        bytes_read_in(s.drop_last()) + s.last().bytes_read_delta
    }
}

/// Bytes by which the distances from the write heads of the journals of `s` grew.
pub open spec fn bytes_behind_in(s: Seq<JournalFrontier>) -> int
    decreases s.len(),
{
    if s.len() == 0 {
        0
    } else {
        bytes_behind_in(s.drop_last()) + s.last().bytes_behind_delta
    }
}

/// Totals over the journals of a [`Frontier`].
#[derive(Clone, Copy, Debug, PartialEq, Eq, Structural)]
pub struct Measures {
    pub journals: usize,
    /// Number of producers over all journals.
    pub journal_producers: usize,
    pub bytes_read_delta: i128,
    pub bytes_behind_delta: i128,
}

impl Measures {
    /// Bytes read, as are added to a counter: a regression counts as none.
    pub open spec fn spec_counted_bytes(self) -> u64 {
        if self.bytes_read_delta <= 0 {
            0
        } else if self.bytes_read_delta >= u64::MAX {
            u64::MAX
        } else {
            self.bytes_read_delta as u64
        }
    }

    pub fn counted_bytes(self) -> (bytes: u64)
        ensures
            bytes == self.spec_counted_bytes(),
    {
        if self.bytes_read_delta <= 0 {
            0
        } else if self.bytes_read_delta >= u64::MAX as i128 {
            u64::MAX
        } else {
            self.bytes_read_delta as u64
        }
    }
}

fn count_unresolved(journals: &Vec<JournalFrontier>) -> (count: usize)
    ensures
        count == clamped(unresolved_in(journals@)),
{
    let mut count: usize = 0;
    let mut i: usize = 0;
    while i < journals.len()
        invariant
            i <= journals@.len(),
            count == clamped(unresolved_in(journals@.take(i as int))),
        decreases journals@.len() - i,
    {
        let producers = &journals[i].producers;
        let ghost held = unresolved_in(journals@.take(i as int));
        let mut k: usize = 0;
        while k < producers.len()
            invariant
                k <= producers@.len(),
                count == clamped(held + unresolved_producers(producers@.take(k as int))),
            decreases producers@.len() - k,
        {
            assert(producers@.take(k + 1).drop_last() =~= producers@.take(k as int));
            if producers[k].hinted_commit.0 > producers[k].last_commit.0 {
                count = count.saturating_add(1);
            }
            k += 1;
        }
        assert(producers@.take(producers@.len() as int) =~= producers@);
        assert(journals@.take(i + 1).drop_last() =~= journals@.take(i as int));
        i += 1;
    }
    assert(journals@.take(journals@.len() as int) =~= journals@);
    count
}

fn reduce_lsns(a: Vec<Lsn>, b: &Vec<Lsn>) -> (out: Vec<Lsn>)
    ensures
        out@ == lsns_reduced(a@, b@),
{
    let mut out: Vec<Lsn> = a;
    let mut i: usize = 0;
    while i < b.len()
        invariant
            i <= b@.len(),
            a@.len() <= out@.len(),
            out@.len() == a@.len() || out@.len() == i,
            i <= out@.len(),
            forall|j: int|
                0 <= j < i ==> #[trigger] out@[j] == lsns_reduced(a@, b@)[j],
            forall|j: int| i <= j < a@.len() ==> #[trigger] out@[j] == a@[j],
        decreases b@.len() - i,
    {
        if i < out.len() {
            if out[i].0 < b[i].0 {
                out.set(i, b[i]);
            }
        } else {
            out.push(b[i]);
        }
        i += 1;
    }
    assert(out@ =~= lsns_reduced(a@, b@));
    out
}

impl Frontier {
    /// What the frontier records, by journal.
    pub open spec fn map(&self) -> Map<JournalKey, JournalModel> {
        journals_map(self.journals@)
    }

    /// Journals and their producers are sorted, and unresolved hints are counted.
    pub open spec fn valid(&self) -> bool {
        &&& journals_sorted(self.journals@)
        &&& self.unresolved_hints == clamped(unresolved_in(self.journals@))
    }

    /// A frontier of `journals`, which are sorted.
    pub fn of_journals(journals: Vec<JournalFrontier>, flushed_lsn: Vec<Lsn>) -> (out: Frontier)
        requires
            journals_sorted(journals@),
        ensures
            out.valid(),
            out.journals@ == journals@,
            out.flushed_lsn@ == flushed_lsn@,
    {
        let unresolved_hints = count_unresolved(&journals);
        Frontier { unresolved_hints, journals, flushed_lsn }
    }

    /// Total over the journals of this frontier.
    pub fn measures(&self) -> (measures: Measures)
        ensures
            measures.journals == self.journals@.len(),
            measures.journal_producers == clamped(producers_in(self.journals@)),
            measures.bytes_read_delta == bytes_read_in(self.journals@),
            measures.bytes_behind_delta == bytes_behind_in(self.journals@),
    {
        let journals = &self.journals;
        let mut journal_producers: usize = 0;
        let mut bytes_read_delta: i128 = 0;
        let mut bytes_behind_delta: i128 = 0;
        let mut i: usize = 0;
        while i < journals.len()
            invariant
                i <= journals@.len(),
                journal_producers == clamped(producers_in(journals@.take(i as int))),
                bytes_read_delta == bytes_read_in(journals@.take(i as int)),
                bytes_behind_delta == bytes_behind_in(journals@.take(i as int)),
                -0x8000_0000_0000_0000 * i <= bytes_read_delta <= 0x8000_0000_0000_0000 * i,
                -0x8000_0000_0000_0000 * i <= bytes_behind_delta <= 0x8000_0000_0000_0000 * i,
            decreases journals@.len() - i,
        {
            assert(journals@.take(i + 1).drop_last() =~= journals@.take(i as int));
            let journal = &journals[i];
            journal_producers = journal_producers.saturating_add(journal.producers.len());
            bytes_read_delta = bytes_read_delta + journal.bytes_read_delta as i128;
            bytes_behind_delta = bytes_behind_delta + journal.bytes_behind_delta as i128;
            i += 1;
        }
        assert(journals@.take(journals@.len() as int) =~= journals@);
        Measures {
            journals: journals.len(),
            journal_producers,
            bytes_read_delta,
            bytes_behind_delta,
        }
    }

    /// Reduce two frontiers: journal by journal, producer by producer, log by log.
    pub fn reduce(self, other: Frontier) -> (out: Frontier)
        requires
            self.valid(),
            other.valid(),
        ensures
            out.valid(),
            out.map() == journals_reduced(self.map(), other.map()),
            out.flushed_lsn@ == lsns_reduced(self.flushed_lsn@, other.flushed_lsn@),
    {
        let ghost before = self.map();
        let ghost all = other.journals@;
        let mut journals = self.journals;
        let mut others = other.journals;
        proof {
            let none = all.skip(all.len() as int);
            assert(journal_keys(none) =~= seq![]);
            assert(journals_map(none) =~= Map::empty());
            assert(journals_reduced(before, journals_map(none)) =~= before);
        }
        while others.len() > 0
            invariant
                journals_sorted(journals@),
                journals_sorted(all),
                others@ == all.take(others@.len() as int),
                others@.len() <= all.len(),
                journals_map(journals@) == journals_reduced(
                    before,
                    journals_map(all.skip(others@.len() as int)),
                ),
            decreases others@.len(),
        {
            let ghost held = all.skip(others@.len() as int);
            if let Some(journal) = others.pop() {
                let ghost n = others@.len() as int;
                assert(journal == all[n]);
                let ghost key = journal.key();
                let ghost model = journal@;
                upsert_journal(&mut journals, journal);
                proof {
                    let next = all.skip(n);
                    let keys = journal_keys(held);
                    let models = journal_models(held);
                    assert(others@ =~= all.take(n));
                    assert(journal_keys(next) =~= keys.insert(0, key));
                    assert(journal_models(next) =~= models.insert(0, model));
                    lemma_journal_keys_distinct(all);
                    assert(keys.no_duplicates()) by {
                        assert forall|i: int, j: int|
                            0 <= i < keys.len() && 0 <= j < keys.len() && i != j implies keys[i]
                            != keys[j] by {
                            assert(keys[i] == journal_keys(all)[i + n + 1]);
                            assert(keys[j] == journal_keys(all)[j + n + 1]);
                        }
                    }
                    assert(!keys.contains(key)) by {
                        assert forall|i: int| 0 <= i < keys.len() implies keys[i] != key by {
                            assert(keys[i] == journal_keys(all)[i + n + 1]);
                            assert(key == journal_keys(all)[n]);
                        }
                    }
                    lemma_keyed_insert(keys, models, 0, key, model);
                    assert(journals_reduced(before, journals_map(next)) =~= with_journal(
                        journals_reduced(before, journals_map(held)),
                        key,
                        model,
                    ));
                }
            }
        }
        assert(all.skip(0) =~= all);
        let flushed_lsn = reduce_lsns(self.flushed_lsn, &other.flushed_lsn);
        Frontier::of_journals(journals, flushed_lsn)
    }
}

/// Unresolved producers are those which are hinted to commit beyond what was read of them,
/// and each is counted once.
pub proof fn unresolved_producers_are_counted(s: Seq<ProducerFrontier>)
    ensures
        unresolved_producers(s) == s.filter(
            |p: ProducerFrontier| p.hinted_commit.0 > p.last_commit.0,
        ).len(),
    decreases s.len(),
{
    reveal(Seq::filter);
    if s.len() > 0 {
        unresolved_producers_are_counted(s.drop_last());
    }
}

/// Totals over journals add up over any two parts of them, and those of one journal are its
/// own.
pub proof fn totals_add_up(a: Seq<JournalFrontier>, b: Seq<JournalFrontier>, one: JournalFrontier)
    ensures
        unresolved_in(a + b) == unresolved_in(a) + unresolved_in(b),
        producers_in(a + b) == producers_in(a) + producers_in(b),
        bytes_read_in(a + b) == bytes_read_in(a) + bytes_read_in(b),
        bytes_behind_in(a + b) == bytes_behind_in(a) + bytes_behind_in(b),
        unresolved_in(seq![one]) == one.producers@.filter(
            |p: ProducerFrontier| p.hinted_commit.0 > p.last_commit.0,
        ).len(),
        producers_in(seq![one]) == one.producers@.len(),
        bytes_read_in(seq![one]) == one.bytes_read_delta,
        bytes_behind_in(seq![one]) == one.bytes_behind_delta,
    decreases b.len(),
{
    let single = seq![one];
    assert(single.drop_last() =~= seq![]);
    assert(single.last() == one);
    unresolved_producers_are_counted(one.producers@);
    assert(unresolved_in(single.drop_last()) == 0);
    assert(producers_in(single.drop_last()) == 0);
    assert(bytes_read_in(single.drop_last()) == 0);
    assert(bytes_behind_in(single.drop_last()) == 0);
    if b.len() == 0 {
        assert(a + b =~= a);
    } else {
        assert((a + b).drop_last() =~= a + b.drop_last());
        assert((a + b).last() == b.last());
        totals_add_up(a, b.drop_last(), one);
    }
}

/// A report counts the bytes read as they are, but for a regression, which counts as none.
pub proof fn counted_bytes_are_those_read(measures: Measures)
    ensures
        0 <= measures.bytes_read_delta <= u64::MAX ==> measures.spec_counted_bytes()
            == measures.bytes_read_delta,
        measures.bytes_read_delta < 0 ==> measures.spec_counted_bytes() == 0,
        measures.bytes_read_delta > u64::MAX ==> measures.spec_counted_bytes() == u64::MAX,
{
}

} // verus!
