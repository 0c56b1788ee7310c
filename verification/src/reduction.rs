//! Laws of frontier reduction: what is reported does not depend on the order in which
//! it is gathered.

use crate::frontier::{
    journal_keys, journal_models, journals_reduced, lsns_reduced, producer_keys, producers_map,
    producers_reduced, producers_sorted, unresolved_in, with_journal, with_producer, Frontier,
    JournalFrontier, JournalModel, Lsn, ProducerFrontier,
};
use crate::keyed::lemma_keyed_index;
use crate::order::{key_before, key_order_is_total, JournalKey};
use crate::producer::{
    flush_progress, hint_entries, hint_entry, hints_progress, reads_progress, JournalHints,
};
use crate::read::ReadModel;
use crate::uuid::{Clock, Producer};
use vstd::multiset::Multiset;
use vstd::prelude::*;
use vstd::wrapping::i64_specs::wrapping_add;

verus! {

/// Entries of one producer reduce alike in either order.
pub proof fn entries_commute(a: ProducerFrontier, b: ProducerFrontier)
    requires
        a.producer == b.producer,
    ensures
        a.reduced(b) == b.reduced(a),
{
}

/// Entries of one producer reduce alike in any grouping.
pub proof fn entries_associate(a: ProducerFrontier, b: ProducerFrontier, c: ProducerFrontier)
    ensures
        a.reduced(b).reduced(c) == a.reduced(b.reduced(c)),
{
}

/// Reducing an entry into itself changes nothing.
pub proof fn entries_are_idempotent(a: ProducerFrontier)
    ensures
        a.reduced(a) == a,
{
}

/// Clocks of an entry never regress as others are reduced into it.
pub proof fn clocks_are_monotonic(a: ProducerFrontier, b: ProducerFrontier)
    ensures
        a.reduced(b).last_commit.0 >= a.last_commit.0,
        a.reduced(b).hinted_commit.0 >= a.hinted_commit.0,
{
}

/// Each entry is held under its own producer.
pub open spec fn keyed_by_producer(m: Map<u64, ProducerFrontier>) -> bool {
    forall|k: u64| m.contains_key(k) ==> (#[trigger] m[k]).producer.0 == k
}

/// Each producer entry of each journal is held under its own producer.
pub open spec fn journals_keyed(m: Map<JournalKey, JournalModel>) -> bool {
    forall|k: JournalKey| m.contains_key(k) ==> keyed_by_producer((#[trigger] m[k]).producers)
}

proof fn lemma_producers_reduced(a: Map<u64, ProducerFrontier>, b: Map<u64, ProducerFrontier>)
    requires
        keyed_by_producer(a),
        keyed_by_producer(b),
    ensures
        keyed_by_producer(producers_reduced(a, b)),
        producers_reduced(a, b) == producers_reduced(b, a),
{
    let ab = producers_reduced(a, b);
    let ba = producers_reduced(b, a);
    assert forall|k: u64| ab.contains_key(k) implies (#[trigger] ab[k]) == ba[k] && ab[k].producer.0
        == k by {
        if a.contains_key(k) && b.contains_key(k) {
            assert(a[k].producer == b[k].producer);
            entries_commute(a[k], b[k]);
        }
    }
    assert(ab =~= ba);
}

proof fn lemma_producers_associate(
    a: Map<u64, ProducerFrontier>,
    b: Map<u64, ProducerFrontier>,
    c: Map<u64, ProducerFrontier>,
)
    ensures
        producers_reduced(producers_reduced(a, b), c) == producers_reduced(
            a,
            producers_reduced(b, c),
        ),
{
    let l = producers_reduced(producers_reduced(a, b), c);
    let r = producers_reduced(a, producers_reduced(b, c));
    assert forall|k: u64| l.contains_key(k) implies #[trigger] l[k] == r[k] by {
        if a.contains_key(k) && b.contains_key(k) && c.contains_key(k) {
            entries_associate(a[k], b[k], c[k]);
        }
    }
    assert(l =~= r);
}

proof fn lemma_wrapping_add_associates(a: i64, b: i64, c: i64)
    ensures
        wrapping_add(wrapping_add(a, b), c) == wrapping_add(a, wrapping_add(b, c)),
{
}

/// Records of one journal reduce alike in either order.
pub proof fn journals_commute(a: JournalModel, b: JournalModel)
    requires
        keyed_by_producer(a.producers),
        keyed_by_producer(b.producers),
    ensures
        a.reduced(b) == b.reduced(a),
        keyed_by_producer(a.reduced(b).producers),
{
    lemma_producers_reduced(a.producers, b.producers);
}

/// Records of one journal reduce alike in any grouping.
pub proof fn journals_associate(a: JournalModel, b: JournalModel, c: JournalModel)
    ensures
        a.reduced(b).reduced(c) == a.reduced(b.reduced(c)),
{
    lemma_producers_associate(a.producers, b.producers, c.producers);
    lemma_wrapping_add_associates(a.bytes_read_delta, b.bytes_read_delta, c.bytes_read_delta);
    lemma_wrapping_add_associates(
        a.bytes_behind_delta,
        b.bytes_behind_delta,
        c.bytes_behind_delta,
    );
}

/// Frontiers reduce alike in either order.
pub proof fn frontiers_commute(
    a: Map<JournalKey, JournalModel>,
    b: Map<JournalKey, JournalModel>,
)
    requires
        journals_keyed(a),
        journals_keyed(b),
    ensures
        journals_reduced(a, b) == journals_reduced(b, a),
        journals_keyed(journals_reduced(a, b)),
{
    let ab = journals_reduced(a, b);
    let ba = journals_reduced(b, a);
    assert forall|k: JournalKey| ab.contains_key(k) implies (#[trigger] ab[k]) == ba[k]
        && keyed_by_producer(ab[k].producers) by {
        if a.contains_key(k) && b.contains_key(k) {
            journals_commute(a[k], b[k]);
        }
    }
    assert(ab =~= ba);
}

/// Frontiers reduce alike in any grouping.
pub proof fn frontiers_associate(
    a: Map<JournalKey, JournalModel>,
    b: Map<JournalKey, JournalModel>,
    c: Map<JournalKey, JournalModel>,
)
    ensures
        journals_reduced(journals_reduced(a, b), c) == journals_reduced(
            a,
            journals_reduced(b, c),
        ),
{
    let l = journals_reduced(journals_reduced(a, b), c);
    let r = journals_reduced(a, journals_reduced(b, c));
    assert forall|k: JournalKey| l.contains_key(k) implies #[trigger] l[k] == r[k] by {
        if a.contains_key(k) && b.contains_key(k) && c.contains_key(k) {
            journals_associate(a[k], b[k], c[k]);
        }
    }
    assert(l =~= r);
}

/// Flushed log positions reduce alike in either order.
pub proof fn lsns_commute(a: Seq<Lsn>, b: Seq<Lsn>)
    ensures
        lsns_reduced(a, b) == lsns_reduced(b, a),
{
    assert(lsns_reduced(a, b) =~= lsns_reduced(b, a));
}

/// Flushed log positions reduce alike in any grouping, and never regress.
pub proof fn lsns_associate(a: Seq<Lsn>, b: Seq<Lsn>, c: Seq<Lsn>)
    ensures
        lsns_reduced(lsns_reduced(a, b), c) == lsns_reduced(a, lsns_reduced(b, c)),
        forall|i: int| 0 <= i < a.len() ==> (#[trigger] lsns_reduced(a, b)[i]).0 >= a[i].0,
{
    assert(lsns_reduced(lsns_reduced(a, b), c) =~= lsns_reduced(a, lsns_reduced(b, c)));
}

proof fn lemma_reads_keyed(reads: Seq<ReadModel>)
    ensures
        journals_keyed(reads_progress(reads)),
    decreases reads.len(),
{
    if reads.len() > 0 {
        let rest = reads_progress(reads.drop_last());
        lemma_reads_keyed(reads.drop_last());
        let last = reads.last().progress();
        assert(keyed_by_producer(last.producers)) by {
            assert forall|k: u64| last.producers.contains_key(k) implies (
            #[trigger] last.producers[k]).producer.0 == k by {}
        }
        let key = reads.last().key();
        if rest.contains_key(key) {
            journals_commute(rest[key], last);
        }
    }
}

/// The progress of reads is that of any two parts of them, reduced.
proof fn lemma_reads_progress_adds(a: Seq<ReadModel>, b: Seq<ReadModel>)
    ensures
        reads_progress(a + b) == journals_reduced(reads_progress(a), reads_progress(b)),
    decreases b.len(),
{
    if b.len() == 0 {
        assert(a + b =~= a);
        assert(journals_reduced(reads_progress(a), reads_progress(b)) =~= reads_progress(a));
    } else {
        let rest = b.drop_last();
        let last = b.last();
        lemma_reads_progress_adds(a, rest);
        assert((a + b).drop_last() =~= a + rest);
        assert((a + b).last() == last);
        if !last.pending.is_empty() {
            lemma_with_journal(reads_progress(a), reads_progress(rest), last.key(), last.progress());
        }
    }
}

/// Reducing a journal into one of two frontiers reduces it into both together.
proof fn lemma_with_journal(
    a: Map<JournalKey, JournalModel>,
    b: Map<JournalKey, JournalModel>,
    key: JournalKey,
    journal: JournalModel,
)
    ensures
        with_journal(journals_reduced(a, b), key, journal) == journals_reduced(
            a,
            with_journal(b, key, journal),
        ),
{
    let l = with_journal(journals_reduced(a, b), key, journal);
    let r = journals_reduced(a, with_journal(b, key, journal));
    assert forall|k: JournalKey| l.contains_key(k) implies #[trigger] l[k] == r[k] by {
        if k == key && a.contains_key(k) && b.contains_key(k) {
            journals_associate(a[k], b[k], journal);
        }
    }
    assert(l =~= r);
}

proof fn lemma_hint_entries_keyed(hints: Seq<(Producer, Clock)>)
    ensures
        keyed_by_producer(hint_entries(hints)),
    decreases hints.len(),
{
    if hints.len() > 0 {
        lemma_hint_entries_keyed(hints.drop_last());
    }
}

proof fn lemma_hints_keyed(hints: Seq<JournalHints>)
    ensures
        journals_keyed(hints_progress(hints)),
    decreases hints.len(),
{
    if hints.len() > 0 {
        let rest = hints_progress(hints.drop_last());
        lemma_hints_keyed(hints.drop_last());
        lemma_hint_entries_keyed(hints.last().producers@);
        let key = hints.last().key();
        if rest.contains_key(key) {
            journals_commute(rest[key], hints.last().progress());
        }
    }
}

proof fn lemma_hints_progress_adds(a: Seq<JournalHints>, b: Seq<JournalHints>)
    ensures
        hints_progress(a + b) == journals_reduced(hints_progress(a), hints_progress(b)),
    decreases b.len(),
{
    if b.len() == 0 {
        assert(a + b =~= a);
        assert(journals_reduced(hints_progress(a), hints_progress(b)) =~= hints_progress(a));
    } else {
        let rest = b.drop_last();
        let last = b.last();
        lemma_hints_progress_adds(a, rest);
        assert((a + b).drop_last() =~= a + rest);
        assert((a + b).last() == last);
        lemma_with_journal(hints_progress(a), hints_progress(rest), last.key(), last.progress());
    }
}

/// Moving one read to the end does not change the progress of reads.
proof fn lemma_read_moves_last(reads: Seq<ReadModel>, i: int)
    requires
        0 <= i < reads.len(),
    ensures
        reads_progress(reads) == reads_progress(reads.remove(i).push(reads[i])),
{
    let before = reads.take(i);
    let one = seq![reads[i]];
    let after = reads.skip(i + 1);
    lemma_reads_keyed(one);
    lemma_reads_keyed(after);
    assert(reads =~= before + (one + after));
    assert(reads.remove(i).push(reads[i]) =~= before + (after + one));
    lemma_reads_progress_adds(one, after);
    lemma_reads_progress_adds(after, one);
    frontiers_commute(reads_progress(one), reads_progress(after));
    lemma_reads_progress_adds(before, one + after);
    lemma_reads_progress_adds(before, after + one);
}

proof fn lemma_reads_permute(a: Seq<ReadModel>, b: Seq<ReadModel>)
    requires
        a.to_multiset() == b.to_multiset(),
    ensures
        reads_progress(a) == reads_progress(b),
    decreases a.len(),
{
    broadcast use vstd::seq_lib::group_to_multiset_ensures;

    a.to_multiset_ensures();
    b.to_multiset_ensures();
    assert(a.len() == b.len());
    if a.len() > 0 {
        let last = a.last();
        assert(a.contains(last));
        assert(b.to_multiset().count(last) > 0);
        assert(b.contains(last));
        let i = choose|i: int| 0 <= i < b.len() && b[i] == last;
        let rest = b.remove(i);
        lemma_read_moves_last(b, i);
        assert(a.drop_last() =~= a.remove(a.len() - 1));
        lemma_reads_permute(a.drop_last(), rest);
        assert(rest.push(last).drop_last() =~= rest);
    } else {
        assert(a =~= b);
    }
}

/// Hints of one producer list are those of any two parts of it, reduced.
proof fn lemma_hint_entries_add(a: Seq<(Producer, Clock)>, b: Seq<(Producer, Clock)>)
    ensures
        hint_entries(a + b) == producers_reduced(hint_entries(a), hint_entries(b)),
    decreases b.len(),
{
    if b.len() == 0 {
        assert(a + b =~= a);
        assert(producers_reduced(hint_entries(a), hint_entries(b)) =~= hint_entries(a));
    } else {
        let rest = b.drop_last();
        let last = hint_entry(b.last());
        lemma_hint_entries_add(a, rest);
        assert((a + b).drop_last() =~= a + rest);
        assert((a + b).last() == b.last());
        let l = with_producer(producers_reduced(hint_entries(a), hint_entries(rest)), last);
        let r = producers_reduced(hint_entries(a), with_producer(hint_entries(rest), last));
        assert forall|k: u64| l.contains_key(k) implies #[trigger] l[k] == r[k] by {
            if hint_entries(a).contains_key(k) && hint_entries(rest).contains_key(k) {
                entries_associate(hint_entries(a)[k], hint_entries(rest)[k], last);
            }
        }
        assert(l =~= r);
    }
}

/// Hints of the producers of one journal reduce alike in any order.
pub proof fn hint_lists_are_order_independent(
    a: Seq<(Producer, Clock)>,
    b: Seq<(Producer, Clock)>,
)
    requires
        a.to_multiset() == b.to_multiset(),
    ensures
        hint_entries(a) == hint_entries(b),
    decreases a.len(),
{
    broadcast use vstd::seq_lib::group_to_multiset_ensures;

    a.to_multiset_ensures();
    b.to_multiset_ensures();
    assert(a.len() == b.len());
    if a.len() > 0 {
        let last = a.last();
        assert(a.contains(last));
        assert(b.to_multiset().count(last) > 0);
        assert(b.contains(last));
        let i = choose|i: int| 0 <= i < b.len() && b[i] == last;
        let before = b.take(i);
        let one = seq![b[i]];
        let after = b.skip(i + 1);
        let rest = b.remove(i);
        assert(b =~= before + (one + after));
        assert(rest.push(last) =~= before + (after + one));
        lemma_hint_entries_keyed(one);
        lemma_hint_entries_keyed(after);
        lemma_hint_entries_add(one, after);
        lemma_hint_entries_add(after, one);
        lemma_producers_reduced(hint_entries(one), hint_entries(after));
        lemma_hint_entries_add(before, one + after);
        lemma_hint_entries_add(before, after + one);
        assert(a.drop_last() =~= a.remove(a.len() - 1));
        hint_lists_are_order_independent(a.drop_last(), rest);
        assert(rest.push(last).drop_last() =~= rest);
    } else {
        assert(a =~= b);
    }
}

/// The hints of a journal, in no order.
pub open spec fn unordered(hints: JournalHints) -> (JournalKey, Multiset<(Producer, Clock)>) {
    (hints.key(), hints.producers@.to_multiset())
}

/// The hints of each journal, in no order, and each journal's in no order.
pub open spec fn all_unordered(hints: Seq<JournalHints>) -> Multiset<
    (JournalKey, Multiset<(Producer, Clock)>),
> {
    hints.map_values(|h: JournalHints| unordered(h)).to_multiset()
}

/// Moving the hints of one journal to the end does not change the progress of hints.
proof fn lemma_hint_moves_last(hints: Seq<JournalHints>, i: int)
    requires
        0 <= i < hints.len(),
    ensures
        hints_progress(hints) == hints_progress(hints.remove(i).push(hints[i])),
{
    let before = hints.take(i);
    let one = seq![hints[i]];
    let after = hints.skip(i + 1);
    lemma_hints_keyed(one);
    lemma_hints_keyed(after);
    assert(hints =~= before + (one + after));
    assert(hints.remove(i).push(hints[i]) =~= before + (after + one));
    lemma_hints_progress_adds(one, after);
    lemma_hints_progress_adds(after, one);
    frontiers_commute(hints_progress(one), hints_progress(after));
    lemma_hints_progress_adds(before, one + after);
    lemma_hints_progress_adds(before, after + one);
}

proof fn lemma_hints_permute(a: Seq<JournalHints>, b: Seq<JournalHints>)
    requires
        all_unordered(a) == all_unordered(b),
    ensures
        hints_progress(a) == hints_progress(b),
    decreases a.len(),
{
    broadcast use vstd::seq_lib::group_to_multiset_ensures;

    let f = |h: JournalHints| unordered(h);
    let ma = a.map_values(f);
    let mb = b.map_values(f);
    ma.to_multiset_ensures();
    mb.to_multiset_ensures();
    assert(ma.len() == mb.len());
    if a.len() > 0 {
        let last = a.last();
        assert(ma[a.len() - 1] == unordered(last));
        assert(ma.contains(unordered(last)));
        assert(mb.to_multiset().count(unordered(last)) > 0);
        assert(mb.contains(unordered(last)));
        let i = choose|i: int| 0 <= i < mb.len() && mb[i] == unordered(last);
        let rest = b.remove(i);
        lemma_hint_moves_last(b, i);
        hint_lists_are_order_independent(last.producers@, b[i].producers@);
        assert(a.drop_last().map_values(f) =~= ma.remove(a.len() - 1));
        assert(rest.map_values(f) =~= mb.remove(i));
        lemma_hints_permute(a.drop_last(), rest);
        assert(rest.push(b[i]).drop_last() =~= rest);
    } else {
        assert(a =~= b);
    }
}

/// What a flush reports does not depend on the order of its reads, nor of its hints, nor
/// of the producers within a hint.
pub proof fn flush_is_order_independent(
    reads_a: Seq<ReadModel>,
    reads_b: Seq<ReadModel>,
    hints_a: Seq<JournalHints>,
    hints_b: Seq<JournalHints>,
)
    requires
        reads_a.to_multiset() == reads_b.to_multiset(),
        all_unordered(hints_a) == all_unordered(hints_b),
    ensures
        flush_progress(reads_a, hints_a) == flush_progress(reads_b, hints_b),
{
    lemma_reads_permute(reads_a, reads_b);
    lemma_hints_permute(hints_a, hints_b);
}

/// Whether two frontiers are the same: in every entry of every journal, in their order, in
/// flushed positions, and in unresolved hints.
pub open spec fn same_frontier(a: Frontier, b: Frontier) -> bool {
    &&& a.unresolved_hints == b.unresolved_hints
    &&& a.flushed_lsn@ == b.flushed_lsn@
    &&& a.journals@.len() == b.journals@.len()
    &&& forall|i: int|
        0 <= i < a.journals@.len() ==> same_journal(#[trigger] a.journals@[i], b.journals@[i])
}

/// Whether two journals of a frontier are the same.
pub open spec fn same_journal(a: JournalFrontier, b: JournalFrontier) -> bool {
    &&& a.key() == b.key()
    &&& a.producers@ == b.producers@
    &&& a.bytes_read_delta == b.bytes_read_delta
    &&& a.bytes_behind_delta == b.bytes_behind_delta
}

/// Two strictly ascending sequences of the same elements are the same.
proof fn lemma_sorted_is_determined<K>(a: Seq<K>, b: Seq<K>, before: spec_fn(K, K) -> bool)
    requires
        forall|x: K, y: K| #[trigger] before(x, y) ==> !before(y, x),
        forall|i: int, j: int| 0 <= i < j < a.len() ==> before(a[i], a[j]),
        forall|i: int, j: int| 0 <= i < j < b.len() ==> before(b[i], b[j]),
        forall|k: K| #[trigger] a.contains(k) <==> b.contains(k),
    ensures
        a == b,
    decreases a.len(),
{
    if a.len() == 0 {
        if b.len() > 0 {
            assert(b.contains(b[0]));
            assert(a.contains(b[0]));
        }
        assert(a =~= b);
    } else {
        assert(a.contains(a.last()));
        let j = choose|j: int| 0 <= j < b.len() && b[j] == a.last();
        assert(b.contains(b.last()));
        assert(a.contains(b.last()));
        let i = choose|i: int| 0 <= i < a.len() && a[i] == b.last();
        if j < b.len() - 1 {
            assert(before(b[j], b[b.len() - 1]));
            if i < a.len() - 1 {
                assert(before(a[i], a[a.len() - 1]));
            } else {
                assert(before(a.last(), a.last()));
            }
            assert(false);
        }
        let ra = a.drop_last();
        let rb = b.drop_last();
        assert forall|x: int, y: int| 0 <= x < y < ra.len() implies before(ra[x], ra[y]) by {
            assert(before(a[x], a[y]));
        }
        assert forall|x: int, y: int| 0 <= x < y < rb.len() implies before(rb[x], rb[y]) by {
            assert(before(b[x], b[y]));
        }
        assert forall|k: K| #[trigger] ra.contains(k) <==> rb.contains(k) by {
            if ra.contains(k) {
                let x = choose|x: int| 0 <= x < ra.len() && ra[x] == k;
                assert(a[x] == k);
                assert(a.contains(k));
                let y = choose|y: int| 0 <= y < b.len() && b[y] == k;
                assert(before(a[x], a[a.len() - 1]));
                assert(y < rb.len());
                assert(rb[y] == k);
            }
            if rb.contains(k) {
                let y = choose|y: int| 0 <= y < rb.len() && rb[y] == k;
                assert(b[y] == k);
                assert(b.contains(k));
                assert(a.contains(k));
                let x = choose|x: int| 0 <= x < a.len() && a[x] == k;
                assert(before(b[y], b[b.len() - 1]));
                assert(x < ra.len());
                assert(ra[x] == k);
            }
        }
        lemma_sorted_is_determined(ra, rb, before);
        assert(a =~= ra.push(a.last()));
        assert(b =~= rb.push(b.last()));
    }
}

/// The producers of a journal are determined by what it records.
proof fn lemma_producers_are_determined(a: Seq<ProducerFrontier>, b: Seq<ProducerFrontier>)
    requires
        producers_sorted(a),
        producers_sorted(b),
        producers_map(a) == producers_map(b),
    ensures
        a == b,
{
    let ka = producer_keys(a);
    let kb = producer_keys(b);
    assert forall|k: u64| #[trigger] ka.contains(k) <==> kb.contains(k) by {
        assert(producers_map(a).contains_key(k) <==> ka.contains(k));
        assert(producers_map(b).contains_key(k) <==> kb.contains(k));
    }
    lemma_sorted_is_determined(ka, kb, |x: u64, y: u64| x < y);
    assert forall|i: int| 0 <= i < a.len() implies a[i] == b[i] by {
        lemma_keyed_index(ka, a, i);
        lemma_keyed_index(kb, b, i);
    }
    assert(a.len() == ka.len() && b.len() == kb.len());
    assert(a =~= b);
}

proof fn lemma_unresolved_is_determined(a: Seq<JournalFrontier>, b: Seq<JournalFrontier>)
    requires
        a.len() == b.len(),
        forall|i: int| 0 <= i < a.len() ==> (#[trigger] a[i]).producers@ == b[i].producers@,
    ensures
        unresolved_in(a) == unresolved_in(b),
    decreases a.len(),
{
    if a.len() > 0 {
        assert(a[a.len() - 1].producers@ == b[b.len() - 1].producers@);
        lemma_unresolved_is_determined(a.drop_last(), b.drop_last());
    }
}

/// A frontier is determined by what it records of each journal, and by its flushed
/// positions.
pub proof fn frontiers_are_determined(a: Frontier, b: Frontier)
    requires
        a.valid(),
        b.valid(),
        a.map() == b.map(),
        a.flushed_lsn@ == b.flushed_lsn@,
    ensures
        same_frontier(a, b),
{
    let ka = journal_keys(a.journals@);
    let kb = journal_keys(b.journals@);
    let before = |x: JournalKey, y: JournalKey| key_before(x, y);
    assert forall|x: JournalKey, y: JournalKey| #[trigger] before(x, y) implies !before(y, x) by {
        key_order_is_total(x, y);
    }
    assert forall|k: JournalKey| #[trigger] ka.contains(k) <==> kb.contains(k) by {
        assert(a.map().contains_key(k) <==> ka.contains(k));
        assert(b.map().contains_key(k) <==> kb.contains(k));
    }
    lemma_sorted_is_determined(ka, kb, before);
    assert(a.journals@.len() == ka.len() && b.journals@.len() == kb.len());
    assert forall|i: int, j: int| 0 <= i < ka.len() && 0 <= j < ka.len() && i != j implies ka[i]
        != ka[j] by {
        if i < j {
            assert(before(ka[i], ka[j]));
        } else {
            assert(before(ka[j], ka[i]));
        }
    }
    assert forall|i: int| 0 <= i < a.journals@.len() implies same_journal(
        #[trigger] a.journals@[i],
        b.journals@[i],
    ) by {
        lemma_keyed_index(ka, journal_models(a.journals@), i);
        lemma_keyed_index(kb, journal_models(b.journals@), i);
        assert(a.journals@[i]@ == b.journals@[i]@);
        assert(a.journals@[i].key() == ka[i] && b.journals@[i].key() == kb[i]);
        lemma_producers_are_determined(a.journals@[i].producers@, b.journals@[i].producers@);
    }
    lemma_unresolved_is_determined(a.journals@, b.journals@);
}

/// Two flushes of the same reads and hints, in any order of either, and of the producers
/// within a hint, build the same frontier. `a` and `b` are frontiers as a flush builds them.
pub proof fn flushed_frontiers_are_order_independent(
    a: Frontier,
    reads_a: Seq<ReadModel>,
    hints_a: Seq<JournalHints>,
    b: Frontier,
    reads_b: Seq<ReadModel>,
    hints_b: Seq<JournalHints>,
)
    requires
        a.valid() && a.map() == flush_progress(reads_a, hints_a),
        b.valid() && b.map() == flush_progress(reads_b, hints_b),
        a.flushed_lsn@ == b.flushed_lsn@,
        reads_a.to_multiset() == reads_b.to_multiset(),
        all_unordered(hints_a) == all_unordered(hints_b),
    ensures
        same_frontier(a, b),
{
    flush_is_order_independent(reads_a, reads_b, hints_a, hints_b);
    frontiers_are_determined(a, b);
}

/// Hints report no bytes.
proof fn lemma_hints_report_no_bytes(hints: Seq<JournalHints>, key: JournalKey)
    ensures
        hints_progress(hints).contains_key(key) ==> hints_progress(hints)[key].bytes_read_delta == 0
            && hints_progress(hints)[key].bytes_behind_delta == 0,
    decreases hints.len(),
{
    if hints.len() > 0 {
        lemma_hints_report_no_bytes(hints.drop_last(), key);
    }
}

/// A journal and binding that has one read reports what that read does, or nothing if it
/// has no pending producers.
proof fn lemma_lone_read_is_reported(reads: Seq<ReadModel>, i: int)
    requires
        0 <= i < reads.len(),
        forall|j: int| 0 <= j < reads.len() && j != i ==> (#[trigger] reads[j]).key()
            != reads[i].key(),
    ensures
        ({
            let progress = reads_progress(reads);
            if reads[i].pending.is_empty() {
                !progress.contains_key(reads[i].key())
            } else {
                progress.contains_key(reads[i].key()) && progress[reads[i].key()]
                    == reads[i].progress()
            }
        }),
    decreases reads.len(),
{
    let rest = reads.drop_last();
    let key = reads[i].key();
    if i < reads.len() - 1 {
        assert forall|j: int| 0 <= j < rest.len() && j != i implies (#[trigger] rest[j]).key()
            != rest[i].key() by {
            assert(reads[j].key() != reads[i].key());
        }
        lemma_lone_read_is_reported(rest, i);
        assert(reads[reads.len() - 1].key() != key);
    } else {
        assert forall|j: int| 0 <= j < rest.len() implies (#[trigger] rest[j]).key() != key by {
            assert(reads[j].key() != reads[i].key());
        }
        lemma_unread_is_not_reported(rest, key);
    }
}

proof fn lemma_unread_is_not_reported(reads: Seq<ReadModel>, key: JournalKey)
    requires
        forall|j: int| 0 <= j < reads.len() ==> (#[trigger] reads[j]).key() != key,
    ensures
        !reads_progress(reads).contains_key(key),
    decreases reads.len(),
{
    if reads.len() > 0 {
        assert(reads[reads.len() - 1].key() != key);
        lemma_unread_is_not_reported(reads.drop_last(), key);
    }
}

/// A flush reports the byte deltas of each read which has pending producers, and which is
/// the only one of its journal and binding.
pub proof fn flush_reports_bytes_of_each_read(
    reads: Seq<ReadModel>,
    hints: Seq<JournalHints>,
    i: int,
)
    requires
        0 <= i < reads.len(),
        !reads[i].pending.is_empty(),
        forall|j: int| 0 <= j < reads.len() && j != i ==> (#[trigger] reads[j]).key()
            != reads[i].key(),
    ensures
        ({
            let reported = flush_progress(reads, hints)[reads[i].key()];
            &&& flush_progress(reads, hints).contains_key(reads[i].key())
            &&& reported.bytes_read_delta == reads[i].progress().bytes_read_delta
            &&& reported.bytes_behind_delta == reads[i].progress().bytes_behind_delta
        }),
{
    lemma_lone_read_is_reported(reads, i);
    lemma_hints_report_no_bytes(hints, reads[i].key());
}

/// A hinted commit resolves once a commit at or beyond it is reduced into its entry.
pub proof fn commits_resolve_hints(entry: ProducerFrontier, commit: ProducerFrontier)
    requires
        commit.last_commit.0 >= entry.hinted_commit.0,
        !commit.unresolved(),
    ensures
        !entry.reduced(commit).unresolved(),
{
}

/// A causal hint never changes what is reported of a producer's commits and offsets: it
/// only raises the commit that is hinted.
pub proof fn hints_change_no_progress(entry: ProducerFrontier, hint: (Producer, Clock))
    requires
        entry.producer == hint.0,
    ensures
        entry.reduced(hint_entry(hint)) == (ProducerFrontier {
            hinted_commit: entry.reduced(hint_entry(hint)).hinted_commit,
            ..entry
        }),
        entry.reduced(hint_entry(hint)).hinted_commit.0 >= hint.1.0,
{
}

/// Of two entries of a producer, the reduction has the greater of each clock, and the offset
/// which is further from the journal's head, of a commit or of a span alike. Of a commit and
/// a span at one distance it is the span.
pub proof fn entries_reduce_to_the_furthest(a: ProducerFrontier, b: ProducerFrontier)
    ensures
        ({
            let r = a.reduced(b);
            let (x, y) = (a.offset as int, b.offset as int);
            &&& r.producer == a.producer
            &&& r.last_commit == a.last_commit || r.last_commit == b.last_commit
            &&& r.last_commit.0 >= a.last_commit.0 && r.last_commit.0 >= b.last_commit.0
            &&& r.hinted_commit == a.hinted_commit || r.hinted_commit == b.hinted_commit
            &&& r.hinted_commit.0 >= a.hinted_commit.0 && r.hinted_commit.0 >= b.hinted_commit.0
            &&& r.offset == x || r.offset == y
            &&& -r.offset <= x <= r.offset || r.offset <= x <= -r.offset
            &&& -r.offset <= y <= r.offset || r.offset <= y <= -r.offset
            &&& x == -y && x >= 0 ==> r.offset == x
            &&& x == -y && y >= 0 ==> r.offset == y
        }),
{
}

/// The reduction of two frontiers is of the journals of either, and that of two journals of
/// the producers of either. What just one has is kept, and what both have is reduced. Bytes
/// add up.
pub proof fn reductions_keep_what_either_has(
    a: Map<JournalKey, JournalModel>,
    b: Map<JournalKey, JournalModel>,
    key: JournalKey,
    producer: u64,
)
    ensures
        ({
            let r = journals_reduced(a, b);
            &&& r.contains_key(key) <==> a.contains_key(key) || b.contains_key(key)
            &&& a.contains_key(key) && !b.contains_key(key) ==> r[key] == a[key]
            &&& !a.contains_key(key) && b.contains_key(key) ==> r[key] == b[key]
            &&& a.contains_key(key) && b.contains_key(key) ==> {
                let (x, y, z) = (a[key].producers, b[key].producers, r[key].producers);
                let read = a[key].bytes_read_delta + b[key].bytes_read_delta;
                let behind = a[key].bytes_behind_delta + b[key].bytes_behind_delta;
                &&& z.contains_key(producer) <==> x.contains_key(producer) || y.contains_key(
                    producer,
                )
                &&& x.contains_key(producer) && !y.contains_key(producer) ==> z[producer]
                    == x[producer]
                &&& !x.contains_key(producer) && y.contains_key(producer) ==> z[producer]
                    == y[producer]
                &&& x.contains_key(producer) && y.contains_key(producer) ==> z[producer]
                    == x[producer].reduced(y[producer])
                &&& i64::MIN <= read <= i64::MAX ==> r[key].bytes_read_delta == read
                &&& i64::MIN <= behind <= i64::MAX ==> r[key].bytes_behind_delta == behind
            }
        }),
{
}

/// Of the positions of each log, the reduction has the greater. A log that just one side
/// tracks keeps its position.
pub proof fn lsns_reduce_to_the_greatest(a: Seq<Lsn>, b: Seq<Lsn>, i: int)
    ensures
        ({
            let r = lsns_reduced(a, b);
            &&& 0 <= i < r.len() <==> 0 <= i < a.len() || 0 <= i < b.len()
            &&& 0 <= i < a.len() && i >= b.len() ==> r[i] == a[i]
            &&& 0 <= i < b.len() && i >= a.len() ==> r[i] == b[i]
            &&& 0 <= i < a.len() && i < b.len() ==> {
                &&& r[i] == a[i] || r[i] == b[i]
                &&& r[i].0 >= a[i].0 && r[i].0 >= b[i].0
            }
        }),
{
}

/// Whether `clock` is hinted of `producer` within `list`.
pub open spec fn lists_hint(list: Seq<(Producer, Clock)>, producer: u64, clock: Clock) -> bool {
    exists|i: int| 0 <= i < list.len() && #[trigger] list[i] == (Producer(producer), clock)
}

/// The entries of hints are of the producers which are hinted, and each holds the greatest
/// clock that is hinted of its producer, and no progress.
pub proof fn hints_hold_the_greatest_clock(list: Seq<(Producer, Clock)>, producer: u64)
    ensures
        ({
            let entries = hint_entries(list);
            &&& entries.contains_key(producer) <==> exists|clock: Clock| #[trigger]
                lists_hint(list, producer, clock)
            &&& entries.contains_key(producer) ==> {
                let entry = entries[producer];
                &&& entry.producer.0 == producer
                &&& entry.last_commit.0 == 0 && entry.offset == 0
                &&& lists_hint(list, producer, entry.hinted_commit)
                &&& forall|clock: Clock| #[trigger]
                    lists_hint(list, producer, clock) ==> clock.0 <= entry.hinted_commit.0
            }
        }),
    decreases list.len(),
{
    if list.len() > 0 {
        let rest = list.drop_last();
        hints_hold_the_greatest_clock(rest, producer);
        let entries = hint_entries(list);
        assert forall|clock: Clock| #[trigger] lists_hint(list, producer, clock) == (lists_hint(
            rest,
            producer,
            clock,
        ) || list.last() == (Producer(producer), clock)) by {
            if lists_hint(rest, producer, clock) {
                let i = choose|i: int|
                    0 <= i < rest.len() && #[trigger] rest[i] == (Producer(producer), clock);
                assert(list[i] == (Producer(producer), clock));
            }
            if list.last() == (Producer(producer), clock) {
                assert(list[list.len() - 1] == (Producer(producer), clock));
            }
            if lists_hint(list, producer, clock) {
                let i = choose|i: int|
                    0 <= i < list.len() && #[trigger] list[i] == (Producer(producer), clock);
                if i < rest.len() {
                    assert(rest[i] == (Producer(producer), clock));
                }
            }
        }
        if entries.contains_key(producer) {
            assert(lists_hint(list, producer, entries[producer].hinted_commit));
        }
        if exists|clock: Clock| #[trigger] lists_hint(list, producer, clock) {
            let clock = choose|clock: Clock| #[trigger] lists_hint(list, producer, clock);
            if lists_hint(rest, producer, clock) {
                assert(hint_entries(rest).contains_key(producer));
            }
        }
    }
}

/// Whether `clock` is hinted of `producer`, for the journal and binding of `key`.
pub open spec fn is_hinted(
    hints: Seq<JournalHints>,
    key: JournalKey,
    producer: u64,
    clock: Clock,
) -> bool {
    exists|i: int|
        0 <= i < hints.len() && (#[trigger] hints[i]).journal@ == key.0 && hints[i].binding
            == key.1 && lists_hint(hints[i].producers@, producer, clock)
}

proof fn lemma_hints_progress(hints: Seq<JournalHints>, key: JournalKey, producer: u64)
    ensures
        ({
            let all = hints_progress(hints);
            &&& all.contains_key(key) <==> exists|i: int|
                0 <= i < hints.len() && (#[trigger] hints[i]).journal@ == key.0
                    && hints[i].binding == key.1
            &&& all.contains_key(key) && all[key].producers.contains_key(producer)
                <==> exists|clock: Clock| #[trigger] is_hinted(hints, key, producer, clock)
            &&& all.contains_key(key) && all[key].producers.contains_key(producer) ==> {
                let entry = all[key].producers[producer];
                &&& entry.producer.0 == producer
                &&& entry.last_commit.0 == 0 && entry.offset == 0
                &&& is_hinted(hints, key, producer, entry.hinted_commit)
                &&& forall|clock: Clock| #[trigger]
                    is_hinted(hints, key, producer, clock) ==> clock.0 <= entry.hinted_commit.0
            }
        }),
    decreases hints.len(),
{
    if hints.len() > 0 {
        let rest = hints.drop_last();
        let last = hints.last();
        let all = hints_progress(hints);
        let before = hints_progress(rest);
        lemma_hints_progress(rest, key, producer);
        hints_hold_the_greatest_clock(last.producers@, producer);
        assert(hints[hints.len() - 1] == last);
        if before.contains_key(key) {
            let i = choose|i: int|
                0 <= i < rest.len() && (#[trigger] rest[i]).journal@ == key.0 && rest[i].binding
                    == key.1;
            assert(hints[i] == rest[i]);
        }
        assert forall|clock: Clock| #[trigger]
            is_hinted(hints, key, producer, clock) == (is_hinted(rest, key, producer, clock) || (
            last.key() == key && lists_hint(last.producers@, producer, clock))) by {
            if is_hinted(rest, key, producer, clock) {
                let i = choose|i: int|
                    0 <= i < rest.len() && (#[trigger] rest[i]).journal@ == key.0
                        && rest[i].binding == key.1 && lists_hint(
                        rest[i].producers@,
                        producer,
                        clock,
                    );
                assert(hints[i] == rest[i]);
            }
            if is_hinted(hints, key, producer, clock) {
                let i = choose|i: int|
                    0 <= i < hints.len() && (#[trigger] hints[i]).journal@ == key.0
                        && hints[i].binding == key.1 && lists_hint(
                        hints[i].producers@,
                        producer,
                        clock,
                    );
                if i < rest.len() {
                    assert(rest[i] == hints[i]);
                }
            }
        }
        if exists|i: int|
            0 <= i < hints.len() && (#[trigger] hints[i]).journal@ == key.0 && hints[i].binding
                == key.1 {
            let i = choose|i: int|
                0 <= i < hints.len() && (#[trigger] hints[i]).journal@ == key.0
                    && hints[i].binding == key.1;
            if i < rest.len() {
                assert(rest[i] == hints[i]);
            }
        }
        let here = hint_entries(last.producers@);
        if last.key() == key && here.contains_key(producer) {
            assert(is_hinted(hints, key, producer, here[producer].hinted_commit));
        }
        if before.contains_key(key) && before[key].producers.contains_key(producer) {
            assert(is_hinted(hints, key, producer, before[key].producers[producer].hinted_commit));
        }
        if exists|clock: Clock| #[trigger] is_hinted(hints, key, producer, clock) {
            let clock = choose|clock: Clock| #[trigger] is_hinted(hints, key, producer, clock);
            if is_hinted(rest, key, producer, clock) {
                assert(before[key].producers.contains_key(producer));
            } else {
                assert(lists_hint(last.producers@, producer, clock));
                assert(here.contains_key(producer));
            }
        }
    }
}

/// A flush reports every pending producer of a read, which is the only one of its journal and
/// binding: at its offset, and at its commit or the marker of a span at the head. It reports
/// every producer that is hinted, at the greatest hint. And it reports no other.
pub proof fn flush_reports_every_producer(
    reads: Seq<ReadModel>,
    hints: Seq<JournalHints>,
    i: int,
    producer: u64,
)
    requires
        0 <= i < reads.len(),
        forall|j: int| 0 <= j < reads.len() && j != i ==> (#[trigger] reads[j]).key()
            != reads[i].key(),
    ensures
        ({
            let key = (reads[i].journal, reads[i].binding_index);
            let pending = reads[i].pending;
            let all = flush_progress(reads, hints);
            let reported = all.contains_key(key) && all[key].producers.contains_key(producer);
            let entry = all[key].producers[producer];
            &&& reported <==> pending.contains_key(producer) || exists|clock: Clock| #[trigger]
                is_hinted(hints, key, producer, clock)
            &&& reported ==> entry.producer.0 == producer
            &&& pending.contains_key(producer) ==> {
                let state = pending[producer];
                &&& entry.offset == state.offset
                &&& state.offset != 0 || state.last_commit.0 != 0 ==> entry.last_commit
                    == state.last_commit
                &&& state.offset == 0 && state.last_commit.0 == 0 ==> entry.last_commit.0 == 1
            }
            &&& reported && !pending.contains_key(producer) ==> entry.last_commit.0 == 0
                && entry.offset == 0
            &&& reported ==> entry.hinted_commit.0 == 0 || is_hinted(
                hints,
                key,
                producer,
                entry.hinted_commit,
            )
            &&& forall|clock: Clock| #[trigger]
                is_hinted(hints, key, producer, clock) ==> clock.0 <= entry.hinted_commit.0
        }),
{
    lemma_lone_read_is_reported(reads, i);
    let key = reads[i].key();
    lemma_hints_progress(hints, key, producer);
}

/// A flush reports a journal exactly if a read of it has pending producers, or it is hinted.
pub proof fn flush_reports_journals_with_progress(
    reads: Seq<ReadModel>,
    hints: Seq<JournalHints>,
    key: JournalKey,
)
    ensures
        flush_progress(reads, hints).contains_key(key) <==> (exists|i: int|
            0 <= i < reads.len() && (#[trigger] reads[i]).journal == key.0
                && reads[i].binding_index == key.1 && !reads[i].pending.is_empty()) || (exists|
            i: int,
        |
            0 <= i < hints.len() && (#[trigger] hints[i]).journal@ == key.0 && hints[i].binding
                == key.1),
{
    lemma_hints_progress(hints, key, 0);
    lemma_reads_progress_keys(reads, key);
}

proof fn lemma_reads_progress_keys(reads: Seq<ReadModel>, key: JournalKey)
    ensures
        reads_progress(reads).contains_key(key) <==> exists|i: int|
            0 <= i < reads.len() && (#[trigger] reads[i]).journal == key.0
                && reads[i].binding_index == key.1 && !reads[i].pending.is_empty(),
    decreases reads.len(),
{
    if reads.len() > 0 {
        let rest = reads.drop_last();
        lemma_reads_progress_keys(rest, key);
        assert(reads[reads.len() - 1] == reads.last());
        if reads_progress(rest).contains_key(key) {
            let i = choose|i: int|
                0 <= i < rest.len() && (#[trigger] rest[i]).journal == key.0
                    && rest[i].binding_index == key.1 && !rest[i].pending.is_empty();
            assert(reads[i] == rest[i]);
        }
        if exists|i: int|
            0 <= i < reads.len() && (#[trigger] reads[i]).journal == key.0
                && reads[i].binding_index == key.1 && !reads[i].pending.is_empty() {
            let i = choose|i: int|
                0 <= i < reads.len() && (#[trigger] reads[i]).journal == key.0
                    && reads[i].binding_index == key.1 && !reads[i].pending.is_empty();
            if i < rest.len() {
                assert(rest[i] == reads[i]);
            }
        }
    }
}

} // verus!
