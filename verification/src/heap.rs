//! Reads with ready documents, in the order in which they drain.

use crate::read::{ReadyModel, ReadyRead};
use crate::uuid::Clock;
use std::collections::VecDeque;
use vstd::prelude::*;

verus! {

/// A read with ready documents, and what orders it among others.
#[derive(Debug)]
pub struct ReadyReadEntry<D> {
    /// Priority of the read's binding.
    pub priority: u32,
    /// Clock of the head document, plus the read delay of the binding.
    pub adjusted_clock: Clock,
    pub inner: ReadyRead<D>,
}

/// What a [`ReadyReadEntry`] holds.
#[verifier::ext_equal]
pub struct EntryModel<D> {
    pub priority: u32,
    pub adjusted_clock: Clock,
    pub ready: ReadyModel<D>,
}

impl<D> EntryModel<D> {
    /// Whether this entry drains strictly before `other`: by descending priority, and
    /// then by ascending adjusted clock.
    pub open spec fn drains_before(self, other: EntryModel<D>) -> bool {
        self.priority > other.priority || (self.priority == other.priority
            && self.adjusted_clock.0 < other.adjusted_clock.0)
    }
}

impl<D> View for ReadyReadEntry<D> {
    type V = EntryModel<D>;

    open spec fn view(&self) -> EntryModel<D> {
        EntryModel {
            priority: self.priority,
            adjusted_clock: self.adjusted_clock,
            ready: self.inner@,
        }
    }
}

impl<D> ReadyReadEntry<D> {
    fn drains_before(&self, other: &ReadyReadEntry<D>) -> (before: bool)
        ensures
            before == self@.drains_before(other@),
    {
        self.priority > other.priority || (self.priority == other.priority
            && self.adjusted_clock.0 < other.adjusted_clock.0)
    }
}

/// No entry drains before one that precedes it.
pub open spec fn in_drain_order<D>(s: Seq<EntryModel<D>>) -> bool {
    forall|i: int, j: int| 0 <= i < j < s.len() ==> !s[j].drains_before(s[i])
}

/// Whether inserting `entry` at `i` puts it before just those entries of `s` that it
/// drains before.
pub open spec fn inserts_at<D>(s: Seq<EntryModel<D>>, entry: EntryModel<D>, i: int) -> bool {
    &&& 0 <= i <= s.len()
    &&& forall|j: int| 0 <= j < i ==> !entry.drains_before(#[trigger] s[j])
    &&& forall|j: int| i <= j < s.len() ==> entry.drains_before(#[trigger] s[j])
}

/// `s` with `entry` inserted into its drain order, after the entries that it ties with.
pub open spec fn drain_insert<D>(s: Seq<EntryModel<D>>, entry: EntryModel<D>) -> Seq<
    EntryModel<D>,
> {
    s.insert(choose|i: int| inserts_at(s, entry, i), entry)
}

/// A queue of ready reads, in drain order.
#[derive(Debug)]
pub struct ReadyReadHeap<D> {
    entries: VecDeque<ReadyReadEntry<D>>,
}

impl<D> View for ReadyReadHeap<D> {
    type V = Seq<EntryModel<D>>;

    closed spec fn view(&self) -> Seq<EntryModel<D>> {
        self.entries@.map_values(|entry: ReadyReadEntry<D>| entry@)
    }
}

impl<D> ReadyReadHeap<D> {
    pub fn new() -> (heap: ReadyReadHeap<D>)
        ensures
            heap@ == Seq::<EntryModel<D>>::empty(),
    {
        let heap = ReadyReadHeap { entries: VecDeque::new() };
        assert(heap@ =~= Seq::<EntryModel<D>>::empty());
        heap
    }

    pub fn len(&self) -> (len: usize)
        ensures
            len == self@.len(),
    {
        self.entries.len()
    }

    /// Whether an entry holds documents of the read `read`.
    pub fn holds(&self, read: u32) -> (holds: bool)
        ensures
            holds <==> exists|i: int|
                0 <= i < self@.len() && (#[trigger] self@[i]).ready.read == read,
    {
        let mut i: usize = 0;
        while i < self.entries.len()
            invariant
                i <= self@.len(),
                self@.len() == self.entries@.len(),
                forall|j: int| 0 <= j < i ==> (#[trigger] self@[j]).ready.read != read,
            decreases self.entries@.len() - i,
        {
            assert(self@[i as int] == self.entries@[i as int]@);
            if self.entries[i].inner.inner == read {
                return true;
            }
            i += 1;
        }
        false
    }

    /// The entry which drains next.
    pub fn peek(&self) -> (entry: Option<&ReadyReadEntry<D>>)
        ensures
            match entry {
                Some(entry) => self@.len() > 0 && entry@ == self@[0],
                None => self@.len() == 0,
            },
    {
        if self.entries.len() == 0 {
            None
        } else {
            Some(&self.entries[0])
        }
    }

    /// Remove the entry which drains next.
    pub fn pop(&mut self) -> (entry: Option<ReadyReadEntry<D>>)
        ensures
            match entry {
                Some(entry) => {
                    &&& old(self)@.len() > 0
                    &&& entry@ == old(self)@[0]
                    &&& final(self)@ == old(self)@.drop_first()
                },
                None => old(self)@.len() == 0 && final(self)@ == old(self)@,
            },
    {
        let entry = self.entries.pop_front();
        proof {
            if entry is Some {
                assert(self@ =~= old(self)@.drop_first());
            }
        }
        entry
    }

    /// Add an entry, after those that it ties with.
    pub fn push(&mut self, entry: ReadyReadEntry<D>)
        requires
            in_drain_order(old(self)@),
        ensures
            final(self)@ == drain_insert(old(self)@, entry@),
            in_drain_order(final(self)@),
    {
        let ghost before = self@;
        let mut i: usize = 0;
        while i < self.entries.len() && !entry.drains_before(&self.entries[i])
            invariant
                self@ == before,
                self.entries@.len() == before.len(),
                i <= before.len(),
                forall|j: int| 0 <= j < i ==> !entry@.drains_before(#[trigger] before[j]),
            decreases before.len() - i,
        {
            assert(before[i as int] == self.entries@[i as int]@);
            i += 1;
        }
        proof {
            if i < before.len() {
                assert(before[i as int] == self.entries@[i as int]@);
            }
            lemma_drain_insert(before, entry@, i as int);
        }
        let ghost added = entry@;
        self.entries.insert(i, entry);
        assert(self@ =~= before.insert(i as int, added));
    }
}

/// The index at which an entry is inserted is found by scanning past the entries
/// which it does not drain before, and the result is in drain order.
pub proof fn lemma_drain_insert<D>(s: Seq<EntryModel<D>>, entry: EntryModel<D>, i: int)
    requires
        in_drain_order(s),
        0 <= i <= s.len(),
        forall|j: int| 0 <= j < i ==> !entry.drains_before(#[trigger] s[j]),
        i < s.len() ==> entry.drains_before(s[i]),
    ensures
        inserts_at(s, entry, i),
        drain_insert(s, entry) == s.insert(i, entry),
        in_drain_order(s.insert(i, entry)),
{
    assert forall|j: int| i <= j < s.len() implies entry.drains_before(#[trigger] s[j]) by {
        if j > i {
            assert(!s[j].drains_before(s[i]));
        }
    }
    let k = choose|k: int| inserts_at(s, entry, k);
    assert(inserts_at(s, entry, i));
    assert(k == i) by {
        if k < i {
            assert(entry.drains_before(s[k]));
        } else if i < k {
            assert(!entry.drains_before(s[i]));
        }
    }
    let after = s.insert(i, entry);
    assert forall|a: int, b: int| 0 <= a < b < after.len() implies !after[b].drains_before(
        after[a],
    ) by {
        let ga = if a < i {
            a
        } else {
            a - 1
        };
        let gb = if b < i {
            b
        } else {
            b - 1
        };
        if a == i {
            assert(after[b] == s[gb]);
        } else if b == i {
            assert(after[a] == s[ga]);
        } else {
            assert(after[a] == s[ga] && after[b] == s[gb]);
        }
    }
}

/// There is an index at which an entry is inserted into a drain order, and so the
/// insertion adds just that entry, and keeps the order.
pub proof fn lemma_drain_inserts<D>(s: Seq<EntryModel<D>>, entry: EntryModel<D>) -> (i: int)
    requires
        in_drain_order(s),
    ensures
        inserts_at(s, entry, i),
        drain_insert(s, entry) == s.insert(i, entry),
        in_drain_order(drain_insert(s, entry)),
{
    let i = lemma_first_after(s, entry, 0);
    lemma_drain_insert(s, entry, i);
    i
}

proof fn lemma_first_after<D>(s: Seq<EntryModel<D>>, entry: EntryModel<D>, from: int) -> (i: int)
    requires
        0 <= from <= s.len(),
        forall|j: int| 0 <= j < from ==> !entry.drains_before(#[trigger] s[j]),
    ensures
        0 <= i <= s.len(),
        forall|j: int| 0 <= j < i ==> !entry.drains_before(#[trigger] s[j]),
        i < s.len() ==> entry.drains_before(s[i]),
    decreases s.len() - from,
{
    if from == s.len() || entry.drains_before(s[from]) {
        from
    } else {
        lemma_first_after(s, entry, from + 1)
    }
}

} // verus!
