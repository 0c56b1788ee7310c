//! Producer states, by producer.

use crate::producer::ProducerState;
use crate::uuid::Producer;
use std::collections::BTreeMap;
use vstd::prelude::*;
use vstd::std_specs::btree::increasing_seq;
use vstd::std_specs::cmp::OrdSpec;
use vstd::std_specs::iter::IteratorSpec;

verus! {

broadcast use vstd::std_specs::btree::group_btree_axioms;

/// States of distinct producers, in ascending producer order.
#[derive(Debug)]
pub struct ProducerMap {
    states: BTreeMap<u64, ProducerState>,
}

impl View for ProducerMap {
    type V = Map<u64, ProducerState>;

    closed spec fn view(&self) -> Map<u64, ProducerState> {
        self.states@
    }
}

impl ProducerMap {
    pub fn new() -> (map: ProducerMap)
        ensures
            map@ == Map::<u64, ProducerState>::empty(),
    {
        ProducerMap { states: BTreeMap::new() }
    }

    /// Set the state of `producer`.
    pub fn insert(&mut self, producer: Producer, state: ProducerState)
        ensures
            final(self)@ == old(self)@.insert(producer.0, state),
    {
        let _ = self.states.insert(producer.0, state);
    }

    /// The state of `producer`, if there is one.
    pub fn get(&self, producer: Producer) -> (state: Option<ProducerState>)
        ensures
            state == self@.get(producer.0),
    {
        match self.states.get(&producer.0) {
            Some(state) => Some(*state),
            None => None,
        }
    }

    pub fn is_empty(&self) -> (empty: bool)
        ensures
            empty == self@.is_empty(),
    {
        self.states.is_empty()
    }

    /// The entries, in ascending producer order.
    pub fn entries(&self) -> (entries: Vec<(Producer, ProducerState)>)
        ensures
            forall|i: int, j: int|
                0 <= i < j < entries@.len() ==> entries@[i].0.0 < entries@[j].0.0,
            forall|i: int|
                0 <= i < entries@.len() ==> self@.contains_key((#[trigger] entries@[i]).0.0)
                    && self@[entries@[i].0.0] == entries@[i].1,
            forall|k: u64| #[trigger]
                self@.contains_key(k) ==> exists|i: int|
                    0 <= i < entries@.len() && (#[trigger] entries@[i]).0.0 == k,
    {
        let mut entries: Vec<(Producer, ProducerState)> = Vec::new();
        let iter = self.states.iter();
        let ghost items = IteratorSpec::remaining(&iter);
        for item in it: iter
            invariant
                it.seq() == items,
                entries@.len() == it.index(),
                forall|i: int|
                    0 <= i < entries@.len() ==> (#[trigger] entries@[i]).0.0 == *items[i].0
                        && entries@[i].1 == *items[i].1,
        {
            entries.push((Producer(*item.0), *item.1));
        }
        proof {
            let keys = items.map_values(|item: (&u64, &ProducerState)| *item.0);
            assert(increasing_seq(keys));
            assert forall|i: int, j: int| 0 <= i < j < entries@.len() implies entries@[i].0.0
                < entries@[j].0.0 by {
                assert(keys[i].cmp_spec(&keys[j]) is Less);
            }
            assert forall|k: u64| #[trigger] self@.contains_key(k) implies exists|i: int|
                0 <= i < entries@.len() && (#[trigger] entries@[i]).0.0 == k by {
                assert(items.contains((&k, &self@[k])));
                let i = choose|i: int| 0 <= i < items.len() && items[i] == (&k, &self@[k]);
                assert(entries@[i].0.0 == k);
            }
        }
        entries
    }

    /// Move every entry into `other`, where it replaces that of the same producer.
    pub fn drain_into(&mut self, other: &mut ProducerMap)
        ensures
            final(self)@ == Map::<u64, ProducerState>::empty(),
            final(other)@ == old(other)@.union_prefer_right(old(self)@),
    {
        let entries = self.entries();
        let ghost before = other@;
        let ghost moved = self@;
        let mut i: usize = 0;
        while i < entries.len()
            invariant
                i <= entries@.len(),
                forall|j: int|
                    0 <= j < entries@.len() ==> moved.contains_key((#[trigger] entries@[j]).0.0)
                        && moved[entries@[j].0.0] == entries@[j].1,
                forall|j: int|
                    0 <= j < i ==> other@.contains_key((#[trigger] entries@[j]).0.0),
                forall|k: u64| #[trigger]
                    other@.contains_key(k) ==> before.contains_key(k) || moved.contains_key(k),
                forall|k: u64| #[trigger] before.contains_key(k) ==> other@.contains_key(k),
                forall|k: u64| #[trigger]
                    other@.contains_key(k) ==> other@[k] == moved[k] && moved.contains_key(k) || (
                    other@[k] == before[k] && forall|j: int|
                        0 <= j < i ==> (#[trigger] entries@[j]).0.0 != k),
            decreases entries@.len() - i,
        {
            other.insert(entries[i].0, entries[i].1);
            i += 1;
        }
        self.states = BTreeMap::new();
        assert(other@ =~= before.union_prefer_right(moved));
    }
}

} // verus!
