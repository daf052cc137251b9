//! A map keyed by [`Pubkey`], held as a sorted vector of entries.

use crate::keyed::{as_map, has_key, index_of_key, sorted_keys};
use crate::keyed::{
    lemma_index_of_key, lemma_insert_entry, lemma_sorted_keys_are_unique, lemma_update_entry,
};
use crate::pubkey::Pubkey;
use vstd::prelude::*;

verus! {

/// A map from keys to values. The entries are sorted by key and no key occurs
/// twice, so lookups are binary searches and the entries have one order.
#[derive(Debug, PartialEq, Eq)]
pub struct PubkeyMap<V> {
    entries: Vec<(Pubkey, V)>,
}

/// A set of keys.
pub type PubkeySet = PubkeyMap<()>;

impl<V> View for PubkeyMap<V> {
    type V = Map<Pubkey, V>;

    open spec fn view(&self) -> Map<Pubkey, V> {
        as_map(self.spec_entries())
    }
}

impl<V> PubkeyMap<V> {
    /// The entries in the order of their keys.
    pub closed spec fn spec_entries(&self) -> Seq<(Pubkey, V)> {
        self.entries@
    }

    /// The entries are sorted by key.
    pub open spec fn wf(&self) -> bool {
        sorted_keys(self.spec_entries())
    }

    /// A map without entries.
    pub fn new() -> (map: Self)
        ensures
            map.wf(),
            map.spec_entries() == Seq::<(Pubkey, V)>::empty(),
            map@ == Map::<Pubkey, V>::empty(),
    {
        let map = PubkeyMap { entries: Vec::new() };
        assert(map@ =~= Map::<Pubkey, V>::empty());
        map
    }

    /// The number of entries.
    pub fn len(&self) -> (len: usize)
        ensures
            len == self.spec_entries().len(),
    {
        self.entries.len()
    }

    /// The key at `index` in the order of the keys.
    pub fn key_at(&self, index: usize) -> (key: Pubkey)
        requires
            index < self.spec_entries().len(),
        ensures
            key == self.spec_entries()[index as int].0,
    {
        self.entries[index].0
    }

    /// The value at `index` in the order of the keys.
    pub fn value_at(&self, index: usize) -> (value: &V)
        requires
            index < self.spec_entries().len(),
        ensures
            *value == self.spec_entries()[index as int].1,
    {
        &self.entries[index].1
    }

    /// The value at `index` in the order of the keys, for writing.
    pub fn value_at_mut(&mut self, index: usize) -> (value: &mut V)
        requires
            index < old(self).spec_entries().len(),
        ensures
            *value == old(self).spec_entries()[index as int].1,
            final(self).spec_entries() == old(self).spec_entries().update(
                index as int,
                (old(self).spec_entries()[index as int].0, *final(value)),
            ),
    {
        &mut self.entries[index].1
    }

    /// The place of `key`, or the place where it belongs.
    fn search(&self, key: &Pubkey) -> (found: (bool, usize))
        requires
            self.wf(),
        ensures
            found.1 <= self.spec_entries().len(),
            found.0 == has_key(self.spec_entries(), *key),
            found.0 ==> found.1 < self.spec_entries().len() && self.spec_entries()[found.1 as int].0
                == *key && index_of_key(self.spec_entries(), *key) == found.1,
            forall|i: int|
                0 <= i < found.1 ==> (#[trigger] self.spec_entries()[i]).0.lt(*key),
            !found.0 ==> forall|i: int|
                found.1 <= i < self.spec_entries().len() ==> key.lt(
                    (#[trigger] self.spec_entries()[i]).0,
                ),
    {
        let mut low: usize = 0;
        let mut high: usize = self.entries.len();
        while low < high
            invariant
                self.wf(),
                low <= high <= self.spec_entries().len(),
                forall|i: int| 0 <= i < low ==> (#[trigger] self.spec_entries()[i]).0.lt(*key),
                forall|i: int|
                    high <= i < self.spec_entries().len() ==> key.lt(
                        (#[trigger] self.spec_entries()[i]).0,
                    ),
            decreases high - low,
        {
            let mid: usize = low + (high - low) / 2;
            let at: Pubkey = self.entries[mid].0;
            if at == *key {
                proof {
                    lemma_sorted_keys_are_unique(self.spec_entries());
                    lemma_index_of_key(self.spec_entries(), mid as int);
                }
                return (true, mid);
            }
            if at.is_before(key) {
                low = mid + 1;
            } else {
                high = mid;
            }
        }
        (false, low)
    }

    /// Tells whether the map has an entry for `key`.
    pub fn contains_key(&self, key: &Pubkey) -> (found: bool)
        requires
            self.wf(),
        ensures
            found == self@.contains_key(*key),
    {
        self.search(key).0
    }

    /// The value of `key`.
    pub fn get(&self, key: &Pubkey) -> (value: Option<&V>)
        requires
            self.wf(),
        ensures
            match value {
                Some(v) => self@.contains_key(*key) && *v == self@[*key],
                None => !self@.contains_key(*key),
            },
    {
        let (found, index) = self.search(key);
        if found {
            Some(&self.entries[index].1)
        } else {
            None
        }
    }

    /// The value of `key`, for writing.
    pub fn get_mut(&mut self, key: &Pubkey) -> (value: Option<&mut V>)
        requires
            old(self).wf(),
        ensures
            final(self).wf(),
            match value {
                Some(v) => {
                    &&& old(self)@.contains_key(*key)
                    &&& *v == old(self)@[*key]
                    &&& final(self)@ == old(self)@.insert(*key, *final(v))
                    &&& final(self).spec_entries() == old(self).spec_entries().update(
                        index_of_key(old(self).spec_entries(), *key),
                        (*key, *final(v)),
                    )
                },
                None => {
                    &&& !old(self)@.contains_key(*key)
                    &&& *final(self) == *old(self)
                },
            },
    {
        let (found, index) = self.search(key);
        if found {
            proof {
                lemma_sorted_keys_are_unique(self.spec_entries());
                let before = self.spec_entries();
                assert forall|v: V| true implies #[trigger] as_map(
                    before.update(index as int, (*key, v)),
                ) == as_map(before).insert(*key, v) by {
                    lemma_update_entry(before, index as int, v);
                }
            }
            Some(&mut self.entries[index].1)
        } else {
            None
        }
    }

    /// Sets the value of `key`, whether or not it had one.
    pub fn insert(&mut self, key: Pubkey, value: V)
        requires
            old(self).wf(),
        ensures
            final(self).wf(),
            final(self)@ == old(self)@.insert(key, value),
    {
        let (found, index) = self.search(&key);
        let ghost before = self.spec_entries();
        if found {
            self.entries[index] = (key, value);
            proof {
                lemma_sorted_keys_are_unique(before);
                lemma_update_entry(before, index as int, value);
                assert(self.spec_entries() == before.update(index as int, (key, value)));
            }
        } else {
            self.entries.insert(index, (key, value));
            proof {
                assert(self.spec_entries() == before.insert(index as int, (key, value)));
                lemma_insert_entry(before, index as int, key, value);
            }
        }
    }

    /// Adds an entry behind all others.
    pub fn push_last(&mut self, key: Pubkey, value: V)
        requires
            old(self).wf(),
            forall|i: int|
                0 <= i < old(self).spec_entries().len() ==> (#[trigger] old(
                    self,
                ).spec_entries()[i]).0.lt(key),
        ensures
            final(self).wf(),
            final(self).spec_entries() == old(self).spec_entries().push((key, value)),
            final(self)@ == old(self)@.insert(key, value),
    {
        let ghost before = self.spec_entries();
        self.entries.push((key, value));
        proof {
            assert(before.push((key, value)) =~= before.insert(before.len() as int, (key, value)));
            lemma_insert_entry(before, before.len() as int, key, value);
        }
    }
}

} // verus!
