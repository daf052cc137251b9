//! The peers that a node pushes to, in an insertion-ordered map of `indexmap`.
//!
//! A map of the crate is keyed by the two words of a [`Pubkey`], whose equality
//! and hash are those of integers.

use crate::bloom::Bloom;
use crate::keyed::{has_key, index_of_key};
use crate::pubkey::Pubkey;
use indexmap::map::IndexMap;
use vstd::prelude::*;

verus! {

/// The map of `indexmap`, of which nothing but its entries is known.
#[verifier::external_type_specification]
#[verifier::external_body]
#[verifier::reject_recursive_types(K)]
#[verifier::reject_recursive_types(V)]
#[verifier::reject_recursive_types(S)]
pub struct ExIndexMap<K, V, S>(IndexMap<K, V, S>);

/// The entries of a map, in the order of their indices.
pub uninterp spec fn index_map_entries(map: IndexMap<(u128, u128), Bloom>) -> Seq<(Pubkey, Bloom)>;

/// The entries without the one at `index`, whose place the last one takes.
pub open spec fn swap_removed<V>(entries: Seq<V>, index: int) -> Seq<V> {
    entries.update(index, entries.last()).drop_last()
}

/// A map without entries.
///
/// Calls `IndexMap::new` of `indexmap`.
#[verifier::external_body]
pub(crate) fn index_map_new() -> (map: IndexMap<(u128, u128), Bloom>)
    ensures
        index_map_entries(map) == Seq::<(Pubkey, Bloom)>::empty(),
{
    IndexMap::new()
}

/// The number of entries.
///
/// Calls `IndexMap::len` of `indexmap`.
#[verifier::external_body]
pub(crate) fn index_map_len(map: &IndexMap<(u128, u128), Bloom>) -> (len: usize)
    ensures
        len == index_map_entries(*map).len(),
{
    map.len()
}

/// The entry at `index`.
///
/// Calls `IndexMap::get_index` of `indexmap`: there is one at each index below the
/// number of entries.
#[verifier::external_body]
pub(crate) fn index_map_get_index(
    map: &IndexMap<(u128, u128), Bloom>,
    index: usize,
) -> (entry: Option<(Pubkey, &Bloom)>)
    ensures
        match entry {
            Some(found) => {
                &&& index < index_map_entries(*map).len()
                &&& found.0 == index_map_entries(*map)[index as int].0
                &&& *found.1 == index_map_entries(*map)[index as int].1
            },
            None => index >= index_map_entries(*map).len(),
        },
{
    map.get_index(index).map(|entry| (Pubkey { hi: entry.0.0, lo: entry.0.1 }, entry.1))
}

/// The value of `key`.
///
/// Calls `IndexMap::get` of `indexmap`: there is one if an entry has the key.
#[verifier::external_body]
pub(crate) fn index_map_get<'a>(map: &'a IndexMap<(u128, u128), Bloom>, key: &Pubkey) -> (value:
    Option<&'a Bloom>)
    ensures
        match value {
            Some(found) => {
                &&& has_key(index_map_entries(*map), *key)
                &&& *found == index_map_entries(*map)[index_of_key(
                    index_map_entries(*map),
                    *key,
                )].1
            },
            None => !has_key(index_map_entries(*map), *key),
        },
{
    map.get(&(key.hi, key.lo))
}

/// The value of `key`, for writing.
///
/// Calls `IndexMap::get_mut` of `indexmap`: what is written through the reference
/// becomes the value of the entry, and nothing else changes.
#[verifier::external_body]
pub(crate) fn index_map_get_mut<'a>(
    map: &'a mut IndexMap<(u128, u128), Bloom>,
    key: &Pubkey,
) -> (value: Option<&'a mut Bloom>)
    ensures
        match value {
            Some(found) => {
                let before = index_map_entries(*old(map));
                let index = index_of_key(before, *key);
                &&& has_key(before, *key)
                &&& *found == before[index].1
                &&& index_map_entries(*final(map)) == before.update(index, (*key, *final(found)))
            },
            None => {
                &&& !has_key(index_map_entries(*old(map)), *key)
                &&& index_map_entries(*final(map)) == index_map_entries(*old(map))
            },
        },
{
    map.get_mut(&(key.hi, key.lo))
}

/// Sets the value of `key`.
///
/// Calls `IndexMap::insert` of `indexmap`: an entry that has the key keeps its
/// place, and a new one goes to the end.
#[verifier::external_body]
pub(crate) fn index_map_insert(
    map: &mut IndexMap<(u128, u128), Bloom>,
    key: Pubkey,
    value: Bloom,
)
    ensures
        index_map_entries(*final(map)) == if has_key(index_map_entries(*old(map)), key) {
            index_map_entries(*old(map)).update(
                index_of_key(index_map_entries(*old(map)), key),
                (key, value),
            )
        } else {
            index_map_entries(*old(map)).push((key, value))
        },
{
    map.insert((key.hi, key.lo), value);
}

/// Removes the entry of `key`.
///
/// Calls `IndexMap::swap_remove` of `indexmap`: the last entry takes the place of
/// the removed one, and without an entry of that key nothing changes.
#[verifier::external_body]
pub(crate) fn index_map_swap_remove(map: &mut IndexMap<(u128, u128), Bloom>, key: &Pubkey)
    ensures
        index_map_entries(*final(map)) == if has_key(index_map_entries(*old(map)), *key) {
            swap_removed(
                index_map_entries(*old(map)),
                index_of_key(index_map_entries(*old(map)), *key),
            )
        } else {
            index_map_entries(*old(map))
        },
{
    map.swap_remove(&(key.hi, key.lo));
}

/// The peers that a node pushes to. The filter of a peer holds the origins that it
/// pruned.
pub struct ActiveSet {
    pub(crate) map: IndexMap<(u128, u128), Bloom>,
}

impl ActiveSet {
    /// The peers and their filters, in the order of their indices.
    pub open(crate) spec fn entries(&self) -> Seq<(Pubkey, Bloom)> {
        index_map_entries(self.map)
    }

    /// No peers.
    pub fn new() -> (active_set: ActiveSet)
        ensures
            active_set.entries() == Seq::<(Pubkey, Bloom)>::empty(),
    {
        ActiveSet { map: index_map_new() }
    }

    /// The number of peers.
    pub fn len(&self) -> (len: usize)
        ensures
            len == self.entries().len(),
    {
        index_map_len(&self.map)
    }

    /// The filter of `peer`.
    pub fn get(&self, peer: &Pubkey) -> (filter: Option<&Bloom>)
        ensures
            match filter {
                Some(found) => {
                    &&& has_key(self.entries(), *peer)
                    &&& *found == self.entries()[index_of_key(self.entries(), *peer)].1
                },
                None => !has_key(self.entries(), *peer),
            },
    {
        index_map_get(&self.map, peer)
    }
}

} // verus!
