//! When a node last pushed to its peers, in a least-recently-used cache of `lru`.
//!
//! A cache of the crate is keyed by the two words of a [`Pubkey`], whose equality
//! and hash are those of integers.

use crate::keyed::{has_key, index_of_key, unique_keys};
use crate::pubkey::Pubkey;
use lru::LruCache;
use vstd::prelude::*;

verus! {

/// The number of peers whose push times are kept.
pub const CRDS_UNIQUE_PUBKEY_CAPACITY: usize = 4096;

/// The cache of `lru`, of which nothing but its entries and its limit is known.
#[verifier::external_type_specification]
#[verifier::external_body]
#[verifier::reject_recursive_types(K)]
#[verifier::reject_recursive_types(V)]
#[verifier::reject_recursive_types(S)]
pub struct ExLruCache<K, V, S>(LruCache<K, V, S>);

/// The default hasher of `lru`, of which nothing is known.
#[verifier::external_type_specification]
#[verifier::external_body]
pub struct ExDefaultHasher(lru::DefaultHasher);

/// The entries of a cache, the most recently used one first.
pub uninterp spec fn lru_entries(cache: LruCache<(u128, u128), u64>) -> Seq<(Pubkey, u64)>;

/// The number of entries that a cache was made for.
pub uninterp spec fn lru_limit(cache: LruCache<(u128, u128), u64>) -> nat;

/// The entries of a cache of `limit` entries after `key` was put into it: its entry
/// comes first and, where there was none and the cache is full, the last one goes.
pub open spec fn put_in_front(
    entries: Seq<(Pubkey, u64)>,
    limit: nat,
    key: Pubkey,
    value: u64,
) -> Seq<(Pubkey, u64)> {
    if has_key(entries, key) {
        seq![(key, value)] + entries.remove(index_of_key(entries, key))
    } else if limit == 0 {
        entries
    } else if entries.len() == limit {
        seq![(key, value)] + entries.drop_last()
    } else {
        seq![(key, value)] + entries
    }
}

/// A cache for `limit` entries, without any yet.
///
/// Calls `LruCache::new` of `lru`, which allocates room for all of them.
#[verifier::external_body]
pub(crate) fn lru_new(limit: usize) -> (cache: LruCache<(u128, u128), u64>)
    requires
        limit <= CRDS_UNIQUE_PUBKEY_CAPACITY,
    ensures
        lru_entries(cache) == Seq::<(Pubkey, u64)>::empty(),
        lru_limit(cache) == limit,
{
    LruCache::new(limit)
}

/// The number of entries that the cache was made for.
///
/// Calls `LruCache::cap` of `lru`.
#[verifier::external_body]
pub(crate) fn lru_cap(cache: &LruCache<(u128, u128), u64>) -> (limit: usize)
    ensures
        limit == lru_limit(*cache),
{
    cache.cap()
}

/// Sets the value of `key` and makes its entry the most recently used one.
///
/// Calls `LruCache::put` of `lru`: where the cache is full, the least recently used
/// entry makes room for a new key.
#[verifier::external_body]
pub(crate) fn lru_put(cache: &mut LruCache<(u128, u128), u64>, key: Pubkey, value: u64)
    ensures
        lru_entries(*final(cache)) == put_in_front(
            lru_entries(*old(cache)),
            lru_limit(*old(cache)),
            key,
            value,
        ),
        lru_limit(*final(cache)) == lru_limit(*old(cache)),
{
    cache.put((key.hi, key.lo), value);
}

/// The value of `key`, without using its entry.
///
/// Calls `LruCache::peek` of `lru`: there is one if an entry has the key.
#[verifier::external_body]
pub(crate) fn lru_peek(cache: &LruCache<(u128, u128), u64>, key: &Pubkey) -> (value: Option<u64>)
    ensures
        value == if has_key(lru_entries(*cache), *key) {
            Some(lru_entries(*cache)[index_of_key(lru_entries(*cache), *key)].1)
        } else {
            None
        },
{
    cache.peek(&(key.hi, key.lo)).copied()
}

/// The entries, the most recently used one first.
///
/// Calls `LruCache::iter` of `lru`.
#[verifier::external_body]
pub(crate) fn lru_iter(cache: &LruCache<(u128, u128), u64>) -> (entries: Vec<(Pubkey, u64)>)
    ensures
        entries@ == lru_entries(*cache),
{
    cache.iter().map(|entry| (Pubkey { hi: entry.0.0, lo: entry.0.1 }, *entry.1)).collect()
}

/// No key occurs twice, and the entries are not more than the cache was made for.
pub open spec fn push_times_wf(entries: Seq<(Pubkey, u64)>, limit: nat) -> bool {
    &&& unique_keys(entries)
    &&& entries.len() <= limit
    &&& limit <= CRDS_UNIQUE_PUBKEY_CAPACITY
}

/// The entries after each of `keys` was put, in that order, with the time `time`.
pub open spec fn touched(
    entries: Seq<(Pubkey, u64)>,
    limit: nat,
    keys: Seq<Pubkey>,
    time: u64,
) -> Seq<(Pubkey, u64)>
    decreases keys.len(),
{
    if keys.len() == 0 {
        entries
    } else {
        put_in_front(touched(entries, limit, keys.drop_last(), time), limit, keys.last(), time)
    }
}

/// A put key keeps the cache in order.
pub proof fn lemma_put_in_front(
    entries: Seq<(Pubkey, u64)>,
    limit: nat,
    key: Pubkey,
    value: u64,
)
    requires
        push_times_wf(entries, limit),
    ensures
        push_times_wf(put_in_front(entries, limit, key, value), limit),
{
    let after = put_in_front(entries, limit, key, value);
    if has_key(entries, key) {
        let index = index_of_key(entries, key);
        assert forall|i: int, j: int|
            #![trigger after[i], after[j]]
            0 <= i < j < after.len() implies after[i].0 != after[j].0 by {
            let b = if j - 1 < index { j - 1 } else { j };
            assert(after[j] == entries[b]);
            if i == 0 {
                assert(b != index);
                if b < index {
                    assert(entries[b].0 != entries[index].0);
                } else {
                    assert(entries[index].0 != entries[b].0);
                }
            } else {
                let a = if i - 1 < index { i - 1 } else { i };
                assert(after[i] == entries[a]);
                assert(entries[a].0 != entries[b].0);
            }
        }
    } else if limit > 0 {
        assert forall|i: int, j: int|
            #![trigger after[i], after[j]]
            0 <= i < j < after.len() implies after[i].0 != after[j].0 by {
            assert(after[j] == entries[j - 1]);
            if i > 0 {
                assert(after[i] == entries[i - 1]);
                assert(entries[i - 1].0 != entries[j - 1].0);
            }
        }
    }
}

/// The same entries, in the same order of use.
pub(crate) fn copy_push_times(cache: &LruCache<(u128, u128), u64>) -> (copy: LruCache<
    (u128, u128),
    u64,
>)
    requires
        push_times_wf(lru_entries(*cache), lru_limit(*cache)),
    ensures
        lru_entries(copy) == lru_entries(*cache),
        lru_limit(copy) == lru_limit(*cache),
{
    let entries: Vec<(Pubkey, u64)> = lru_iter(cache);
    let mut copy: LruCache<(u128, u128), u64> = lru_new(lru_cap(cache));
    let mut i: usize = entries.len();
    while i > 0
        invariant
            i <= entries@.len(),
            push_times_wf(entries@, lru_limit(*cache)),
            lru_limit(copy) == lru_limit(*cache),
            lru_entries(copy) == entries@.skip(i as int),
        decreases i,
    {
        i -= 1;
        let (key, time) = entries[i];
        proof {
            let rest = entries@.skip(i + 1);
            assert(!has_key(rest, key)) by {
                if has_key(rest, key) {
                    let j = index_of_key(rest, key);
                    assert(rest[j] == entries@[i + 1 + j]);
                    assert(entries@[i as int].0 != entries@[i + 1 + j].0);
                }
            }
            assert(entries@.skip(i as int) =~= seq![(key, time)] + rest);
        }
        lru_put(&mut copy, key, time);
    }
    assert(entries@.skip(0) =~= entries@);
    copy
}

/// When a node last pushed to its peers.
pub struct PushTimes {
    pub(crate) cache: LruCache<(u128, u128), u64>,
}

impl PushTimes {
    /// The peers and the times, the most recent first.
    pub open(crate) spec fn entries(&self) -> Seq<(Pubkey, u64)> {
        lru_entries(self.cache)
    }

    /// The number of peers whose times are kept.
    pub open(crate) spec fn limit(&self) -> nat {
        lru_limit(self.cache)
    }

    /// No peer occurs twice, and there are not more of them than are kept.
    pub open spec fn wf(&self) -> bool {
        push_times_wf(self.entries(), self.limit())
    }

    /// No times yet, for at most `limit` peers.
    pub fn new(limit: usize) -> (times: PushTimes)
        requires
            limit <= CRDS_UNIQUE_PUBKEY_CAPACITY,
        ensures
            times.wf(),
            times.entries() == Seq::<(Pubkey, u64)>::empty(),
            times.limit() == limit,
    {
        PushTimes { cache: lru_new(limit) }
    }

    /// Notes that the node pushed to `peer` at `time`.
    pub fn put(&mut self, peer: Pubkey, time: u64)
        requires
            old(self).wf(),
        ensures
            final(self).wf(),
            final(self).entries() == put_in_front(
                old(self).entries(),
                old(self).limit(),
                peer,
                time,
            ),
            final(self).limit() == old(self).limit(),
    {
        proof {
            lemma_put_in_front(self.entries(), self.limit(), peer, time);
        }
        lru_put(&mut self.cache, peer, time);
    }

    /// When the node last pushed to `peer`.
    pub fn peek(&self, peer: &Pubkey) -> (time: Option<u64>)
        ensures
            time == if has_key(self.entries(), *peer) {
                Some(self.entries()[index_of_key(self.entries(), *peer)].1)
            } else {
                None
            },
    {
        lru_peek(&self.cache, peer)
    }

    /// The same times.
    pub fn copy(&self) -> (copy: PushTimes)
        requires
            self.wf(),
        ensures
            copy.entries() == self.entries(),
            copy.limit() == self.limit(),
    {
        PushTimes { cache: copy_push_times(&self.cache) }
    }
}

} // verus!
