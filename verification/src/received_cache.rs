//! From which peers a node received the values of an origin.

use crate::keyed::{as_map, has_key, index_of_key, sorted_keys};
use crate::keyed::{lemma_index_of_key, lemma_next_entry, lemma_sorted_keys_are_unique};
use crate::pubkey::Pubkey;
use crate::pubkey_map::PubkeyMap;
use vstd::prelude::*;

verus! {

/// What is known of a peer that pushed values of an origin.
#[derive(Clone, Copy, Debug, PartialEq, Eq, Structural)]
pub struct Ingress {
    /// The peer was told to push no more values of the origin.
    pub pruned: bool,
    /// When it last pushed one.
    pub timestamp: u64,
}

/// The peers by origin.
pub type ReceivedCache = PubkeyMap<PubkeyMap<Ingress>>;

/// The peers by origin.
pub open spec fn received_view(cache: &ReceivedCache) -> Map<Pubkey, Map<Pubkey, Ingress>> {
    cache@.map_values(|peers: PubkeyMap<Ingress>| peers@)
}

/// The maps are in order, and no origin is without peers.
pub open spec fn received_wf(cache: &ReceivedCache) -> bool {
    &&& cache.wf()
    &&& forall|origin: Pubkey| #[trigger]
        cache@.contains_key(origin) ==> cache@[origin].wf() && cache@[origin].spec_entries().len()
            > 0
}

/// The peers by origin, after `from` pushed a value of `origin` at `now`. A peer that
/// was pruned stays so.
pub open spec fn recorded(
    cache: Map<Pubkey, Map<Pubkey, Ingress>>,
    origin: Pubkey,
    from: Pubkey,
    now: u64,
) -> Map<Pubkey, Map<Pubkey, Ingress>> {
    let peers = if cache.contains_key(origin) {
        cache[origin]
    } else {
        Map::empty()
    };
    let pruned = peers.contains_key(from) && peers[from].pruned;
    cache.insert(origin, peers.insert(from, Ingress { pruned, timestamp: now }))
}

/// The peers that pushed a value later than `min_time`.
pub open spec fn heard_since(peers: Map<Pubkey, Ingress>, min_time: u64) -> Map<Pubkey, Ingress> {
    Map::new(
        |peer: Pubkey| peers.contains_key(peer) && peers[peer].timestamp > min_time,
        |peer: Pubkey| peers[peer],
    )
}

/// The peers by origin that pushed a value later than `min_time`, without origins
/// that have none.
pub open spec fn purged(
    cache: Map<Pubkey, Map<Pubkey, Ingress>>,
    min_time: u64,
) -> Map<Pubkey, Map<Pubkey, Ingress>> {
    Map::new(
        |origin: Pubkey|
            cache.contains_key(origin) && exists|peer: Pubkey| #[trigger]
                heard_since(cache[origin], min_time).contains_key(peer),
        |origin: Pubkey| heard_since(cache[origin], min_time),
    )
}

/// Notes that `from` pushed a value of `origin` at `now`.
pub fn record_received(cache: &mut ReceivedCache, origin: Pubkey, from: Pubkey, now: u64)
    requires
        received_wf(old(cache)),
    ensures
        received_wf(final(cache)),
        received_view(final(cache)) == recorded(received_view(old(cache)), origin, from, now),
{
    let ghost before = *cache;
    if !cache.contains_key(&origin) {
        let mut peers: PubkeyMap<Ingress> = PubkeyMap::new();
        peers.insert(from, Ingress { pruned: false, timestamp: now });
        proof {
            assert(peers@.contains_key(from));
        }
        cache.insert(origin, peers);
        proof {
            assert(received_view(cache) =~= recorded(received_view(&before), origin, from, now)) by {
                assert(peers@ =~= Map::<Pubkey, Ingress>::empty().insert(
                    from,
                    Ingress { pruned: false, timestamp: now },
                ));
            }
        }
        return ;
    }
    match cache.get_mut(&origin) {
        Some(peers) => {
            let pruned: bool = match peers.get(&from) {
                Some(ingress) => ingress.pruned,
                None => false,
            };
            peers.insert(from, Ingress { pruned, timestamp: now });
            assert(peers@.contains_key(from));
        },
        None => {},
    }
    assert(received_view(cache) =~= recorded(received_view(&before), origin, from, now));
}

/// Drops the peers that pushed nothing later than `min_time`.
fn purge_peers(peers: &PubkeyMap<Ingress>, min_time: u64) -> (kept: PubkeyMap<Ingress>)
    requires
        peers.wf(),
    ensures
        kept.wf(),
        kept@ == heard_since(peers@, min_time),
{
    let ghost entries = peers.spec_entries();
    let mut kept: PubkeyMap<Ingress> = PubkeyMap::new();
    let mut i: usize = 0;
    assert(kept@ =~= heard_since(as_map(entries.take(0)), min_time));
    while i < peers.len()
        invariant
            peers.wf(),
            entries == peers.spec_entries(),
            i <= entries.len(),
            kept.wf(),
            kept@ == heard_since(as_map(entries.take(i as int)), min_time),
        decreases entries.len() - i,
    {
        let ingress: Ingress = *peers.value_at(i);
        proof {
            lemma_next_entry(entries, i as int);
        }
        if ingress.timestamp > min_time {
            let peer: Pubkey = peers.key_at(i);
            proof {
                assert forall|key: Pubkey| #[trigger] has_key(kept.spec_entries(), key) implies has_key(
                    entries.take(i as int),
                    key,
                ) by {
                    assert(kept@.contains_key(key));
                }
                lemma_keys_are_among(kept.spec_entries(), entries, i as int);
            }
            kept.push_last(peer, ingress);
        }
        i += 1;
        assert(kept@ =~= heard_since(as_map(entries.take(i as int)), min_time)) by {
            lemma_new_key(entries, i - 1);
        }
    }
    assert(entries.take(i as int) =~= entries);
    kept
}

/// Where keys come from the first `i` of sorted entries, they come before the next one.
proof fn lemma_keys_are_among<V, W>(some: Seq<(Pubkey, V)>, entries: Seq<(Pubkey, W)>, i: int)
    requires
        sorted_keys(entries),
        0 <= i < entries.len(),
        forall|key: Pubkey| #[trigger] has_key(some, key) ==> has_key(entries.take(i), key),
    ensures
        forall|j: int| 0 <= j < some.len() ==> (#[trigger] some[j]).0.lt(entries[i].0),
{
    assert forall|j: int| 0 <= j < some.len() implies (#[trigger] some[j]).0.lt(entries[i].0) by {
        assert(has_key(some, some[j].0));
        let k = index_of_key(entries.take(i), some[j].0);
        assert(entries.take(i)[k] == entries[k]);
        assert(entries[k].0.lt(entries[i].0));
    }
}

/// The key of an entry of sorted entries is not among those before it.
proof fn lemma_new_key<V>(entries: Seq<(Pubkey, V)>, i: int)
    requires
        sorted_keys(entries),
        0 <= i < entries.len(),
    ensures
        !has_key(entries.take(i), entries[i].0),
{
    if has_key(entries.take(i), entries[i].0) {
        let k = index_of_key(entries.take(i), entries[i].0);
        assert(entries.take(i)[k] == entries[k]);
        assert(entries[k].0.lt(entries[i].0));
    }
}

/// Drops the peers that pushed nothing later than `min_time`, and the origins that
/// are left without peers.
pub fn purge_received(cache: &mut ReceivedCache, min_time: u64)
    requires
        received_wf(old(cache)),
    ensures
        received_wf(final(cache)),
        received_view(final(cache)) == purged(received_view(old(cache)), min_time),
{
    let ghost entries = cache.spec_entries();
    let mut kept: ReceivedCache = PubkeyMap::new();
    let mut i: usize = 0;
    assert(received_view(&kept) =~= purged(nested(entries.take(0)), min_time));
    while i < cache.len()
        invariant
            received_wf(cache),
            entries == cache.spec_entries(),
            i <= entries.len(),
            received_wf(&kept),
            received_view(&kept) == purged(nested(entries.take(i as int)), min_time),
        decreases entries.len() - i,
    {
        let ghost before = received_view(&kept);
        proof {
            lemma_next_entry(entries, i as int);
            lemma_new_key(entries, i as int);
            lemma_sorted_keys_are_unique(entries);
            lemma_index_of_key(entries, i as int);
            assert(cache@.contains_key(entries[i as int].0));
            assert(cache@[entries[i as int].0] == entries[i as int].1);
        }
        let origin: Pubkey = cache.key_at(i);
        let peers = purge_peers(cache.value_at(i), min_time);
        if peers.len() > 0 {
            proof {
                assert forall|key: Pubkey| #[trigger] has_key(kept.spec_entries(), key) implies has_key(
                    entries.take(i as int),
                    key,
                ) by {
                    assert(received_view(&kept).contains_key(key));
                }
                lemma_keys_are_among(kept.spec_entries(), entries, i as int);
                assert(has_key(peers.spec_entries(), peers.spec_entries()[0].0));
                assert(peers@.contains_key(peers.spec_entries()[0].0));
            }
            kept.push_last(origin, peers);
        } else {
            assert(forall|peer: Pubkey| !#[trigger] peers@.contains_key(peer));
        }
        i += 1;
        proof {
            let whole = nested(entries.take(i as int));
            let part = nested(entries.take(i - 1));
            assert(whole =~= part.insert(origin, entries[i - 1].1@));
            assert(peers@ == heard_since(whole[origin], min_time));
            assert forall|key: Pubkey| received_view(&kept).contains_key(key) <==> purged(
                whole,
                min_time,
            ).contains_key(key) by {
                if key == origin {
                    if peers.spec_entries().len() > 0 {
                        assert(heard_since(whole[origin], min_time).contains_key(
                            peers.spec_entries()[0].0,
                        ));
                    }
                } else {
                    assert(received_view(&kept).contains_key(key) == before.contains_key(key));
                    assert(whole.contains_key(key) == part.contains_key(key));
                    if part.contains_key(key) {
                        assert(whole[key] == part[key]);
                    }
                }
            }
            assert forall|key: Pubkey| received_view(&kept).contains_key(key) implies received_view(
                &kept,
            )[key] == purged(whole, min_time)[key] by {
                assert(purged(whole, min_time)[key] == heard_since(whole[key], min_time));
                if key != origin {
                    assert(before[key] == purged(part, min_time)[key]);
                    assert(whole[key] == part[key]);
                }
            }
            assert(received_view(&kept) =~= purged(whole, min_time));
        }
    }
    assert(entries.take(i as int) =~= entries);
    *cache = kept;
}

/// The peers by origin that entries hold.
spec fn nested(entries: Seq<(Pubkey, PubkeyMap<Ingress>)>) -> Map<Pubkey, Map<Pubkey, Ingress>> {
    as_map(entries).map_values(|peers: PubkeyMap<Ingress>| peers@)
}

/// The same peers.
fn copy_peers(peers: &PubkeyMap<Ingress>) -> (copy: PubkeyMap<Ingress>)
    requires
        peers.wf(),
    ensures
        copy.wf(),
        copy.spec_entries() == peers.spec_entries(),
{
    let ghost entries = peers.spec_entries();
    let mut copy: PubkeyMap<Ingress> = PubkeyMap::new();
    let mut i: usize = 0;
    assert(entries.take(0) =~= Seq::<(Pubkey, Ingress)>::empty());
    while i < peers.len()
        invariant
            peers.wf(),
            entries == peers.spec_entries(),
            i <= entries.len(),
            copy.wf(),
            copy.spec_entries() == entries.take(i as int),
        decreases entries.len() - i,
    {
        copy.push_last(peers.key_at(i), *peers.value_at(i));
        i += 1;
        assert(copy.spec_entries() =~= entries.take(i as int));
    }
    assert(entries.take(i as int) =~= entries);
    copy
}

/// The same peers by origin.
pub fn copy_received(cache: &ReceivedCache) -> (copy: ReceivedCache)
    requires
        received_wf(cache),
    ensures
        received_wf(&copy),
        received_view(&copy) == received_view(cache),
        forall|origin: Pubkey| #[trigger]
            cache@.contains_key(origin) ==> copy@[origin].spec_entries()
                == cache@[origin].spec_entries(),
{
    let ghost entries = cache.spec_entries();
    let mut copy: ReceivedCache = PubkeyMap::new();
    let mut i: usize = 0;
    while i < cache.len()
        invariant
            received_wf(cache),
            entries == cache.spec_entries(),
            i <= entries.len(),
            copy.wf(),
            copy.spec_entries().len() == i,
            forall|j: int|
                0 <= j < i ==> {
                    &&& (#[trigger] copy.spec_entries()[j]).0 == entries[j].0
                    &&& copy.spec_entries()[j].1.wf()
                    &&& copy.spec_entries()[j].1.spec_entries() == entries[j].1.spec_entries()
                },
        decreases entries.len() - i,
    {
        proof {
            lemma_sorted_keys_are_unique(entries);
            lemma_index_of_key(entries, i as int);
            assert(cache@.contains_key(entries[i as int].0));
            assert(cache@[entries[i as int].0] == entries[i as int].1);
            assert forall|j: int| 0 <= j < i implies (#[trigger] copy.spec_entries()[j]).0.lt(
                entries[i as int].0,
            ) by {
                assert(entries[j].0.lt(entries[i as int].0));
            }
        }
        let ghost before = copy.spec_entries();
        copy.push_last(cache.key_at(i), copy_peers(cache.value_at(i)));
        proof {
            assert(forall|j: int| 0 <= j < i ==> #[trigger] copy.spec_entries()[j] == before[j]);
        }
        i += 1;
    }
    proof {
        let copies = copy.spec_entries();
        lemma_sorted_keys_are_unique(entries);
        lemma_sorted_keys_are_unique(copies);
        assert forall|origin: Pubkey| copy@.contains_key(origin) <==> cache@.contains_key(origin) by {
            if has_key(copies, origin) {
                assert(entries[index_of_key(copies, origin)].0 == origin);
            }
            if has_key(entries, origin) {
                assert(copies[index_of_key(entries, origin)].0 == origin);
            }
        }
        assert forall|origin: Pubkey| #[trigger] cache@.contains_key(origin) implies {
            &&& copy@[origin].spec_entries() == cache@[origin].spec_entries()
            &&& copy@[origin].wf()
        } by {
            let j = index_of_key(entries, origin);
            assert(copies[j].0 == origin);
            lemma_index_of_key(entries, j);
            lemma_index_of_key(copies, j);
        }
        assert(received_view(&copy) =~= received_view(cache));
    }
    copy
}

} // verus!
