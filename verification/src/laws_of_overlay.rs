//! What the parts of an overlay are, and what it means that they stay the same.

use crate::bloom::Bloom;
use crate::crds_gossip_push::CrdsGossipPush;
use crate::keyed::{as_map, has_key, index_of_key, keys_of, unique_keys};
use crate::keyed::lemma_index_of_key;
use crate::messages::active_view;
use crate::prune::{candidates_of, is_candidate, lemma_candidates};
use crate::pubkey::Pubkey;
use crate::pubkey_map::PubkeySet;
use crate::push_options::validators_view;
use crate::received_cache::Ingress;
use vstd::prelude::*;

verus! {

/// Where the settings of two overlays are the same, each of them is; so are the counters, the
/// peers of each origin, and the push times.
pub proof fn law_same_parts_are_equal(one: CrdsGossipPush, other: CrdsGossipPush, origin: Pubkey)
    ensures
        one.same_settings(&other) <==> {
            &&& one.max_bytes == other.max_bytes
            &&& one.num_active == other.num_active
            &&& one.push_fanout == other.push_fanout
            &&& one.msg_timeout == other.msg_timeout
            &&& one.prune_timeout == other.prune_timeout
        },
        one.same_counters(&other) <==> {
            &&& one.num_total == other.num_total
            &&& one.num_old == other.num_old
            &&& one.num_pushes == other.num_pushes
        },
        one.same_received(&other) ==> {
            &&& one.received_cache@.contains_key(origin) == other.received_cache@.contains_key(
                origin,
            )
            &&& one.received_cache@.contains_key(origin) ==> {
                &&& one.received_cache@[origin]@ == other.received_cache@[origin]@
                &&& one.received_cache@[origin].spec_entries()
                    == other.received_cache@[origin].spec_entries()
            }
        },
        one.same_push_times(&other) <==> {
            &&& one.last_pushed_to.entries() == other.last_pushed_to.entries()
            &&& one.last_pushed_to.limit() == other.last_pushed_to.limit()
        },
{
    if one.same_received(&other) {
        assert(one.received().contains_key(origin) == other.received().contains_key(origin));
        if one.received().contains_key(origin) {
            assert(one.received()[origin] == other.received()[origin]);
            assert(one.ingress(origin) == other.ingress(origin));
        }
    }
}

/// What an overlay received of an origin is what its cache holds of it, by key and in the
/// order of the keys.
pub proof fn law_received_is_what_the_cache_holds(
    push: CrdsGossipPush,
    origin: Pubkey,
    peer: Pubkey,
)
    ensures
        push.received().contains_key(origin) == push.received_cache@.contains_key(origin),
        push.received_cache@.contains_key(origin) ==> {
            let peers = push.ingress(origin);
            &&& push.received()[origin] == push.received_cache@[origin]@
            &&& push.received()[origin].contains_key(peer) <==> exists|i: int|
                0 <= i < peers.len() && (#[trigger] peers[i]).0 == peer
            &&& push.received()[origin].contains_key(peer) ==> peers.contains(
                (peer, push.received()[origin][peer]),
            )
        },
{
    let peers = push.ingress(origin);
    if push.received_cache@.contains_key(origin) && has_key(peers, peer) {
        let i = index_of_key(peers, peer);
        assert(peers[i] == (peer, push.received()[origin][peer]));
    }
}

/// Two active sets show the same exactly where they have the same peers in the same places,
/// with filters of the same hash keys and bits.
pub proof fn law_active_sets_show_peers_and_filters(
    one: Seq<(Pubkey, Bloom)>,
    other: Seq<(Pubkey, Bloom)>,
    i: int,
)
    requires
        active_view(one) == active_view(other),
        0 <= i < one.len(),
    ensures
        one.len() == other.len(),
        one[i].0 == other[i].0,
        one[i].1@.keys == other[i].1@.keys,
        one[i].1@.bits == other[i].1@.bits,
{
    let (a, b) = (active_view(one), active_view(other));
    assert(a.len() == one.len() && b.len() == other.len());
    assert(a[i] == (one[i].0, one[i].1@));
    assert(b[i] == (other[i].0, other[i].1@));
}

/// The keys of entries are theirs, in their order.
pub proof fn law_keys_are_those_of_entries<V>(entries: Seq<(Pubkey, V)>, i: int)
    ensures
        keys_of(entries).len() == entries.len(),
        0 <= i < entries.len() ==> keys_of(entries)[i] == entries[i].0,
{
}

/// What entries hold by key: a key is there where an entry has it, with the value of that
/// entry.
pub proof fn law_maps_hold_what_entries_hold<V>(entries: Seq<(Pubkey, V)>, key: Pubkey, i: int)
    requires
        unique_keys(entries),
    ensures
        as_map(entries).contains_key(key) <==> exists|j: int|
            0 <= j < entries.len() && (#[trigger] entries[j]).0 == key,
        0 <= i < entries.len() ==> as_map(entries)[entries[i].0] == entries[i].1,
{
    if 0 <= i < entries.len() {
        lemma_index_of_key(entries, i);
    }
}

/// Where there are validators they are those of the set, and there are none without one.
pub proof fn law_validators_are_those_of_the_set(validators: Option<&PubkeySet>)
    ensures
        validators is None <==> validators_view(validators) is None,
        validators matches Some(set) ==> validators_view(validators) == Some(set@),
{
}

/// The candidates are the peers that are not pruned and have a stake, with that stake.
pub proof fn law_candidates_are_staked_peers(
    peers: Seq<(Pubkey, Ingress)>,
    stakes: Map<Pubkey, u64>,
    peer: Pubkey,
    stake: u64,
)
    ensures
        candidates_of(peers, stakes).contains((peer, stake)) <==> {
            &&& stake > 0
            &&& stakes.contains_key(peer)
            &&& stakes[peer] == stake
            &&& exists|i: int|
                0 <= i < peers.len() && (#[trigger] peers[i]).0 == peer && !peers[i].1.pruned
        },
{
    lemma_candidates(peers, stakes);
    let candidates = candidates_of(peers, stakes);
    if candidates.contains((peer, stake)) {
        let i = choose|i: int| 0 <= i < candidates.len() && candidates[i] == (peer, stake);
        assert(is_candidate(peers, stakes, candidates[i]));
    }
    if stake > 0 && stakes.contains_key(peer) && stakes[peer] == stake && exists|i: int|
        0 <= i < peers.len() && (#[trigger] peers[i]).0 == peer && !peers[i].1.pruned {
        assert(is_candidate(peers, stakes, (peer, stake)));
    }
}

} // verus!
