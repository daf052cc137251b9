//! What holds of the peers that values come from.

use crate::crds::{has_label, index_of_label, inserted, Crds, CrdsError, VersionedCrdsValue};
use crate::crds_gossip_push::{pruned_by_weight, pruned_in_order, CrdsGossipPush};
use crate::crds_value::CrdsValue;
use crate::double::{lemma_nearest_double_bound, nearest_double};
use crate::keyed::{as_map, has_key, index_of_key, keys_of, unique_keys};
use crate::keyed::{lemma_filter_contains, lemma_index_of_key, lemma_sorted_keys_are_unique};
use crate::prune::{
    candidates_of, enough, is_candidate, is_kept, keep_count, kept_peers, not_kept, ranked,
    stake_of, threshold_of, unpruned_stake, weights_of, with_pruned,
    CRDS_GOSSIP_PRUNE_STAKE_THRESHOLD_PCT,
};
use crate::prune::{lemma_candidates, lemma_sum_of_prefix};
use crate::pubkey::Pubkey;
use crate::received_cache::{heard_since, purged, recorded, Ingress};
use crate::weighted_shuffle::{
    inverse_of, is_listed, is_permutation, is_weighted_order, sum_of,
};
use vstd::prelude::*;

verus! {

/// A value that was taken in is in the table, and pushed again it is an old version.
pub proof fn law_known_values_are_old(
    before: Crds,
    after: Crds,
    later: Crds,
    value: CrdsValue,
    now: u64,
    then: u64,
    replaced: Option<VersionedCrdsValue>,
    again: Result<Option<VersionedCrdsValue>, CrdsError>,
)
    requires
        before.wf(),
        after.wf(),
        inserted(before, after, value, now, Ok(replaced)),
        inserted(after, later, value, then, again),
    ensures
        has_label(after.entries(), value.data.spec_label()),
        after.entries()[index_of_label(after.entries(), value.data.spec_label())].value == value,
        again == Err::<Option<VersionedCrdsValue>, CrdsError>(CrdsError::InsertFailed),
        later == after,
{
    lemma_inserted_value(before, after, value, now, replaced);
}

/// A value that was taken in is what the table holds under its label.
proof fn lemma_inserted_value(
    before: Crds,
    after: Crds,
    value: CrdsValue,
    now: u64,
    replaced: Option<VersionedCrdsValue>,
)
    requires
        after.wf(),
        inserted(before, after, value, now, Ok(replaced)),
    ensures
        has_label(after.entries(), value.data.spec_label()),
        after.entries()[index_of_label(after.entries(), value.data.spec_label())].value == value,
{
    let table = after.entries();
    let label = value.data.spec_label();
    let last = table.len() - 1;
    assert(table[last].value.data.spec_label() == label);
    let index = index_of_label(table, label);
    if index != last {
        assert(table[index].value.data.spec_label() != table[last].value.data.spec_label());
    }
}

/// Of two versions of a value, the table ends up with the same one whichever is pushed
/// first, where one of them overrides the other.
pub proof fn law_newer_version_wins(
    before: Crds,
    mid: Crds,
    after: Crds,
    older: CrdsValue,
    newer: CrdsValue,
    newer_first: bool,
    results: (
        Result<Option<VersionedCrdsValue>, CrdsError>,
        Result<Option<VersionedCrdsValue>, CrdsError>,
    ),
    now: u64,
)
    requires
        before.wf(),
        mid.wf(),
        after.wf(),
        older.data.spec_label() == newer.data.spec_label(),
        newer.overrides(older),
        !has_label(before.entries(), newer.data.spec_label()),
        newer_first ==> inserted(before, mid, newer, now, results.0) && inserted(
            mid,
            after,
            older,
            now,
            results.1,
        ),
        !newer_first ==> inserted(before, mid, older, now, results.0) && inserted(
            mid,
            after,
            newer,
            now,
            results.1,
        ),
    ensures
        has_label(after.entries(), newer.data.spec_label()),
        after.entries()[index_of_label(after.entries(), newer.data.spec_label())].value == newer,
{
    if newer_first {
        lemma_inserted_value(before, mid, newer, now, None);
    } else {
        lemma_inserted_value(before, mid, older, now, None);
        let index = index_of_label(mid.entries(), newer.data.spec_label());
        lemma_inserted_value(mid, after, newer, now, Some(mid.entries()[index]));
    }
}

/// After `from` pushed a value of `origin` at `now`, it is among the peers of that
/// origin with that time, pruned only where it was before. Nothing else changes.
pub proof fn law_pushes_are_recorded(
    cache: Map<Pubkey, Map<Pubkey, Ingress>>,
    origin: Pubkey,
    from: Pubkey,
    now: u64,
    other_origin: Pubkey,
    other: Pubkey,
)
    ensures
        ({
            let after = recorded(cache, origin, from, now);
            let known = cache.contains_key(origin) && cache[origin].contains_key(from);
            &&& after.contains_key(origin)
            &&& after[origin].contains_key(from)
            &&& after[origin][from].timestamp == now
            &&& after[origin][from].pruned == (known && cache[origin][from].pruned)
            &&& other_origin != origin || other != from ==> {
                let here = after.contains_key(other_origin) && after[other_origin].contains_key(
                    other,
                );
                &&& here == (cache.contains_key(other_origin)
                    && cache[other_origin].contains_key(other))
                &&& here ==> after[other_origin][other] == cache[other_origin][other]
            }
        }),
{
}

/// After a purge, exactly the peers that pushed later than `min_time` are left, as they
/// were, and no origin without peers.
pub proof fn law_purge_keeps_recent_peers(
    cache: Map<Pubkey, Map<Pubkey, Ingress>>,
    min_time: u64,
    origin: Pubkey,
    peer: Pubkey,
)
    ensures
        ({
            let after = purged(cache, min_time);
            let recent = cache.contains_key(origin) && cache[origin].contains_key(peer)
                && cache[origin][peer].timestamp > min_time;
            &&& after.contains_key(origin) && after[origin].contains_key(peer) <==> recent
            &&& recent ==> after[origin][peer] == cache[origin][peer]
            &&& after.contains_key(origin) ==> exists|some: Pubkey| #[trigger]
                after[origin].contains_key(some)
        }),
{
    let after = purged(cache, min_time);
    if after.contains_key(origin) {
        let some = choose|some: Pubkey| #[trigger]
            heard_since(cache[origin], min_time).contains_key(some);
        assert(after[origin].contains_key(some));
    }
    if cache.contains_key(origin) && cache[origin].contains_key(peer)
        && cache[origin][peer].timestamp > min_time {
        assert(heard_since(cache[origin], min_time).contains_key(peer));
    }
}

/// Two purges do what the later one does alone.
pub proof fn law_purges_add_up(
    cache: Map<Pubkey, Map<Pubkey, Ingress>>,
    one: u64,
    other: u64,
)
    ensures
        purged(purged(cache, one), other) == purged(cache, if one < other { other } else { one }),
{
    let time = if one < other { other } else { one };
    let twice = purged(purged(cache, one), other);
    let once = purged(cache, time);
    assert forall|origin: Pubkey| cache.contains_key(origin) implies heard_since(
        heard_since(cache[origin], one),
        other,
    ) == #[trigger] heard_since(cache[origin], time) by {
        assert(heard_since(heard_since(cache[origin], one), other) =~= heard_since(
            cache[origin],
            time,
        ));
    }
    assert forall|origin: Pubkey| twice.contains_key(origin) <==> once.contains_key(origin) by {
        if once.contains_key(origin) {
            let some = choose|some: Pubkey| #[trigger]
                heard_since(cache[origin], time).contains_key(some);
            assert(heard_since(cache[origin], one).contains_key(some));
            assert(purged(cache, one).contains_key(origin));
            assert(heard_since(purged(cache, one)[origin], other).contains_key(some));
        }
        if twice.contains_key(origin) {
            let some = choose|some: Pubkey| #[trigger]
                heard_since(purged(cache, one)[origin], other).contains_key(some);
            assert(heard_since(cache[origin], time).contains_key(some));
        }
    }
    assert(twice =~= once);
}

/// The stake that the peers of an origin have to have does not depend on which of the
/// two stakes is whose. It is at least one and, beyond that, no more than the lower of
/// the two.
pub proof fn law_threshold_is_a_share(self_stake: u64, origin_stake: u64)
    ensures
        threshold_of(self_stake, origin_stake) == threshold_of(origin_stake, self_stake),
        threshold_of(self_stake, origin_stake) >= 1,
        threshold_of(self_stake, origin_stake) <= 1 || {
            &&& threshold_of(self_stake, origin_stake) <= self_stake
            &&& threshold_of(self_stake, origin_stake) <= origin_stake
        },
{
    let stake: u64 = if self_stake < origin_stake { self_stake } else { origin_stake };
    let exact = nearest_double(stake as nat) * CRDS_GOSSIP_PRUNE_STAKE_THRESHOLD_PCT as nat;
    lemma_nearest_double_bound(stake as nat);
    lemma_nearest_double_bound(exact);
}

/// The peers of an origin have no more stake than all nodes together.
pub proof fn law_ingress_stake_is_bounded(
    peers: Seq<(Pubkey, Ingress)>,
    stakes: Seq<(Pubkey, u64)>,
)
    requires
        unique_keys(peers),
        unique_keys(stakes),
    ensures
        unpruned_stake(peers, as_map(stakes)) <= sum_of(weights_of(stakes), stakes.len()),
    decreases peers.len(),
{
    if peers.len() > 0 {
        let rest = peers.drop_last();
        let peer = peers.last().0;
        assert(unique_keys(rest)) by {
            assert forall|i: int, j: int|
                #![trigger rest[i], rest[j]]
                0 <= i < j < rest.len() implies rest[i].0 != rest[j].0 by {
                assert(peers[i].0 != peers[j].0);
            }
        }
        if has_key(stakes, peer) {
            let index = index_of_key(stakes, peer);
            let others = stakes.remove(index);
            lemma_remove_stake(stakes, index);
            law_ingress_stake_is_bounded(rest, others);
            assert forall|i: int| 0 <= i < rest.len() implies stake_of(
                as_map(stakes),
                (#[trigger] rest[i]).0,
            ) == stake_of(as_map(others), rest[i].0) by {
                assert(peers[i].0 != peers[peers.len() - 1].0);
            }
            lemma_same_stakes(rest, as_map(stakes), as_map(others));
        } else {
            law_ingress_stake_is_bounded(rest, stakes);
        }
    }
}

/// Where the peers have the same stakes, they have the same stake together.
proof fn lemma_same_stakes(
    peers: Seq<(Pubkey, Ingress)>,
    one: Map<Pubkey, u64>,
    other: Map<Pubkey, u64>,
)
    requires
        forall|i: int|
            0 <= i < peers.len() ==> stake_of(one, (#[trigger] peers[i]).0) == stake_of(
                other,
                peers[i].0,
            ),
    ensures
        unpruned_stake(peers, one) == unpruned_stake(peers, other),
    decreases peers.len(),
{
    if peers.len() > 0 {
        let rest = peers.drop_last();
        assert forall|i: int| 0 <= i < rest.len() implies stake_of(one, (#[trigger] rest[i]).0)
            == stake_of(other, rest[i].0) by {
            assert(peers[i] == rest[i]);
        }
        lemma_same_stakes(rest, one, other);
        assert(peers[peers.len() - 1] == peers.last());
    }
}

/// Without the entry at `index`, the others have the stakes that they had, and the sum
/// is less by that of the entry.
proof fn lemma_remove_stake(stakes: Seq<(Pubkey, u64)>, index: int)
    requires
        unique_keys(stakes),
        0 <= index < stakes.len(),
    ensures
        ({
            let others = stakes.remove(index);
            &&& unique_keys(others)
            &&& sum_of(weights_of(stakes), stakes.len()) == sum_of(
                weights_of(others),
                others.len(),
            ) + stakes[index].1
            &&& forall|key: Pubkey|
                key != stakes[index].0 ==> #[trigger] stake_of(as_map(others), key) == stake_of(
                    as_map(stakes),
                    key,
                )
        }),
{
    let others = stakes.remove(index);
    assert forall|i: int, j: int|
        #![trigger others[i], others[j]]
        0 <= i < j < others.len() implies others[i].0 != others[j].0 by {
        let a = if i < index { i } else { i + 1 };
        let b = if j < index { j } else { j + 1 };
        assert(stakes[a].0 != stakes[b].0);
    }
    lemma_remove_from_sum(weights_of(stakes), index, stakes.len());
    assert(weights_of(others) =~= weights_of(stakes).remove(index));
    assert forall|key: Pubkey| key != stakes[index].0 implies #[trigger] stake_of(
        as_map(others),
        key,
    ) == stake_of(as_map(stakes), key) by {
        if has_key(others, key) {
            let i = index_of_key(others, key);
            let a = if i < index { i } else { i + 1 };
            assert(stakes[a] == others[i]);
            lemma_index_of_key(stakes, a);
            lemma_index_of_key(others, i);
        }
        if has_key(stakes, key) {
            let a = index_of_key(stakes, key);
            let i = if a < index { a } else { a - 1 };
            assert(others[i] == stakes[a]);
            lemma_index_of_key(others, i);
        }
    }
}

/// A sum without one of its weights is less by that weight.
proof fn lemma_remove_from_sum(weights: Seq<u64>, index: int, count: nat)
    requires
        0 <= index < count <= weights.len(),
    ensures
        sum_of(weights, count) == sum_of(weights.remove(index), (count - 1) as nat)
            + weights[index],
    decreases count,
{
    let others = weights.remove(index);
    if index == count - 1 {
        lemma_sum_of_prefix(others, weights, (count - 1) as nat);
    } else {
        lemma_remove_from_sum(weights, index, (count - 1) as nat);
        assert(others[count - 2] == weights[count - 1]);
    }
}

/// The number of kept peers is the first that is enough.
proof fn lemma_keep_count(ranked: Seq<(Pubkey, u64)>, threshold: u64, count: nat)
    requires
        count <= ranked.len(),
    ensures
        ({
            let kept = keep_count(ranked, threshold, count);
            &&& count <= kept <= ranked.len()
            &&& kept == ranked.len() || enough(ranked, threshold, kept)
            &&& forall|fewer: nat|
                count <= fewer < kept ==> !#[trigger] enough(ranked, threshold, fewer)
        }),
    decreases ranked.len() - count,
{
    if count < ranked.len() && !enough(ranked, threshold, count) {
        lemma_keep_count(ranked, threshold, count + 1);
    }
}

/// Peers are kept from the front until they have the stake that they have to have and
/// are, with the origin, enough nodes. No more are kept than that, and where they never
/// are enough, all are kept.
pub proof fn law_just_enough_peers_are_kept(ranked: Seq<(Pubkey, u64)>, threshold: u64)
    ensures
        ({
            let kept = kept_peers(ranked, threshold);
            &&& kept.len() <= ranked.len()
            &&& kept == ranked.take(kept.len() as int)
            &&& kept == ranked || enough(ranked, threshold, kept.len())
            &&& forall|fewer: nat|
                fewer < kept.len() ==> !#[trigger] enough(ranked, threshold, fewer)
        }),
{
    lemma_keep_count(ranked, threshold, 0);
    let kept = kept_peers(ranked, threshold);
    assert(kept.len() == keep_count(ranked, threshold, 0));
    assert(ranked.take(ranked.len() as int) =~= ranked);
}

/// The origin is never told to stop pushing its own values, and only peers are told.
/// A peer that was pruned stays so, and all that are told are pruned.
pub proof fn law_pruned_peers(
    peers: Seq<(Pubkey, Ingress)>,
    kept: Seq<(Pubkey, u64)>,
    origin: Pubkey,
    key: Pubkey,
    i: int,
)
    requires
        0 <= i < peers.len(),
    ensures
        not_kept(peers, kept, origin).contains(key) <==> has_key(peers, key) && !is_kept(
            kept,
            origin,
            key,
        ),
        !not_kept(peers, kept, origin).contains(origin),
        ({
            let after = with_pruned(peers, kept, origin);
            &&& after.len() == peers.len()
            &&& after[i].0 == peers[i].0
            &&& after[i].1.timestamp == peers[i].1.timestamp
            &&& after[i].1.pruned <==> peers[i].1.pruned || not_kept(peers, kept, origin).contains(
                peers[i].0,
            )
        }),
{
    lemma_not_kept(peers, kept, origin, key);
    lemma_not_kept(peers, kept, origin, origin);
    lemma_not_kept(peers, kept, origin, peers[i].0);
    assert(has_key(peers, peers[i].0));
}

/// The peers that are told to stop are those that are not kept.
pub proof fn lemma_not_kept(
    peers: Seq<(Pubkey, Ingress)>,
    kept: Seq<(Pubkey, u64)>,
    origin: Pubkey,
    key: Pubkey,
)
    ensures
        not_kept(peers, kept, origin).contains(key) <==> has_key(peers, key) && !is_kept(
            kept,
            origin,
            key,
        ),
{
    let keys = keys_of(peers);
    let pred = |key: Pubkey| !is_kept(kept, origin, key);
    lemma_filter_contains(keys, pred, key);
    if has_key(peers, key) {
        let i = choose|i: int| 0 <= i < peers.len() && (#[trigger] peers[i]).0 == key;
        assert(keys[i] == key);
    }
    if keys.contains(key) {
        let i = choose|i: int| 0 <= i < keys.len() && keys[i] == key;
        assert(peers[i].0 == key);
    }
}

/// The stake of peers where one that was pruned no longer is.
proof fn lemma_unprune(
    before: Seq<(Pubkey, Ingress)>,
    after: Seq<(Pubkey, Ingress)>,
    stakes: Map<Pubkey, u64>,
    index: int,
)
    requires
        before.len() == after.len(),
        0 <= index < before.len(),
        before[index].1.pruned,
        !after[index].1.pruned,
        before[index].0 == after[index].0,
        forall|i: int| 0 <= i < before.len() && i != index ==> #[trigger] before[i] == after[i],
    ensures
        unpruned_stake(after, stakes) == unpruned_stake(before, stakes) + stake_of(
            stakes,
            after[index].0,
        ),
    decreases before.len(),
{
    if index == before.len() - 1 {
        assert(before.drop_last() =~= after.drop_last());
    } else {
        lemma_unprune(before.drop_last(), after.drop_last(), stakes, index);
        assert(before[before.len() - 1] == after[after.len() - 1]);
    }
}

/// The stakes of kept peers are among those of the peers that are not pruned.
proof fn lemma_kept_stake(
    peers: Seq<(Pubkey, Ingress)>,
    stakes: Map<Pubkey, u64>,
    kept: Seq<(Pubkey, u64)>,
    origin: Pubkey,
)
    requires
        unique_keys(peers),
        unique_keys(kept),
        forall|i: int|
            0 <= i < kept.len() ==> is_candidate(peers, stakes, #[trigger] kept[i]) && kept[i].0
                != origin,
    ensures
        sum_of(weights_of(kept), kept.len()) <= unpruned_stake(
            with_pruned(peers, kept, origin),
            stakes,
        ),
    decreases kept.len(),
{
    if kept.len() > 0 {
        let rest = kept.drop_last();
        let (peer, stake) = kept.last();
        assert forall|i: int| 0 <= i < rest.len() implies is_candidate(
            peers,
            stakes,
            #[trigger] rest[i],
        ) && rest[i].0 != origin by {
            assert(kept[i] == rest[i]);
        }
        lemma_kept_stake(peers, stakes, rest, origin);
        lemma_sum_of_prefix(weights_of(rest), weights_of(kept), rest.len());
        assert(weights_of(kept)[kept.len() - 1] == stake);
        assert(kept[kept.len() - 1] == (peer, stake));
        assert(is_candidate(peers, stakes, (peer, stake)));
        let index = choose|i: int|
            0 <= i < peers.len() && (#[trigger] peers[i]).0 == peer && !peers[i].1.pruned;
        let before = with_pruned(peers, rest, origin);
        let after = with_pruned(peers, kept, origin);
        assert(!is_kept(rest, origin, peer)) by {
            if is_kept(rest, origin, peer) {
                let i = choose|i: int| 0 <= i < rest.len() && (#[trigger] rest[i]).0 == peer;
                assert(kept[i].0 != kept[kept.len() - 1].0);
            }
        }
        assert(is_kept(kept, origin, peer));
        assert forall|i: int| 0 <= i < peers.len() && i != index implies #[trigger] before[i]
            == after[i] by {
            let key = peers[i].0;
            assert(key != peer) by {
                if i < index {
                    assert(peers[i].0 != peers[index].0);
                } else {
                    assert(peers[index].0 != peers[i].0);
                }
            }
            if is_kept(rest, origin, key) && key != origin {
                let j = choose|j: int| 0 <= j < rest.len() && (#[trigger] rest[j]).0 == key;
                assert(kept[j].0 == key);
            }
            if is_kept(kept, origin, key) && key != origin {
                let j = choose|j: int| 0 <= j < kept.len() && (#[trigger] kept[j]).0 == key;
                assert(rest[j].0 == key);
            }
        }
        lemma_unprune(before, after, stakes, index);
    }
}

/// Where every peer with a stake is kept, the stake stays.
proof fn lemma_all_kept(
    peers: Seq<(Pubkey, Ingress)>,
    stakes: Map<Pubkey, u64>,
    kept: Seq<(Pubkey, u64)>,
    origin: Pubkey,
)
    requires
        forall|i: int|
            0 <= i < peers.len() && !(#[trigger] peers[i]).1.pruned && stake_of(stakes, peers[i].0)
                > 0 ==> is_kept(kept, origin, peers[i].0),
    ensures
        unpruned_stake(with_pruned(peers, kept, origin), stakes) == unpruned_stake(peers, stakes),
    decreases peers.len(),
{
    if peers.len() > 0 {
        let rest = peers.drop_last();
        assert forall|i: int|
            0 <= i < rest.len() && !(#[trigger] rest[i]).1.pruned && stake_of(stakes, rest[i].0)
                > 0 implies is_kept(kept, origin, rest[i].0) by {
            assert(peers[i] == rest[i]);
        }
        lemma_all_kept(rest, stakes, kept, origin);
        assert(with_pruned(peers, kept, origin).drop_last() =~= with_pruned(rest, kept, origin));
        assert(peers[peers.len() - 1] == peers.last());
    }
}

/// The ranked peers are the candidates but for the origin, each once.
pub proof fn lemma_ranked(
    peers: Seq<(Pubkey, Ingress)>,
    stakes: Map<Pubkey, u64>,
    order: Seq<usize>,
    origin: Pubkey,
)
    requires
        unique_keys(peers),
        is_permutation(order, candidates_of(peers, stakes).len()),
    ensures
        ({
            let all = ranked(candidates_of(peers, stakes), order, origin);
            &&& unique_keys(all)
            &&& forall|i: int|
                0 <= i < all.len() ==> is_candidate(peers, stakes, #[trigger] all[i]) && all[i].0
                    != origin
            &&& forall|candidate: (Pubkey, u64)|
                is_candidate(peers, stakes, candidate) && candidate.0 != origin
                    ==> #[trigger] all.contains(candidate)
        }),
{
    let candidates = candidates_of(peers, stakes);
    lemma_candidates(peers, stakes);
    lemma_candidates_unique(peers, stakes);
    lemma_ranked_prefix(candidates, order, origin);
    let all = ranked(candidates, order, origin);
    assert forall|i: int| 0 <= i < all.len() implies is_candidate(
        peers,
        stakes,
        #[trigger] all[i],
    ) && all[i].0 != origin by {
        let j = choose|j: int|
            0 <= j < order.len() && candidates[#[trigger] order[j] as int] == all[i];
        assert(candidates[order[j] as int] == all[i]);
    }
    assert forall|candidate: (Pubkey, u64)|
        is_candidate(peers, stakes, candidate) && candidate.0 != origin implies #[trigger] all.contains(
        candidate,
    ) by {
        assert(candidates.contains(candidate));
        let k = choose|k: int| 0 <= k < candidates.len() && candidates[k] == candidate;
        assert(is_listed(order, k));
        let j = choose|j: int| 0 <= j < order.len() && #[trigger] order[j] == k;
        assert(candidates[order[j] as int].0 != origin);
    }
}

/// No candidate occurs twice.
proof fn lemma_candidates_unique(peers: Seq<(Pubkey, Ingress)>, stakes: Map<Pubkey, u64>)
    requires
        unique_keys(peers),
    ensures
        unique_keys(candidates_of(peers, stakes)),
    decreases peers.len(),
{
    reveal(Seq::filter_map);
    if peers.len() > 0 {
        let rest = peers.drop_last();
        let fewer = candidates_of(rest, stakes);
        let all = candidates_of(peers, stakes);
        assert(unique_keys(rest)) by {
            assert forall|i: int, j: int|
                #![trigger rest[i], rest[j]]
                0 <= i < j < rest.len() implies rest[i].0 != rest[j].0 by {
                assert(peers[i].0 != peers[j].0);
            }
        }
        lemma_candidates_unique(rest, stakes);
        lemma_candidates(rest, stakes);
        assert forall|i: int, j: int|
            #![trigger all[i], all[j]]
            0 <= i < j < all.len() implies all[i].0 != all[j].0 by {
            assert(all[i] == fewer[i]);
            if j < fewer.len() {
                assert(all[j] == fewer[j]);
            } else {
                assert(all[j].0 == peers.last().0);
                assert(is_candidate(rest, stakes, fewer[i]));
                let k = choose|k: int|
                    0 <= k < rest.len() && (#[trigger] rest[k]).0 == fewer[i].0 && !rest[k].1.pruned;
                assert(peers[k].0 != peers[peers.len() - 1].0);
            }
        }
    }
}

/// What ranking gives: no key twice, nothing but candidates at the places of the order,
/// and each of those that is not the origin.
proof fn lemma_ranked_prefix(candidates: Seq<(Pubkey, u64)>, order: Seq<usize>, origin: Pubkey)
    requires
        unique_keys(candidates),
        forall|i: int| 0 <= i < order.len() ==> #[trigger] order[i] < candidates.len(),
        forall|i: int, j: int|
            #![trigger order[i], order[j]]
            0 <= i < j < order.len() ==> order[i] != order[j],
    ensures
        ({
            let all = ranked(candidates, order, origin);
            &&& unique_keys(all)
            &&& forall|i: int|
                0 <= i < all.len() ==> (#[trigger] all[i]).0 != origin && exists|j: int|
                    0 <= j < order.len() && candidates[#[trigger] order[j] as int] == all[i]
            &&& forall|j: int|
                0 <= j < order.len() && candidates[#[trigger] order[j] as int].0 != origin
                    ==> all.contains(candidates[order[j] as int])
        }),
    decreases order.len(),
{
    reveal(Seq::filter_map);
    let all = ranked(candidates, order, origin);
    if order.len() > 0 {
        let rest = order.drop_last();
        let fewer = ranked(candidates, rest, origin);
        let last = candidates[order.last() as int];
        assert forall|i: int| 0 <= i < rest.len() implies #[trigger] rest[i] < candidates.len() by {
            assert(order[i] == rest[i]);
        }
        assert forall|i: int, j: int|
            #![trigger rest[i], rest[j]]
            0 <= i < j < rest.len() implies rest[i] != rest[j] by {
            assert(order[i] != order[j]);
        }
        lemma_ranked_prefix(candidates, rest, origin);
        assert(order[order.len() - 1] == order.last());
        assert forall|i: int| 0 <= i < all.len() implies (#[trigger] all[i]).0 != origin && exists|j: int|
            0 <= j < order.len() && candidates[#[trigger] order[j] as int] == all[i] by {
            if i < fewer.len() {
                assert(all[i] == fewer[i]);
                let j = choose|j: int|
                    0 <= j < rest.len() && candidates[#[trigger] rest[j] as int] == fewer[i];
                assert(candidates[order[j] as int] == all[i]);
            } else {
                assert(candidates[order[order.len() - 1] as int] == all[i]);
            }
        }
        assert forall|j: int|
            0 <= j < order.len() && candidates[#[trigger] order[j] as int].0
                != origin implies all.contains(candidates[order[j] as int]) by {
            let item = candidates[order[j] as int];
            if j < rest.len() {
                assert(rest[j] == order[j]);
                assert(fewer.contains(item));
                let k = choose|k: int| 0 <= k < fewer.len() && fewer[k] == item;
                assert(all[k] == item);
            } else {
                assert(all[fewer.len() as int] == item);
            }
        }
        assert forall|a: int, b: int|
            #![trigger all[a], all[b]]
            0 <= a < b < all.len() implies all[a].0 != all[b].0 by {
            assert(all[a] == fewer[a]);
            if b < fewer.len() {
                assert(all[b] == fewer[b]);
            } else {
                assert(all[b] == last);
                let j = choose|j: int|
                    0 <= j < rest.len() && candidates[#[trigger] rest[j] as int] == fewer[a];
                assert(order[j] != order[order.len() - 1]);
                let (x, y) = (order[j] as int, order.last() as int);
                if x < y {
                    assert(candidates[x].0 != candidates[y].0);
                } else {
                    assert(candidates[y].0 != candidates[x].0);
                }
            }
        }
    }
}

/// What is ranked earlier stands earlier in the order.
pub proof fn lemma_ranked_places(
    candidates: Seq<(Pubkey, u64)>,
    order: Seq<usize>,
    origin: Pubkey,
    i: int,
    j: int,
) -> (places: (int, int))
    requires
        0 <= i < j < ranked(candidates, order, origin).len(),
    ensures
        0 <= places.0 < places.1 < order.len(),
        candidates[order[places.0] as int] == ranked(candidates, order, origin)[i],
        candidates[order[places.1] as int] == ranked(candidates, order, origin)[j],
    decreases order.len(),
{
    reveal(Seq::filter_map);
    let rest = order.drop_last();
    let fewer = ranked(candidates, rest, origin);
    let all = ranked(candidates, order, origin);
    if j < fewer.len() {
        assert(all[i] == fewer[i] && all[j] == fewer[j]);
        lemma_ranked_places(candidates, rest, origin, i, j)
    } else {
        assert(all[i] == fewer[i]);
        let place = lemma_ranked_place(candidates, rest, origin, i);
        (place, order.len() - 1)
    }
}

/// What is ranked stands somewhere in the order.
proof fn lemma_ranked_place(
    candidates: Seq<(Pubkey, u64)>,
    order: Seq<usize>,
    origin: Pubkey,
    i: int,
) -> (place: int)
    requires
        0 <= i < ranked(candidates, order, origin).len(),
    ensures
        0 <= place < order.len(),
        candidates[order[place] as int] == ranked(candidates, order, origin)[i],
    decreases order.len(),
{
    reveal(Seq::filter_map);
    let rest = order.drop_last();
    let fewer = ranked(candidates, rest, origin);
    if i < fewer.len() {
        assert(ranked(candidates, order, origin)[i] == fewer[i]);
        lemma_ranked_place(candidates, rest, origin, i)
    } else {
        order.len() - 1
    }
}

/// Pruning does not cut a node off: where the peers of an origin have the stake that
/// they have to have, those that are left have it too, in whatever order they are taken.
pub proof fn law_pruning_leaves_enough_stake(
    peers: Seq<(Pubkey, Ingress)>,
    stakes: Map<Pubkey, u64>,
    self_pubkey: Pubkey,
    origin: Pubkey,
    order: Seq<usize>,
)
    requires
        unique_keys(peers),
        is_permutation(order, candidates_of(peers, stakes).len()),
        unpruned_stake(peers, stakes) >= threshold_of(
            stake_of(stakes, self_pubkey),
            stake_of(stakes, origin),
        ),
    ensures
        ({
            let threshold = threshold_of(stake_of(stakes, self_pubkey), stake_of(stakes, origin));
            let kept = kept_peers(
                ranked(candidates_of(peers, stakes), order, origin),
                threshold,
            );
            unpruned_stake(with_pruned(peers, kept, origin), stakes) >= threshold
        }),
{
    let threshold = threshold_of(stake_of(stakes, self_pubkey), stake_of(stakes, origin));
    let all = ranked(candidates_of(peers, stakes), order, origin);
    let kept = kept_peers(all, threshold);
    lemma_ranked(peers, stakes, order, origin);
    law_just_enough_peers_are_kept(all, threshold);
    if kept == all {
        assert forall|i: int|
            0 <= i < peers.len() && !(#[trigger] peers[i]).1.pruned && stake_of(stakes, peers[i].0)
                > 0 implies is_kept(kept, origin, peers[i].0) by {
            let candidate = (peers[i].0, stake_of(stakes, peers[i].0));
            if candidate.0 != origin {
                assert(is_candidate(peers, stakes, candidate));
                assert(all.contains(candidate));
                let k = choose|k: int| 0 <= k < all.len() && all[k] == candidate;
                assert(kept[k].0 == peers[i].0);
            }
        }
        lemma_all_kept(peers, stakes, kept, origin);
    } else {
        assert forall|i: int| 0 <= i < kept.len() implies is_candidate(
            peers,
            stakes,
            #[trigger] kept[i],
        ) && kept[i].0 != origin by {
            assert(kept[i] == all[i]);
        }
        assert forall|i: int, j: int|
            #![trigger kept[i], kept[j]]
            0 <= i < j < kept.len() implies kept[i].0 != kept[j].0 by {
            assert(all[i].0 != all[j].0);
        }
        lemma_kept_stake(peers, stakes, kept, origin);
        lemma_sum_of_prefix(weights_of(kept), weights_of(all), kept.len());
    }
}

/// No origin is pruned as a source of its own values.
pub open spec fn no_origin_pruned(received: Map<Pubkey, Map<Pubkey, Ingress>>) -> bool {
    forall|origin: Pubkey| #[trigger]
        received.contains_key(origin) && received[origin].contains_key(origin)
            ==> !received[origin][origin].pruned
}

/// An origin is never pruned as a source of its own values, whatever its stake: it is not
/// at the beginning, and whatever is recorded, purged or pruned keeps it so. The peers of
/// `origin` are `peers`, and `kept` of them are kept where they are pruned.
pub proof fn law_origins_are_never_pruned(
    received: Map<Pubkey, Map<Pubkey, Ingress>>,
    origin: Pubkey,
    from: Pubkey,
    time: u64,
    peers: Seq<(Pubkey, Ingress)>,
    kept: Seq<(Pubkey, u64)>,
)
    requires
        no_origin_pruned(received),
    ensures
        no_origin_pruned(Map::<Pubkey, Map<Pubkey, Ingress>>::empty()),
        no_origin_pruned(recorded(received, origin, from, time)),
        no_origin_pruned(purged(received, time)),
        unique_keys(peers) && received.contains_key(origin) && received[origin] == as_map(peers)
            ==> no_origin_pruned(
            received.insert(origin, as_map(with_pruned(peers, kept, origin))),
        ),
{
    let after_record = recorded(received, origin, from, time);
    assert forall|o: Pubkey| #[trigger]
        after_record.contains_key(o) && after_record[o].contains_key(
            o,
        ) implies !after_record[o][o].pruned by {
        if received.contains_key(o) && received[o].contains_key(o) {
            assert(!received[o][o].pruned);
        }
    }
    let after_purge = purged(received, time);
    assert forall|o: Pubkey| #[trigger]
        after_purge.contains_key(o) && after_purge[o].contains_key(
            o,
        ) implies !after_purge[o][o].pruned by {
        assert(received.contains_key(o));
    }
    if unique_keys(peers) && received.contains_key(origin) && received[origin] == as_map(peers) {
        let pruned = with_pruned(peers, kept, origin);
        let after = received.insert(origin, as_map(pruned));
        assert forall|o: Pubkey| #[trigger]
            after.contains_key(o) && after[o].contains_key(o) implies !after[o][o].pruned by {
            assert(received.contains_key(o));
            if o == origin {
                lemma_with_pruned(peers, kept, origin, origin);
            }
        }
    }
}

/// Pruning changes the flag of a peer alone, and of one that is not kept.
pub proof fn lemma_with_pruned(
    peers: Seq<(Pubkey, Ingress)>,
    kept: Seq<(Pubkey, u64)>,
    origin: Pubkey,
    key: Pubkey,
)
    requires
        unique_keys(peers),
    ensures
        ({
            let after = with_pruned(peers, kept, origin);
            &&& unique_keys(after)
            &&& has_key(after, key) <==> has_key(peers, key)
            &&& has_key(peers, key) ==> {
                &&& as_map(after)[key].timestamp == as_map(peers)[key].timestamp
                &&& as_map(after)[key].pruned == (as_map(peers)[key].pruned || !is_kept(
                    kept,
                    origin,
                    key,
                ))
            }
        }),
{
    let after = with_pruned(peers, kept, origin);
    assert forall|i: int, j: int|
        #![trigger after[i], after[j]]
        0 <= i < j < after.len() implies after[i].0 != after[j].0 by {
        assert(peers[i].0 != peers[j].0);
    }
    if has_key(after, key) {
        let i = index_of_key(after, key);
        assert(peers[i].0 == key);
    }
    if has_key(peers, key) {
        let i = index_of_key(peers, key);
        assert(after[i].0 == key);
        lemma_index_of_key(after, i);
    }
}

/// A peer that was told to stop is told so again: where the peers of an origin are pruned
/// twice with the same stakes, the second prune returns all that the first one returned,
/// whatever the orders that were drawn. A pruned peer is never unpruned.
pub proof fn law_pruned_peers_are_told_again(
    before: CrdsGossipPush,
    between: CrdsGossipPush,
    after: CrdsGossipPush,
    self_pubkey: Pubkey,
    origin: Pubkey,
    stakes: Map<Pubkey, u64>,
    first: Seq<Pubkey>,
    second: Seq<Pubkey>,
    key: Pubkey,
)
    requires
        before.wf(),
        between.wf(),
        pruned_by_weight(before, between, self_pubkey, origin, stakes, first),
        pruned_by_weight(between, after, self_pubkey, origin, stakes, second),
        first.contains(key),
    ensures
        second.contains(key),
        after.received().contains_key(origin),
        after.received()[origin].contains_key(key),
        after.received()[origin][key].pruned,
{
    assert(before.prunes(self_pubkey, origin, stakes));
    let order = choose|order: Seq<usize>|
        {
            &&& is_weighted_order(
                inverse_of(weights_of(candidates_of(before.ingress(origin), stakes))),
                order,
            )
            &&& #[trigger] pruned_in_order(
                before,
                between,
                self_pubkey,
                origin,
                stakes,
                order,
                first,
            )
        };
    let peers = before.ingress(origin);
    let kept = before.kept_of(self_pubkey, origin, stakes, order);
    let left = with_pruned(peers, kept, origin);
    lemma_sorted_keys_are_unique(peers);
    law_pruning_leaves_enough_stake(peers, stakes, self_pubkey, origin, order);
    assert(between.ingress(origin) == left);
    assert(between.received().contains_key(origin));
    assert(between.prunes(self_pubkey, origin, stakes));
    let again = choose|again: Seq<usize>|
        {
            &&& is_weighted_order(
                inverse_of(weights_of(candidates_of(between.ingress(origin), stakes))),
                again,
            )
            &&& #[trigger] pruned_in_order(
                between,
                after,
                self_pubkey,
                origin,
                stakes,
                again,
                second,
            )
        };
    let kept_again = between.kept_of(self_pubkey, origin, stakes, again);
    lemma_not_kept(peers, kept, origin, key);
    lemma_with_pruned(peers, kept, origin, key);
    assert(!is_kept(kept_again, origin, key)) by {
        if is_kept(kept_again, origin, key) {
            let all = ranked(candidates_of(left, stakes), again, origin);
            let threshold = threshold_of(stake_of(stakes, self_pubkey), stake_of(stakes, origin));
            lemma_ranked(left, stakes, again, origin);
            law_just_enough_peers_are_kept(all, threshold);
            let i = choose|i: int| 0 <= i < kept_again.len() && (#[trigger] kept_again[i]).0 == key;
            assert(all[i] == kept_again[i]);
            assert(is_candidate(left, stakes, all[i]));
            let j = choose|j: int|
                0 <= j < left.len() && (#[trigger] left[j]).0 == key && !left[j].1.pruned;
            lemma_index_of_key(left, j);
        }
    }
    lemma_not_kept(left, kept_again, origin, key);
    lemma_with_pruned(left, kept_again, origin, key);
}

} // verus!
