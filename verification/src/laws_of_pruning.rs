//! What pruning the peers of an origin does, by what is in the received cache before and
//! after.

use crate::crds_gossip_push::{pruned_by_weight, pruned_in_order, CrdsGossipPush};
use crate::keyed::{as_map, has_key, index_of_key, keys_of, unique_keys};
use crate::keyed::{lemma_index_of_key, lemma_sorted_keys_are_unique};
use crate::laws_of_ingress::{
    law_just_enough_peers_are_kept, law_pruning_leaves_enough_stake, lemma_not_kept, lemma_ranked,
    lemma_ranked_places, lemma_with_pruned,
};
use crate::laws_of_order::{law_inverse_weights_are_quotients, law_much_heavier_items_come_first};
use crate::laws_of_order::lemma_sum_is_fold;
use crate::prune::{
    candidates_of, enough, is_candidate, is_kept, not_kept, ranked, stake_of, threshold_of,
    unpruned_stake, weights_of, with_pruned,
};
use crate::prune::{lemma_candidates_sum, lemma_sum_of_prefix};
use crate::pubkey::Pubkey;
use crate::received_cache::Ingress;
use crate::weighted_shuffle::lemma_sum_grows;
use crate::weighted_shuffle::{inverse_of, is_permutation, is_weighted_order, sum_of};
use vstd::prelude::*;

verus! {

/// The stake of the peers that are not pruned, added up one by one, without that of
/// `without`.
pub open spec fn total_stake(
    peers: Seq<(Pubkey, Ingress)>,
    stakes: Map<Pubkey, u64>,
    without: Option<Pubkey>,
) -> int {
    peers.fold_left(
        0int,
        |sum: int, peer: (Pubkey, Ingress)|
            if peer.1.pruned || without == Some(peer.0) || !stakes.contains_key(peer.0) {
                sum
            } else {
                sum + stakes[peer.0]
            },
    )
}

/// The stake that the peers of `origin` have to have: the share of what the node and the
/// origin have.
pub open spec fn stake_needed(
    self_pubkey: Pubkey,
    origin: Pubkey,
    stakes: Map<Pubkey, u64>,
) -> u64 {
    threshold_of(
        if stakes.contains_key(self_pubkey) { stakes[self_pubkey] } else { 0 },
        if stakes.contains_key(origin) { stakes[origin] } else { 0 },
    )
}

/// The peers of an origin, but for itself, that are not pruned.
pub open spec fn unpruned_but_origin(peers: Map<Pubkey, Ingress>, origin: Pubkey) -> Set<Pubkey> {
    Set::new(|peer: Pubkey| peers.contains_key(peer) && !peers[peer].pruned && peer != origin)
}

/// Those of them that have a stake.
pub open spec fn staked_but_origin(
    peers: Map<Pubkey, Ingress>,
    origin: Pubkey,
    stakes: Map<Pubkey, u64>,
) -> Set<Pubkey> {
    Set::new(
        |peer: Pubkey|
            {
                &&& peers.contains_key(peer)
                &&& !peers[peer].pruned
                &&& peer != origin
                &&& stakes.contains_key(peer)
                &&& stakes[peer] > 0
            },
    )
}

/// Values of `origin` came, and from peers of enough stake.
pub open spec fn has_enough_stake(
    push: CrdsGossipPush,
    self_pubkey: Pubkey,
    origin: Pubkey,
    stakes: Map<Pubkey, u64>,
) -> bool {
    &&& push.received().contains_key(origin)
    &&& total_stake(push.ingress(origin), stakes, None) >= stake_needed(
        self_pubkey,
        origin,
        stakes,
    )
}

/// The stake of the peers that are not pruned is what adding it up gives.
proof fn lemma_unpruned_stake_is_total(
    peers: Seq<(Pubkey, Ingress)>,
    stakes: Map<Pubkey, u64>,
)
    ensures
        unpruned_stake(peers, stakes) == total_stake(peers, stakes, None),
    decreases peers.len(),
{
    if peers.len() > 0 {
        lemma_unpruned_stake_is_total(peers.drop_last(), stakes);
    }
}

/// Peers are pruned exactly where they have enough stake.
proof fn lemma_prunes(
    push: CrdsGossipPush,
    self_pubkey: Pubkey,
    origin: Pubkey,
    stakes: Map<Pubkey, u64>,
)
    ensures
        push.prunes(self_pubkey, origin, stakes) == has_enough_stake(
            push,
            self_pubkey,
            origin,
            stakes,
        ),
{
    lemma_unpruned_stake_is_total(push.ingress(origin), stakes);
}

/// The order in which peers were taken.
proof fn lemma_order_of_pruning(
    before: CrdsGossipPush,
    after: CrdsGossipPush,
    self_pubkey: Pubkey,
    origin: Pubkey,
    stakes: Map<Pubkey, u64>,
    pruned: Seq<Pubkey>,
) -> (order: Seq<usize>)
    requires
        before.wf(),
        pruned_by_weight(before, after, self_pubkey, origin, stakes, pruned),
        has_enough_stake(before, self_pubkey, origin, stakes),
    ensures
        is_weighted_order(
            inverse_of(weights_of(candidates_of(before.ingress(origin), stakes))),
            order,
        ),
        is_permutation(order, candidates_of(before.ingress(origin), stakes).len()),
        pruned_in_order(before, after, self_pubkey, origin, stakes, order, pruned),
        unique_keys(before.ingress(origin)),
        before.received()[origin] == as_map(before.ingress(origin)),
        after.received()[origin] == as_map(after.ingress(origin)),
{
    lemma_prunes(before, self_pubkey, origin, stakes);
    lemma_sorted_keys_are_unique(before.ingress(origin));
    let order = choose|order: Seq<usize>|
        {
            &&& is_weighted_order(
                inverse_of(weights_of(candidates_of(before.ingress(origin), stakes))),
                order,
            )
            &&& #[trigger] pruned_in_order(
                before,
                after,
                self_pubkey,
                origin,
                stakes,
                order,
                pruned,
            )
        };
    order
}

/// Where no values of an origin came, or from peers of too little stake together, nothing
/// is pruned and nothing changes. Else peers of that origin are told to stop, none twice
/// and never the origin. Those that are told are pruned, and no flag changes but theirs, nor
/// anything else. All are told that have no stake or were pruned before.
pub proof fn law_prune_tells_peers_to_stop(
    before: CrdsGossipPush,
    after: CrdsGossipPush,
    self_pubkey: Pubkey,
    origin: Pubkey,
    stakes: Map<Pubkey, u64>,
    pruned: Seq<Pubkey>,
    other: Pubkey,
    peer: Pubkey,
)
    requires
        before.wf(),
        pruned_by_weight(before, after, self_pubkey, origin, stakes, pruned),
    ensures
        pruned.no_duplicates(),
        !has_enough_stake(before, self_pubkey, origin, stakes) ==> pruned.len() == 0,
        after.received().contains_key(other) == before.received().contains_key(other),
        before.received().contains_key(other) && other != origin ==> after.received()[other]
            == before.received()[other],
        before.received().contains_key(origin) ==> {
            let was = before.received()[origin];
            let is = after.received()[origin];
            &&& is.contains_key(peer) == was.contains_key(peer)
            &&& was.contains_key(peer) ==> {
                &&& is[peer].timestamp == was[peer].timestamp
                &&& is[peer].pruned == (was[peer].pruned || pruned.contains(peer))
            }
        },
        pruned.contains(peer) ==> {
            &&& before.received().contains_key(origin)
            &&& before.received()[origin].contains_key(peer)
            &&& peer != origin
        },
        has_enough_stake(before, self_pubkey, origin, stakes)
            && before.received()[origin].contains_key(peer) && peer != origin && (
        before.received()[origin][peer].pruned || !stakes.contains_key(peer) || stakes[peer] == 0)
            ==> pruned.contains(peer),
{
    lemma_prunes(before, self_pubkey, origin, stakes);
    if has_enough_stake(before, self_pubkey, origin, stakes) {
        let order = lemma_order_of_pruning(
            before,
            after,
            self_pubkey,
            origin,
            stakes,
            pruned,
        );
        let peers = before.ingress(origin);
        let kept = before.kept_of(self_pubkey, origin, stakes, order);
        lemma_not_kept(peers, kept, origin, peer);
        lemma_with_pruned(peers, kept, origin, peer);
        lemma_kept_peers(before, self_pubkey, origin, stakes, order);
        if is_kept(kept, origin, peer) && peer != origin {
            let i = choose|i: int| 0 <= i < kept.len() && (#[trigger] kept[i]).0 == peer;
            assert(is_candidate(peers, stakes, kept[i]));
            let j = choose|j: int|
                0 <= j < peers.len() && (#[trigger] peers[j]).0 == peer && !peers[j].1.pruned;
            lemma_index_of_key(peers, j);
        }
        lemma_no_duplicates(peers, kept, origin);
    }
}

/// No peer is told twice.
proof fn lemma_no_duplicates(
    peers: Seq<(Pubkey, Ingress)>,
    kept: Seq<(Pubkey, u64)>,
    origin: Pubkey,
)
    requires
        unique_keys(peers),
    ensures
        not_kept(peers, kept, origin).no_duplicates(),
    decreases peers.len(),
{
    reveal(Seq::filter);
    let keys = keys_of(peers);
    if peers.len() > 0 {
        let rest = peers.drop_last();
        let fewer = not_kept(rest, kept, origin);
        let all = not_kept(peers, kept, origin);
        assert(unique_keys(rest)) by {
            assert forall|i: int, j: int|
                #![trigger rest[i], rest[j]]
                0 <= i < j < rest.len() implies rest[i].0 != rest[j].0 by {
                assert(peers[i].0 != peers[j].0);
            }
        }
        lemma_no_duplicates(rest, kept, origin);
        assert(keys.drop_last() =~= keys_of(rest));
        lemma_not_kept(rest, kept, origin, peers.last().0);
        if has_key(rest, peers.last().0) {
            let i = index_of_key(rest, peers.last().0);
            assert(peers[i].0 != peers[peers.len() - 1].0);
        }
        if all.len() > fewer.len() {
            assert(all =~= fewer.push(peers.last().0));
            assert forall|i: int, j: int|
                0 <= i < all.len() && 0 <= j < all.len() && i != j implies all[i] != all[j] by {
                if i < fewer.len() && j < fewer.len() {
                    assert(fewer[i] != fewer[j]);
                } else if i < fewer.len() {
                    assert(fewer.contains(fewer[i]));
                } else {
                    assert(fewer.contains(fewer[j]));
                }
            }
        }
    }
}

/// The kept peers are staked ones that are not pruned, each once and none the origin.
proof fn lemma_kept_peers(
    before: CrdsGossipPush,
    self_pubkey: Pubkey,
    origin: Pubkey,
    stakes: Map<Pubkey, u64>,
    order: Seq<usize>,
)
    requires
        unique_keys(before.ingress(origin)),
        is_permutation(order, candidates_of(before.ingress(origin), stakes).len()),
    ensures
        ({
            let peers = before.ingress(origin);
            let all = ranked(candidates_of(peers, stakes), order, origin);
            let kept = before.kept_of(self_pubkey, origin, stakes, order);
            &&& unique_keys(all)
            &&& unique_keys(kept)
            &&& kept.len() <= all.len()
            &&& forall|i: int| 0 <= i < kept.len() ==> #[trigger] kept[i] == all[i]
            &&& forall|i: int|
                0 <= i < all.len() ==> is_candidate(peers, stakes, #[trigger] all[i]) && all[i].0
                    != origin
            &&& forall|i: int|
                0 <= i < kept.len() ==> is_candidate(peers, stakes, #[trigger] kept[i])
                    && kept[i].0 != origin
        }),
{
    let peers = before.ingress(origin);
    let threshold = threshold_of(stake_of(stakes, self_pubkey), stake_of(stakes, origin));
    let all = ranked(candidates_of(peers, stakes), order, origin);
    let kept = before.kept_of(self_pubkey, origin, stakes, order);
    lemma_ranked(peers, stakes, order, origin);
    law_just_enough_peers_are_kept(all, threshold);
    assert forall|i: int, j: int|
        #![trigger kept[i], kept[j]]
        0 <= i < j < kept.len() implies kept[i].0 != kept[j].0 by {
        assert(all[i].0 != all[j].0);
    }
    assert forall|i: int| 0 <= i < kept.len() implies #[trigger] kept[i] == all[i] by {}
    assert forall|i: int| 0 <= i < kept.len() implies is_candidate(
        peers,
        stakes,
        #[trigger] kept[i],
    ) && kept[i].0 != origin by {
        assert(kept[i] == all[i]);
    }
}

/// The keys of entries as a set, which is as large as they are many.
proof fn lemma_set_of_keys<V>(entries: Seq<(Pubkey, V)>)
    requires
        unique_keys(entries),
    ensures
        keys_of(entries).to_set().finite(),
        keys_of(entries).to_set().len() == entries.len(),
        forall|key: Pubkey| #[trigger]
            keys_of(entries).to_set().contains(key) <==> has_key(entries, key),
{
    let keys = keys_of(entries);
    assert(keys.no_duplicates()) by {
        assert forall|i: int, j: int| 0 <= i < keys.len() && 0 <= j < keys.len() && i
            != j implies keys[i] != keys[j] by {
            if i < j {
                assert(entries[i].0 != entries[j].0);
            } else {
                assert(entries[j].0 != entries[i].0);
            }
        }
    }
    keys.unique_seq_to_set();
    assert forall|key: Pubkey| #[trigger] keys.to_set().contains(key) <==> has_key(
        entries,
        key,
    ) by {
        if keys.contains(key) {
            let i = choose|i: int| 0 <= i < keys.len() && keys[i] == key;
            assert(entries[i].0 == key);
        }
        if has_key(entries, key) {
            let i = index_of_key(entries, key);
            assert(keys[i] == key);
        }
    }
}

/// The peers that are left, and those that could have been left, by the kept and by the
/// ranked ones.
proof fn lemma_left_peers(
    before: CrdsGossipPush,
    after: CrdsGossipPush,
    self_pubkey: Pubkey,
    origin: Pubkey,
    stakes: Map<Pubkey, u64>,
    pruned: Seq<Pubkey>,
    order: Seq<usize>,
)
    requires
        unique_keys(before.ingress(origin)),
        before.received().contains_key(origin),
        before.received()[origin] == as_map(before.ingress(origin)),
        after.received()[origin] == as_map(after.ingress(origin)),
        is_permutation(order, candidates_of(before.ingress(origin), stakes).len()),
        pruned_in_order(before, after, self_pubkey, origin, stakes, order, pruned),
    ensures
        ({
            let all = ranked(candidates_of(before.ingress(origin), stakes), order, origin);
            let kept = before.kept_of(self_pubkey, origin, stakes, order);
            &&& unpruned_but_origin(after.received()[origin], origin) == keys_of(kept).to_set()
            &&& staked_but_origin(before.received()[origin], origin, stakes) == keys_of(
                all,
            ).to_set()
        }),
{
    let peers = before.ingress(origin);
    let all = ranked(candidates_of(peers, stakes), order, origin);
    let kept = before.kept_of(self_pubkey, origin, stakes, order);
    let left = unpruned_but_origin(after.received()[origin], origin);
    let staked = staked_but_origin(before.received()[origin], origin, stakes);
    lemma_kept_peers(before, self_pubkey, origin, stakes, order);
    lemma_ranked(peers, stakes, order, origin);
    lemma_set_of_keys(kept);
    lemma_set_of_keys(all);
    assert forall|peer: Pubkey| left.contains(peer) <==> keys_of(kept).to_set().contains(peer) by {
        lemma_with_pruned(peers, kept, origin, peer);
        if left.contains(peer) {
            assert(is_kept(kept, origin, peer));
            let i = choose|i: int| 0 <= i < kept.len() && (#[trigger] kept[i]).0 == peer;
            assert(has_key(kept, peer));
        }
        if has_key(kept, peer) {
            let i = index_of_key(kept, peer);
            assert(is_candidate(peers, stakes, kept[i]));
            let j = choose|j: int|
                0 <= j < peers.len() && (#[trigger] peers[j]).0 == peer && !peers[j].1.pruned;
            lemma_index_of_key(peers, j);
            assert(is_kept(kept, origin, peer));
        }
    }
    assert(left =~= keys_of(kept).to_set());
    assert forall|peer: Pubkey| staked.contains(peer) <==> keys_of(all).to_set().contains(peer) by {
        if staked.contains(peer) {
            let j = index_of_key(peers, peer);
            assert(peers[j].0 == peer && !peers[j].1.pruned);
            let candidate = (peer, stakes[peer]);
            assert(is_candidate(peers, stakes, candidate));
            assert(all.contains(candidate));
            let i = choose|i: int| 0 <= i < all.len() && all[i] == candidate;
            assert(all[i].0 == peer);
            assert(has_key(all, peer));
        }
        if has_key(all, peer) {
            let i = index_of_key(all, peer);
            assert(is_candidate(peers, stakes, all[i]));
            let j = choose|j: int|
                0 <= j < peers.len() && (#[trigger] peers[j]).0 == peer && !peers[j].1.pruned;
            lemma_index_of_key(peers, j);
        }
    }
    assert(staked =~= keys_of(all).to_set());
}

/// After a prune two peers besides the origin are left, which makes three ingress nodes
/// with it, or all that have a stake where those are fewer.
pub proof fn law_prune_leaves_enough_nodes(
    before: CrdsGossipPush,
    after: CrdsGossipPush,
    self_pubkey: Pubkey,
    origin: Pubkey,
    stakes: Map<Pubkey, u64>,
    pruned: Seq<Pubkey>,
)
    requires
        before.wf(),
        pruned_by_weight(before, after, self_pubkey, origin, stakes, pruned),
        has_enough_stake(before, self_pubkey, origin, stakes),
    ensures
        ({
            let left = unpruned_but_origin(after.received()[origin], origin);
            let staked = staked_but_origin(before.received()[origin], origin, stakes);
            &&& left.finite() && staked.finite()
            &&& left.subset_of(staked)
            &&& left.len() >= 2 || left == staked
            &&& left.len() >= if staked.len() < 2 { staked.len() } else { 2 }
        }),
{
    let order = lemma_order_of_pruning(before, after, self_pubkey, origin, stakes, pruned);
    let threshold = threshold_of(stake_of(stakes, self_pubkey), stake_of(stakes, origin));
    let all = ranked(candidates_of(before.ingress(origin), stakes), order, origin);
    let kept = before.kept_of(self_pubkey, origin, stakes, order);
    lemma_left_peers(before, after, self_pubkey, origin, stakes, pruned, order);
    lemma_kept_peers(before, self_pubkey, origin, stakes, order);
    law_just_enough_peers_are_kept(all, threshold);
    lemma_set_of_keys(kept);
    lemma_set_of_keys(all);
    assert forall|peer: Pubkey| keys_of(kept).to_set().contains(peer) implies keys_of(
        all,
    ).to_set().contains(peer) by {
        let i = index_of_key(kept, peer);
        assert(kept[i] == all[i]);
        assert(has_key(all, peer));
    }
}

/// What is left after the kept peers were taken out of those that are not pruned: nothing
/// but the origin.
proof fn lemma_total_of_kept(
    peers: Seq<(Pubkey, Ingress)>,
    stakes: Map<Pubkey, u64>,
    kept: Seq<(Pubkey, u64)>,
    origin: Pubkey,
)
    requires
        unique_keys(peers),
        unique_keys(kept),
        forall|i: int|
            0 <= i < kept.len() ==> is_candidate(peers, stakes, #[trigger] kept[i]) && kept[i].0
                != origin,
    ensures
        total_stake(with_pruned(peers, kept, origin), stakes, Some(origin)) == sum_of(
            weights_of(kept),
            kept.len(),
        ),
    decreases kept.len(),
{
    if kept.len() == 0 {
        lemma_total_of_none(with_pruned(peers, kept, origin), stakes, origin);
    } else {
        let rest = kept.drop_last();
        let (peer, stake) = kept.last();
        assert forall|i: int| 0 <= i < rest.len() implies is_candidate(
            peers,
            stakes,
            #[trigger] rest[i],
        ) && rest[i].0 != origin by {
            assert(kept[i] == rest[i]);
        }
        lemma_total_of_kept(peers, stakes, rest, origin);
        lemma_sum_of_prefix(weights_of(rest), weights_of(kept), rest.len());
        assert(weights_of(kept)[kept.len() - 1] == stake);
        assert(kept[kept.len() - 1] == (peer, stake));
        assert(is_candidate(peers, stakes, (peer, stake)));
        let index = choose|i: int|
            0 <= i < peers.len() && (#[trigger] peers[i]).0 == peer && !peers[i].1.pruned;
        let before = with_pruned(peers, rest, origin);
        let after = with_pruned(peers, kept, origin);
        assert(!is_kept(rest, origin, peer)) by {
            if is_kept(rest, origin, peer) {
                let i = choose|i: int| 0 <= i < rest.len() && (#[trigger] rest[i]).0 == peer;
                assert(kept[i].0 != kept[kept.len() - 1].0);
            }
        }
        assert(is_kept(kept, origin, peer));
        assert forall|i: int| 0 <= i < peers.len() && i != index implies #[trigger] before[i]
            == after[i] by {
            let key = peers[i].0;
            assert(key != peer) by {
                if i < index {
                    assert(peers[i].0 != peers[index].0);
                } else {
                    assert(peers[index].0 != peers[i].0);
                }
            }
            if is_kept(rest, origin, key) && key != origin {
                let j = choose|j: int| 0 <= j < rest.len() && (#[trigger] rest[j]).0 == key;
                assert(kept[j].0 == key);
            }
            if is_kept(kept, origin, key) && key != origin {
                let j = choose|j: int| 0 <= j < kept.len() && (#[trigger] kept[j]).0 == key;
                assert(rest[j].0 == key);
            }
        }
        lemma_total_with_one_more(before, after, stakes, origin, index);
    }
}

/// Where all but the origin are pruned, nothing is left to add up.
proof fn lemma_total_of_none(
    peers: Seq<(Pubkey, Ingress)>,
    stakes: Map<Pubkey, u64>,
    origin: Pubkey,
)
    requires
        forall|i: int|
            0 <= i < peers.len() ==> (#[trigger] peers[i]).1.pruned || peers[i].0 == origin,
    ensures
        total_stake(peers, stakes, Some(origin)) == 0,
    decreases peers.len(),
{
    if peers.len() > 0 {
        let rest = peers.drop_last();
        assert forall|i: int| 0 <= i < rest.len() implies (#[trigger] rest[i]).1.pruned
            || rest[i].0 == origin by {
            assert(peers[i] == rest[i]);
        }
        lemma_total_of_none(rest, stakes, origin);
        assert(peers[peers.len() - 1] == peers.last());
    }
}

/// The stake of peers where one that was pruned no longer is.
proof fn lemma_total_with_one_more(
    before: Seq<(Pubkey, Ingress)>,
    after: Seq<(Pubkey, Ingress)>,
    stakes: Map<Pubkey, u64>,
    origin: Pubkey,
    index: int,
)
    requires
        before.len() == after.len(),
        0 <= index < before.len(),
        before[index].1.pruned,
        !after[index].1.pruned,
        before[index].0 == after[index].0,
        after[index].0 != origin,
        forall|i: int| 0 <= i < before.len() && i != index ==> #[trigger] before[i] == after[i],
    ensures
        total_stake(after, stakes, Some(origin)) == total_stake(before, stakes, Some(origin))
            + stake_of(stakes, after[index].0),
    decreases before.len(),
{
    if index == before.len() - 1 {
        assert(before.drop_last() =~= after.drop_last());
    } else {
        lemma_total_with_one_more(before.drop_last(), after.drop_last(), stakes, origin, index);
        assert(before[before.len() - 1] == after[after.len() - 1]);
    }
}

/// After a prune the peers that are left, without the origin, have the stake that they
/// have to have, or nobody with a stake was pruned. With the origin they have it in either
/// case.
pub proof fn law_prune_leaves_enough_stake(
    before: CrdsGossipPush,
    after: CrdsGossipPush,
    self_pubkey: Pubkey,
    origin: Pubkey,
    stakes: Map<Pubkey, u64>,
    pruned: Seq<Pubkey>,
)
    requires
        before.wf(),
        pruned_by_weight(before, after, self_pubkey, origin, stakes, pruned),
        has_enough_stake(before, self_pubkey, origin, stakes),
    ensures
        has_enough_stake(after, self_pubkey, origin, stakes),
        total_stake(after.ingress(origin), stakes, Some(origin)) >= stake_needed(
            self_pubkey,
            origin,
            stakes,
        ) || unpruned_but_origin(after.received()[origin], origin) == staked_but_origin(
            before.received()[origin],
            origin,
            stakes,
        ),
{
    let order = lemma_order_of_pruning(before, after, self_pubkey, origin, stakes, pruned);
    let peers = before.ingress(origin);
    let threshold = threshold_of(stake_of(stakes, self_pubkey), stake_of(stakes, origin));
    let all = ranked(candidates_of(peers, stakes), order, origin);
    let kept = before.kept_of(self_pubkey, origin, stakes, order);
    lemma_left_peers(before, after, self_pubkey, origin, stakes, pruned, order);
    lemma_kept_peers(before, self_pubkey, origin, stakes, order);
    law_just_enough_peers_are_kept(all, threshold);
    lemma_total_of_kept(peers, stakes, kept, origin);
    lemma_sum_of_prefix(weights_of(kept), weights_of(all), kept.len());
    lemma_prunes(before, self_pubkey, origin, stakes);
    lemma_unpruned_stake_is_total(after.ingress(origin), stakes);
    law_pruning_leaves_enough_stake(
        peers,
        stakes,
        self_pubkey,
        origin,
        order,
    );
}

/// A prune leaves no more peers than needed: where a peer with a stake was pruned, there is
/// one among those that are left without which they would be too few or have too little
/// stake.
pub proof fn law_prune_leaves_no_more_than_needed(
    before: CrdsGossipPush,
    after: CrdsGossipPush,
    self_pubkey: Pubkey,
    origin: Pubkey,
    stakes: Map<Pubkey, u64>,
    pruned: Seq<Pubkey>,
    peer: Pubkey,
)
    requires
        before.wf(),
        pruned_by_weight(before, after, self_pubkey, origin, stakes, pruned),
        has_enough_stake(before, self_pubkey, origin, stakes),
        staked_but_origin(before.received()[origin], origin, stakes).contains(peer),
        pruned.contains(peer),
    ensures
        ({
            let left = unpruned_but_origin(after.received()[origin], origin);
            exists|last: Pubkey|
                {
                    &&& #[trigger] left.contains(last)
                    &&& left.len() <= 2 || total_stake(
                        after.ingress(origin),
                        stakes,
                        Some(origin),
                    ) - stakes[last] < stake_needed(self_pubkey, origin, stakes)
                }
        }),
{
    let order = lemma_order_of_pruning(before, after, self_pubkey, origin, stakes, pruned);
    let peers = before.ingress(origin);
    let threshold = threshold_of(stake_of(stakes, self_pubkey), stake_of(stakes, origin));
    let all = ranked(candidates_of(peers, stakes), order, origin);
    let kept = before.kept_of(self_pubkey, origin, stakes, order);
    let left = unpruned_but_origin(after.received()[origin], origin);
    lemma_left_peers(before, after, self_pubkey, origin, stakes, pruned, order);
    lemma_kept_peers(before, self_pubkey, origin, stakes, order);
    law_just_enough_peers_are_kept(all, threshold);
    lemma_total_of_kept(peers, stakes, kept, origin);
    lemma_set_of_keys(kept);
    lemma_set_of_keys(all);
    law_prune_tells_peers_to_stop(
        before,
        after,
        self_pubkey,
        origin,
        stakes,
        pruned,
        origin,
        peer,
    );
    assert(!left.contains(peer));
    assert(has_key(all, peer));
    let at = index_of_key(all, peer);
    assert(kept.len() < all.len()) by {
        if kept.len() == all.len() {
            assert(kept[at] == all[at]);
            assert(has_key(kept, peer));
        }
    }
    assert(kept.len() >= 2);
    let count = (kept.len() - 1) as nat;
    let last = kept[count as int].0;
    assert(has_key(kept, last));
    assert(left.contains(last));
    assert(!enough(all, threshold, count));
    lemma_sum_of_prefix(weights_of(kept), weights_of(all), count);
    assert(weights_of(kept)[count as int] == kept[count as int].1);
    assert(is_candidate(peers, stakes, kept[count as int]));
}

/// The staked peers at the first places of an order, without the origin.
pub open spec fn taken_first(
    staked: Seq<(Pubkey, u64)>,
    order: Seq<usize>,
    count: int,
    origin: Pubkey,
) -> Seq<(Pubkey, u64)> {
    order.take(count).map_values(|index: usize| staked[index as int]).filter(
        |peer: (Pubkey, u64)| peer.0 != origin,
    )
}

/// The staked peers that are not pruned are taken in an order that a seed gives them by
/// their stakes. One of them that is not the origin is left exactly where those taken before
/// it, without the origin, are too few or have too little stake.
pub proof fn law_prune_keeps_peers_until_they_are_enough(
    before: CrdsGossipPush,
    after: CrdsGossipPush,
    self_pubkey: Pubkey,
    origin: Pubkey,
    stakes: Map<Pubkey, u64>,
    pruned: Seq<Pubkey>,
) -> (order: Seq<usize>)
    requires
        before.wf(),
        pruned_by_weight(before, after, self_pubkey, origin, stakes, pruned),
        has_enough_stake(before, self_pubkey, origin, stakes),
    ensures
        ({
            let staked = candidates_of(before.ingress(origin), stakes);
            &&& is_weighted_order(
                inverse_of(Seq::new(staked.len(), |i: int| staked[i].1)),
                order,
            )
            &&& is_permutation(order, staked.len())
            &&& forall|place: int|
                #![trigger order[place]]
                0 <= place < order.len() && staked[order[place] as int].0 != origin ==> {
                    let earlier = taken_first(staked, order, place, origin);
                    pruned.contains(staked[order[place] as int].0) <==> earlier.len() >= 2
                        && earlier.fold_left(
                        0int,
                        |sum: int, peer: (Pubkey, u64)| sum + peer.1,
                    ) >= stake_needed(self_pubkey, origin, stakes)
                }
        }),
{
    let order = lemma_order_of_pruning(before, after, self_pubkey, origin, stakes, pruned);
    let peers = before.ingress(origin);
    let staked = candidates_of(peers, stakes);
    let threshold = threshold_of(stake_of(stakes, self_pubkey), stake_of(stakes, origin));
    let all = ranked(staked, order, origin);
    let kept = before.kept_of(self_pubkey, origin, stakes, order);
    assert(Seq::new(staked.len(), |i: int| staked[i].1) =~= weights_of(staked));
    lemma_kept_peers(before, self_pubkey, origin, stakes, order);
    law_just_enough_peers_are_kept(all, threshold);
    assert forall|place: int|
        #![trigger order[place]]
        0 <= place < order.len() && staked[order[place] as int].0 != origin implies {
        let earlier = taken_first(staked, order, place, origin);
        pruned.contains(staked[order[place] as int].0) <==> earlier.len() >= 2
            && earlier.fold_left(0int, |sum: int, peer: (Pubkey, u64)| sum + peer.1)
            >= stake_needed(self_pubkey, origin, stakes)
    } by {
        let earlier = taken_first(staked, order, place, origin);
        let (key, stake) = staked[order[place] as int];
        let count = earlier.len();
        lemma_taken_is_ranked(staked, order.take(place), place, origin);
        assert(order.take(place).take(place) =~= order.take(place));
        lemma_ranked_prefix_of(staked, order, place, origin);
        assert(all[count as int] == (key, stake));
        lemma_fold_of_stakes(earlier);
        lemma_sum_of_prefix(weights_of(earlier), weights_of(all), count);
        lemma_not_kept(peers, kept, origin, key);
        assert(is_candidate(peers, stakes, all[count as int]));
        assert(has_key(peers, key));
        assert(is_kept(kept, origin, key) <==> count < kept.len()) by {
            if count < kept.len() {
                assert(kept[count as int] == all[count as int]);
            }
            if is_kept(kept, origin, key) {
                let i = choose|i: int| 0 <= i < kept.len() && (#[trigger] kept[i]).0 == key;
                assert(all[i] == kept[i]);
                if i < count {
                    assert(all[i].0 != all[count as int].0);
                } else if count < i {
                    assert(all[count as int].0 != all[i].0);
                }
            }
        }
        if count >= kept.len() {
            assert(enough(all, threshold, kept.len()));
            lemma_sum_grows(weights_of(all), kept.len(), count);
        } else {
            assert(!enough(all, threshold, count));
        }
    }
    order
}

/// What is taken first is what is ranked of the first places.
proof fn lemma_taken_is_ranked(
    staked: Seq<(Pubkey, u64)>,
    order: Seq<usize>,
    count: int,
    origin: Pubkey,
)
    requires
        count == order.len(),
    ensures
        taken_first(staked, order, count, origin) == ranked(staked, order, origin),
    decreases order.len(),
{
    reveal(Seq::filter);
    reveal(Seq::filter_map);
    let of = |index: usize| staked[index as int];
    assert(order.take(count) =~= order);
    if order.len() > 0 {
        let rest = order.drop_last();
        lemma_taken_is_ranked(staked, rest, count - 1, origin);
        assert(rest.take(count - 1) =~= rest);
        assert(order.map_values(of).drop_last() =~= rest.map_values(of));
        assert(order.map_values(of).last() == of(order.last()));
    }
}

/// What is ranked of the first places is ranked first, and what stands at the next place,
/// where it is not the origin, comes next.
proof fn lemma_ranked_prefix_of(
    staked: Seq<(Pubkey, u64)>,
    order: Seq<usize>,
    place: int,
    origin: Pubkey,
)
    requires
        0 <= place < order.len(),
        staked[order[place] as int].0 != origin,
    ensures
        ({
            let some = ranked(staked, order.take(place), origin);
            let all = ranked(staked, order, origin);
            &&& some.len() < all.len()
            &&& forall|i: int| 0 <= i < some.len() ==> #[trigger] all[i] == some[i]
            &&& all[some.len() as int] == staked[order[place] as int]
        }),
    decreases order.len(),
{
    reveal(Seq::filter_map);
    let rest = order.drop_last();
    let fewer = ranked(staked, rest, origin);
    let all = ranked(staked, order, origin);
    if place == order.len() - 1 {
        assert(order.take(place) =~= rest);
        assert(all =~= fewer.push(staked[order[place] as int]));
    } else {
        lemma_ranked_prefix_of(staked, rest, place, origin);
        assert(rest.take(place) =~= order.take(place));
    }
}

/// The stakes of peers are what adding them up gives.
proof fn lemma_fold_of_stakes(peers: Seq<(Pubkey, u64)>)
    ensures
        sum_of(weights_of(peers), peers.len()) == peers.fold_left(
            0int,
            |sum: int, peer: (Pubkey, u64)| sum + peer.1,
        ),
    decreases peers.len(),
{
    if peers.len() > 0 {
        let rest = peers.drop_last();
        lemma_fold_of_stakes(rest);
        lemma_sum_of_prefix(weights_of(rest), weights_of(peers), rest.len());
    }
}

/// The peers of greater stake tend to be kept: one is kept before another one where it has
/// more stake than chance can make up for. The shares are of the stake of all peers that
/// could be kept, and of the origin where it is one of its own peers.
pub proof fn law_prune_prefers_much_stake(
    before: CrdsGossipPush,
    after: CrdsGossipPush,
    self_pubkey: Pubkey,
    origin: Pubkey,
    stakes: Map<Pubkey, u64>,
    pruned: Seq<Pubkey>,
    heavy: Pubkey,
    light: Pubkey,
)
    requires
        before.wf(),
        pruned_by_weight(before, after, self_pubkey, origin, stakes, pruned),
        has_enough_stake(before, self_pubkey, origin, stakes),
        total_stake(before.ingress(origin), stakes, None) <= u64::MAX,
        staked_but_origin(before.received()[origin], origin, stakes).contains(heavy),
        staked_but_origin(before.received()[origin], origin, stakes).contains(light),
        ({
            let total = total_stake(before.ingress(origin), stakes, None);
            (total / stakes[heavy] as int) * 65_534 < total / stakes[light] as int
        }),
        pruned.contains(heavy),
    ensures
        pruned.contains(light),
{
    let order = lemma_order_of_pruning(before, after, self_pubkey, origin, stakes, pruned);
    let peers = before.ingress(origin);
    let candidates = candidates_of(peers, stakes);
    let weights = weights_of(candidates);
    let all = ranked(candidates, order, origin);
    let kept = before.kept_of(self_pubkey, origin, stakes, order);
    let total = total_stake(peers, stakes, None);
    lemma_left_peers(before, after, self_pubkey, origin, stakes, pruned, order);
    lemma_kept_peers(before, self_pubkey, origin, stakes, order);
    lemma_set_of_keys(kept);
    lemma_set_of_keys(all);
    lemma_candidates_sum(peers, stakes);
    lemma_sum_is_fold(weights);
    lemma_unpruned_stake_is_total(peers, stakes);
    law_prune_tells_peers_to_stop(
        before,
        after,
        self_pubkey,
        origin,
        stakes,
        pruned,
        origin,
        heavy,
    );
    law_prune_tells_peers_to_stop(
        before,
        after,
        self_pubkey,
        origin,
        stakes,
        pruned,
        origin,
        light,
    );
    let left = unpruned_but_origin(after.received()[origin], origin);
    if !pruned.contains(light) {
        assert(left.contains(light));
        assert(!left.contains(heavy));
        let i = index_of_key(all, heavy);
        let j = index_of_key(kept, light);
        assert(has_key(kept, light));
        assert(has_key(all, heavy));
        assert(kept[j] == all[j]);
        assert(j < kept.len() <= i) by {
            if i < kept.len() {
                assert(kept[i] == all[i]);
                assert(has_key(kept, heavy));
            }
        }
        let (a, b) = lemma_ranked_places(candidates, order, origin, j, i);
        let (x, y) = (order[a] as int, order[b] as int);
        assert(is_candidate(peers, stakes, all[i]));
        assert(is_candidate(peers, stakes, all[j]));
        assert(weights[x] == stakes[light]);
        assert(weights[y] == stakes[heavy]);
        law_inverse_weights_are_quotients(weights, x);
        law_inverse_weights_are_quotients(weights, y);
        lemma_quotient(total, stakes[light] as int, inverse_of(weights)[x] as int);
        lemma_quotient(total, stakes[heavy] as int, inverse_of(weights)[y] as int);
        law_much_heavier_items_come_first(inverse_of(weights), order, b, a);
    }
}

/// What goes into a number so many times, and no more, is its quotient.
proof fn lemma_quotient(total: int, part: int, quotient: int)
    requires
        part > 0,
        quotient * part <= total < (quotient + 1) * part,
    ensures
        total / part == quotient,
{
    assert((quotient + 1) * part == quotient * part + part) by (nonlinear_arith);
    vstd::arithmetic::div_mod::lemma_fundamental_div_mod_converse_div(
        total,
        part,
        quotient,
        total - quotient * part,
    );
}

} // verus!
