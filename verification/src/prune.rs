//! Which of the peers that push the values of an origin may go on doing so.

use crate::double::{lemma_nearest_double_bound, nearest_double, to_double};
use crate::keyed::keys_of;
use crate::pubkey::Pubkey;
use crate::pubkey_map::PubkeyMap;
use crate::received_cache::Ingress;
use crate::weighted_shuffle::{is_permutation, sum_of};
use vstd::prelude::*;

verus! {

/// An origin keeps at least this many ingress nodes, itself among them.
pub const CRDS_GOSSIP_PRUNE_MIN_INGRESS_NODES: usize = 3;

/// The share of the path stake that ingress nodes have to have, 0.15, as a double: this
/// many units of [`PCT_UNIT`].
pub const CRDS_GOSSIP_PRUNE_STAKE_THRESHOLD_PCT: u128 = 5_404_319_552_844_595;

/// The unit of the share is one part in this many.
pub const PCT_UNIT: u128 = 0x80_0000_0000_0000;

/// The stake that the ingress nodes of an origin have to have: the share, computed in
/// doubles and rounded, of the lower of the two stakes, and at least one.
pub open spec fn threshold_of(self_stake: u64, origin_stake: u64) -> u64 {
    let stake: u64 = if self_stake < origin_stake { self_stake } else { origin_stake };
    let share = nearest_double(
        nearest_double(stake as nat) * CRDS_GOSSIP_PRUNE_STAKE_THRESHOLD_PCT as nat,
    );
    let rounded = (share + PCT_UNIT / 2) / PCT_UNIT as int;
    if rounded < 1 { 1 } else { rounded as u64 }
}

/// The stake of a node; one that is not known of has none.
pub open spec fn stake_of(stakes: Map<Pubkey, u64>, key: Pubkey) -> u64 {
    if stakes.contains_key(key) {
        stakes[key]
    } else {
        0
    }
}

/// The stake of the peers that are not pruned.
pub open spec fn unpruned_stake(
    peers: Seq<(Pubkey, Ingress)>,
    stakes: Map<Pubkey, u64>,
) -> nat
    decreases peers.len(),
{
    if peers.len() == 0 {
        0
    } else {
        let (peer, ingress) = peers.last();
        unpruned_stake(peers.drop_last(), stakes) + if ingress.pruned {
            0
        } else {
            stake_of(stakes, peer) as nat
        }
    }
}

/// The peers with a stake that are not pruned, and their stakes.
pub open spec fn candidates_of(
    peers: Seq<(Pubkey, Ingress)>,
    stakes: Map<Pubkey, u64>,
) -> Seq<(Pubkey, u64)> {
    peers.filter_map(
        |entry: (Pubkey, Ingress)|
            if !entry.1.pruned && stake_of(stakes, entry.0) > 0 {
                Some((entry.0, stake_of(stakes, entry.0)))
            } else {
                None
            },
    )
}

/// The stakes of candidates.
pub open spec fn weights_of(candidates: Seq<(Pubkey, u64)>) -> Seq<u64> {
    Seq::new(candidates.len(), |i: int| candidates[i].1)
}

/// The candidates in the given order, without the origin.
pub open spec fn ranked(
    candidates: Seq<(Pubkey, u64)>,
    order: Seq<usize>,
    origin: Pubkey,
) -> Seq<(Pubkey, u64)> {
    order.filter_map(
        |index: usize|
            if candidates[index as int].0 != origin {
                Some(candidates[index as int])
            } else {
                None
            },
    )
}

/// The first `count` peers have the stake `threshold` together and are, with the
/// origin, enough ingress nodes.
pub open spec fn enough(ranked: Seq<(Pubkey, u64)>, threshold: u64, count: nat) -> bool {
    &&& sum_of(weights_of(ranked), count) >= threshold
    &&& count + 1 >= CRDS_GOSSIP_PRUNE_MIN_INGRESS_NODES
}

/// The number of peers from the front that are kept, at least `count`: the first
/// that is enough or, where none is, all.
pub open spec fn keep_count(ranked: Seq<(Pubkey, u64)>, threshold: u64, count: nat) -> nat
    decreases ranked.len() - count,
{
    if count >= ranked.len() || enough(ranked, threshold, count) {
        count
    } else {
        keep_count(ranked, threshold, count + 1)
    }
}

/// The peers that may go on pushing, the origin aside.
pub open spec fn kept_peers(ranked: Seq<(Pubkey, u64)>, threshold: u64) -> Seq<(Pubkey, u64)> {
    ranked.take(keep_count(ranked, threshold, 0) as int)
}

/// `key` may go on pushing: it is the origin or one of the kept peers.
pub open spec fn is_kept(kept: Seq<(Pubkey, u64)>, origin: Pubkey, key: Pubkey) -> bool {
    key == origin || exists|i: int| 0 <= i < kept.len() && (#[trigger] kept[i]).0 == key
}

/// The peers after those that are not kept were pruned.
pub open spec fn with_pruned(
    peers: Seq<(Pubkey, Ingress)>,
    kept: Seq<(Pubkey, u64)>,
    origin: Pubkey,
) -> Seq<(Pubkey, Ingress)> {
    Seq::new(
        peers.len(),
        |i: int|
            (
                peers[i].0,
                Ingress {
                    pruned: peers[i].1.pruned || !is_kept(kept, origin, peers[i].0),
                    timestamp: peers[i].1.timestamp,
                },
            ),
    )
}

/// The peers that are not kept, in the order of their keys.
pub open spec fn not_kept(
    peers: Seq<(Pubkey, Ingress)>,
    kept: Seq<(Pubkey, u64)>,
    origin: Pubkey,
) -> Seq<Pubkey> {
    keys_of(peers).filter(|key: Pubkey| !is_kept(kept, origin, key))
}

/// The stake of a node; one that is not known of has none.
pub fn get_stake(stakes: &PubkeyMap<u64>, key: &Pubkey) -> (stake: u64)
    requires
        stakes.wf(),
    ensures
        stake == stake_of(stakes@, *key),
{
    match stakes.get(key) {
        Some(stake) => *stake,
        None => 0,
    }
}

/// The stake that the ingress nodes of an origin have to have: the share of the lower
/// of the two stakes, and at least one.
pub fn prune_stake_threshold(self_stake: u64, origin_stake: u64) -> (threshold: u64)
    ensures
        threshold == threshold_of(self_stake, origin_stake),
        threshold >= 1,
{
    let stake: u64 = if self_stake < origin_stake { self_stake } else { origin_stake };
    proof {
        lemma_nearest_double_bound(stake as nat);
    }
    let held: u128 = to_double(stake as u128);
    proof {
        let exact = nearest_double(stake as nat) * CRDS_GOSSIP_PRUNE_STAKE_THRESHOLD_PCT as nat;
        assert(exact == held * CRDS_GOSSIP_PRUNE_STAKE_THRESHOLD_PCT);
        lemma_nearest_double_bound(exact);
    }
    let share: u128 = to_double(held * CRDS_GOSSIP_PRUNE_STAKE_THRESHOLD_PCT);
    let rounded: u128 = (share + PCT_UNIT / 2) / PCT_UNIT;
    if rounded < 1 { 1 } else { rounded as u64 }
}

/// The stake grows with the peers.
proof fn lemma_unpruned_stake_grows(
    peers: Seq<(Pubkey, Ingress)>,
    stakes: Map<Pubkey, u64>,
    fewer: int,
    more: int,
)
    requires
        0 <= fewer <= more <= peers.len(),
    ensures
        unpruned_stake(peers.take(fewer), stakes) <= unpruned_stake(peers.take(more), stakes),
    decreases more,
{
    if fewer < more {
        lemma_unpruned_stake_grows(peers, stakes, fewer, more - 1);
        assert(peers.take(more).drop_last() =~= peers.take(more - 1));
    }
}

/// The stakes of the candidates add up to that of the peers that are not pruned.
pub proof fn lemma_candidates_sum(peers: Seq<(Pubkey, Ingress)>, stakes: Map<Pubkey, u64>)
    ensures
        sum_of(weights_of(candidates_of(peers, stakes)), candidates_of(peers, stakes).len())
            == unpruned_stake(peers, stakes),
    decreases peers.len(),
{
    reveal(Seq::filter_map);
    let all = candidates_of(peers, stakes);
    if peers.len() > 0 {
        let fewer = candidates_of(peers.drop_last(), stakes);
        lemma_candidates_sum(peers.drop_last(), stakes);
        lemma_sum_of_prefix(weights_of(fewer), weights_of(all), fewer.len());
        if all.len() > fewer.len() {
            assert(all.last() == (peers.last().0, stake_of(stakes, peers.last().0)));
            assert(all.len() == fewer.len() + 1);
            assert(weights_of(all)[all.len() - 1] == all.last().1);
        }
    }
}

/// `candidate` is a peer with a stake that is not pruned, and its stake.
pub open spec fn is_candidate(
    peers: Seq<(Pubkey, Ingress)>,
    stakes: Map<Pubkey, u64>,
    candidate: (Pubkey, u64),
) -> bool {
    &&& candidate.1 > 0
    &&& candidate.1 == stake_of(stakes, candidate.0)
    &&& exists|i: int|
        0 <= i < peers.len() && (#[trigger] peers[i]).0 == candidate.0 && !peers[i].1.pruned
}

/// The candidates are the peers with a stake that are not pruned.
pub proof fn lemma_candidates(peers: Seq<(Pubkey, Ingress)>, stakes: Map<Pubkey, u64>)
    ensures
        forall|i: int|
            0 <= i < candidates_of(peers, stakes).len() ==> is_candidate(
                peers,
                stakes,
                #[trigger] candidates_of(peers, stakes)[i],
            ),
        forall|candidate: (Pubkey, u64)|
            is_candidate(peers, stakes, candidate) ==> #[trigger] candidates_of(
                peers,
                stakes,
            ).contains(candidate),
    decreases peers.len(),
{
    reveal(Seq::filter_map);
    let all = candidates_of(peers, stakes);
    if peers.len() > 0 {
        let rest = peers.drop_last();
        let fewer = candidates_of(rest, stakes);
        let last = (peers.last().0, stake_of(stakes, peers.last().0));
        lemma_candidates(rest, stakes);
        assert(all == fewer || all == fewer + seq![last]);
        assert forall|i: int| 0 <= i < all.len() implies is_candidate(
            peers,
            stakes,
            #[trigger] all[i],
        ) by {
            if i < fewer.len() {
                assert(all[i] == fewer[i]);
                let j = choose|j: int|
                    0 <= j < rest.len() && (#[trigger] rest[j]).0 == fewer[i].0 && !rest[j].1.pruned;
                assert(peers[j] == rest[j]);
            } else {
                assert(all[i] == last);
                assert(peers[peers.len() - 1].0 == last.0);
            }
        }
        assert forall|candidate: (Pubkey, u64)|
            is_candidate(peers, stakes, candidate) implies #[trigger] all.contains(candidate) by {
            let j = choose|j: int|
                0 <= j < peers.len() && (#[trigger] peers[j]).0 == candidate.0
                    && !peers[j].1.pruned;
            if j < rest.len() {
                assert(rest[j] == peers[j]);
                assert(is_candidate(rest, stakes, candidate));
                assert(fewer.contains(candidate));
                let k = choose|k: int| 0 <= k < fewer.len() && fewer[k] == candidate;
                assert(all[k] == candidate);
            } else {
                assert(all[fewer.len() as int] == candidate);
            }
        }
    }
}

/// Sums of the same weights are the same.
pub proof fn lemma_sum_of_prefix(some: Seq<u64>, all: Seq<u64>, count: nat)
    requires
        forall|i: int| 0 <= i < count ==> some[i] == #[trigger] all[i],
    ensures
        sum_of(some, count) == sum_of(all, count),
    decreases count,
{
    if count > 0 {
        lemma_sum_of_prefix(some, all, (count - 1) as nat);
    }
}

/// The stake of the peers that are not pruned.
pub fn unpruned_peer_stake(peers: &PubkeyMap<Ingress>, stakes: &PubkeyMap<u64>) -> (stake: u64)
    requires
        peers.wf(),
        stakes.wf(),
        unpruned_stake(peers.spec_entries(), stakes@) <= u64::MAX,
    ensures
        stake == unpruned_stake(peers.spec_entries(), stakes@),
{
    let ghost entries = peers.spec_entries();
    let mut stake: u64 = 0;
    let mut i: usize = 0;
    while i < peers.len()
        invariant
            stakes.wf(),
            entries == peers.spec_entries(),
            unpruned_stake(entries, stakes@) <= u64::MAX,
            i <= entries.len(),
            stake == unpruned_stake(entries.take(i as int), stakes@),
        decreases entries.len() - i,
    {
        proof {
            lemma_unpruned_stake_grows(entries, stakes@, i + 1, entries.len() as int);
            assert(entries.take(entries.len() as int) =~= entries);
            assert(entries.take(i + 1).drop_last() =~= entries.take(i as int));
        }
        if !peers.value_at(i).pruned {
            stake += get_stake(stakes, &peers.key_at(i));
        }
        i += 1;
    }
    assert(entries.take(i as int) =~= entries);
    stake
}

/// The peers with a stake that are not pruned, and their stakes.
pub fn prune_candidates(peers: &PubkeyMap<Ingress>, stakes: &PubkeyMap<u64>) -> (candidates: Vec<
    (Pubkey, u64),
>)
    requires
        stakes.wf(),
    ensures
        candidates@ == candidates_of(peers.spec_entries(), stakes@),
{
    let ghost entries = peers.spec_entries();
    let mut candidates: Vec<(Pubkey, u64)> = Vec::new();
    let mut i: usize = 0;
    reveal(Seq::filter_map);
    while i < peers.len()
        invariant
            stakes.wf(),
            entries == peers.spec_entries(),
            i <= entries.len(),
            candidates@ == candidates_of(entries.take(i as int), stakes@),
        decreases entries.len() - i,
    {
        reveal(Seq::filter_map);
        assert(entries.take(i + 1).drop_last() =~= entries.take(i as int));
        let peer: Pubkey = peers.key_at(i);
        let stake: u64 = get_stake(stakes, &peer);
        if !peers.value_at(i).pruned && stake > 0 {
            candidates.push((peer, stake));
        }
        i += 1;
        assert(candidates@ =~= candidates_of(entries.take(i as int), stakes@));
    }
    assert(entries.take(i as int) =~= entries);
    candidates
}

/// The candidates in the given order, without the origin.
fn rank(candidates: &Vec<(Pubkey, u64)>, order: &Vec<usize>, origin: &Pubkey) -> (result: Vec<
    (Pubkey, u64),
>)
    requires
        is_permutation(order@, candidates@.len()),
    ensures
        result@ == ranked(candidates@, order@, *origin),
{
    let mut result: Vec<(Pubkey, u64)> = Vec::new();
    let mut i: usize = 0;
    reveal(Seq::filter_map);
    while i < order.len()
        invariant
            is_permutation(order@, candidates@.len()),
            i <= order@.len(),
            result@ == ranked(candidates@, order@.take(i as int), *origin),
        decreases order@.len() - i,
    {
        reveal(Seq::filter_map);
        assert(order@.take(i + 1).drop_last() =~= order@.take(i as int));
        let index: usize = order[i];
        let candidate: (Pubkey, u64) = candidates[index];
        if candidate.0 != *origin {
            result.push(candidate);
        }
        i += 1;
        assert(result@ =~= ranked(candidates@, order@.take(i as int), *origin));
    }
    assert(order@.take(i as int) =~= order@);
    result
}

/// The number of peers from the front that are kept.
fn count_kept(ranked: &Vec<(Pubkey, u64)>, threshold: u64) -> (count: usize)
    ensures
        count == keep_count(ranked@, threshold, 0),
        count <= ranked@.len(),
{
    let mut sum: u128 = 0;
    let mut count: usize = 0;
    while count < ranked.len() && !(sum >= threshold as u128 && count
        >= CRDS_GOSSIP_PRUNE_MIN_INGRESS_NODES - 1)
        invariant
            count <= ranked@.len(),
            sum == sum_of(weights_of(ranked@), count as nat),
            sum <= count * u64::MAX,
            keep_count(ranked@, threshold, 0) == keep_count(ranked@, threshold, count as nat),
        decreases ranked@.len() - count,
    {
        assert(count * u64::MAX + u64::MAX == (count + 1) * u64::MAX) by (nonlinear_arith);
        assert((count + 1) * u64::MAX <= u128::MAX) by (nonlinear_arith)
            requires
                count < u64::MAX,
        ;
        assert(weights_of(ranked@)[count as int] == ranked@[count as int].1);
        sum += ranked[count].1 as u128;
        count += 1;
    }
    count
}

/// Tells whether `key` may go on pushing.
fn keeps(ranked: &Vec<(Pubkey, u64)>, count: usize, origin: &Pubkey, key: &Pubkey) -> (kept: bool)
    requires
        count <= ranked@.len(),
    ensures
        kept == is_kept(ranked@.take(count as int), *origin, *key),
{
    if *key == *origin {
        return true;
    }
    let mut i: usize = 0;
    while i < count
        invariant
            i <= count <= ranked@.len(),
            *key != *origin,
            forall|j: int| 0 <= j < i ==> (#[trigger] ranked@[j]).0 != *key,
        decreases count - i,
    {
        if ranked[i].0 == *key {
            assert(ranked@.take(count as int)[i as int].0 == *key);
            return true;
        }
        i += 1;
    }
    assert forall|j: int| 0 <= j < count implies (#[trigger] ranked@.take(count as int)[j]).0 != *key by {
        assert(ranked@[j].0 != *key);
    }
    false
}

/// Prunes the peers that are not needed: of the candidates, in the given order and
/// without the origin, those behind the first that are enough, and all peers that
/// are no candidates. Returns the peers that may not go on pushing, those that were
/// pruned before among them.
pub fn prune_peers(
    peers: &mut PubkeyMap<Ingress>,
    candidates: &Vec<(Pubkey, u64)>,
    order: &Vec<usize>,
    origin: &Pubkey,
    threshold: u64,
) -> (pruned: Vec<Pubkey>)
    requires
        old(peers).wf(),
        is_permutation(order@, candidates@.len()),
    ensures
        final(peers).wf(),
        ({
            let kept = kept_peers(ranked(candidates@, order@, *origin), threshold);
            &&& final(peers).spec_entries() == with_pruned(
                old(peers).spec_entries(),
                kept,
                *origin,
            )
            &&& pruned@ == not_kept(old(peers).spec_entries(), kept, *origin)
        }),
{
    let ranked_peers: Vec<(Pubkey, u64)> = rank(candidates, order, origin);
    let count: usize = count_kept(&ranked_peers, threshold);
    let ghost kept = ranked_peers@.take(count as int);
    let ghost before = peers.spec_entries();
    let mut pruned: Vec<Pubkey> = Vec::new();
    let mut i: usize = 0;
    reveal(Seq::filter);
    assert(keys_of(before).take(0) =~= Seq::<Pubkey>::empty());
    while i < peers.len()
        invariant
            count <= ranked_peers@.len(),
            kept == ranked_peers@.take(count as int),
            i <= before.len(),
            peers.spec_entries().len() == before.len(),
            forall|j: int|
                0 <= j < i ==> #[trigger] peers.spec_entries()[j] == with_pruned(
                    before,
                    kept,
                    *origin,
                )[j],
            forall|j: int| i <= j < before.len() ==> #[trigger] peers.spec_entries()[j] == before[j],
            pruned@ == keys_of(before).take(i as int).filter(
                |key: Pubkey| !is_kept(kept, *origin, key),
            ),
        decreases before.len() - i,
    {
        reveal(Seq::filter);
        assert(keys_of(before).take(i + 1).drop_last() =~= keys_of(before).take(i as int));
        assert(peers.spec_entries()[i as int] == before[i as int]);
        let peer: Pubkey = peers.key_at(i);
        if !keeps(&ranked_peers, count, origin, &peer) {
            peers.value_at_mut(i).pruned = true;
            pruned.push(peer);
        }
        i += 1;
    }
    proof {
        assert(keys_of(before).take(i as int) =~= keys_of(before));
        assert(peers.spec_entries() =~= with_pruned(before, kept, *origin));
        assert forall|a: int, b: int|
            #![trigger peers.spec_entries()[a], peers.spec_entries()[b]]
            0 <= a < b < before.len() implies peers.spec_entries()[a].0.lt(
            peers.spec_entries()[b].0,
        ) by {
            assert(before[a].0.lt(before[b].0));
        }
    }
    pruned
}

} // verus!
