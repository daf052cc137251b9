//! What holds of the peers that a node pushes to.

use crate::bloom::{law_added_keys_are_contained, spec_num_bits, BloomView};
use crate::crds::VersionedCrdsValue;
use crate::crds_gossip_push::{ids_of, need_of, refreshed_in_order, CrdsGossipPush};
use crate::crds_value::{valid_address, CrdsData};
use crate::keyed::lemma_index_of_key;
use crate::keyed::{as_map, has_key, index_of_key, keys_of, unique_keys};
use crate::prune::stake_of;
use crate::pubkey::Pubkey;
use crate::push_options::{
    is_stale, last_push, units_since, PushOption, PushQuery, PUSH_ACTIVE_TIMEOUT_MS,
};
use crate::rotation::{filter_items, picked, rotated, MAX_BLOOM_BITS};
use crate::rotation::{lemma_picked, lemma_rotated};
use crate::weighted_shuffle::{is_listed, is_permutation};
use vstd::prelude::*;

verus! {

/// Only nodes that are offered are picked; where fewer than needed are, every offered
/// node is picked or was active before.
pub proof fn lemma_picked_all<V>(
    ids: Seq<Pubkey>,
    order: Seq<usize>,
    active: Seq<(Pubkey, V)>,
    need: nat,
)
    requires
        forall|i: int| 0 <= i < order.len() ==> #[trigger] order[i] < ids.len(),
    ensures
        ({
            let picks = picked(ids, order, active, need);
            &&& forall|i: int| 0 <= i < picks.len() ==> ids.contains(#[trigger] picks[i])
            &&& picks.len() < need ==> forall|i: int|
                0 <= i < order.len() ==> {
                    ||| has_key(active, ids[#[trigger] order[i] as int])
                    ||| picks.contains(ids[order[i] as int])
                }
        }),
    decreases order.len(),
{
    if order.len() > 0 {
        let rest = order.drop_last();
        let before = picked(ids, rest, active, need);
        let picks = picked(ids, order, active, need);
        let id = ids[order.last() as int];
        assert forall|i: int| 0 <= i < rest.len() implies #[trigger] rest[i] < ids.len() by {
            assert(order[i] == rest[i]);
        }
        lemma_picked_all(ids, rest, active, need);
        assert(order[order.len() - 1] == order.last());
        assert forall|i: int| 0 <= i < picks.len() implies ids.contains(#[trigger] picks[i]) by {
            if i < before.len() {
                assert(picks[i] == before[i]);
            } else {
                assert(picks[i] == id);
            }
        }
        if picks.len() < need {
            assert forall|i: int| 0 <= i < order.len() implies has_key(
                active,
                ids[#[trigger] order[i] as int],
            ) || picks.contains(ids[order[i] as int]) by {
                let item = ids[order[i] as int];
                if i < rest.len() {
                    assert(rest[i] == order[i]);
                    if before.contains(item) {
                        let k = choose|k: int| 0 <= k < before.len() && before[k] == item;
                        assert(picks[k] == item);
                    }
                } else if !has_key(active, id) {
                    if before.contains(id) {
                        assert(picks == before);
                    } else {
                        assert(picks[before.len() as int] == id);
                    }
                }
            }
        }
    }
}

/// The first of the peers in a random order are that many, and all are active.
pub proof fn lemma_rotation<V>(active: Seq<(Pubkey, V)>, rotation: Seq<Pubkey>, num: int)
    requires
        unique_keys(active),
        rotation.to_multiset() == keys_of(active).to_multiset(),
        0 <= num <= active.len(),
    ensures
        rotation.len() == active.len(),
        rotation.take(num).no_duplicates(),
        forall|i: int| 0 <= i < num ==> has_key(active, #[trigger] rotation.take(num)[i]),
        rotated(active, rotation.take(num)).len() == active.len() - num,
{
    broadcast use vstd::seq_lib::group_to_multiset_ensures;

    let keys = keys_of(active);
    assert(keys.len() == keys.to_multiset().len());
    assert(rotation.len() == rotation.to_multiset().len());
    assert(keys.no_duplicates()) by {
        assert forall|i: int, j: int| 0 <= i < keys.len() && 0 <= j < keys.len() && i != j implies keys[i]
            != keys[j] by {
            if i < j {
                assert(active[i].0 != active[j].0);
            } else {
                assert(active[j].0 != active[i].0);
            }
        }
    }
    keys.lemma_multiset_has_no_duplicates();
    rotation.lemma_multiset_has_no_duplicates_conv();
    let removed = rotation.take(num);
    assert forall|i: int| 0 <= i < num implies has_key(active, #[trigger] removed[i]) by {
        assert(rotation[i] == removed[i]);
        assert(rotation.contains(removed[i]));
        assert(rotation.to_multiset().count(removed[i]) > 0);
        assert(keys.contains(removed[i]));
        let k = choose|k: int| 0 <= k < keys.len() && keys[k] == removed[i];
        assert(active[k].0 == removed[i]);
    }
    lemma_rotated(active, removed);
}

/// A refresh keeps the number of actives within the limit: one of `ratio` leaves, and as
/// many come as are missing then, or as few as there are options for. In the latter case
/// no option is left that is neither picked nor was active before.
pub proof fn law_refresh_fills_active_set(
    before: CrdsGossipPush,
    after: CrdsGossipPush,
    options: Seq<PushOption>,
    order: Seq<usize>,
    rotation: Seq<Pubkey>,
    network_size: usize,
    ratio: usize,
)
    requires
        before.wf(),
        ratio > 0,
        before.active().len() <= before.num_active,
        is_permutation(order, options.len()),
        rotation.to_multiset() == keys_of(before.active()).to_multiset(),
        refreshed_in_order(before, after, options, order, rotation, network_size, ratio),
    ensures
        after.active().len() <= before.num_active,
        ({
            let len = before.active().len() as int;
            let need = need_of(before.num_active as int, len, ratio as int);
            let picks = picked(ids_of(options), order, before.active(), need as nat);
            &&& after.active().len() == len - len / ratio as int + picks.len()
            &&& after.active().len() == before.num_active || forall|i: int|
                0 <= i < options.len() ==> {
                    ||| has_key(before.active(), (#[trigger] options[i]).info.id)
                    ||| picks.contains(options[i].info.id)
                }
        }),
{
    let active = before.active();
    let len = active.len() as int;
    let need = need_of(before.num_active as int, len, ratio as int);
    let ids = ids_of(options);
    let picks = picked(ids, order, active, need as nat);
    let num = len / ratio as int;
    assert(0 <= num <= len) by (nonlinear_arith)
        requires
            num == len / ratio as int,
            len >= 0,
            ratio > 0,
    ;
    lemma_rotation(active, rotation, num);
    lemma_picked(ids, order, active, need as nat);
    lemma_picked_all(ids, order, active, need as nat);
    if picks.len() < need {
        assert forall|i: int| 0 <= i < options.len() implies has_key(
            active,
            (#[trigger] options[i]).info.id,
        ) || picks.contains(options[i].info.id) by {
            assert(is_listed(order, i));
            let j = choose|j: int| 0 <= j < order.len() && #[trigger] order[j] == i;
            assert(ids[order[j] as int] == options[i].info.id);
        }
    }
}

/// After a refresh a peer is active if it was and did not leave, with the filter that it
/// had, or if it was picked. A picked peer is one of the options, was not active, and
/// its filter holds the peer itself, so that its own values are not pushed to it.
pub proof fn law_refreshed_peers(
    before: CrdsGossipPush,
    after: CrdsGossipPush,
    options: Seq<PushOption>,
    order: Seq<usize>,
    rotation: Seq<Pubkey>,
    network_size: usize,
    ratio: usize,
    peer: Pubkey,
)
    requires
        before.wf(),
        after.wf(),
        ratio > 0,
        is_permutation(order, options.len()),
        refreshed_in_order(before, after, options, order, rotation, network_size, ratio),
    ensures
        ({
            let len = before.active().len() as int;
            let need = need_of(before.num_active as int, len, ratio as int);
            let removed = rotation.take(len / ratio as int);
            let picks = picked(ids_of(options), order, before.active(), need as nat);
            let stays = has_key(before.active(), peer) && !removed.contains(peer);
            &&& has_key(after.active(), peer) <==> stays || picks.contains(peer)
            &&& stays ==> as_map(after.active())[peer] == as_map(before.active())[peer]
            &&& picks.contains(peer) ==> {
                &&& !has_key(before.active(), peer)
                &&& ids_of(options).contains(peer)
                &&& as_map(after.active())[peer]@.contains(peer)
            }
        }),
{
    let active = before.active();
    let refreshed = after.active();
    let len = active.len() as int;
    let need = need_of(before.num_active as int, len, ratio as int);
    let ids = ids_of(options);
    let removed = rotation.take(len / ratio as int);
    let picks = picked(ids, order, active, need as nat);
    let rest = rotated(active, removed);
    let stays = has_key(active, peer) && !removed.contains(peer);
    lemma_picked(ids, order, active, need as nat);
    lemma_picked_all(ids, order, active, need as nat);
    lemma_rotated(active, removed);
    assert(removed.to_set().contains(peer) <==> removed.contains(peer));
    assert(as_map(rest).contains_key(peer) <==> stays);
    if has_key(refreshed, peer) {
        let i = index_of_key(refreshed, peer);
        if i < rest.len() {
            assert(refreshed.take(rest.len() as int)[i] == refreshed[i]);
            assert(rest[i].0 == peer);
            assert(has_key(rest, peer));
        } else {
            assert(refreshed[rest.len() + (i - rest.len())].0 == picks[i - rest.len()]);
            assert(picks.contains(peer));
        }
    }
    if stays {
        assert(has_key(rest, peer));
        let i = index_of_key(rest, peer);
        assert(refreshed.take(rest.len() as int)[i] == refreshed[i]);
        assert(refreshed[i] == rest[i]);
        lemma_index_of_key(refreshed, i);
        assert(as_map(rest)[peer] == as_map(active)[peer]);
    }
    if picks.contains(peer) {
        let i = choose|i: int| 0 <= i < picks.len() && picks[i] == peer;
        let filter = refreshed[rest.len() + i].1@;
        assert(refreshed[rest.len() + i].0 == peer);
        lemma_index_of_key(refreshed, rest.len() + i);
        let num_bits = spec_num_bits(filter_items(network_size) as nat, MAX_BLOOM_BITS as nat);
        let empty = BloomView { keys: filter.keys, bits: Seq::new(num_bits, |bit: int| false) };
        law_added_keys_are_contained(empty, peer);
    }
}

/// An option is a node of the table, not the node itself, at a valid address, of its
/// shred version, a validator where there are any, and it was updated lately or has a
/// stake. The time since the last push and the stake are those of the node.
pub proof fn law_options_are_eligible(
    query: PushQuery,
    entries: Seq<VersionedCrdsValue>,
    retries: Seq<bool>,
    count: nat,
    option: PushOption,
)
    requires
        count <= entries.len(),
        query.options_of(entries, retries, count).contains(option),
    ensures
        option.info.id != query.self_id,
        valid_address(option.info.gossip),
        option.info.shred_version == query.self_shred_version,
        query.gossip_validators matches Some(validators) ==> validators.contains_key(
            option.info.id,
        ),
        option.stake == stake_of(query.stakes, option.info.id),
        option.since == units_since(query.now, last_push(query.pushed_at, option.info.id)),
        exists|i: int|
            {
                &&& 0 <= i < count
                &&& (#[trigger] entries[i]).value.data == CrdsData::ContactInfo(option.info)
                &&& option.stake > 0 || entries[i].local_timestamp >= query.now
                    - PUSH_ACTIVE_TIMEOUT_MS
            },
    decreases count,
{
    let options = query.options_of(entries, retries, count);
    let before = query.options_of(entries, retries, (count - 1) as nat);
    let i = choose|i: int| 0 <= i < options.len() && options[i] == option;
    if i < before.len() {
        assert(before[i] == option);
        law_options_are_eligible(query, entries, retries, (count - 1) as nat, option);
    } else {
        assert(query.option_of(entries[count - 1], retries[count - 1]) == Some(option));
        assert(entries[count - 1].value.data == CrdsData::ContactInfo(option.info));
    }
}

/// A node of the table that was updated lately and may be pushed to is an option,
/// whatever is drawn for the others.
pub proof fn law_live_nodes_are_options(
    query: PushQuery,
    entries: Seq<VersionedCrdsValue>,
    retries: Seq<bool>,
    count: nat,
    i: int,
)
    requires
        count <= entries.len(),
        0 <= i < count,
        !is_stale(entries[i], query.now),
        entries[i].value.data matches CrdsData::ContactInfo(info) && query.admits(info),
    ensures
        exists|option: PushOption|
            {
                &&& entries[i].value.data == CrdsData::ContactInfo(option.info)
                &&& #[trigger] query.options_of(entries, retries, count).contains(option)
            },
    decreases count,
{
    let options = query.options_of(entries, retries, count);
    let before = query.options_of(entries, retries, (count - 1) as nat);
    if i == count - 1 {
        let option = query.option_of(entries[i], retries[i])->0;
        assert(options[before.len() as int] == option);
        assert(options.contains(option));
    } else {
        law_live_nodes_are_options(query, entries, retries, (count - 1) as nat, i);
        let option = choose|option: PushOption|
            {
                &&& entries[i].value.data == CrdsData::ContactInfo(option.info)
                &&& #[trigger] before.contains(option)
            };
        let k = choose|k: int| 0 <= k < before.len() && before[k] == option;
        assert(options[k] == option);
        assert(options.contains(option));
    }
}

/// A node never pushes to itself: where it was not active, it is not after a refresh with
/// its options.
pub proof fn law_node_is_not_its_own_peer(
    before: CrdsGossipPush,
    after: CrdsGossipPush,
    query: PushQuery,
    entries: Seq<VersionedCrdsValue>,
    retries: Seq<bool>,
    order: Seq<usize>,
    rotation: Seq<Pubkey>,
    network_size: usize,
    ratio: usize,
)
    requires
        before.wf(),
        after.wf(),
        ratio > 0,
        !has_key(before.active(), query.self_id),
        is_permutation(order, query.options_of(entries, retries, entries.len()).len()),
        refreshed_in_order(
            before,
            after,
            query.options_of(entries, retries, entries.len()),
            order,
            rotation,
            network_size,
            ratio,
        ),
    ensures
        !has_key(after.active(), query.self_id),
{
    let options = query.options_of(entries, retries, entries.len());
    let ids = ids_of(options);
    law_refreshed_peers(
        before,
        after,
        options,
        order,
        rotation,
        network_size,
        ratio,
        query.self_id,
    );
    if ids.contains(query.self_id) {
        let i = choose|i: int| 0 <= i < ids.len() && ids[i] == query.self_id;
        assert(options.contains(options[i]));
        law_options_are_eligible(query, entries, retries, entries.len(), options[i]);
    }
}

} // verus!
