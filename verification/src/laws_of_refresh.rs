//! What a refresh does to the active set, and which nodes it may take, by the table and the
//! active set before it.

use crate::bloom::{spec_num_bits, spec_num_keys, BloomView};
use crate::crds::VersionedCrdsValue;
use crate::crds_gossip_push::{
    ids_of, need_of, refreshed, refreshed_in_order, CrdsGossipPush,
};
use crate::crds_value::{CrdsData, IpAddr, SocketAddr};
use crate::keyed::lemma_index_of_key;
use crate::keyed::{as_map, has_key, index_of_key, keys_of};
use crate::laws_of_active_set::{
    law_refresh_fills_active_set, lemma_picked_all, lemma_rotation,
};
use crate::laws_of_filters::{has_bit, law_filters_are_made_of_bits};
use crate::laws_of_order::law_much_heavier_items_come_first;
use crate::pubkey::Pubkey;
use crate::push_options::{last_push, units_since, PushOption};
use crate::push_times::{lemma_put_in_front, push_times_wf, touched};
use crate::rotation::{lemma_picked, lemma_rotated, lemma_rotated_entries};
use crate::rotation::{is_new_filter, picked, rotated};
use crate::weighted_shuffle::{is_listed, is_permutation, is_weighted_order};
use vstd::prelude::*;

verus! {

/// A node is one of the active peers.
pub open spec fn is_active(push: CrdsGossipPush, node: Pubkey) -> bool {
    exists|i: int| 0 <= i < push.active().len() && (#[trigger] push.active()[i]).0 == node
}

/// A refresh replaces one of `ratio` actives and adds missing ones. That part of the actives
/// leaves; the others stay in front, with their filters. Behind them come nodes of the
/// options that were not active, and there are never more actives than there may be. They
/// are fewer only where every option was active before or is now.
pub proof fn law_refresh_replaces_a_part(
    before: CrdsGossipPush,
    after: CrdsGossipPush,
    options: Seq<PushOption>,
    order: Seq<usize>,
    rotation: Seq<Pubkey>,
    network_size: usize,
    ratio: usize,
    i: int,
    j: int,
)
    requires
        before.wf(),
        after.wf(),
        ratio > 0,
        before.active().len() <= before.num_active,
        is_permutation(order, options.len()),
        rotation.to_multiset() == keys_of(before.active()).to_multiset(),
        refreshed_in_order(before, after, options, order, rotation, network_size, ratio),
    ensures
        ({
            let len = before.active().len() as int;
            let leaving = len / ratio as int;
            let staying = len - leaving;
            &&& 0 <= leaving <= len
            &&& staying <= after.active().len() <= before.num_active
            &&& 0 <= i < staying ==> {
                &&& before.active().contains(after.active()[i])
                &&& !rotation.take(leaving).contains(after.active()[i].0)
            }
            &&& staying <= i < after.active().len() ==> {
                let (peer, filter) = after.active()[i];
                &&& !is_active(before, peer)
                &&& exists|k: int| 0 <= k < options.len() && (#[trigger] options[k]).info.id == peer
                &&& is_filter_of(filter@, peer, network_size)
            }
            &&& after.active().len() < before.num_active && 0 <= j < options.len() ==> is_active(
                before,
                options[j].info.id,
            ) || is_active(after, options[j].info.id)
        }),
{
    let active = before.active();
    let len = active.len() as int;
    let leaving = len / ratio as int;
    let need = need_of(before.num_active as int, len, ratio as int);
    let ids = ids_of(options);
    let removed = rotation.take(leaving);
    let picks = picked(ids, order, active, need as nat);
    let rest = rotated(active, removed);
    assert(0 <= leaving <= len) by (nonlinear_arith)
        requires
            leaving == len / ratio as int,
            len >= 0,
            ratio > 0,
    ;
    lemma_rotation(active, rotation, leaving);
    lemma_rotated(active, removed);
    lemma_picked(ids, order, active, need as nat);
    lemma_picked_all(ids, order, active, need as nat);
    law_refresh_fills_active_set(before, after, options, order, rotation, network_size, ratio);
    if 0 <= i < rest.len() {
        assert(after.active().take(rest.len() as int)[i] == after.active()[i]);
        lemma_rotated_entries(active, removed, i);
        lemma_index_of_key(rest, i);
        assert(as_map(rest).contains_key(rest[i].0));
        assert(removed.to_set().contains(rest[i].0) <==> removed.contains(rest[i].0));
    }
    if rest.len() <= i < after.active().len() {
        let at = i - rest.len();
        assert(after.active()[rest.len() + at].0 == picks[at]);
        assert(!has_key(active, picks[at]));
        assert(ids.contains(picks[at]));
        let k = choose|k: int| 0 <= k < ids.len() && ids[k] == picks[at];
        assert(options[k].info.id == picks[at]);
        lemma_new_filter(after.active()[i].1@, picks[at], network_size);
    }
    if after.active().len() < before.num_active && 0 <= j < options.len() {
        let id = options[j].info.id;
        assert(has_key(active, id) || picks.contains(id));
        if picks.contains(id) {
            let k = choose|k: int| 0 <= k < picks.len() && picks[k] == id;
            assert(after.active()[rest.len() + k].0 == id);
        }
    }
}

/// A filter that holds nothing but `peer`: it is made for 500 items, or for as many as the
/// network is large, and the bits of the peer are set and no others.
pub open spec fn is_filter_of(filter: BloomView, peer: Pubkey, network_size: usize) -> bool {
    let items: nat = if network_size > 500 { network_size as nat } else { 500 };
    &&& filter.bits.len() == spec_num_bits(items, 32_768)
    &&& filter.keys.len() == spec_num_keys(filter.bits.len(), items)
    &&& forall|bit: int|
        0 <= bit < filter.bits.len() ==> (#[trigger] filter.bits[bit] <==> has_bit(
            filter,
            peer,
            bit,
        ))
}

/// A new filter holds nothing but its peer.
proof fn lemma_new_filter(filter: BloomView, peer: Pubkey, network_size: usize)
    requires
        is_new_filter(filter, peer, network_size),
    ensures
        is_filter_of(filter, peer, network_size),
{
    let items: nat = if network_size > 500 { network_size as nat } else { 500 };
    let num_bits = spec_num_bits(items, 32_768);
    let empty = BloomView { keys: filter.keys, bits: Seq::new(num_bits, |bit: int| false) };
    assert(filter == empty.add(peer));
    assert forall|bit: int| 0 <= bit < filter.bits.len() implies (#[trigger] filter.bits[bit]
        <==> has_bit(filter, peer, bit)) by {
        law_filters_are_made_of_bits(empty, peer, bit);
        assert(has_bit(empty, peer, bit) == has_bit(filter, peer, bit));
    }
}

/// No two options are of the same node.
pub open spec fn are_distinct(options: Seq<PushOption>) -> bool {
    forall|i: int, j: int|
        #![trigger options[i], options[j]]
        0 <= i < j < options.len() ==> options[i].info.id != options[j].info.id
}

/// Options are taken from the front of the order: where a node becomes active, every option
/// before it was active before or is now.
pub proof fn law_refresh_takes_options_in_order(
    before: CrdsGossipPush,
    after: CrdsGossipPush,
    options: Seq<PushOption>,
    order: Seq<usize>,
    rotation: Seq<Pubkey>,
    network_size: usize,
    ratio: usize,
    a: int,
    b: int,
)
    requires
        before.wf(),
        after.wf(),
        ratio > 0,
        is_permutation(order, options.len()),
        refreshed_in_order(before, after, options, order, rotation, network_size, ratio),
        are_distinct(options),
        0 <= a < b < order.len(),
        !is_active(before, options[order[b] as int].info.id),
        is_active(after, options[order[b] as int].info.id),
    ensures
        is_active(before, options[order[a] as int].info.id) || is_active(
            after,
            options[order[a] as int].info.id,
        ),
{
    let active = before.active();
    let len = active.len() as int;
    let need = need_of(before.num_active as int, len, ratio as int);
    let ids = ids_of(options);
    let removed = rotation.take(len / ratio as int);
    let picks = picked(ids, order, active, need as nat);
    let rest = rotated(active, removed);
    let (first, second) = (ids[order[a] as int], ids[order[b] as int]);
    lemma_rotated(active, removed);
    let at = choose|at: int|
        0 <= at < after.active().len() && (#[trigger] after.active()[at]).0 == second;
    if at < rest.len() {
        assert(after.active().take(rest.len() as int)[at] == after.active()[at]);
        lemma_rotated_entries(active, removed, at);
        let k = choose|k: int| 0 <= k < active.len() && active[k] == rest[at];
        assert(active[k].0 == second);
    }
    assert(after.active()[rest.len() + (at - rest.len())].0 == picks[at - rest.len()]);
    assert(picks.contains(second));
    assert forall|i: int, j: int| 0 <= i < j < ids.len() implies ids[i] != ids[j] by {
        assert(options[i].info.id != options[j].info.id);
    }
    lemma_picked_in_order(ids, order, active, need as nat, a, b);
    if picks.contains(first) {
        let k = choose|k: int| 0 <= k < picks.len() && picks[k] == first;
        assert(after.active()[rest.len() + k].0 == first);
    } else {
        assert(has_key(active, first));
    }
}

/// Where a node is picked, those before it are picked or active.
proof fn lemma_picked_in_order<V>(
    ids: Seq<Pubkey>,
    order: Seq<usize>,
    active: Seq<(Pubkey, V)>,
    need: nat,
    a: int,
    b: int,
)
    requires
        forall|i: int, j: int| 0 <= i < j < ids.len() ==> ids[i] != ids[j],
        forall|i: int| 0 <= i < order.len() ==> #[trigger] order[i] < ids.len(),
        forall|i: int, j: int|
            #![trigger order[i], order[j]]
            0 <= i < j < order.len() ==> order[i] != order[j],
        0 <= a < b < order.len(),
        picked(ids, order, active, need).contains(ids[order[b] as int]),
    ensures
        has_key(active, ids[order[a] as int]) || picked(ids, order, active, need).contains(
            ids[order[a] as int],
        ),
    decreases order.len(),
{
    let rest = order.drop_last();
    let fewer = picked(ids, rest, active, need);
    let picks = picked(ids, order, active, need);
    let (first, second) = (ids[order[a] as int], ids[order[b] as int]);
    assert forall|i: int| 0 <= i < rest.len() implies #[trigger] rest[i] < ids.len() by {
        assert(rest[i] == order[i]);
    }
    assert forall|i: int, j: int|
        #![trigger rest[i], rest[j]]
        0 <= i < j < rest.len() implies rest[i] != rest[j] by {
        assert(order[i] != order[j]);
    }
    assert(rest[a] == order[a]);
    if b == order.len() - 1 {
        lemma_picked_from(ids, rest, active, need, second);
        if fewer.contains(second) {
            let k = choose|k: int|
                0 <= k < rest.len() && ids[#[trigger] rest[k] as int] == second;
            assert(order[k] != order[b]);
            let (x, y) = (order[k] as int, order[b] as int);
            if x < y {
                assert(ids[x] != ids[y]);
            } else {
                assert(ids[y] != ids[x]);
            }
        }
        assert(fewer.len() < need);
        lemma_picked_all(ids, rest, active, need);
        if fewer.contains(first) {
            let k = choose|k: int| 0 <= k < fewer.len() && fewer[k] == first;
            assert(picks[k] == first);
        }
    } else {
        assert(rest[b] == order[b]);
        if !fewer.contains(second) {
            assert(picks == fewer.push(ids[order.last() as int]));
            let k = choose|k: int| 0 <= k < picks.len() && picks[k] == second;
            if k < fewer.len() {
                assert(fewer[k] == second);
            }
            assert(ids[order.last() as int] == second);
            assert(order[b] != order[order.len() - 1]);
            let (x, y) = (order[b] as int, order.last() as int);
            if x < y {
                assert(ids[x] != ids[y]);
            } else {
                assert(ids[y] != ids[x]);
            }
        }
        lemma_picked_in_order(ids, rest, active, need, a, b);
        if fewer.contains(first) {
            let k = choose|k: int| 0 <= k < fewer.len() && fewer[k] == first;
            assert(picks[k] == first);
        }
    }
}

/// What is picked stands somewhere in the order.
proof fn lemma_picked_from<V>(
    ids: Seq<Pubkey>,
    order: Seq<usize>,
    active: Seq<(Pubkey, V)>,
    need: nat,
    id: Pubkey,
)
    ensures
        picked(ids, order, active, need).contains(id) ==> exists|k: int|
            0 <= k < order.len() && ids[#[trigger] order[k] as int] == id,
    decreases order.len(),
{
    if order.len() > 0 {
        let rest = order.drop_last();
        let fewer = picked(ids, rest, active, need);
        let picks = picked(ids, order, active, need);
        lemma_picked_from(ids, rest, active, need, id);
        assert(order[order.len() - 1] == order.last());
        if picks.contains(id) {
            if fewer.contains(id) {
                let k = choose|k: int| 0 <= k < rest.len() && ids[#[trigger] rest[k] as int] == id;
                assert(order[k] == rest[k]);
            } else {
                let k = choose|k: int| 0 <= k < picks.len() && picks[k] == id;
                if k < fewer.len() {
                    assert(fewer[k] == id);
                }
            }
        }
    }
}

/// Heavier nodes tend to become active: one is taken before another one where its inverse
/// weight is lower by more than chance can make up for, whatever the seed.
pub proof fn law_refresh_prefers_much_heavier_options(
    before: CrdsGossipPush,
    after: CrdsGossipPush,
    options: Seq<PushOption>,
    inverse_weights: Seq<u64>,
    network_size: usize,
    ratio: usize,
    heavy: int,
    light: int,
)
    requires
        before.wf(),
        after.wf(),
        ratio > 0,
        inverse_weights.len() == options.len(),
        refreshed(before, after, options, inverse_weights, network_size, ratio),
        are_distinct(options),
        0 <= heavy < options.len(),
        0 <= light < options.len(),
        inverse_weights[heavy] * 65_534 < inverse_weights[light],
        !is_active(before, options[light].info.id),
        is_active(after, options[light].info.id),
    ensures
        is_active(before, options[heavy].info.id) || is_active(after, options[heavy].info.id),
{
    let (order, rotation) = choose|order: Seq<usize>, rotation: Seq<Pubkey>|
        {
            &&& is_weighted_order(inverse_weights, order)
            &&& rotation.to_multiset() == keys_of(before.active()).to_multiset()
            &&& #[trigger] refreshed_in_order(
                before,
                after,
                options,
                order,
                rotation,
                network_size,
                ratio,
            )
        };
    assert(is_permutation(order, options.len()));
    assert(is_listed(order, heavy));
    assert(is_listed(order, light));
    let a = choose|a: int| 0 <= a < order.len() && #[trigger] order[a] == heavy;
    let b = choose|b: int| 0 <= b < order.len() && #[trigger] order[b] == light;
    law_much_heavier_items_come_first(inverse_weights, order, a, b);
    law_refresh_takes_options_in_order(
        before,
        after,
        options,
        order,
        rotation,
        network_size,
        ratio,
        a,
        b,
    );
}

/// Without options nothing changes. Else the actives leave in some order, and the options
/// are taken in one that lists each of them once.
pub proof fn law_refresh_is_in_some_order(
    before: CrdsGossipPush,
    after: CrdsGossipPush,
    options: Seq<PushOption>,
    inverse_weights: Seq<u64>,
    network_size: usize,
    ratio: usize,
)
    requires
        inverse_weights.len() == options.len(),
        refreshed(before, after, options, inverse_weights, network_size, ratio),
    ensures
        options.len() == 0 ==> after.active() == before.active(),
        options.len() > 0 ==> exists|order: Seq<usize>, rotation: Seq<Pubkey>|
            {
                &&& is_permutation(order, options.len())
                &&& rotation.to_multiset() == keys_of(before.active()).to_multiset()
                &&& #[trigger] refreshed_in_order(
                    before,
                    after,
                    options,
                    order,
                    rotation,
                    network_size,
                    ratio,
                )
            },
{
}

/// When a peer was last pushed to is `last`: never is at 0.
pub open spec fn was_pushed_to_at(
    pushed_at: Seq<(Pubkey, u64)>,
    peer: Pubkey,
    last: u64,
) -> bool {
    ||| exists|i: int| 0 <= i < pushed_at.len() && #[trigger] pushed_at[i] == (peer, last)
    ||| last == 0 && forall|i: int|
        0 <= i < pushed_at.len() ==> (#[trigger] pushed_at[i]).0 != peer
}

/// A host and a port at which a node can be reached.
pub open spec fn is_reachable(addr: SocketAddr) -> bool {
    &&& addr.port != 0
    &&& match addr.ip {
        IpAddr::V4(ip) => ip != 0 && ip as int / 0x1000_0000 != 14,
        IpAddr::V6(ip) => ip != 0 && ip as int / 0x100_0000_0000_0000_0000_0000_0000_0000 != 255,
    }
}

/// What is asked for: the nodes that `self_id`, of a shred version, may push to at `now`.
pub struct Request {
    pub self_id: Pubkey,
    pub self_shred_version: u16,
    pub stakes: Map<Pubkey, u64>,
    pub gossip_validators: Option<Map<Pubkey, ()>>,
    pub now: u64,
}

/// A table entry offers a node: it is the contact info of another node that can be reached,
/// of the same shred version and, where there are validators, one of them. It was updated
/// within a minute, or the node has a stake and is retried. The stake and the time since the
/// last push, at most an hour, in units of 1024 milliseconds, are those of the node.
pub open spec fn offers(
    push: CrdsGossipPush,
    request: Request,
    entry: VersionedCrdsValue,
    retry: bool,
    option: PushOption,
) -> bool {
    let id = option.info.id;
    &&& entry.value.data == CrdsData::ContactInfo(option.info)
    &&& id != request.self_id
    &&& is_reachable(option.info.gossip)
    &&& option.info.shred_version == request.self_shred_version
    &&& request.gossip_validators is None || request.gossip_validators->0.contains_key(id)
    &&& option.stake == if request.stakes.contains_key(id) { request.stakes[id] } else { 0 }
    &&& entry.local_timestamp + 60_000 >= request.now || (option.stake > 0 && retry)
    &&& exists|last: u64| #[trigger]
        was_pushed_to_at(push.pushed_at(), id, last) && is_time_since(
            option.since,
            last,
            request.now,
        )
}

/// The time from `last` to `now` is `since` units of 1024 milliseconds, without a rest; at
/// most an hour counts, and nothing where `last` is later.
pub open spec fn is_time_since(since: u32, last: u64, now: u64) -> bool {
    let time = if now <= last {
        0
    } else if now - last >= 3_600_000 {
        3_600_000
    } else {
        now - last
    };
    since * 1024 <= time < (since + 1) * 1024
}

/// What an entry offers is what is found of it.
proof fn lemma_offers(
    push: CrdsGossipPush,
    request: Request,
    entry: VersionedCrdsValue,
    retry: bool,
    option: PushOption,
)
    requires
        push.wf(),
    ensures
        offers(push, request, entry, retry, option) <==> push.push_query(
            request.self_id,
            request.self_shred_version,
            request.stakes,
            request.gossip_validators,
            request.now,
        ).option_of(entry, retry) == Some(option),
{
    let id = option.info.id;
    let pushed_at = push.pushed_at();
    let last = last_push(pushed_at, id);
    assert(was_pushed_to_at(pushed_at, id, last)) by {
        if has_key(pushed_at, id) {
            let i = index_of_key(pushed_at, id);
            assert(pushed_at[i] == (id, last));
        } else {
            assert forall|i: int| 0 <= i < pushed_at.len() implies (#[trigger] pushed_at[i]).0
                != id by {}
        }
    }
    assert forall|other: u64| was_pushed_to_at(pushed_at, id, other) implies other == last by {
        if exists|i: int| 0 <= i < pushed_at.len() && #[trigger] pushed_at[i] == (id, other) {
            let i = choose|i: int| 0 <= i < pushed_at.len() && #[trigger] pushed_at[i] == (
                id,
                other,
            );
            lemma_index_of_key(pushed_at, i);
        } else if has_key(pushed_at, id) {
            let i = index_of_key(pushed_at, id);
            assert(pushed_at[i].0 != id);
        }
    }
    assert(is_time_since(option.since, last, request.now) <==> option.since == units_since(
        request.now,
        last,
    ));
    if offers(push, request, entry, retry, option) {
        let other = choose|other: u64| #[trigger]
            was_pushed_to_at(pushed_at, id, other) && is_time_since(
                option.since,
                other,
                request.now,
            );
        assert(other == last);
    }
    let found = push.push_query(
        request.self_id,
        request.self_shred_version,
        request.stakes,
        request.gossip_validators,
        request.now,
    ).option_of(entry, retry);
    if found == Some(option) {
        assert(entry.value.data == CrdsData::ContactInfo(option.info));
        assert(was_pushed_to_at(pushed_at, id, last));
    }
}

/// The nodes that may be pushed to are those that the entries of the table offer, one for
/// each entry that offers one, in the order of the entries.
pub proof fn law_options_are_what_entries_offer(
    push: CrdsGossipPush,
    request: Request,
    entries: Seq<VersionedCrdsValue>,
    retries: Seq<bool>,
    count: nat,
    option: PushOption,
)
    requires
        push.wf(),
        count <= entries.len(),
    ensures
        ({
            let options = push.push_query(
                request.self_id,
                request.self_shred_version,
                request.stakes,
                request.gossip_validators,
                request.now,
            ).options_of(entries, retries, count);
            let offering = Set::new(
                |i: int|
                    0 <= i < count && exists|some: PushOption| #[trigger]
                        offers(push, request, entries[i], retries[i], some),
            );
            &&& options.contains(option) <==> exists|i: int|
                0 <= i < count && #[trigger] offers(
                    push,
                    request,
                    entries[i],
                    retries[i],
                    option,
                )
            &&& offering.finite()
            &&& options.len() == offering.len()
            &&& count > 0 && offers(
                push,
                request,
                entries[count - 1],
                retries[count - 1],
                option,
            ) ==> options.last() == option
        }),
    decreases count,
{
    let query = push.push_query(
        request.self_id,
        request.self_shred_version,
        request.stakes,
        request.gossip_validators,
        request.now,
    );
    let options = query.options_of(entries, retries, count);
    let offering = Set::new(
        |i: int|
            0 <= i < count && exists|some: PushOption| #[trigger]
                offers(push, request, entries[i], retries[i], some),
    );
    if count == 0 {
        assert(offering =~= Set::<int>::empty());
    } else {
        let at = count - 1;
        let fewer = query.options_of(entries, retries, at as nat);
        let before = Set::new(
            |i: int|
                0 <= i < at && exists|some: PushOption| #[trigger]
                    offers(push, request, entries[i], retries[i], some),
        );
        let found = query.option_of(entries[at], retries[at]);
        law_options_are_what_entries_offer(
            push,
            request,
            entries,
            retries,
            at as nat,
            option,
        );
        lemma_offers(push, request, entries[at], retries[at], option);
        assert(!before.contains(at));
        match found {
            Some(some) => {
                lemma_offers(push, request, entries[at], retries[at], some);
                assert(offering.contains(at));
                assert(offering =~= before.insert(at));
                assert(options == fewer.push(some));
                assert(options[options.len() - 1] == some);
                if fewer.contains(option) {
                    let k = choose|k: int| 0 <= k < fewer.len() && fewer[k] == option;
                    assert(options[k] == option);
                }
                if options.contains(option) && some != option {
                    let k = choose|k: int| 0 <= k < options.len() && options[k] == option;
                    assert(fewer[k] == option);
                }
            },
            None => {
                assert forall|some: PushOption| !offers(
                    push,
                    request,
                    entries[at],
                    retries[at],
                    some,
                ) by {
                    lemma_offers(push, request, entries[at], retries[at], some);
                }
                assert(!offering.contains(at));
                assert(offering =~= before);
            },
        }
        if exists|i: int|
            0 <= i < count && #[trigger] offers(push, request, entries[i], retries[i], option) {
            let i = choose|i: int|
                0 <= i < count && #[trigger] offers(push, request, entries[i], retries[i], option);
            if i == at {
                assert(found == Some(option));
            } else {
                assert(fewer.contains(option));
            }
        }
    }
}

/// After a push the peers that got a message were last pushed to now, as long as their times
/// can be kept. Of the others nothing changes, but that the times of those who were not
/// pushed to for longest go where there is no room for all.
pub proof fn law_pushes_are_noted(
    entries: Seq<(Pubkey, u64)>,
    limit: nat,
    keys: Seq<Pubkey>,
    time: u64,
    peer: Pubkey,
    other: (Pubkey, u64),
)
    requires
        push_times_wf(entries, limit),
        keys.no_duplicates(),
        keys.len() <= limit,
    ensures
        ({
            let after = touched(entries, limit, keys, time);
            &&& push_times_wf(after, limit)
            &&& keys.contains(peer) ==> after.contains((peer, time))
            &&& !keys.contains(other.0) && after.contains(other) ==> entries.contains(other)
            &&& !keys.contains(other.0) && entries.contains(other) && entries.len() + keys.len()
                <= limit ==> after.contains(other)
        }),
{
    lemma_touched(entries, limit, keys, time, other);
    let after = touched(entries, limit, keys, time);
    if keys.contains(peer) {
        let i = choose|i: int| 0 <= i < keys.len() && keys[i] == peer;
        assert(after[keys.len() - 1 - i] == (peer, time));
    }
}

/// The peers that were pushed to are in front, the last one first.
proof fn lemma_touched(
    entries: Seq<(Pubkey, u64)>,
    limit: nat,
    keys: Seq<Pubkey>,
    time: u64,
    other: (Pubkey, u64),
)
    requires
        push_times_wf(entries, limit),
        keys.no_duplicates(),
        keys.len() <= limit,
    ensures
        ({
            let after = touched(entries, limit, keys, time);
            &&& push_times_wf(after, limit)
            &&& keys.len() <= after.len() <= entries.len() + keys.len()
            &&& forall|i: int|
                0 <= i < keys.len() ==> #[trigger] after[i] == (keys[keys.len() - 1 - i], time)
            &&& !keys.contains(other.0) && after.contains(other) ==> entries.contains(other)
            &&& !keys.contains(other.0) && entries.contains(other) && entries.len() + keys.len()
                <= limit ==> after.contains(other)
        }),
    decreases keys.len(),
{
    if keys.len() > 0 {
        let rest = keys.drop_last();
        let key = keys.last();
        let mid = touched(entries, limit, rest, time);
        let after = touched(entries, limit, keys, time);
        assert(rest.no_duplicates());
        lemma_touched(entries, limit, rest, time, other);
        lemma_put_in_front(mid, limit, key, time);
        let index = index_of_key(mid, key);
        if has_key(mid, key) {
            assert(index >= rest.len()) by {
                if index < rest.len() {
                    assert(mid[index] == (rest[rest.len() - 1 - index], time));
                    assert(keys[rest.len() - 1 - index] != keys[keys.len() - 1]);
                }
            }
        }
        assert forall|i: int| 0 <= i < keys.len() implies #[trigger] after[i] == (
            keys[keys.len() - 1 - i],
            time,
        ) by {
            if i > 0 {
                assert(after[i] == mid[i - 1]);
                assert(mid[i - 1] == (rest[rest.len() - 1 - (i - 1)], time));
            }
        }
        if !keys.contains(other.0) {
            assert(!rest.contains(other.0)) by {
                if rest.contains(other.0) {
                    let k = choose|k: int| 0 <= k < rest.len() && rest[k] == other.0;
                    assert(keys[k] == other.0);
                }
            }
            assert(keys[keys.len() - 1] == key);
            if after.contains(other) {
                let k = choose|k: int| 0 <= k < after.len() && after[k] == other;
                let from = if has_key(mid, key) && k - 1 >= index { k } else { k - 1 };
                assert(mid[from] == other);
            }
            if mid.contains(other) && entries.len() + keys.len() <= limit {
                let k = choose|k: int| 0 <= k < mid.len() && mid[k] == other;
                let to = if has_key(mid, key) && k > index { k } else { k + 1 };
                assert(after[to] == other);
            }
        }
    }
}

} // verus!
