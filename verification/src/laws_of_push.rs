//! What holds of the values that are pushed.

use crate::bloom::{law_added_keys_are_contained, law_contained_keys_stay, BloomView};
use crate::crds::{entries_since, inserted, Crds, VersionedCrdsValue};
use crate::crds_gossip_push::{
    prune_heeded, refreshed, refreshed_in_order, with_origins, CrdsGossipPush,
};
use crate::crds_value::CrdsValue;
use crate::keyed::{lemma_filter_contains, lemma_index_of_key};
use crate::keyed::{has_key, index_of_key, keys_of, unique_keys};
use crate::laws_of_active_set::law_refreshed_peers;
use crate::messages::{
    accepts, active_view, in_fanout, lemma_turn, messages_of, push_count, receivers, receives,
    sent_to,
};
use crate::pending::{
    bytes_of, consumed_count, due_values, fresh_values, in_window, lemma_entries_since,
    ordinal_behind, too_many_bytes,
};
use crate::pubkey::Pubkey;
use crate::push_options::PushOption;
use crate::weighted_shuffle::{is_permutation, is_weighted_order};
use vstd::prelude::*;

verus! {

/// A value goes to a peer if and only if it is one of the values to push, the peer is
/// active and among those for the origin of the value, and the peer did not prune that
/// origin or gets the value all the same.
pub proof fn law_messages_respect_prunes(
    active: Seq<(Pubkey, BloomView)>,
    fanout: int,
    values: Seq<CrdsValue>,
    peer: Pubkey,
    value: CrdsValue,
)
    ensures
        ({
            let messages = messages_of(active, fanout, values);
            let index = index_of_key(active, peer);
            messages.contains_key(peer) && messages[peer].contains(value) <==> {
                &&& values.contains(value)
                &&& has_key(active, peer)
                &&& in_fanout(value.origin(), fanout, index, active.len() as int)
                &&& !active[index].1.contains(value.origin()) || value.forced_to(peer)
            }
        }),
{
    let index = index_of_key(active, peer);
    let pred = |v: CrdsValue| receives(active, fanout, v, index);
    let sent = sent_to(active, fanout, values, index);
    lemma_filter_contains(values, pred, value);
    if has_key(active, peer) && values.contains(value) && receives(active, fanout, value, index) {
        assert(sent.contains(value));
        let i = choose|i: int| 0 <= i < sent.len() && sent[i] == value;
        assert(sent.len() > 0);
    }
}

/// A prune is heeded: after the filter of a peer took in the origins that the peer
/// pruned, no value of one of them goes to it, but those of the node itself and those
/// that it gets all the same.
pub proof fn law_prune_is_heeded(
    active: Seq<(Pubkey, BloomView)>,
    fanout: int,
    values: Seq<CrdsValue>,
    peer: Pubkey,
    self_pubkey: Pubkey,
    origins: Seq<Pubkey>,
    value: CrdsValue,
)
    requires
        unique_keys(active),
        has_key(active, peer),
        active[index_of_key(active, peer)].1.bits.len() > 0,
        origins.contains(value.origin()),
        value.origin() != self_pubkey,
        !value.forced_to(peer),
    ensures
        ({
            let index = index_of_key(active, peer);
            let filter = with_origins(active[index].1, self_pubkey, origins);
            let messages = messages_of(active.update(index, (peer, filter)), fanout, values);
            messages.contains_key(peer) ==> !messages[peer].contains(value)
        }),
{
    let index = index_of_key(active, peer);
    let filter = with_origins(active[index].1, self_pubkey, origins);
    let after = active.update(index, (peer, filter));
    law_prune_adds_origins(active[index].1, self_pubkey, origins, value.origin());
    law_messages_respect_prunes(after, fanout, values, peer, value);
    assert forall|i: int, j: int|
        #![trigger after[i], after[j]]
        0 <= i < j < after.len() implies after[i].0 != after[j].0 by {
        assert(active[i].0 != active[j].0);
    }
    lemma_index_of_key(after, index);
}

/// A filter that took in the origins that a peer pruned holds each of them but the
/// node itself.
pub proof fn law_prune_adds_origins(
    filter: BloomView,
    self_pubkey: Pubkey,
    origins: Seq<Pubkey>,
    origin: Pubkey,
)
    requires
        filter.bits.len() > 0,
        origins.contains(origin),
        origin != self_pubkey,
    ensures
        with_origins(filter, self_pubkey, origins).contains(origin),
    decreases origins.len(),
{
    let rest = origins.drop_last();
    let before = with_origins(filter, self_pubkey, rest);
    law_prunes_add_up(filter, self_pubkey, rest, origin);
    if origins.last() == origin {
        law_added_keys_are_contained(before, origin);
    } else {
        let i = choose|i: int| 0 <= i < origins.len() && origins[i] == origin;
        assert(rest[i] == origin);
        law_prune_adds_origins(filter, self_pubkey, rest, origin);
        if origins.last() != self_pubkey {
            law_contained_keys_stay(before, origin, origins.last());
        }
    }
}

/// A filter that takes in the origins of a prune keeps those of earlier ones, and its
/// size.
pub proof fn law_prunes_add_up(
    filter: BloomView,
    self_pubkey: Pubkey,
    origins: Seq<Pubkey>,
    origin: Pubkey,
)
    requires
        filter.bits.len() > 0,
    ensures
        filter.contains(origin) ==> with_origins(filter, self_pubkey, origins).contains(origin),
        with_origins(filter, self_pubkey, origins).bits.len() == filter.bits.len(),
    decreases origins.len(),
{
    if origins.len() > 0 {
        law_prunes_add_up(filter, self_pubkey, origins.drop_last(), origin);
        if filter.contains(origin) {
            let before = with_origins(filter, self_pubkey, origins.drop_last());
            law_contained_keys_stay(before, origin, origins.last());
        }
    }
}

/// A prune that names the node itself alone leaves the filter as it is.
pub proof fn law_own_values_are_not_pruned(
    filter: BloomView,
    self_pubkey: Pubkey,
    origins: Seq<Pubkey>,
)
    requires
        forall|i: int| 0 <= i < origins.len() ==> #[trigger] origins[i] == self_pubkey,
    ensures
        with_origins(filter, self_pubkey, origins) == filter,
    decreases origins.len(),
{
    if origins.len() > 0 {
        assert(origins[origins.len() - 1] == self_pubkey);
        law_own_values_are_not_pruned(filter, self_pubkey, origins.drop_last());
    }
}

/// The peers for an origin are as many as the fanout says, so a value goes to no more
/// than that; where no peer pruned its origin, it goes to exactly so many.
pub proof fn law_fanout_bounds_receivers(
    active: Seq<(Pubkey, BloomView)>,
    fanout: int,
    value: CrdsValue,
)
    requires
        0 <= fanout <= active.len(),
    ensures
        receivers(active, fanout, value).finite(),
        receivers(active, fanout, value).len() <= fanout,
        (forall|index: int| 0 <= index < active.len() ==> accepts(active, value, index))
            ==> receivers(active, fanout, value).len() == fanout,
    decreases fanout,
{
    let all = receivers(active, fanout, value);
    if fanout == 0 {
        assert(all =~= Set::<int>::empty());
    } else {
        let len = active.len() as int;
        let turn = fanout - 1;
        let fewer = receivers(active, turn, value);
        law_fanout_bounds_receivers(active, turn, value);
        let added = (value.origin().bytes()[0] + turn) % len;
        assert forall|index: int| 0 <= index < len implies {
            in_fanout(value.origin(), fanout, index, len) <==> #[trigger] in_fanout(
                value.origin(),
                turn,
                index,
                len,
            ) || index == added
        } by {
            lemma_turn(value.origin(), turn, index, len);
        }
        lemma_turn(value.origin(), turn, 0, len);
        assert(!fewer.contains(added));
        if accepts(active, value, added) {
            assert(all =~= fewer.insert(added));
        } else {
            assert(all =~= fewer);
        }
    }
}

/// Values are not pushed more often than the fanout allows.
pub proof fn law_fanout_bounds_pushes(
    active: Seq<(Pubkey, BloomView)>,
    fanout: int,
    values: Seq<CrdsValue>,
)
    requires
        0 <= fanout <= active.len(),
    ensures
        push_count(active, fanout, values) <= values.len() * fanout,
    decreases values.len(),
{
    if values.len() > 0 {
        law_fanout_bounds_pushes(active, fanout, values.drop_last());
        law_fanout_bounds_receivers(active, fanout, values.last());
        assert((values.len() - 1) * fanout + fanout == values.len() * fanout) by (nonlinear_arith);
    }
}

/// A node pushes no more often than its table has values, times the fanout.
pub proof fn law_pushes_are_bounded(push: CrdsGossipPush, crds: Crds, now: u64)
    requires
        crds.wf(),
    ensures
        push.due(&crds, now).len() <= crds.entries().len(),
        push.pushes(&crds, now) <= crds.entries().len() * push.fanout(),
{
    let due = push.due(&crds, now);
    let entries = entries_since(crds.entries(), push.cursor());
    let count = consumed_count(entries, now, push.msg_timeout, push.max_bytes, 0);
    law_entries_are_consumed_once(crds, push.cursor(), now, push.msg_timeout, push.max_bytes);
    let first = lemma_first_since(crds, push.cursor());
    lemma_entries_since(crds.entries(), push.cursor(), first);
    if count > 0 {
        lemma_fresh_values_len(entries.take(count - 1), now, push.msg_timeout);
    }
    lemma_fresh_values_len(entries.take(count as int), now, push.msg_timeout);
    if too_many_bytes(entries, now, push.msg_timeout, push.max_bytes, 0) {
        reveal(Seq::filter_map);
        assert(entries.take(0) =~= Seq::<VersionedCrdsValue>::empty());
    }
    law_fanout_bounds_pushes(active_view(push.active()), push.fanout(), due);
    let (few, many, fanout) = (due.len(), crds.entries().len(), push.fanout());
    assert(0 <= few * fanout <= many * fanout) by (nonlinear_arith)
        requires
            0 <= few <= many,
            fanout >= 0,
    ;
}

/// There are no more fresh values than entries.
proof fn lemma_fresh_values_len(entries: Seq<VersionedCrdsValue>, now: u64, timeout: u64)
    ensures
        fresh_values(entries, now, timeout).len() <= entries.len(),
    decreases entries.len(),
{
    reveal(Seq::filter_map);
    if entries.len() > 0 {
        lemma_fresh_values_len(entries.drop_last(), now, timeout);
    }
}

/// How many values go to the first `count` peers.
pub open spec fn sent_to_first(
    active: Seq<(Pubkey, BloomView)>,
    fanout: int,
    values: Seq<CrdsValue>,
    count: nat,
) -> nat
    decreases count,
{
    if count == 0 {
        0
    } else {
        sent_to_first(active, fanout, values, (count - 1) as nat) + sent_to(
            active,
            fanout,
            values,
            count - 1,
        ).len()
    }
}

/// Another value adds one to each of its receivers.
proof fn lemma_sent_to_first(
    active: Seq<(Pubkey, BloomView)>,
    fanout: int,
    values: Seq<CrdsValue>,
    count: nat,
)
    requires
        values.len() > 0,
        count <= active.len(),
    ensures
        ({
            let reached = receivers(active, fanout, values.last()).intersect(
                Set::new(|index: int| 0 <= index < count),
            );
            &&& reached.finite()
            &&& sent_to_first(active, fanout, values, count) == sent_to_first(
                active,
                fanout,
                values.drop_last(),
                count,
            ) + reached.len()
        }),
    decreases count,
{
    reveal(Seq::filter);
    let all = receivers(active, fanout, values.last());
    let reached = all.intersect(Set::new(|index: int| 0 <= index < count));
    if count == 0 {
        assert(reached =~= Set::<int>::empty());
    } else {
        let fewer = all.intersect(Set::new(|index: int| 0 <= index < count - 1));
        lemma_sent_to_first(active, fanout, values, (count - 1) as nat);
        if receives(active, fanout, values.last(), count - 1) {
            assert(reached =~= fewer.insert(count - 1));
        } else {
            assert(reached =~= fewer);
        }
    }
}

/// The pushes that are counted are the values that go to all peers together.
pub proof fn law_pushes_are_counted(
    active: Seq<(Pubkey, BloomView)>,
    fanout: int,
    values: Seq<CrdsValue>,
)
    ensures
        push_count(active, fanout, values) == sent_to_first(active, fanout, values, active.len()),
    decreases values.len(),
{
    if values.len() == 0 {
        lemma_nothing_sent(active, fanout, values, active.len());
    } else {
        law_pushes_are_counted(active, fanout, values.drop_last());
        lemma_sent_to_first(active, fanout, values, active.len());
        let all = receivers(active, fanout, values.last());
        assert(all =~= all.intersect(Set::new(|index: int| 0 <= index < active.len())));
    }
}

/// Where there are no values, none goes to a peer.
proof fn lemma_nothing_sent(
    active: Seq<(Pubkey, BloomView)>,
    fanout: int,
    values: Seq<CrdsValue>,
    count: nat,
)
    requires
        values.len() == 0,
    ensures
        sent_to_first(active, fanout, values, count) == 0,
    decreases count,
{
    reveal(Seq::filter);
    if count > 0 {
        lemma_nothing_sent(active, fanout, values, (count - 1) as nat);
    }
}

/// The values of one origin go to the same peers, so that the peers can learn a tree
/// for it; but for those that a peer gets all the same.
pub proof fn law_one_origin_one_set_of_peers(
    active: Seq<(Pubkey, BloomView)>,
    fanout: int,
    one: CrdsValue,
    other: CrdsValue,
    index: int,
)
    requires
        one.origin() == other.origin(),
        !one.forced_to(active[index].0),
        !other.forced_to(active[index].0),
    ensures
        receives(active, fanout, one, index) == receives(active, fanout, other, index),
{
}

/// Each fresh value is that of an entry, and in the window.
proof fn lemma_fresh_values(entries: Seq<VersionedCrdsValue>, now: u64, timeout: u64, i: int)
    requires
        0 <= i < fresh_values(entries, now, timeout).len(),
    ensures
        ({
            let value = fresh_values(entries, now, timeout)[i];
            &&& in_window(value.data.spec_wallclock(), now, timeout)
            &&& exists|j: int| 0 <= j < entries.len() && (#[trigger] entries[j]).value == value
        }),
    decreases entries.len(),
{
    reveal(Seq::filter_map);
    let fresh = fresh_values(entries, now, timeout);
    if entries.len() > 0 {
        let rest = entries.drop_last();
        let before = fresh_values(rest, now, timeout);
        if i < before.len() {
            assert(fresh[i] == before[i]);
            lemma_fresh_values(rest, now, timeout, i);
            let j = choose|j: int| 0 <= j < rest.len() && (#[trigger] rest[j]).value == before[i];
            assert(entries[j].value == fresh[i]);
        } else {
            assert(entries[entries.len() - 1].value == fresh[i]);
        }
    }
}

/// The number of consumed entries is where the first come to be too many bytes.
pub proof fn lemma_consumed_count(
    entries: Seq<VersionedCrdsValue>,
    now: u64,
    timeout: u64,
    max_bytes: usize,
    count: nat,
)
    requires
        count <= entries.len(),
    ensures
        ({
            let consumed = consumed_count(entries, now, timeout, max_bytes, count);
            &&& count <= consumed <= entries.len()
            &&& consumed == entries.len() || too_many_bytes(
                entries,
                now,
                timeout,
                max_bytes,
                consumed,
            )
            &&& forall|fewer: nat|
                count <= fewer < consumed ==> !#[trigger] too_many_bytes(
                    entries,
                    now,
                    timeout,
                    max_bytes,
                    fewer,
                )
        }),
    decreases entries.len() - count,
{
    if count < entries.len() && !too_many_bytes(entries, now, timeout, max_bytes, count) {
        lemma_consumed_count(entries, now, timeout, max_bytes, count + 1);
    }
}

/// Only values of the consumed entries are pushed, and none that is outside of the window:
/// such values are dropped silently.
pub proof fn law_pushed_values_are_in_window(
    entries: Seq<VersionedCrdsValue>,
    now: u64,
    timeout: u64,
    max_bytes: usize,
    value: CrdsValue,
)
    requires
        due_values(entries, now, timeout, max_bytes).contains(value),
    ensures
        in_window(value.data.spec_wallclock(), now, timeout),
        exists|j: int|
            {
                &&& 0 <= j < consumed_count(entries, now, timeout, max_bytes, 0)
                &&& j < entries.len()
                &&& (#[trigger] entries[j]).value == value
            },
{
    let count = consumed_count(entries, now, timeout, max_bytes, 0);
    lemma_consumed_count(entries, now, timeout, max_bytes, 0);
    let last: int = if too_many_bytes(entries, now, timeout, max_bytes, count) {
        count - 1
    } else {
        count as int
    };
    if last < 0 {
        reveal(Seq::filter_map);
        assert(entries.take(0) =~= Seq::<VersionedCrdsValue>::empty());
    }
    let some = entries.take(last);
    let due = fresh_values(some, now, timeout);
    let i = choose|i: int| 0 <= i < due.len() && due[i] == value;
    lemma_fresh_values(some, now, timeout, i);
    let j = choose|j: int| 0 <= j < some.len() && (#[trigger] some[j]).value == value;
    assert(entries[j].value == value);
}

/// The values that are pushed at a time have no more bytes than are allowed, as far as
/// bytes can be counted.
pub proof fn law_pushed_values_fit(
    entries: Seq<VersionedCrdsValue>,
    now: u64,
    timeout: u64,
    max_bytes: usize,
)
    ensures
        bytes_of(due_values(entries, now, timeout, max_bytes)) <= max_bytes || max_bytes
            == usize::MAX,
{
    let count = consumed_count(entries, now, timeout, max_bytes, 0);
    lemma_consumed_count(entries, now, timeout, max_bytes, 0);
    assert(!too_many_bytes(entries, now, timeout, max_bytes, 0)) by {
        reveal(Seq::filter_map);
        assert(entries.take(0) =~= Seq::<VersionedCrdsValue>::empty());
    }
    if too_many_bytes(entries, now, timeout, max_bytes, count) {
        assert(!too_many_bytes(entries, now, timeout, max_bytes, (count - 1) as nat));
    }
}

/// Every value is considered once: behind the consumed entries come exactly those that
/// were not consumed, the cursor never moves back nor beyond the table, and where entries
/// are left, some are consumed.
pub proof fn law_entries_are_consumed_once(
    crds: Crds,
    ordinal: u64,
    now: u64,
    timeout: u64,
    max_bytes: usize,
)
    requires
        crds.wf(),
    ensures
        ({
            let entries = entries_since(crds.entries(), ordinal);
            let count = consumed_count(entries, now, timeout, max_bytes, 0);
            let next = ordinal_behind(entries, ordinal, count);
            &&& next >= ordinal
            &&& ordinal <= crds.next_ordinal() ==> next <= crds.next_ordinal()
            &&& count <= entries.len()
            &&& entries.len() > 0 ==> count > 0
            &&& entries_since(crds.entries(), next) == entries.skip(count as int)
        }),
{
    let table = crds.entries();
    let entries = entries_since(table, ordinal);
    let count = consumed_count(entries, now, timeout, max_bytes, 0);
    let next = ordinal_behind(entries, ordinal, count);
    lemma_consumed_count(entries, now, timeout, max_bytes, 0);
    assert(!too_many_bytes(entries, now, timeout, max_bytes, 0)) by {
        reveal(Seq::filter_map);
        assert(entries.take(0) =~= Seq::<VersionedCrdsValue>::empty());
    }
    let first = lemma_first_since(crds, ordinal);
    lemma_entries_since(table, ordinal, first);
    if count > 0 {
        let at = first + count - 1;
        assert(entries[count - 1] == table[at]);
        assert(table[at].ordinal < crds.next_ordinal());
        assert forall|i: int| 0 <= i < first + count implies (#[trigger] table[i]).ordinal < next by {
            if i < at {
                assert(table[i].ordinal < table[at].ordinal);
            }
        }
        assert forall|i: int| first + count <= i < table.len() implies (#[trigger] table[i]).ordinal
            >= next by {
            assert(table[at].ordinal < table[i].ordinal);
        }
        lemma_entries_since(table, next, first + count);
        assert(table.skip(first + count) =~= entries.skip(count as int));
    } else {
        assert(entries.skip(0) =~= entries);
    }
}

/// What was taken in is pushed: a value that was just inserted is due, as the last one,
/// where it is in the window and all that is fresh fits.
pub proof fn law_new_values_are_due(
    before: Crds,
    after: Crds,
    value: CrdsValue,
    local_timestamp: u64,
    replaced: Option<VersionedCrdsValue>,
    ordinal: u64,
    now: u64,
    timeout: u64,
    max_bytes: usize,
)
    requires
        before.wf(),
        after.wf(),
        inserted(before, after, value, local_timestamp, Ok(replaced)),
        ordinal <= before.next_ordinal(),
        in_window(value.data.spec_wallclock(), now, timeout),
        bytes_of(fresh_values(entries_since(after.entries(), ordinal), now, timeout)) <= max_bytes,
    ensures
        ({
            let due = due_values(entries_since(after.entries(), ordinal), now, timeout, max_bytes);
            due.len() > 0 && due.last() == value
        }),
{
    reveal(Seq::filter);
    reveal(Seq::filter_map);
    let entries = entries_since(after.entries(), ordinal);
    let count = consumed_count(entries, now, timeout, max_bytes, 0);
    assert(after.entries().last().value == value);
    assert(entries.last() == after.entries().last());
    lemma_consumed_count(entries, now, timeout, max_bytes, 0);
    assert forall|fewer: nat| fewer <= entries.len() implies !#[trigger] too_many_bytes(
        entries,
        now,
        timeout,
        max_bytes,
        fewer,
    ) by {
        lemma_bytes_grow(entries, now, timeout, fewer);
    }
    assert(entries.take(count as int) =~= entries);
}

/// Fewer entries have fewer bytes.
proof fn lemma_bytes_grow(entries: Seq<VersionedCrdsValue>, now: u64, timeout: u64, count: nat)
    requires
        count <= entries.len(),
    ensures
        bytes_of(fresh_values(entries.take(count as int), now, timeout)) <= bytes_of(
            fresh_values(entries, now, timeout),
        ),
    decreases entries.len(),
{
    reveal(Seq::filter_map);
    if count == entries.len() {
        assert(entries.take(count as int) =~= entries);
    } else {
        let rest = entries.drop_last();
        let fewer = fresh_values(rest, now, timeout);
        let all = fresh_values(entries, now, timeout);
        lemma_bytes_grow(rest, now, timeout, count);
        assert(rest.take(count as int) =~= entries.take(count as int));
        if all.len() > fewer.len() {
            assert(all.drop_last() =~= fewer);
        }
    }
}

/// The entries from an ordinal on start at some place.
proof fn lemma_first_since(crds: Crds, ordinal: u64) -> (first: int)
    requires
        crds.wf(),
    ensures
        0 <= first <= crds.entries().len(),
        forall|i: int| 0 <= i < first ==> (#[trigger] crds.entries()[i]).ordinal < ordinal,
        forall|i: int|
            first <= i < crds.entries().len() ==> (#[trigger] crds.entries()[i]).ordinal >= ordinal,
{
    lemma_first_since_below(crds, ordinal, crds.entries().len() as int)
}

proof fn lemma_first_since_below(crds: Crds, ordinal: u64, high: int) -> (first: int)
    requires
        crds.wf(),
        0 <= high <= crds.entries().len(),
        forall|i: int|
            high <= i < crds.entries().len() ==> (#[trigger] crds.entries()[i]).ordinal >= ordinal,
    ensures
        0 <= first <= crds.entries().len(),
        forall|i: int| 0 <= i < first ==> (#[trigger] crds.entries()[i]).ordinal < ordinal,
        forall|i: int|
            first <= i < crds.entries().len() ==> (#[trigger] crds.entries()[i]).ordinal >= ordinal,
    decreases high,
{
    if high == 0 {
        0
    } else if crds.entries()[high - 1].ordinal >= ordinal {
        lemma_first_since_below(crds, ordinal, high - 1)
    } else {
        assert forall|i: int| 0 <= i < high implies (#[trigger] crds.entries()[i]).ordinal
            < ordinal by {
            if i < high - 1 {
                assert(crds.entries()[i].ordinal < crds.entries()[high - 1].ordinal);
            }
        }
        high
    }
}

/// Each value is handed out by at most one push: with an unchanged table, no value is both
/// in the messages of a push and in those of a later one, which starts at the cursor that
/// the first one left or behind it. The cursor never moves back, so that is where every
/// later push starts.
pub proof fn law_values_are_pushed_once(
    crds: Crds,
    first: CrdsGossipPush,
    second: CrdsGossipPush,
    now: u64,
    later: u64,
    peer: Pubkey,
    other: Pubkey,
    value: CrdsValue,
)
    requires
        crds.wf(),
        second.cursor() >= first.cursor_after(&crds, now),
        first.messages(&crds, now).contains_key(peer),
        first.messages(&crds, now)[peer].contains(value),
    ensures
        first.cursor_after(&crds, now) >= first.cursor(),
        !second.due(&crds, later).contains(value),
        second.messages(&crds, later).contains_key(other) ==> !second.messages(
            &crds,
            later,
        )[other].contains(value),
{
    let table = crds.entries();
    let timeout = first.msg_timeout;
    let entries = entries_since(table, first.cursor());
    let count = consumed_count(entries, now, timeout, first.max_bytes, 0);
    law_messages_respect_prunes(
        active_view(first.active()),
        first.fanout(),
        first.due(&crds, now),
        peer,
        value,
    );
    law_messages_respect_prunes(
        active_view(second.active()),
        second.fanout(),
        second.due(&crds, later),
        other,
        value,
    );
    law_entries_are_consumed_once(crds, first.cursor(), now, timeout, first.max_bytes);
    law_pushed_values_are_in_window(entries, now, timeout, first.max_bytes, value);
    if second.due(&crds, later).contains(value) {
        let rest = entries_since(table, second.cursor());
        law_pushed_values_are_in_window(
            rest,
            later,
            second.msg_timeout,
            second.max_bytes,
            value,
        );
        let i = choose|i: int|
            0 <= i < count && i < entries.len() && (#[trigger] entries[i]).value == value;
        let j = choose|j: int| 0 <= j < rest.len() && (#[trigger] rest[j]).value == value;
        let start = lemma_first_since(crds, first.cursor());
        let restart = lemma_first_since(crds, second.cursor());
        lemma_entries_since(table, first.cursor(), start);
        lemma_entries_since(table, second.cursor(), restart);
        let (a, b, last) = (start + i, restart + j, start + count - 1);
        assert(entries[i] == table[a]);
        assert(rest[j] == table[b]);
        assert(entries[count - 1] == table[last]);
        assert(table[last].ordinal < crds.next_ordinal());
        if a < last {
            assert(table[a].ordinal < table[last].ordinal);
        }
        assert(table[b].ordinal >= second.cursor());
        assert(a < b || b < a);
    }
}

/// Nothing is left pending by a push where all that is fresh fits: values outside of the
/// window, and values that every peer pruned, are no longer pending either.
pub proof fn law_nothing_is_pending_after_a_push(push: CrdsGossipPush, crds: Crds, now: u64)
    requires
        crds.wf(),
        push.fanout() > 0,
        bytes_of(
            fresh_values(
                entries_since(crds.entries(), push.cursor()),
                now,
                push.msg_timeout,
            ),
        ) <= push.max_bytes,
    ensures
        entries_since(crds.entries(), push.cursor_after(&crds, now)).len() == 0,
{
    let entries = entries_since(crds.entries(), push.cursor());
    let count = consumed_count(entries, now, push.msg_timeout, push.max_bytes, 0);
    law_entries_are_consumed_once(crds, push.cursor(), now, push.msg_timeout, push.max_bytes);
    lemma_consumed_count(entries, now, push.msg_timeout, push.max_bytes, 0);
    lemma_bytes_grow(entries, now, push.msg_timeout, count);
}

/// What one call on the overlay does to the active set: nothing, or what a prune does, or
/// what a refresh does.
pub open spec fn active_step(before: CrdsGossipPush, after: CrdsGossipPush) -> bool {
    ||| active_view(after.active()) == active_view(before.active())
    ||| exists|self_pubkey: Pubkey, peer: Pubkey, origins: Seq<Pubkey>| #[trigger]
        prune_heeded(before, after, self_pubkey, peer, origins)
    ||| exists|
        options: Seq<PushOption>,
        order: Seq<usize>,
        rotation: Seq<Pubkey>,
        network_size: usize,
        ratio: usize,
    |
        {
            &&& ratio > 0
            &&& is_permutation(order, options.len())
            &&& #[trigger] refreshed_in_order(
                before,
                after,
                options,
                order,
                rotation,
                network_size,
                ratio,
            )
        }
    ||| exists|
        options: Seq<PushOption>,
        inverse_weights: Seq<u64>,
        network_size: usize,
        ratio: usize,
    |
        {
            &&& ratio > 0
            &&& inverse_weights.len() == options.len()
            &&& #[trigger] refreshed(
                before,
                after,
                options,
                inverse_weights,
                network_size,
                ratio,
            )
        }
}

/// A peer is active in each of the states, which one call after another leads through.
pub open spec fn stays_active(states: Seq<CrdsGossipPush>, peer: Pubkey) -> bool {
    &&& states.len() > 0
    &&& forall|i: int|
        0 <= i < states.len() ==> (#[trigger] states[i]).wf() && has_key(states[i].active(), peer)
    &&& forall|i: int, j: int|
        0 <= i < states.len() && j == i + 1 && j < states.len() ==> #[trigger] active_step(
            states[i],
            states[j],
        )
}

/// The filter of an active peer holds an origin.
pub open spec fn filter_holds(push: CrdsGossipPush, peer: Pubkey, origin: Pubkey) -> bool {
    &&& has_key(push.active(), peer)
    &&& push.active()[index_of_key(push.active(), peer)].1@.contains(origin)
}

/// A filter that holds an origin holds it after any call in which its peer stays active.
proof fn lemma_step_keeps_origin(
    before: CrdsGossipPush,
    after: CrdsGossipPush,
    peer: Pubkey,
    origin: Pubkey,
)
    requires
        before.wf(),
        after.wf(),
        active_step(before, after),
        filter_holds(before, peer, origin),
        has_key(after.active(), peer),
    ensures
        filter_holds(after, peer, origin),
{
    let active = before.active();
    let index = index_of_key(active, peer);
    assert(active[index].0 == peer);
    assert(active[index].1.wf());
    if active_view(after.active()) == active_view(active) {
        assert(active_view(after.active()).len() == active_view(active).len());
        assert(active_view(after.active())[index] == active_view(active)[index]);
        assert(after.active()[index].0 == peer);
        lemma_index_of_key(after.active(), index);
    } else if exists|self_pubkey: Pubkey, pruning: Pubkey, origins: Seq<Pubkey>| #[trigger]
        prune_heeded(before, after, self_pubkey, pruning, origins) {
        let (self_pubkey, pruning, origins) = choose|
            self_pubkey: Pubkey,
            pruning: Pubkey,
            origins: Seq<Pubkey>,
        | #[trigger] prune_heeded(before, after, self_pubkey, pruning, origins);
        law_prunes_add_up(active[index].1@, self_pubkey, origins, origin);
        if has_key(active, pruning) {
            let at = index_of_key(active, pruning);
            if at != index {
                assert(after.active()[index] == active[index]);
            }
            assert(after.active()[index].0 == peer);
            lemma_index_of_key(after.active(), index);
        }
    } else if exists|
        options: Seq<PushOption>,
        order: Seq<usize>,
        rotation: Seq<Pubkey>,
        network_size: usize,
        ratio: usize,
    |
        ratio > 0 && is_permutation(order, options.len()) && #[trigger] refreshed_in_order(
            before,
            after,
            options,
            order,
            rotation,
            network_size,
            ratio,
        ) {
        let (options, order, rotation, network_size, ratio) = choose|
            options: Seq<PushOption>,
            order: Seq<usize>,
            rotation: Seq<Pubkey>,
            network_size: usize,
            ratio: usize,
        |
            ratio > 0 && is_permutation(order, options.len()) && #[trigger] refreshed_in_order(
                before,
                after,
                options,
                order,
                rotation,
                network_size,
                ratio,
            );
        law_refreshed_peers(before, after, options, order, rotation, network_size, ratio, peer);
    } else {
        let (options, inverse_weights, network_size, ratio) = choose|
            options: Seq<PushOption>,
            inverse_weights: Seq<u64>,
            network_size: usize,
            ratio: usize,
        |
            ratio > 0 && inverse_weights.len() == options.len() && #[trigger] refreshed(
                before,
                after,
                options,
                inverse_weights,
                network_size,
                ratio,
            );
        if options.len() > 0 {
            let (order, rotation) = choose|order: Seq<usize>, rotation: Seq<Pubkey>|
                {
                    &&& is_weighted_order(inverse_weights, order)
                    &&& rotation.to_multiset() == keys_of(active).to_multiset()
                    &&& #[trigger] refreshed_in_order(
                        before,
                        after,
                        options,
                        order,
                        rotation,
                        network_size,
                        ratio,
                    )
                };
            law_refreshed_peers(before, after, options, order, rotation, network_size, ratio, peer);
        }
    }
}

/// What a peer pruned stays pruned for it: once its filter holds an origin, it holds that
/// origin as long as the peer stays active, whatever is called.
pub proof fn law_pruned_origins_stay_pruned(
    states: Seq<CrdsGossipPush>,
    peer: Pubkey,
    origin: Pubkey,
)
    requires
        stays_active(states, peer),
        filter_holds(states[0], peer, origin),
    ensures
        filter_holds(states.last(), peer, origin),
    decreases states.len(),
{
    if states.len() > 1 {
        let rest = states.drop_last();
        let last = states.len() - 1;
        assert forall|i: int| 0 <= i < rest.len() implies (#[trigger] rest[i]).wf() && has_key(
            rest[i].active(),
            peer,
        ) by {
            assert(rest[i] == states[i]);
        }
        assert forall|i: int, j: int|
            0 <= i < rest.len() && j == i + 1 && j < rest.len() implies #[trigger] active_step(
            rest[i],
            rest[j],
        ) by {
            assert(active_step(states[i], states[j]));
        }
        law_pruned_origins_stay_pruned(rest, peer, origin);
        assert(active_step(states[last - 1], states[last]));
        lemma_step_keeps_origin(states[last - 1], states[last], peer, origin);
    }
}

/// A peer is sent nothing from an origin that it pruned: after it pruned the origin, no
/// push sends it a value of that origin as long as it stays active, whatever is called
/// before the push; but for values of the node itself and those that it gets all the same.
pub proof fn law_pruned_origins_are_not_pushed(
    before: CrdsGossipPush,
    states: Seq<CrdsGossipPush>,
    self_pubkey: Pubkey,
    peer: Pubkey,
    origins: Seq<Pubkey>,
    crds: Crds,
    now: u64,
    value: CrdsValue,
)
    requires
        before.wf(),
        has_key(before.active(), peer),
        stays_active(states, peer),
        prune_heeded(before, states[0], self_pubkey, peer, origins),
        origins.contains(value.origin()),
        value.origin() != self_pubkey,
        !value.forced_to(peer),
    ensures
        ({
            let messages = states.last().messages(&crds, now);
            messages.contains_key(peer) ==> !messages[peer].contains(value)
        }),
{
    let index = index_of_key(before.active(), peer);
    let pruned = states[0].active();
    assert(before.active()[index].1.wf());
    law_prune_adds_origins(before.active()[index].1@, self_pubkey, origins, value.origin());
    assert(pruned[index].0 == peer);
    assert(states[0].wf());
    lemma_index_of_key(pruned, index);
    law_pruned_origins_stay_pruned(states, peer, value.origin());
    let push = states.last();
    let at = index_of_key(push.active(), peer);
    assert(states[states.len() - 1] == push);
    assert(push.active()[at].0 == peer);
    assert(unique_keys(active_view(push.active()))) by {
        let view = active_view(push.active());
        assert forall|i: int, j: int|
            #![trigger view[i], view[j]]
            0 <= i < j < view.len() implies view[i].0 != view[j].0 by {
            assert(push.active()[i].0 != push.active()[j].0);
        }
    }
    lemma_index_of_key(active_view(push.active()), at);
    law_messages_respect_prunes(
        active_view(push.active()),
        push.fanout(),
        push.due(&crds, now),
        peer,
        value,
    );
}

} // verus!
