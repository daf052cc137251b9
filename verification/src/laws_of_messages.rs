//! Which values a push sends to which peers, by the table and the active set before it.

use crate::bloom::Bloom;
use crate::crds::{entries_since, Crds, VersionedCrdsValue};
use crate::crds_gossip_push::CrdsGossipPush;
use crate::crds_value::{CrdsData, CrdsValue};
use crate::keyed::{has_key, index_of_key, unique_keys};
use crate::keyed::{lemma_filter_contains, lemma_filter_same, lemma_index_of_key};
use crate::laws_of_push::{
    law_entries_are_consumed_once, law_fanout_bounds_receivers, law_pushes_are_counted,
    lemma_consumed_count, sent_to_first,
};
use crate::messages::{
    accepts, active_view, in_fanout, messages_view, receivers, receives, sent_to,
};
use crate::pending::{
    bytes_of, consumed_count, fresh_values, in_window, too_many_bytes,
};
use crate::pubkey::Pubkey;
use crate::pubkey_map::PubkeyMap;
use vstd::arithmetic::div_mod::{lemma_fundamental_div_mod, lemma_fundamental_div_mod_converse_mod};
use vstd::prelude::*;

verus! {

/// The node that a value comes from.
pub open spec fn source_of(value: CrdsValue) -> Pubkey {
    match value.data {
        CrdsData::ContactInfo(info) => info.id,
        CrdsData::NodeInstance(node) => node.from,
        CrdsData::Record(record) => record.from,
    }
}

/// When a value was made.
pub open spec fn time_of(value: CrdsValue) -> int {
    match value.data {
        CrdsData::ContactInfo(info) => info.wallclock as int,
        CrdsData::NodeInstance(node) => node.wallclock as int,
        CrdsData::Record(record) => record.wallclock as int,
    }
}

/// The number of peers that a value is pushed to where none of them pruned its origin.
pub open spec fn peers_per_value(push: CrdsGossipPush) -> int {
    if push.push_fanout <= push.active().len() {
        push.push_fanout as int
    } else {
        push.active().len() as int
    }
}

/// The peer at `index` is one of those for the values of `origin`: of the peers in a row,
/// the one at the first byte of the origin and those behind it, round and round.
pub open spec fn is_peer_for(push: CrdsGossipPush, origin: Pubkey, index: int) -> bool {
    let first = origin.hi as int / 0x100_0000_0000_0000_0000_0000_0000_0000;
    exists|turn: int|
        0 <= turn < peers_per_value(push) && #[trigger] (first + turn) % push.active().len() as int
            == index
}

/// A value goes to the peer at `index`: it is one of those for its origin, and its filter
/// does not hold the origin, unless the value is the running instance of the peer itself.
pub open spec fn goes_to(push: CrdsGossipPush, value: CrdsValue, index: int) -> bool {
    let (peer, filter) = push.active()[index];
    &&& is_peer_for(push, source_of(value), index)
    &&& !filter@.contains(source_of(value)) || (value.data matches CrdsData::NodeInstance(node)
        && node.from == peer)
}

/// The value of a table entry was made at most `timeout` before or after `now`.
pub open spec fn is_recent(entry: VersionedCrdsValue, now: u64, timeout: u64) -> bool {
    now <= time_of(entry.value) + timeout && time_of(entry.value) <= now + timeout
}

/// The values of the recent ones of entries.
pub open spec fn recent_values(
    entries: Seq<VersionedCrdsValue>,
    now: u64,
    timeout: u64,
) -> Seq<CrdsValue> {
    entries.filter(|entry: VersionedCrdsValue| is_recent(entry, now, timeout)).map_values(
        |entry: VersionedCrdsValue| entry.value,
    )
}

/// The bytes of values on the wire, added up one by one.
pub open spec fn total_bytes(values: Seq<CrdsValue>) -> int {
    values.fold_left(0int, |sum: int, value: CrdsValue| sum + value.payload@.len())
}

/// The first byte of a key is what is left of its first word without the other bytes.
proof fn lemma_first_byte(key: Pubkey)
    ensures
        key.bytes()[0] == key.hi as int / 0x100_0000_0000_0000_0000_0000_0000_0000,
{
    let word = key.hi;
    assert(((word >> 120u128) & 0xff) as u8 == word
        / 0x100_0000_0000_0000_0000_0000_0000_0000u128) by (bit_vector);
}

/// The peers for an origin are those that its turns lead to.
proof fn lemma_in_fanout(push: CrdsGossipPush, origin: Pubkey, index: int)
    requires
        0 <= index < push.active().len(),
    ensures
        in_fanout(origin, push.fanout(), index, push.active().len() as int) <==> is_peer_for(
            push,
            origin,
            index,
        ),
{
    let len = push.active().len() as int;
    let first = origin.bytes()[0] as int;
    lemma_first_byte(origin);
    let turn = (index - first) % len;
    lemma_fundamental_div_mod(index - first, len);
    let p = (index - first) / len;
    if in_fanout(origin, push.fanout(), index, len) {
        assert(first + turn == (-p) * len + index) by (nonlinear_arith)
            requires
                index - first == len * p + turn,
        ;
        lemma_fundamental_div_mod_converse_mod(first + turn, len, -p, index);
        assert((first + turn) % len == index);
    }
    if is_peer_for(push, origin, index) {
        let other = choose|other: int|
            0 <= other < peers_per_value(push) && #[trigger] (first + other) % len == index;
        lemma_fundamental_div_mod(first + other, len);
        let q = (first + other) / len;
        assert(index - first == (-q) * len + other) by (nonlinear_arith)
            requires
                first + other == len * q + index,
        ;
        lemma_fundamental_div_mod_converse_mod(index - first, len, -q, other);
    }
}

/// No peer occurs twice in what an active set shows.
proof fn lemma_view_keys(entries: Seq<(Pubkey, Bloom)>, index: int)
    requires
        unique_keys(entries),
        0 <= index < entries.len(),
    ensures
        has_key(active_view(entries), entries[index].0),
        index_of_key(active_view(entries), entries[index].0) == index,
{
    let view = active_view(entries);
    assert forall|i: int, j: int|
        #![trigger view[i], view[j]]
        0 <= i < j < view.len() implies view[i].0 != view[j].0 by {
        assert(entries[i].0 != entries[j].0);
    }
    lemma_index_of_key(view, index);
}

/// The peer at an index gets, in their order, exactly those of the due values that go to
/// it, and a message only where there are any. Nobody else gets a message.
pub proof fn law_each_peer_gets_what_goes_to_it(
    push: CrdsGossipPush,
    crds: Crds,
    now: u64,
    index: int,
    other: Pubkey,
)
    requires
        push.wf(),
        0 <= index < push.active().len(),
    ensures
        ({
            let messages = push.messages(&crds, now);
            let peer = push.active()[index].0;
            let sent = push.due(&crds, now).filter(
                |value: CrdsValue| goes_to(push, value, index),
            );
            &&& messages.contains_key(peer) <==> sent.len() > 0
            &&& messages.contains_key(peer) ==> messages[peer] == sent
            &&& messages.contains_key(other) ==> exists|i: int|
                0 <= i < push.active().len() && (#[trigger] push.active()[i]).0 == other
        }),
{
    let view = active_view(push.active());
    let due = push.due(&crds, now);
    let peer = push.active()[index].0;
    let direct = |value: CrdsValue| goes_to(push, value, index);
    let stated = |value: CrdsValue| receives(view, push.fanout(), value, index);
    lemma_view_keys(push.active(), index);
    assert forall|value: CrdsValue| #[trigger] direct(value) == stated(value) by {
        lemma_in_fanout(push, source_of(value), index);
    }
    lemma_filter_same(due, direct, stated);
    assert(sent_to(view, push.fanout(), due, index) == due.filter(direct));
    if push.fanout() == 0 {
        assert forall|value: CrdsValue| !#[trigger] direct(value) by {}
        lemma_filter_none(due, direct);
    }
    if push.messages(&crds, now).contains_key(other) {
        let i = index_of_key(view, other);
        assert(view[i].0 == other);
        assert(push.active()[i].0 == other);
    }
}

/// A filter that admits nothing leaves nothing.
proof fn lemma_filter_none<A>(items: Seq<A>, pred: spec_fn(A) -> bool)
    requires
        forall|item: A| !#[trigger] pred(item),
    ensures
        items.filter(pred).len() == 0,
    decreases items.len(),
{
    reveal(Seq::filter);
    if items.len() > 0 {
        lemma_filter_none(items.drop_last(), pred);
    }
}

/// What messages hold for a peer is what its vector holds.
pub proof fn law_messages_are_vectors(messages: &PubkeyMap<Vec<CrdsValue>>, peer: Pubkey)
    ensures
        messages_view(messages).contains_key(peer) == messages@.contains_key(peer),
        messages@.contains_key(peer) ==> messages_view(messages)[peer] == messages@[peer]@,
{
}

/// A due value whose origin no active peer pruned goes to exactly as many peers as the
/// fanout says or, where fewer are active, to all of them.
pub proof fn law_unpruned_values_go_to_fanout_peers(
    push: CrdsGossipPush,
    crds: Crds,
    now: u64,
    value: CrdsValue,
)
    requires
        push.wf(),
        push.due(&crds, now).contains(value),
        forall|i: int|
            0 <= i < push.active().len() ==> !(#[trigger] push.active()[i]).1@.contains(
                source_of(value),
            ),
    ensures
        ({
            let messages = push.messages(&crds, now);
            let holders = Set::new(
                |i: int|
                    {
                        &&& 0 <= i < push.active().len()
                        &&& messages.contains_key(push.active()[i].0)
                        &&& messages[push.active()[i].0].contains(value)
                    },
            );
            &&& holders.finite()
            &&& holders.len() == if push.push_fanout < push.active().len() {
                push.push_fanout as nat
            } else {
                push.active().len()
            }
        }),
{
    let messages = push.messages(&crds, now);
    let view = active_view(push.active());
    let due = push.due(&crds, now);
    let holders = Set::new(
        |i: int|
            {
                &&& 0 <= i < push.active().len()
                &&& messages.contains_key(push.active()[i].0)
                &&& messages[push.active()[i].0].contains(value)
            },
    );
    assert forall|i: int| 0 <= i < view.len() implies accepts(view, value, i) by {
        assert(!push.active()[i].1@.contains(source_of(value)));
    }
    law_fanout_bounds_receivers(view, push.fanout(), value);
    assert forall|i: int| holders.contains(i) <==> receivers(view, push.fanout(), value).contains(
        i,
    ) by {
        if 0 <= i < push.active().len() {
            law_each_peer_gets_what_goes_to_it(push, crds, now, i, push.active()[i].0);
            lemma_in_fanout(push, source_of(value), i);
            lemma_filter_contains(
                due,
                |v: CrdsValue| goes_to(push, v, i),
                value,
            );
            let sent = due.filter(|v: CrdsValue| goes_to(push, v, i));
            if sent.contains(value) {
                let k = choose|k: int| 0 <= k < sent.len() && sent[k] == value;
                assert(sent.len() > 0);
            }
        }
    }
    assert(holders =~= receivers(view, push.fanout(), value));
}

/// What a push counts are the values in its messages, those for each peer added up.
pub proof fn law_counted_pushes_are_sent_values(push: CrdsGossipPush, crds: Crds, now: u64)
    requires
        push.wf(),
    ensures
        push.pushes(&crds, now) == Seq::new(
            push.active().len(),
            |i: int|
                if push.messages(&crds, now).contains_key(push.active()[i].0) {
                    push.messages(&crds, now)[push.active()[i].0].len() as int
                } else {
                    0
                },
        ).fold_left(0int, |sum: int, count: int| sum + count),
{
    let view = active_view(push.active());
    let due = push.due(&crds, now);
    let counts = Seq::new(
        push.active().len(),
        |i: int|
            if push.messages(&crds, now).contains_key(push.active()[i].0) {
                push.messages(&crds, now)[push.active()[i].0].len() as int
            } else {
                0
            },
    );
    law_pushes_are_counted(view, push.fanout(), due);
    assert forall|i: int| 0 <= i < counts.len() implies #[trigger] counts[i] == if push.fanout()
        == 0 {
        0
    } else {
        sent_to(view, push.fanout(), due, i).len() as int
    } by {
        lemma_view_keys(push.active(), i);
    }
    lemma_counts(push, due, counts, counts.len());
    assert(counts.take(counts.len() as int) =~= counts);
}

/// The counts of the first peers add up.
proof fn lemma_counts(push: CrdsGossipPush, due: Seq<CrdsValue>, counts: Seq<int>, count: nat)
    requires
        count <= counts.len() == push.active().len(),
        forall|i: int|
            0 <= i < counts.len() ==> #[trigger] counts[i] == if push.fanout() == 0 {
                0
            } else {
                sent_to(active_view(push.active()), push.fanout(), due, i).len() as int
            },
    ensures
        counts.take(count as int).fold_left(0int, |sum: int, one: int| sum + one)
            == if push.fanout() == 0 {
            0
        } else {
            sent_to_first(active_view(push.active()), push.fanout(), due, count) as int
        },
    decreases count,
{
    if count > 0 {
        lemma_counts(push, due, counts, (count - 1) as nat);
        assert(counts.take(count as int).drop_last() =~= counts.take(count - 1));
        assert(counts.take(count as int).last() == counts[count - 1]);
    }
}

/// What is pending are the entries of the table from the cursor on, in their order.
pub proof fn law_pending_entries(crds: Crds, ordinal: u64)
    ensures
        entries_since(crds.entries(), ordinal) == crds.entries().filter(
            |entry: VersionedCrdsValue| ordinal <= entry.ordinal,
        ),
{
    let direct = |entry: VersionedCrdsValue| ordinal <= entry.ordinal;
    let stated = |entry: VersionedCrdsValue| entry.ordinal >= ordinal;
    lemma_filter_same(crds.entries(), direct, stated);
}

/// The fresh values are those of the recent entries.
proof fn lemma_fresh_is_recent(entries: Seq<VersionedCrdsValue>, now: u64, timeout: u64)
    ensures
        fresh_values(entries, now, timeout) == recent_values(entries, now, timeout),
    decreases entries.len(),
{
    reveal(Seq::filter);
    reveal(Seq::filter_map);
    let recent = recent_values(entries, now, timeout);
    if entries.len() > 0 {
        let rest = entries.drop_last();
        lemma_fresh_is_recent(rest, now, timeout);
        if is_recent(entries.last(), now, timeout) {
            assert(recent =~= recent_values(rest, now, timeout).push(entries.last().value));
        } else {
            assert(recent =~= recent_values(rest, now, timeout));
        }
    }
    assert(fresh_values(entries, now, timeout) =~= recent);
}

/// The bytes of values are what adding them up gives.
proof fn lemma_bytes_are_total(values: Seq<CrdsValue>)
    ensures
        bytes_of(values) == total_bytes(values),
    decreases values.len(),
{
    if values.len() > 0 {
        lemma_bytes_are_total(values.drop_last());
    }
}

/// A push considers the pending entries from the front. Due are the values of the recent
/// ones, as many as fit. Either all entries are considered, and the cursor moves behind the
/// last one, or it stops at a recent entry that no longer fits, which is passed over: the
/// cursor moves behind it.
pub proof fn law_due_values_are_the_recent_ones_that_fit(
    push: CrdsGossipPush,
    crds: Crds,
    now: u64,
) -> (count: int)
    requires
        crds.wf(),
    ensures
        ({
            let pending = crds.entries().filter(
                |entry: VersionedCrdsValue| push.cursor() <= entry.ordinal,
            );
            let due = push.due(&crds, now);
            let next = push.cursor_after(&crds, now);
            &&& 0 <= count <= pending.len()
            &&& due == recent_values(pending.take(count), now, push.msg_timeout)
            &&& total_bytes(due) <= push.max_bytes || push.max_bytes == usize::MAX
            &&& count < pending.len() ==> {
                &&& is_recent(pending[count], now, push.msg_timeout)
                &&& total_bytes(due) + pending[count].value.payload@.len() > push.max_bytes
            }
            &&& push.active().len() == 0 || push.push_fanout == 0 ==> next == push.cursor()
            &&& push.active().len() > 0 && push.push_fanout > 0 ==> {
                &&& count < pending.len() ==> next == pending[count].ordinal + 1
                &&& count == pending.len() > 0 ==> next == pending.last().ordinal + 1
                &&& count == pending.len() == 0 ==> next == push.cursor()
            }
        }),
{
    let pending = entries_since(crds.entries(), push.cursor());
    let (timeout, max_bytes) = (push.msg_timeout, push.max_bytes);
    let consumed = consumed_count(pending, now, timeout, max_bytes, 0);
    law_pending_entries(crds, push.cursor());
    lemma_consumed_count(pending, now, timeout, max_bytes, 0);
    law_entries_are_consumed_once(crds, push.cursor(), now, timeout, max_bytes);
    lemma_ordinals(crds, push.cursor());
    let refused = too_many_bytes(pending, now, timeout, max_bytes, consumed);
    assert(!too_many_bytes(pending, now, timeout, max_bytes, 0)) by {
        reveal(Seq::filter_map);
        assert(pending.take(0) =~= Seq::<VersionedCrdsValue>::empty());
    }
    let count: int = if refused { consumed - 1 } else { consumed as int };
    let due = push.due(&crds, now);
    lemma_fresh_is_recent(pending.take(count), now, timeout);
    lemma_bytes_are_total(due);
    if refused {
        reveal(Seq::filter_map);
        let more = fresh_values(pending.take(consumed as int), now, timeout);
        assert(pending.take(consumed as int).drop_last() =~= pending.take(count));
        assert(!too_many_bytes(pending, now, timeout, max_bytes, count as nat));
        assert(is_recent(pending[count], now, timeout) <==> in_window(
            pending[count].value.data.spec_wallclock(),
            now,
            timeout,
        ));
        if in_window(pending[count].value.data.spec_wallclock(), now, timeout) {
            assert(more =~= due.push(pending[count].value));
            assert(more.drop_last() =~= due);
        } else {
            assert(more =~= due);
        }
    } else {
        assert(count == pending.len());
    }
    count
}

/// The ordinals of pending entries can be counted on.
proof fn lemma_ordinals(crds: Crds, ordinal: u64)
    requires
        crds.wf(),
    ensures
        forall|i: int|
            0 <= i < entries_since(crds.entries(), ordinal).len() ==> (#[trigger] entries_since(
                crds.entries(),
                ordinal,
            )[i]).ordinal < u64::MAX,
{
    let pending = entries_since(crds.entries(), ordinal);
    let pred = |entry: VersionedCrdsValue| entry.ordinal >= ordinal;
    assert forall|i: int| 0 <= i < pending.len() implies (#[trigger] pending[i]).ordinal
        < u64::MAX by {
        assert(pending.contains(pending[i]));
        lemma_filter_contains(crds.entries(), pred, pending[i]);
        let j = choose|j: int|
            0 <= j < crds.entries().len() && crds.entries()[j] == pending[i];
        assert(crds.entries()[j].ordinal < crds.next_ordinal());
    }
}

} // verus!
