//! To which peers values go.

use crate::active_set::{index_map_get_index, ActiveSet};
use crate::bloom::{Bloom, BloomView};
use crate::crds_value::CrdsValue;
use crate::keyed::lemma_index_of_key;
use crate::keyed::{has_key, index_of_key, unique_keys};
use crate::pubkey::Pubkey;
use crate::pubkey_map::PubkeyMap;
use vstd::arithmetic::div_mod::{lemma_fundamental_div_mod, lemma_fundamental_div_mod_converse_mod};
use vstd::prelude::*;

verus! {

/// The peers of an active set and what their filters hold.
pub open spec fn active_view(entries: Seq<(Pubkey, Bloom)>) -> Seq<(Pubkey, BloomView)> {
    Seq::new(entries.len(), |i: int| (entries[i].0, entries[i].1@))
}

/// No peer occurs twice, and the filters are in order.
pub open spec fn active_wf(entries: Seq<(Pubkey, Bloom)>) -> bool {
    &&& unique_keys(entries)
    &&& forall|i: int| 0 <= i < entries.len() ==> (#[trigger] entries[i]).1.wf()
}

/// The peer at `index` is one of the `fanout` peers for the values of `origin`: they
/// follow each other, and the first byte of the origin says where they start.
pub open spec fn in_fanout(origin: Pubkey, fanout: int, index: int, len: int) -> bool {
    (index - origin.bytes()[0] as int) % len < fanout
}

/// The peer at `index` did not prune the origin of `value`, or gets it all the same.
pub open spec fn accepts(
    active: Seq<(Pubkey, BloomView)>,
    value: CrdsValue,
    index: int,
) -> bool {
    !active[index].1.contains(value.origin()) || value.forced_to(active[index].0)
}

/// `value` goes to the peer at `index`.
pub open spec fn receives(
    active: Seq<(Pubkey, BloomView)>,
    fanout: int,
    value: CrdsValue,
    index: int,
) -> bool {
    in_fanout(value.origin(), fanout, index, active.len() as int) && accepts(active, value, index)
}

/// The values that go to the peer at `index`.
pub open spec fn sent_to(
    active: Seq<(Pubkey, BloomView)>,
    fanout: int,
    values: Seq<CrdsValue>,
    index: int,
) -> Seq<CrdsValue> {
    values.filter(|value: CrdsValue| receives(active, fanout, value, index))
}

/// The values that go to each peer, for the peers to which any go.
pub open spec fn messages_of(
    active: Seq<(Pubkey, BloomView)>,
    fanout: int,
    values: Seq<CrdsValue>,
) -> Map<Pubkey, Seq<CrdsValue>> {
    Map::new(
        |peer: Pubkey|
            has_key(active, peer) && sent_to(active, fanout, values, index_of_key(active, peer)).len()
                > 0,
        |peer: Pubkey| sent_to(active, fanout, values, index_of_key(active, peer)),
    )
}

/// The peers to which `value` goes, by their indices.
pub open spec fn receivers(
    active: Seq<(Pubkey, BloomView)>,
    fanout: int,
    value: CrdsValue,
) -> Set<int> {
    Set::new(|index: int| 0 <= index < active.len() && receives(active, fanout, value, index))
}

/// How often values go to peers.
pub open spec fn push_count(
    active: Seq<(Pubkey, BloomView)>,
    fanout: int,
    values: Seq<CrdsValue>,
) -> nat
    decreases values.len(),
{
    if values.len() == 0 {
        0
    } else {
        push_count(active, fanout, values.drop_last()) + receivers(
            active,
            fanout,
            values.last(),
        ).len()
    }
}

/// What messages hold.
pub open spec fn messages_view(messages: &PubkeyMap<Vec<CrdsValue>>) -> Map<
    Pubkey,
    Seq<CrdsValue>,
> {
    messages@.map_values(|values: Vec<CrdsValue>| values@)
}

/// The messages after `value` was handed to its first `fanout` peers, where they
/// accept it.
spec fn handed_out(
    active: Seq<(Pubkey, BloomView)>,
    fanout: int,
    value: CrdsValue,
    messages: Map<Pubkey, Seq<CrdsValue>>,
) -> Map<Pubkey, Seq<CrdsValue>> {
    Map::new(
        |peer: Pubkey| messages.contains_key(peer) || gets(active, fanout, value, peer),
        |peer: Pubkey|
            if gets(active, fanout, value, peer) {
                values_for(messages, peer).push(value)
            } else {
                messages[peer]
            },
    )
}

/// `value` goes to `peer`.
pub open spec fn gets(
    active: Seq<(Pubkey, BloomView)>,
    fanout: int,
    value: CrdsValue,
    peer: Pubkey,
) -> bool {
    has_key(active, peer) && receives(active, fanout, value, index_of_key(active, peer))
}

/// The values for `peer`.
pub open spec fn values_for(messages: Map<Pubkey, Seq<CrdsValue>>, peer: Pubkey) -> Seq<CrdsValue> {
    if messages.contains_key(peer) {
        messages[peer]
    } else {
        Seq::empty()
    }
}

/// The peer at a turn is the one that the turn adds.
pub proof fn lemma_turn(origin: Pubkey, turn: int, index: int, len: int)
    requires
        0 <= turn < len,
        0 <= index < len,
    ensures
        0 <= (origin.bytes()[0] + turn) % len < len,
        in_fanout(origin, turn + 1, index, len) <==> in_fanout(origin, turn, index, len) || index
            == (origin.bytes()[0] + turn) % len,
        !in_fanout(origin, turn, (origin.bytes()[0] + turn) % len, len),
{
    let offset = origin.bytes()[0] as int;
    let current = (offset + turn) % len;
    lemma_fundamental_div_mod(offset + turn, len);
    let q = (offset + turn) / len;
    assert(current - offset == (-q) * len + turn) by (nonlinear_arith)
        requires
            offset + turn == len * q + current,
    ;
    lemma_fundamental_div_mod_converse_mod(current - offset, len, -q, turn);
    lemma_fundamental_div_mod(index - offset, len);
    let p = (index - offset) / len;
    if (index - offset) % len == turn {
        assert(offset + turn == (-p) * len + index) by (nonlinear_arith)
            requires
                index - offset == len * p + turn,
        ;
        lemma_fundamental_div_mod_converse_mod(offset + turn, len, -p, index);
    }
}

/// One turn further is one index further, or back at the first one.
proof fn lemma_next_index(x: int, len: int)
    requires
        0 < len,
    ensures
        (x + 1) % len == if x % len + 1 == len { 0 } else { x % len + 1 },
{
    lemma_fundamental_div_mod(x, len);
    let (q, r) = (x / len, x % len);
    if r + 1 == len {
        assert(x + 1 == (q + 1) * len + 0) by (nonlinear_arith)
            requires
                x == len * q + r,
                r + 1 == len,
        ;
        lemma_fundamental_div_mod_converse_mod(x + 1, len, q + 1, 0);
    } else {
        assert(x + 1 == q * len + (r + 1)) by (nonlinear_arith)
            requires
                x == len * q + r,
        ;
        lemma_fundamental_div_mod_converse_mod(x + 1, len, q, r + 1);
    }
}

/// Handing out another value gives the messages of one value more.
proof fn lemma_next_value(
    active: Seq<(Pubkey, BloomView)>,
    fanout: int,
    values: Seq<CrdsValue>,
    value: CrdsValue,
)
    ensures
        handed_out(active, fanout, value, messages_of(active, fanout, values)) == messages_of(
            active,
            fanout,
            values.push(value),
        ),
{
    reveal(Seq::filter);
    let before = messages_of(active, fanout, values);
    let after = messages_of(active, fanout, values.push(value));
    assert(values.push(value).drop_last() =~= values);
    assert forall|peer: Pubkey| has_key(active, peer) implies {
        let index = index_of_key(active, peer);
        &&& sent_to(active, fanout, values.push(value), index) == (if receives(
            active,
            fanout,
            value,
            index,
        ) {
            sent_to(active, fanout, values, index).push(value)
        } else {
            sent_to(active, fanout, values, index)
        })
        &&& values_for(before, peer) == sent_to(active, fanout, values, index)
    } by {
        let index = index_of_key(active, peer);
        assert(values_for(before, peer) =~= sent_to(active, fanout, values, index));
    }
    assert(handed_out(active, fanout, value, before) =~= after);
}

/// Hands `value` to its `fanout` peers, where they accept it. Returns how many do.
fn hand_out(
    active_set: &ActiveSet,
    fanout: usize,
    value: &CrdsValue,
    messages: &mut PubkeyMap<Vec<CrdsValue>>,
) -> (count: usize)
    requires
        active_wf(active_set.entries()),
        0 < fanout <= active_set.entries().len(),
        old(messages).wf(),
    ensures
        final(messages).wf(),
        count == receivers(
            active_view(active_set.entries()),
            fanout as int,
            *value,
        ).len(),
        count <= fanout,
        messages_view(final(messages)) == handed_out(
            active_view(active_set.entries()),
            fanout as int,
            *value,
            messages_view(old(messages)),
        ),
{
    let ghost entries = active_set.entries();
    let ghost active = active_view(entries);
    let ghost before = messages_view(messages);
    let len: usize = active_set.len();
    let origin: Pubkey = value.pubkey();
    let offset: u8 = origin.byte(0);
    let mut index: usize = (offset as usize) % len;
    let mut count: usize = 0;
    let mut turn: usize = 0;
    proof {
        assert(receivers(active, 0, *value) =~= Set::<int>::empty());
        assert(handed_out(active, 0, *value, before) =~= before) by {
            assert forall|peer: Pubkey| !#[trigger] gets(active, 0, *value, peer) by {}
        }
    }
    while turn < fanout
        invariant
            entries == active_set.entries(),
            active == active_view(entries),
            active_wf(entries),
            len == entries.len(),
            0 < fanout <= len,
            origin == value.origin(),
            offset == origin.bytes()[0],
            turn <= fanout,
            count <= turn,
            index == (offset + turn) % len as int,
            messages.wf(),
            receivers(active, turn as int, *value).finite(),
            count == receivers(active, turn as int, *value).len(),
            messages_view(messages) == handed_out(active, turn as int, *value, before),
        decreases fanout - turn,
    {
        let ghost mid = messages_view(messages);
        proof {
            assert forall|i: int| 0 <= i < len implies {
                &&& #[trigger] in_fanout(origin, turn + 1, i, len as int) <==> in_fanout(
                    origin,
                    turn as int,
                    i,
                    len as int,
                ) || i == index
            } by {
                lemma_turn(origin, turn as int, i, len as int);
            }
            lemma_turn(origin, turn as int, 0, len as int);
        }
        match index_map_get_index(&active_set.map, index) {
            Some((peer, filter)) => {
                assert(entries[index as int].1.wf());
                if !filter.contains(&origin) || value.should_force_push(&peer) {
                    proof {
                        assert(accepts(active, *value, index as int));
                    }
                    match messages.get_mut(&peer) {
                        Some(values) => {
                            values.push(value.copy());
                        },
                        None => {
                            let mut values: Vec<CrdsValue> = Vec::new();
                            values.push(value.copy());
                            messages.insert(peer, values);
                        },
                    }
                    count += 1;
                } else {
                    assert(!accepts(active, *value, index as int));
                }
            },
            None => {},
        }
        proof {
            let reached = receivers(active, turn as int, *value);
            let more = receivers(active, turn + 1, *value);
            assert(!reached.contains(index as int));
            if accepts(active, *value, index as int) {
                assert(more =~= reached.insert(index as int));
            } else {
                assert(more =~= reached);
            }
            let peer = entries[index as int].0;
            assert(active[index as int].0 == peer);
            assert(unique_keys(active)) by {
                assert forall|i: int, j: int|
                    #![trigger active[i], active[j]]
                    0 <= i < j < active.len() implies active[i].0 != active[j].0 by {
                    assert(entries[i].0 != entries[j].0);
                }
            }
            lemma_index_of_key(active, index as int);
            assert forall|other: Pubkey| #[trigger]
                gets(active, turn + 1, *value, other) <==> gets(active, turn as int, *value, other)
                    || (other == peer && accepts(active, *value, index as int)) by {
                if has_key(active, other) {
                    let at = index_of_key(active, other);
                    assert(active[at].0 == other);
                    assert(in_fanout(origin, turn + 1, at, len as int) <==> in_fanout(
                        origin,
                        turn as int,
                        at,
                        len as int,
                    ) || at == index);
                }
            }
            assert(!gets(active, turn as int, *value, peer));
            assert(values_for(mid, peer) == values_for(before, peer));
            if accepts(active, *value, index as int) {
                let given = mid.insert(peer, values_for(mid, peer).push(*value));
                assert(messages_view(messages)[peer] =~= given[peer]);
                assert(messages_view(messages) =~= given);
                assert(given =~= handed_out(active, turn + 1, *value, before));
            } else {
                assert(mid =~= handed_out(active, turn + 1, *value, before));
            }
            lemma_next_index(offset + turn, len as int);
        }
        turn += 1;
        index = if index + 1 == len { 0 } else { index + 1 };
    }
    count
}

/// The values behind references.
pub open spec fn referenced(values: Seq<&CrdsValue>) -> Seq<CrdsValue> {
    Seq::new(values.len(), |i: int| *values[i])
}

/// Fewer values go to peers less often.
proof fn lemma_push_count_grows(
    active: Seq<(Pubkey, BloomView)>,
    fanout: int,
    values: Seq<CrdsValue>,
    fewer: int,
    more: int,
)
    requires
        0 <= fewer <= more <= values.len(),
    ensures
        push_count(active, fanout, values.take(fewer)) <= push_count(
            active,
            fanout,
            values.take(more),
        ),
    decreases more,
{
    if fewer < more {
        lemma_push_count_grows(active, fanout, values, fewer, more - 1);
        assert(values.take(more).drop_last() =~= values.take(more - 1));
    }
}

/// Hands each value to its `fanout` peers, where they accept it. Returns the values
/// for each peer, and how many they are in all.
pub fn hand_out_all(
    active_set: &ActiveSet,
    fanout: usize,
    values: &Vec<&CrdsValue>,
) -> (result: (PubkeyMap<Vec<CrdsValue>>, usize))
    requires
        active_wf(active_set.entries()),
        0 < fanout <= active_set.entries().len(),
        push_count(
            active_view(active_set.entries()),
            fanout as int,
            referenced(values@),
        ) <= usize::MAX,
    ensures
        result.0.wf(),
        messages_view(&result.0) == messages_of(
            active_view(active_set.entries()),
            fanout as int,
            referenced(values@),
        ),
        result.1 == push_count(
            active_view(active_set.entries()),
            fanout as int,
            referenced(values@),
        ),
{
    let ghost active = active_view(active_set.entries());
    let ghost all = referenced(values@);
    let mut messages: PubkeyMap<Vec<CrdsValue>> = PubkeyMap::new();
    let mut count: usize = 0;
    let mut i: usize = 0;
    proof {
        reveal(Seq::filter);
        assert(all.take(0) =~= Seq::<CrdsValue>::empty());
        assert(messages_view(&messages) =~= messages_of(active, fanout as int, all.take(0)));
    }
    while i < values.len()
        invariant
            active == active_view(active_set.entries()),
            all == referenced(values@),
            active_wf(active_set.entries()),
            0 < fanout <= active_set.entries().len(),
            push_count(active, fanout as int, all) <= usize::MAX,
            i <= all.len(),
            messages.wf(),
            messages_view(&messages) == messages_of(active, fanout as int, all.take(i as int)),
            count == push_count(active, fanout as int, all.take(i as int)),
        decreases all.len() - i,
    {
        proof {
            lemma_next_value(active, fanout as int, all.take(i as int), all[i as int]);
            assert(all.take(i + 1) =~= all.take(i as int).push(all[i as int]));
            assert(all.take(i + 1).drop_last() =~= all.take(i as int));
            lemma_push_count_grows(active, fanout as int, all, i + 1, all.len() as int);
            assert(all.take(all.len() as int) =~= all);
        }
        count += hand_out(active_set, fanout, values[i], &mut messages);
        i += 1;
    }
    assert(all.take(i as int) =~= all);
    (messages, count)
}

} // verus!
