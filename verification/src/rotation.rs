//! How peers leave the active set and others come in.

use crate::active_set::{
    index_map_get_index, index_map_insert, index_map_swap_remove, swap_removed, ActiveSet,
};
use crate::bloom::{spec_num_bits, spec_num_keys, Bloom, BloomView};
use crate::keyed::{as_map, has_key, index_of_key, keys_of, lemma_index_of_key, unique_keys};
use crate::messages::active_wf;
use crate::pubkey::Pubkey;
use vstd::prelude::*;

verus! {

/// Filters are made for at least this many items.
pub const CRDS_GOSSIP_DEFAULT_BLOOM_ITEMS: usize = 500;

/// Filters have at most this many bits.
pub const MAX_BLOOM_BITS: usize = 32_768;

/// The first `need` of `ids`, in the given order, that are not active, each once.
pub open spec fn picked<V>(
    ids: Seq<Pubkey>,
    order: Seq<usize>,
    active: Seq<(Pubkey, V)>,
    need: nat,
) -> Seq<Pubkey>
    decreases order.len(),
{
    if order.len() == 0 {
        Seq::empty()
    } else {
        let before = picked(ids, order.drop_last(), active, need);
        let id = ids[order.last() as int];
        if before.len() < need && !has_key(active, id) && !before.contains(id) {
            before.push(id)
        } else {
            before
        }
    }
}

/// The active set after `keys` were removed one after the other, the last peer each
/// time taking the place of the removed one.
pub open spec fn rotated<V>(active: Seq<(Pubkey, V)>, keys: Seq<Pubkey>) -> Seq<(Pubkey, V)>
    decreases keys.len(),
{
    if keys.len() == 0 {
        active
    } else {
        let before = rotated(active, keys.drop_last());
        if has_key(before, keys.last()) {
            swap_removed(before, index_of_key(before, keys.last()))
        } else {
            before
        }
    }
}

/// The number of items that filters are made for in a network of `network_size` nodes.
pub open spec fn filter_items(network_size: usize) -> usize {
    if network_size > CRDS_GOSSIP_DEFAULT_BLOOM_ITEMS {
        network_size
    } else {
        CRDS_GOSSIP_DEFAULT_BLOOM_ITEMS
    }
}

/// A filter that holds `id` and was empty before, whatever its hash keys.
pub open spec fn is_new_filter(filter: BloomView, id: Pubkey, network_size: usize) -> bool {
    let items = filter_items(network_size) as nat;
    let num_bits = spec_num_bits(items, MAX_BLOOM_BITS as nat);
    &&& filter.keys.len() == spec_num_keys(num_bits, items)
    &&& filter == (BloomView {
        keys: filter.keys,
        bits: Seq::new(num_bits, |bit: int| false),
    }).add(id)
}

/// The active set `after` is `before` without `removed`, and then `added` with new
/// filters.
pub open spec fn is_refreshed(
    before: Seq<(Pubkey, Bloom)>,
    after: Seq<(Pubkey, Bloom)>,
    removed: Seq<Pubkey>,
    added: Seq<Pubkey>,
    network_size: usize,
) -> bool {
    let rest = rotated(before, removed);
    &&& after.len() == rest.len() + added.len()
    &&& after.take(rest.len() as int) == rest
    &&& forall|i: int|
        0 <= i < added.len() ==> {
            &&& (#[trigger] after[rest.len() + i]).0 == added[i]
            &&& is_new_filter(after[rest.len() + i].1@, added[i], network_size)
        }
}

/// Removing an entry by its place takes its key, and nothing else, out of the map.
pub proof fn lemma_swap_removed<V>(entries: Seq<(Pubkey, V)>, index: int)
    requires
        unique_keys(entries),
        0 <= index < entries.len(),
    ensures
        unique_keys(swap_removed(entries, index)),
        swap_removed(entries, index).len() == entries.len() - 1,
        as_map(swap_removed(entries, index)) == as_map(entries).remove(entries[index].0),
{
    let after = swap_removed(entries, index);
    let last = entries.len() - 1;
    assert forall|i: int| 0 <= i < after.len() implies after[i] == entries[if i == index {
        last
    } else {
        i
    }] by {}
    assert forall|i: int, j: int|
        #![trigger after[i], after[j]]
        0 <= i < j < after.len() implies after[i].0 != after[j].0 by {
        let a = if i == index { last } else { i };
        let b = if j == index { last } else { j };
        if a < b {
            assert(entries[a].0 != entries[b].0);
        } else {
            assert(entries[b].0 != entries[a].0);
        }
    }
    assert forall|key: Pubkey| has_key(after, key) <==> has_key(entries, key) && key
        != entries[index].0 by {
        if has_key(after, key) {
            let i = index_of_key(after, key);
            let a = if i == index { last } else { i };
            assert(entries[a].0 == key);
            if a < index {
                assert(entries[a].0 != entries[index].0);
            } else {
                assert(entries[index].0 != entries[a].0);
            }
        }
        if has_key(entries, key) && key != entries[index].0 {
            let a = index_of_key(entries, key);
            if a == last {
                assert(after[index].0 == key);
            } else {
                assert(after[a].0 == key);
            }
        }
    }
    assert forall|key: Pubkey| has_key(after, key) implies as_map(after)[key] == as_map(
        entries,
    )[key] by {
        let i = index_of_key(after, key);
        lemma_index_of_key(after, i);
        lemma_index_of_key(entries, if i == index { last } else { i });
    }
    assert(as_map(after) =~= as_map(entries).remove(entries[index].0));
}

/// Removed keys, and no others, are gone from the active set.
pub proof fn lemma_rotated<V>(active: Seq<(Pubkey, V)>, keys: Seq<Pubkey>)
    requires
        unique_keys(active),
    ensures
        unique_keys(rotated(active, keys)),
        as_map(rotated(active, keys)) == as_map(active).remove_keys(keys.to_set()),
        rotated(active, keys).len() <= active.len(),
        keys.no_duplicates() && (forall|i: int|
            0 <= i < keys.len() ==> has_key(active, #[trigger] keys[i])) ==> rotated(
            active,
            keys,
        ).len() == active.len() - keys.len(),
    decreases keys.len(),
{
    if keys.len() == 0 {
        assert(as_map(active) =~= as_map(active).remove_keys(keys.to_set()));
    } else {
        let fewer = keys.drop_last();
        let key = keys.last();
        let before = rotated(active, fewer);
        lemma_rotated(active, fewer);
        assert(as_map(before).contains_key(key) == has_key(before, key));
        if has_key(before, key) {
            lemma_swap_removed(before, index_of_key(before, key));
        }
        assert forall|k: Pubkey| keys.to_set().contains(k) <==> fewer.to_set().contains(k) || k
            == key by {
            if keys.to_set().contains(k) {
                let i = choose|i: int| 0 <= i < keys.len() && keys[i] == k;
                if i < fewer.len() {
                    assert(fewer[i] == k);
                }
            }
            if fewer.to_set().contains(k) {
                let i = choose|i: int| 0 <= i < fewer.len() && fewer[i] == k;
                assert(keys[i] == k);
            }
            assert(keys[keys.len() - 1] == key);
        }
        assert(as_map(rotated(active, keys)) =~= as_map(active).remove_keys(keys.to_set()));
        if keys.no_duplicates() && (forall|i: int|
            0 <= i < keys.len() ==> has_key(active, #[trigger] keys[i])) {
            assert(fewer.no_duplicates());
            assert forall|i: int| 0 <= i < fewer.len() implies has_key(
                active,
                #[trigger] fewer[i],
            ) by {
                assert(keys[i] == fewer[i]);
            }
            assert(has_key(active, keys[keys.len() - 1]));
            assert(!fewer.to_set().contains(key)) by {
                if fewer.to_set().contains(key) {
                    let i = choose|i: int| 0 <= i < fewer.len() && fewer[i] == key;
                    assert(keys[i] == keys[keys.len() - 1]);
                }
            }
            assert(as_map(before).contains_key(key));
        }
    }
}

/// The peers that are left, and their filters, are those of before.
pub proof fn lemma_rotated_entries<V>(active: Seq<(Pubkey, V)>, keys: Seq<Pubkey>, i: int)
    requires
        0 <= i < rotated(active, keys).len(),
    ensures
        active.contains(rotated(active, keys)[i]),
    decreases keys.len(),
{
    if keys.len() == 0 {
        assert(active[i] == rotated(active, keys)[i]);
    } else {
        let before = rotated(active, keys.drop_last());
        if has_key(before, keys.last()) {
            let index = index_of_key(before, keys.last());
            let from = if i == index { before.len() - 1 } else { i };
            assert(rotated(active, keys)[i] == before[from]);
            lemma_rotated_entries(active, keys.drop_last(), from);
        } else {
            lemma_rotated_entries(active, keys.drop_last(), i);
        }
    }
}

/// Picks are no more than needed, and each once.
pub proof fn lemma_picked<V>(
    ids: Seq<Pubkey>,
    order: Seq<usize>,
    active: Seq<(Pubkey, V)>,
    need: nat,
)
    ensures
        picked(ids, order, active, need).len() <= need,
        picked(ids, order, active, need).no_duplicates(),
        forall|i: int|
            0 <= i < picked(ids, order, active, need).len() ==> !has_key(
                active,
                #[trigger] picked(ids, order, active, need)[i],
            ),
    decreases order.len(),
{
    if order.len() > 0 {
        lemma_picked(ids, order.drop_last(), active, need);
    }
}

/// Where enough were picked, no more are.
proof fn lemma_picked_enough<V>(
    ids: Seq<Pubkey>,
    order: Seq<usize>,
    active: Seq<(Pubkey, V)>,
    need: nat,
    count: int,
)
    requires
        0 <= count <= order.len(),
        picked(ids, order.take(count), active, need).len() >= need,
    ensures
        picked(ids, order, active, need) == picked(ids, order.take(count), active, need),
    decreases order.len() - count,
{
    if count < order.len() {
        assert(order.take(count + 1).drop_last() =~= order.take(count));
        lemma_picked_enough(ids, order, active, need, count + 1);
    } else {
        assert(order.take(count) =~= order);
    }
}

/// Tells whether `keys` has `key`.
fn holds(keys: &Vec<Pubkey>, key: &Pubkey) -> (found: bool)
    ensures
        found == keys@.contains(*key),
{
    let mut i: usize = 0;
    while i < keys.len()
        invariant
            i <= keys@.len(),
            forall|j: int| 0 <= j < i ==> #[trigger] keys@[j] != *key,
        decreases keys@.len() - i,
    {
        if keys[i] == *key {
            assert(keys@[i as int] == *key);
            return true;
        }
        i += 1;
    }
    false
}

/// The first `need` of `ids`, in the given order, that are not active, each once.
pub fn pick(
    ids: &Vec<Pubkey>,
    order: &Vec<usize>,
    active_set: &ActiveSet,
    need: usize,
) -> (picks: Vec<Pubkey>)
    requires
        forall|i: int| 0 <= i < order@.len() ==> #[trigger] order@[i] < ids@.len(),
    ensures
        picks@ == picked(ids@, order@, active_set.entries(), need as nat),
{
    let ghost active = active_set.entries();
    let mut picks: Vec<Pubkey> = Vec::new();
    let mut i: usize = 0;
    while picks.len() < need && i < order.len()
        invariant
            forall|i: int| 0 <= i < order@.len() ==> #[trigger] order@[i] < ids@.len(),
            active == active_set.entries(),
            i <= order@.len(),
            picks@ == picked(ids@, order@.take(i as int), active, need as nat),
        decreases order@.len() - i,
    {
        assert(order@.take(i + 1).drop_last() =~= order@.take(i as int));
        let id: Pubkey = ids[order[i]];
        if active_set.get(&id).is_none() && !holds(&picks, &id) {
            picks.push(id);
        }
        i += 1;
    }
    proof {
        if picks@.len() >= need {
            lemma_picked_enough(ids@, order@, active, need as nat, i as int);
        } else {
            assert(order@.take(i as int) =~= order@);
        }
    }
    picks
}

/// Removes the first `num` of `keys` from the active set.
pub fn rotate_out(active_set: &mut ActiveSet, keys: &Vec<Pubkey>, num: usize)
    requires
        num <= keys@.len(),
    ensures
        final(active_set).entries() == rotated(
            old(active_set).entries(),
            keys@.take(num as int),
        ),
{
    let ghost before = active_set.entries();
    let mut i: usize = 0;
    while i < num
        invariant
            i <= num <= keys@.len(),
            active_set.entries() == rotated(before, keys@.take(i as int)),
        decreases num - i,
    {
        assert(keys@.take(i + 1).drop_last() =~= keys@.take(i as int));
        index_map_swap_remove(&mut active_set.map, &keys[i]);
        i += 1;
    }
}

/// The number of items that filters are made for in a network of `network_size` nodes.
pub fn bloom_items(network_size: usize) -> (items: usize)
    ensures
        items == filter_items(network_size),
{
    if network_size > CRDS_GOSSIP_DEFAULT_BLOOM_ITEMS {
        network_size
    } else {
        CRDS_GOSSIP_DEFAULT_BLOOM_ITEMS
    }
}

/// Adds `picks`, none of which is active, with new filters to the end of the active set.
pub fn rotate_in(
    active_set: &mut ActiveSet,
    picks: &Vec<Pubkey>,
    network_size: usize,
)
    requires
        active_wf(old(active_set).entries()),
        picks@.no_duplicates(),
        forall|i: int|
            0 <= i < picks@.len() ==> !has_key(
                old(active_set).entries(),
                #[trigger] picks@[i],
            ),
    ensures
        active_wf(final(active_set).entries()),
        is_refreshed(
            old(active_set).entries(),
            final(active_set).entries(),
            Seq::empty(),
            picks@,
            network_size,
        ),
{
    let ghost before = active_set.entries();
    let mut i: usize = 0;
    assert(before.take(before.len() as int) =~= before);
    while i < picks.len()
        invariant
            i <= picks@.len(),
            picks@.no_duplicates(),
            forall|j: int| 0 <= j < picks@.len() ==> !has_key(before, #[trigger] picks@[j]),
            active_wf(active_set.entries()),
            active_set.entries().len() == before.len() + i,
            active_set.entries().take(before.len() as int) == before,
            forall|j: int|
                0 <= j < i ==> {
                    &&& (#[trigger] active_set.entries()[before.len() + j]).0 == picks@[j]
                    &&& is_new_filter(
                        active_set.entries()[before.len() + j].1@,
                        picks@[j],
                        network_size,
                    )
                },
        decreases picks@.len() - i,
    {
        let ghost mid = active_set.entries();
        let id: Pubkey = picks[i];
        let mut filter: Bloom = Bloom::random(bloom_items(network_size), MAX_BLOOM_BITS);
        let ghost empty = filter@;
        filter.add(&id);
        proof {
            assert(empty.bits =~= Seq::new(empty.bits.len(), |bit: int| false));
            assert(empty =~= BloomView {
                keys: empty.keys,
                bits: Seq::new(
                    spec_num_bits(filter_items(network_size) as nat, MAX_BLOOM_BITS as nat),
                    |bit: int| false,
                ),
            });
            assert(is_new_filter(filter@, id, network_size));
            assert(!has_key(mid, id)) by {
                if has_key(mid, id) {
                    let k = index_of_key(mid, id);
                    if k < before.len() {
                        assert(mid.take(before.len() as int)[k] == before[k]);
                        assert(has_key(before, picks@[i as int]));
                    } else {
                        let j = k - before.len();
                        assert(mid[before.len() + j].0 == picks@[j]);
                        assert(picks@[j] == picks@[i as int]);
                    }
                }
            }
        }
        index_map_insert(&mut active_set.map, id, filter);
        proof {
            let after = active_set.entries();
            assert(after == mid.push((id, filter)));
            assert(after.take(before.len() as int) =~= before);
            assert forall|j: int| 0 <= j < i + 1 implies {
                &&& (#[trigger] after[before.len() + j]).0 == picks@[j]
                &&& is_new_filter(after[before.len() + j].1@, picks@[j], network_size)
            } by {
                if j < i {
                    assert(after[before.len() + j] == mid[before.len() + j]);
                }
            }
            assert(unique_keys(after)) by {
                assert forall|a: int, b: int|
                    #![trigger after[a], after[b]]
                    0 <= a < b < after.len() implies after[a].0 != after[b].0 by {
                    if b == mid.len() {
                        assert(after[a] == mid[a]);
                        assert(mid[a].0 != id);
                    } else {
                        assert(mid[a].0 != mid[b].0);
                    }
                }
            }
        }
        i += 1;
    }
}

/// The peers of the active set, in the order of their indices.
pub fn active_keys(active_set: &ActiveSet) -> (keys: Vec<Pubkey>)
    ensures
        keys@ == keys_of(active_set.entries()),
{
    let mut keys: Vec<Pubkey> = Vec::new();
    let mut i: usize = 0;
    while i < active_set.len()
        invariant
            i <= active_set.entries().len(),
            keys@.len() == i,
            forall|j: int|
                0 <= j < i ==> #[trigger] keys@[j] == active_set.entries()[j].0,
        decreases active_set.entries().len() - i,
    {
        match index_map_get_index(&active_set.map, i) {
            Some((key, _)) => {
                keys.push(key);
            },
            None => {},
        }
        i += 1;
    }
    keys
}

} // verus!
