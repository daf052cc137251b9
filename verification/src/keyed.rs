//! Sequences of entries that are found by their key.

use crate::pubkey::Pubkey;
use vstd::prelude::*;

verus! {

/// Some entry has the key `key`.
pub open spec fn has_key<V>(entries: Seq<(Pubkey, V)>, key: Pubkey) -> bool {
    exists|i: int| 0 <= i < entries.len() && (#[trigger] entries[i]).0 == key
}

/// The place of an entry with the key `key`.
pub open spec fn index_of_key<V>(entries: Seq<(Pubkey, V)>, key: Pubkey) -> int {
    choose|i: int| 0 <= i < entries.len() && (#[trigger] entries[i]).0 == key
}

/// No key occurs twice.
pub open spec fn unique_keys<V>(entries: Seq<(Pubkey, V)>) -> bool {
    forall|i: int, j: int|
        #![trigger entries[i], entries[j]]
        0 <= i < j < entries.len() ==> entries[i].0 != entries[j].0
}

/// Every key comes before the next one.
pub open spec fn sorted_keys<V>(entries: Seq<(Pubkey, V)>) -> bool {
    forall|i: int, j: int|
        #![trigger entries[i], entries[j]]
        0 <= i < j < entries.len() ==> entries[i].0.lt(entries[j].0)
}

/// What the entries hold, by key.
pub open spec fn as_map<V>(entries: Seq<(Pubkey, V)>) -> Map<Pubkey, V> {
    Map::new(|key: Pubkey| has_key(entries, key), |key: Pubkey| entries[index_of_key(entries, key)].1)
}

/// The keys, in the order of the entries.
pub open spec fn keys_of<V>(entries: Seq<(Pubkey, V)>) -> Seq<Pubkey> {
    Seq::new(entries.len(), |i: int| entries[i].0)
}

/// Where no key occurs twice, the place of a key is the only one that has it.
pub proof fn lemma_index_of_key<V>(entries: Seq<(Pubkey, V)>, i: int)
    requires
        unique_keys(entries),
        0 <= i < entries.len(),
    ensures
        has_key(entries, entries[i].0),
        index_of_key(entries, entries[i].0) == i,
{
    let key = entries[i].0;
    assert(has_key(entries, key));
    let j = index_of_key(entries, key);
    assert(0 <= j < entries.len() && entries[j].0 == key);
    if j < i {
        assert(entries[j].0 != entries[i].0);
    }
    if i < j {
        assert(entries[i].0 != entries[j].0);
    }
}

/// Sorted keys do not repeat.
pub proof fn lemma_sorted_keys_are_unique<V>(entries: Seq<(Pubkey, V)>)
    requires
        sorted_keys(entries),
    ensures
        unique_keys(entries),
{
}

/// Writing the value of one entry writes it in the map.
pub proof fn lemma_update_entry<V>(entries: Seq<(Pubkey, V)>, index: int, value: V)
    requires
        unique_keys(entries),
        0 <= index < entries.len(),
    ensures
        as_map(entries.update(index, (entries[index].0, value))) == as_map(entries).insert(
            entries[index].0,
            value,
        ),
{
    let key = entries[index].0;
    let after = entries.update(index, (key, value));
    assert(unique_keys(after));
    assert forall|k: Pubkey| has_key(after, k) <==> has_key(entries, k) || k == key by {
        if has_key(after, k) {
            let i = index_of_key(after, k);
            assert(entries[i].0 == k);
        }
        if has_key(entries, k) {
            let i = index_of_key(entries, k);
            assert(after[i].0 == k);
        }
        assert(after[index].0 == key);
    }
    assert forall|k: Pubkey| has_key(after, k) implies as_map(after)[k] == as_map(entries).insert(
        key,
        value,
    )[k] by {
        let i = index_of_key(after, k);
        lemma_index_of_key(after, i);
        lemma_index_of_key(entries, i);
        lemma_index_of_key(entries, index);
    }
    assert(as_map(after) =~= as_map(entries).insert(key, value));
}

/// An entry put where its key belongs keeps the order and adds the key to the map.
pub proof fn lemma_insert_entry<V>(entries: Seq<(Pubkey, V)>, index: int, key: Pubkey, value: V)
    requires
        sorted_keys(entries),
        0 <= index <= entries.len(),
        forall|i: int| 0 <= i < index ==> (#[trigger] entries[i]).0.lt(key),
        forall|i: int| index <= i < entries.len() ==> key.lt((#[trigger] entries[i]).0),
    ensures
        sorted_keys(entries.insert(index, (key, value))),
        as_map(entries.insert(index, (key, value))) == as_map(entries).insert(key, value),
{
    let after = entries.insert(index, (key, value));
    assert forall|i: int| 0 <= i < after.len() implies after[i] == (if i < index {
        entries[i]
    } else if i == index {
        (key, value)
    } else {
        entries[i - 1]
    }) by {}
    assert(sorted_keys(after));
    lemma_sorted_keys_are_unique(entries);
    lemma_sorted_keys_are_unique(after);
    assert forall|k: Pubkey| has_key(after, k) <==> has_key(entries, k) || k == key by {
        if has_key(after, k) {
            let i = index_of_key(after, k);
            if i < index {
                assert(entries[i].0 == k);
            } else if i > index {
                assert(entries[i - 1].0 == k);
            }
        }
        if has_key(entries, k) {
            let i = index_of_key(entries, k);
            if i < index {
                assert(after[i].0 == k);
            } else {
                assert(after[i + 1].0 == k);
            }
        }
        assert(after[index].0 == key);
    }
    assert forall|k: Pubkey| has_key(after, k) implies as_map(after)[k] == as_map(entries).insert(
        key,
        value,
    )[k] by {
        let i = index_of_key(after, k);
        lemma_index_of_key(after, i);
        if i < index {
            lemma_index_of_key(entries, i);
        } else if i > index {
            lemma_index_of_key(entries, i - 1);
        }
    }
    assert(as_map(after) =~= as_map(entries).insert(key, value));
}

/// Another entry of sorted entries adds its key to the map.
pub proof fn lemma_next_entry<V>(entries: Seq<(Pubkey, V)>, i: int)
    requires
        sorted_keys(entries),
        0 <= i < entries.len(),
    ensures
        as_map(entries.take(i + 1)) == as_map(entries.take(i)).insert(entries[i].0, entries[i].1),
{
    let before = entries.take(i);
    let (key, value) = entries[i];
    lemma_insert_entry(before, i, key, value);
    assert(entries.take(i + 1) =~= before.insert(i, (key, value)));
}

/// A filtered sequence holds what the sequence holds and the filter admits.
pub proof fn lemma_filter_contains<A>(items: Seq<A>, pred: spec_fn(A) -> bool, item: A)
    ensures
        items.filter(pred).contains(item) <==> items.contains(item) && pred(item),
    decreases items.len(),
{
    reveal(Seq::filter);
    let kept = items.filter(pred);
    if items.len() > 0 {
        let rest = items.drop_last();
        lemma_filter_contains(rest, pred, item);
        if rest.contains(item) {
            let i = choose|i: int| 0 <= i < rest.len() && rest[i] == item;
            assert(items[i] == item);
        }
        assert(items[items.len() - 1] == items.last());
        if pred(items.last()) {
            assert(kept == rest.filter(pred).push(items.last()));
            assert(kept.last() == items.last());
            if rest.filter(pred).contains(item) {
                let i = choose|i: int| 0 <= i < rest.filter(pred).len() && rest.filter(pred)[i]
                    == item;
                assert(kept[i] == item);
            }
            assert(kept[kept.len() - 1] == items.last());
        }
    }
}

/// Filters that admit the same leave the same.
pub proof fn lemma_filter_same<A>(
    items: Seq<A>,
    one: spec_fn(A) -> bool,
    other: spec_fn(A) -> bool,
)
    requires
        forall|item: A| #[trigger] one(item) == other(item),
    ensures
        items.filter(one) == items.filter(other),
    decreases items.len(),
{
    reveal(Seq::filter);
    if items.len() > 0 {
        lemma_filter_same(items.drop_last(), one, other);
        assert(one(items.last()) == other(items.last()));
    }
}

} // verus!
