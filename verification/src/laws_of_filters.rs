//! What holds of the filters that hold what peers pruned.

use crate::bloom::{hash_with_key, spec_num_bits, spec_num_keys, BloomView};
use crate::crds_gossip_push::{prune_heeded, with_origins, CrdsGossipPush};
use crate::keyed::lemma_index_of_key;
use crate::pubkey::{word_byte, Pubkey};
use vstd::prelude::*;

verus! {

/// The hash of bytes goes over them one by one: that of some and then others is the hash of
/// the others, started from that of the first. A byte is combined with the hash so far, and
/// the result multiplied, without the bits beyond 64.
pub proof fn law_hash_goes_byte_by_byte(some: Seq<u8>, others: Seq<u8>, byte: u8, key: u64)
    ensures
        hash_with_key(Seq::empty(), key) == key,
        hash_with_key(seq![byte], key) == ((key ^ (byte as u64)) * 0x100_0000_01b3)
            % 0x1_0000_0000_0000_0000,
        hash_with_key(some + others, key) == hash_with_key(others, hash_with_key(some, key)),
    decreases others.len(),
{
    assert(seq![byte].drop_last() =~= Seq::<u8>::empty());
    reveal_with_fuel(hash_with_key, 2);
    if others.len() == 0 {
        assert(some + others =~= some);
    } else {
        law_hash_goes_byte_by_byte(some, others.drop_last(), byte, key);
        assert((some + others).drop_last() =~= some + others.drop_last());
        assert((some + others).last() == others.last());
    }
}

/// The number that 16 bytes from `at` on make, the most significant one first.
pub open spec fn number_at(bytes: Seq<u8>, at: int) -> int {
    bytes.subrange(at, at + 16).fold_left(0int, |number: int, byte: u8| 256 * number + byte)
}

/// A key has 32 bytes. Put together, the first half of them is its first word and the other
/// half its second one.
pub proof fn law_key_bytes_make_up_the_key(key: Pubkey)
    ensures
        key.bytes().len() == 32,
        number_at(key.bytes(), 0) == key.hi,
        number_at(key.bytes(), 16) == key.lo,
{
    let (hi, lo) = (key.hi, key.lo);
    lemma_bytes_of_word(key.bytes(), 0, hi, 16);
    lemma_bytes_of_word(key.bytes(), 16, lo, 16);
    assert(hi >> 0u128 == hi) by (bit_vector);
    assert(lo >> 0u128 == lo) by (bit_vector);
}

/// The first bytes of a word make up what is left of it without the others.
proof fn lemma_bytes_of_word(bytes: Seq<u8>, at: int, word: u128, count: int)
    requires
        0 <= at,
        at + 16 <= bytes.len(),
        forall|i: int| 0 <= i < 16 ==> #[trigger] bytes[at + i] == word_byte(word, i),
        1 <= count <= 16,
    ensures
        bytes.subrange(at, at + count).fold_left(0int, |number: int, byte: u8| 256 * number + byte)
            == word >> ((8 * (16 - count)) as u128),
    decreases count,
{
    let some = bytes.subrange(at, at + count);
    let shift = (8 * (16 - count)) as u128;
    let left = word >> shift;
    assert(some.last() == bytes[at + (count - 1)]);
    assert(some.last() == word_byte(word, count - 1));
    assert(((left & 0xff) as u8) == left & 0xff) by (bit_vector);
    assert(some.drop_last() =~= bytes.subrange(at, at + count - 1));
    if count == 1 {
        assert(some.drop_last() =~= Seq::<u8>::empty());
        assert(((word >> 120u128) & 0xff) == word >> 120u128) by (bit_vector);
        reveal_with_fuel(Seq::fold_left, 2);
    } else {
        lemma_bytes_of_word(bytes, at, word, count - 1);
        assert(left == 256 * (left >> 8u128) + (left & 0xff)) by (bit_vector);
        let more = (8 * (16 - (count - 1))) as u128;
        assert((word >> shift) >> 8u128 == word >> more) by (bit_vector)
            requires
                shift <= 112,
                more == shift + 8,
        ;
    }
}

/// Adding a key sets its bits and no others, one for each hash key: the hash of the key,
/// without what goes into the number of bits. A filter holds a key exactly where all of its
/// bits are set, that is where adding it changes nothing.
pub proof fn law_filters_are_made_of_bits(bloom: BloomView, key: Pubkey, bit: int)
    requires
        0 <= bit < bloom.bits.len(),
    ensures
        bloom.add(key).keys == bloom.keys,
        bloom.add(key).bits.len() == bloom.bits.len(),
        bloom.add(key).bits[bit] <==> bloom.bits[bit] || has_bit(bloom, key, bit),
        bloom.contains(key) <==> forall|b: int|
            0 <= b < bloom.bits.len() && #[trigger] has_bit(bloom, key, b) ==> bloom.bits[b],
        bloom.contains(key) <==> bloom.add(key) == bloom,
{
    let added = bloom.add(key);
    assert forall|b: int| bloom.hits(key, b) == #[trigger] has_bit(bloom, key, b) by {
        if has_bit(bloom, key, b) {
            let i = choose|i: int|
                0 <= i < bloom.keys.len() && #[trigger] hash_with_key(key.bytes(), bloom.keys[i])
                    as int % bloom.bits.len() as int == b;
            assert(bloom.pos(key, bloom.keys[i]) == b);
        }
        if bloom.hits(key, b) {
            let i = choose|i: int|
                0 <= i < bloom.keys.len() && bloom.pos(key, #[trigger] bloom.keys[i]) == b;
            assert(hash_with_key(key.bytes(), bloom.keys[i]) as int % bloom.bits.len() as int
                == b);
        }
    }
    if bloom.contains(key) {
        assert forall|b: int|
            0 <= b < bloom.bits.len() && #[trigger] has_bit(bloom, key, b) implies bloom.bits[b] by {
            assert(bloom.hits(key, b));
        }
        assert(added.bits =~= bloom.bits);
        assert(added =~= bloom);
    }
    if forall|b: int|
        0 <= b < bloom.bits.len() && #[trigger] has_bit(bloom, key, b) ==> bloom.bits[b] {
        assert forall|i: int| 0 <= i < bloom.keys.len() implies bloom.bits[bloom.pos(
            key,
            #[trigger] bloom.keys[i],
        )] by {
            let b = bloom.pos(key, bloom.keys[i]);
            assert(bloom.hits(key, b));
            assert(has_bit(bloom, key, b));
        }
    }
    if added == bloom {
        assert forall|b: int|
            0 <= b < bloom.bits.len() && #[trigger] has_bit(bloom, key, b) implies bloom.bits[b] by {
            assert(bloom.hits(key, b));
            assert(added.bits[b]);
        }
    }
}

/// One of the hash keys of a filter gives the bit `bit` to `key`.
pub open spec fn has_bit(bloom: BloomView, key: Pubkey, bit: int) -> bool {
    exists|i: int|
        0 <= i < bloom.keys.len() && #[trigger] hash_with_key(key.bytes(), bloom.keys[i]) as int
            % bloom.bits.len() as int == bit
}

/// A prune sets the bits of the origins that it names, but for those of the node itself,
/// and no others: a bit is set afterwards exactly where it was before or is one of an origin
/// in the list that is not the node.
pub proof fn law_prune_sets_the_bits_of_named_origins(
    filter: BloomView,
    self_pubkey: Pubkey,
    origins: Seq<Pubkey>,
    bit: int,
)
    requires
        0 <= bit < filter.bits.len(),
    ensures
        ({
            let after = with_origins(filter, self_pubkey, origins);
            &&& after.keys == filter.keys
            &&& after.bits.len() == filter.bits.len()
            &&& after.bits[bit] <==> filter.bits[bit] || exists|i: int|
                {
                    &&& 0 <= i < origins.len()
                    &&& #[trigger] origins[i] != self_pubkey
                    &&& has_bit(filter, origins[i], bit)
                }
        }),
    decreases origins.len(),
{
    if origins.len() > 0 {
        let rest = origins.drop_last();
        let last = origins.last();
        let mid = with_origins(filter, self_pubkey, rest);
        law_prune_sets_the_bits_of_named_origins(filter, self_pubkey, rest, bit);
        law_filters_are_made_of_bits(mid, last, bit);
        lemma_same_bits(mid, filter, last, bit);
        assert(origins[origins.len() - 1] == last);
        if exists|i: int|
            0 <= i < rest.len() && #[trigger] rest[i] != self_pubkey && has_bit(
                filter,
                rest[i],
                bit,
            ) {
            let i = choose|i: int|
                0 <= i < rest.len() && #[trigger] rest[i] != self_pubkey && has_bit(
                    filter,
                    rest[i],
                    bit,
                );
            assert(origins[i] == rest[i]);
        }
        if exists|i: int|
            0 <= i < origins.len() && #[trigger] origins[i] != self_pubkey && has_bit(
                filter,
                origins[i],
                bit,
            ) {
            let i = choose|i: int|
                0 <= i < origins.len() && #[trigger] origins[i] != self_pubkey && has_bit(
                    filter,
                    origins[i],
                    bit,
                );
            if i < rest.len() {
                assert(rest[i] == origins[i]);
            }
        }
    }
}

/// Filters of the same hash keys and size give the same bits to a key.
proof fn lemma_same_bits(one: BloomView, other: BloomView, key: Pubkey, bit: int)
    requires
        one.keys == other.keys,
        one.bits.len() == other.bits.len(),
    ensures
        has_bit(one, key, bit) == has_bit(other, key, bit),
{
}

/// A prune changes the filter of the peer that sent it and no other, and neither the peers
/// nor their places. Of that filter it sets the bits of the named origins but for the node.
pub proof fn law_prune_changes_one_filter(
    before: CrdsGossipPush,
    after: CrdsGossipPush,
    self_pubkey: Pubkey,
    peer: Pubkey,
    origins: Seq<Pubkey>,
    index: int,
    bit: int,
)
    requires
        before.wf(),
        prune_heeded(before, after, self_pubkey, peer, origins),
        0 <= index < before.active().len(),
    ensures
        after.active().len() == before.active().len(),
        after.active()[index].0 == before.active()[index].0,
        before.active()[index].0 != peer ==> after.active()[index] == before.active()[index],
        before.active()[index].0 == peer ==> {
            let (was, is) = (before.active()[index].1@, after.active()[index].1@);
            &&& is.keys == was.keys
            &&& is.bits.len() == was.bits.len()
            &&& 0 <= bit < was.bits.len() ==> (is.bits[bit] <==> was.bits[bit] || exists|i: int|
                {
                    &&& 0 <= i < origins.len()
                    &&& #[trigger] origins[i] != self_pubkey
                    &&& has_bit(was, origins[i], bit)
                })
        },
{
    lemma_index_of_key(before.active(), index);
    assert(before.active()[index].1.wf());
    if before.active()[index].0 == peer {
        let was = before.active()[index].1@;
        law_prune_sets_the_bits_of_named_origins(was, self_pubkey, origins, 0);
        if 0 <= bit < was.bits.len() {
            law_prune_sets_the_bits_of_named_origins(was, self_pubkey, origins, bit);
        }
    }
}

/// The number of bits of a filter is `ln(10) / ln(2)^2` for each item, rounded up, as long as
/// that is at least 1 and no more than is allowed.
pub proof fn law_filters_have_enough_bits(items: nat, max_bits: nat)
    ensures
        ({
            let bits = spec_num_bits(items, max_bits);
            &&& 1 <= bits
            &&& bits <= max_bits || bits == 1
            &&& bits < max_bits ==> items * 4_792_529_188_683_719 <= bits * 1_000_000_000_000_000
            &&& bits > 1 ==> items * 4_792_529_188_683_719 > (bits - 1) * 1_000_000_000_000_000
        }),
{
}

/// The number of hash keys of a filter is `ln(2)` for each bit that an item has, rounded,
/// and at least 1; without items there are none.
pub proof fn law_filters_have_the_best_number_of_keys(bits: nat, items: nat)
    requires
        items > 0,
    ensures
        spec_num_keys(bits, 0) == 0,
        ({
            let keys = spec_num_keys(bits, items);
            let wanted = 2 * bits * 693_147_180_559_945;
            let unit = items * 1_000_000_000_000_000;
            &&& keys >= 1
            &&& wanted < (2 * keys + 1) * unit
            &&& keys > 1 ==> wanted >= (2 * keys - 1) * unit
        }),
{
    let keys = spec_num_keys(bits, items);
    let wanted = 2 * bits * 693_147_180_559_945;
    let unit = items * 1_000_000_000_000_000;
    let rounded = (wanted + unit) / (2 * unit);
    assert(rounded * (2 * unit) <= wanted + unit < (rounded + 1) * (2 * unit)) by (nonlinear_arith)
        requires
            rounded == (wanted + unit) / (2 * unit),
            unit > 0,
            wanted >= 0,
    ;
    assert((2 * rounded + 1) * unit == (rounded + 1) * (2 * unit) - unit) by (nonlinear_arith);
    assert((2 * rounded - 1) * unit == rounded * (2 * unit) - unit) by (nonlinear_arith);
    assert(2 * items * 1_000_000_000_000_000 == 2 * unit);
    if rounded < 1 {
        assert((2 * rounded + 1) * unit <= 3 * unit) by (nonlinear_arith)
            requires
                rounded < 1,
                unit > 0,
        ;
    }
}

} // verus!
