//! A Bloom filter over keys: a set that may claim to hold a key that was never
//! added, but never forgets one that was.

use crate::pubkey::Pubkey;
use crate::random::random_u64;
use vstd::prelude::*;

verus! {

/// Bits per item that give a rate of false positives of one in ten, in units of
/// [`SCALE`]: `ln(10) / ln(2)^2`.
pub const BITS_PER_ITEM: u128 = 4_792_529_188_683_719;

/// Hash keys per bit and item, in units of [`SCALE`]: `ln(2)`.
pub const KEYS_PER_BIT: u128 = 693_147_180_559_945;

/// The unit of the two ratios.
pub const SCALE: u128 = 1_000_000_000_000_000;

/// The factor of the FNV-1a hash.
pub const FNV_PRIME: u64 = 0x100_0000_01b3;

/// A Bloom filter over keys.
#[derive(Debug)]
pub struct Bloom {
    keys: Vec<u64>,
    bits: Vec<bool>,
}

/// What a filter holds.
#[verifier::ext_equal]
pub struct BloomView {
    /// One hash function per key.
    pub keys: Seq<u64>,
    pub bits: Seq<bool>,
}

/// The FNV-1a hash of `bytes`, started from `key`.
pub open spec fn hash_with_key(bytes: Seq<u8>, key: u64) -> u64
    decreases bytes.len(),
{
    if bytes.len() == 0 {
        key
    } else {
        (hash_with_key(bytes.drop_last(), key) ^ (bytes.last() as u64)).wrapping_mul(FNV_PRIME)
    }
}

/// The number of bits for `num_items` items at a rate of false positives of one
/// in ten, at least one and at most `max_bits`.
pub open spec fn spec_num_bits(num_items: nat, max_bits: nat) -> nat {
    let wanted = (num_items * BITS_PER_ITEM + SCALE - 1) / SCALE as int;
    let capped = if wanted < max_bits { wanted } else { max_bits as int };
    if capped < 1 { 1 } else { capped as nat }
}

/// The number of hash keys for `num_items` items in `num_bits` bits: `num_bits *
/// ln(2) / num_items`, rounded, and at least one.
pub open spec fn spec_num_keys(num_bits: nat, num_items: nat) -> nat {
    if num_items == 0 {
        0
    } else {
        let rounded = (2 * num_bits * KEYS_PER_BIT + num_items * SCALE) / (2 * num_items * SCALE);
        if rounded < 1 { 1 } else { rounded as nat }
    }
}

impl BloomView {
    /// The bit that the hash function of `hash_key` gives to `key`.
    pub open spec fn pos(self, key: Pubkey, hash_key: u64) -> int {
        hash_with_key(key.bytes(), hash_key) as int % self.bits.len() as int
    }

    /// Some hash function gives the bit `bit` to `key`.
    pub open spec fn hits(self, key: Pubkey, bit: int) -> bool {
        exists|i: int| 0 <= i < self.keys.len() && self.pos(key, #[trigger] self.keys[i]) == bit
    }

    /// All bits of `key` are set.
    pub open spec fn contains(self, key: Pubkey) -> bool {
        forall|i: int| 0 <= i < self.keys.len() ==> self.bits[self.pos(key, #[trigger] self.keys[i])]
    }

    /// The filter with the bits of `key` set.
    pub open spec fn add(self, key: Pubkey) -> BloomView {
        BloomView {
            keys: self.keys,
            bits: Seq::new(self.bits.len(), |bit: int| self.bits[bit] || self.hits(key, bit)),
        }
    }
}

impl View for Bloom {
    type V = BloomView;

    closed spec fn view(&self) -> BloomView {
        BloomView { keys: self.keys@, bits: self.bits@ }
    }
}

/// The hash of a key, started from `hash_key`.
fn hash_at_index(key: &Pubkey, hash_key: u64) -> (hash: u64)
    ensures
        hash == hash_with_key(key.bytes(), hash_key),
{
    let mut hash: u64 = hash_key;
    let mut i: usize = 0;
    assert(key.bytes().take(0) =~= Seq::<u8>::empty());
    while i < 32
        invariant
            i <= 32,
            hash == hash_with_key(key.bytes().take(i as int), hash_key),
        decreases 32 - i,
    {
        let byte: u8 = key.byte(i);
        hash = (hash ^ (byte as u64)).wrapping_mul(FNV_PRIME);
        i += 1;
        assert(key.bytes().take(i as int).drop_last() =~= key.bytes().take(i - 1));
    }
    assert(key.bytes().take(32) =~= key.bytes());
    hash
}

impl Bloom {
    /// There is at least one bit.
    pub open spec fn wf(&self) -> bool {
        self@.bits.len() > 0
    }

    /// The number of bits for `num_items` items at a rate of false positives of one
    /// in ten, at least one and at most `max_bits`.
    pub fn num_bits(num_items: usize, max_bits: usize) -> (num_bits: usize)
        ensures
            num_bits == spec_num_bits(num_items as nat, max_bits as nat),
    {
        assert(num_items * BITS_PER_ITEM <= u64::MAX * BITS_PER_ITEM) by (nonlinear_arith)
            requires
                num_items <= u64::MAX,
        ;
        let wanted: u128 = (num_items as u128 * BITS_PER_ITEM + SCALE - 1) / SCALE;
        let capped: usize = if wanted < max_bits as u128 { wanted as usize } else { max_bits };
        if capped < 1 { 1 } else { capped }
    }

    /// The number of hash keys that is best for `num_items` items in `num_bits` bits.
    pub fn num_keys(num_bits: usize, num_items: usize) -> (num_keys: usize)
        ensures
            num_keys == spec_num_keys(num_bits as nat, num_items as nat),
    {
        if num_items == 0 {
            return 0;
        }
        proof {
            lemma_num_keys_bound(num_bits as nat, num_items as nat);
        }
        assert(0 <= 2 * num_bits * KEYS_PER_BIT <= 2 * u64::MAX * KEYS_PER_BIT) by (nonlinear_arith)
            requires
                num_bits <= u64::MAX,
        ;
        assert(1 <= num_items * SCALE <= u64::MAX * SCALE) by (nonlinear_arith)
            requires
                1 <= num_items <= u64::MAX,
        ;
        assert(2 * num_items * SCALE == 2 * (num_items * SCALE)) by (nonlinear_arith);
        let rounded: u128 = (2 * num_bits as u128 * KEYS_PER_BIT + num_items as u128 * SCALE) / (2
            * num_items as u128 * SCALE);
        if rounded < 1 { 1 } else { rounded as usize }
    }

    /// An empty filter for `num_items` items at a rate of false positives of one in
    /// ten, of at most `max_bits` bits and with random hash keys.
    pub fn random(num_items: usize, max_bits: usize) -> (bloom: Bloom)
        ensures
            bloom.wf(),
            bloom@.bits == Seq::new(
                spec_num_bits(num_items as nat, max_bits as nat),
                |bit: int| false,
            ),
            bloom@.keys.len() == spec_num_keys(bloom@.bits.len(), num_items as nat),
    {
        let num_bits: usize = Bloom::num_bits(num_items, max_bits);
        let num_keys: usize = Bloom::num_keys(num_bits, num_items);
        let mut keys: Vec<u64> = Vec::new();
        while keys.len() < num_keys
            invariant
                keys@.len() <= num_keys,
            decreases num_keys - keys@.len(),
        {
            keys.push(random_u64());
        }
        let mut bits: Vec<bool> = Vec::new();
        while bits.len() < num_bits
            invariant
                bits@.len() <= num_bits,
                forall|i: int| 0 <= i < bits@.len() ==> !(#[trigger] bits@[i]),
            decreases num_bits - bits@.len(),
        {
            bits.push(false);
        }
        let bloom = Bloom { keys, bits };
        assert(bloom@.bits =~= Seq::new(
            spec_num_bits(num_items as nat, max_bits as nat),
            |bit: int| false,
        ));
        bloom
    }

    /// The bit that the hash function of `hash_key` gives to `key`.
    fn pos(&self, key: &Pubkey, hash_key: u64) -> (pos: usize)
        requires
            self.wf(),
        ensures
            pos == self@.pos(*key, hash_key),
            pos < self@.bits.len(),
    {
        let len: u64 = self.bits.len() as u64;
        let pos: u64 = hash_at_index(key, hash_key) % len;
        pos as usize
    }

    /// Tells whether all bits of `key` are set.
    pub fn contains(&self, key: &Pubkey) -> (found: bool)
        requires
            self.wf(),
        ensures
            found == self@.contains(*key),
    {
        let mut i: usize = 0;
        while i < self.keys.len()
            invariant
                self.wf(),
                i <= self@.keys.len(),
                forall|j: int| 0 <= j < i ==> self@.bits[self@.pos(*key, #[trigger] self@.keys[j])],
            decreases self@.keys.len() - i,
        {
            let pos: usize = self.pos(key, self.keys[i]);
            if !self.bits[pos] {
                assert(!self@.bits[self@.pos(*key, self@.keys[i as int])]);
                return false;
            }
            i += 1;
        }
        true
    }

    /// Sets the bits of `key`.
    pub fn add(&mut self, key: &Pubkey)
        requires
            old(self).wf(),
        ensures
            final(self).wf(),
            final(self)@ == old(self)@.add(*key),
    {
        let ghost before = self@;
        let mut i: usize = 0;
        while i < self.keys.len()
            invariant
                self.wf(),
                i <= self@.keys.len(),
                before == old(self)@,
                self@.keys == before.keys,
                self@.bits.len() == before.bits.len(),
                forall|bit: int|
                    0 <= bit < before.bits.len() ==> (#[trigger] self@.bits[bit] <==> before.bits[bit]
                        || exists|j: int|
                        0 <= j < i && before.pos(*key, #[trigger] before.keys[j]) == bit),
            decreases self@.keys.len() - i,
        {
            let ghost mid = self@;
            let pos: usize = self.pos(key, self.keys[i]);
            self.bits[pos] = true;
            proof {
                assert forall|bit: int| 0 <= bit < before.bits.len() implies (
                #[trigger] self@.bits[bit] <==> before.bits[bit] || exists|j: int|
                    0 <= j < i + 1 && before.pos(*key, #[trigger] before.keys[j]) == bit) by {
                    assert(self@.bits[bit] == (bit == pos || mid.bits[bit]));
                    assert(before.pos(*key, before.keys[i as int]) == pos);
                    if exists|j: int|
                        0 <= j < i + 1 && before.pos(*key, #[trigger] before.keys[j]) == bit {
                        let j = choose|j: int|
                            0 <= j < i + 1 && before.pos(*key, #[trigger] before.keys[j]) == bit;
                        if j == i {
                            assert(bit == pos);
                        }
                    }
                }
            }
            i += 1;
        }
        assert(self@ =~= before.add(*key)) by {
            assert(self@.bits =~= before.add(*key).bits);
        }
    }

    /// A filter that holds the same.
    pub fn mock_clone(&self) -> (copy: Bloom)
        ensures
            copy@ == self@,
    {
        let copy = Bloom { keys: self.keys.clone(), bits: self.bits.clone() };
        assert(copy@.keys =~= self@.keys);
        assert(copy@.bits =~= self@.bits);
        copy
    }
}

/// There are hardly more hash keys than bits.
proof fn lemma_num_keys_bound(num_bits: nat, num_items: nat)
    ensures
        spec_num_keys(num_bits, num_items) <= if num_bits < 2 { 2 } else { num_bits },
{
    if num_items > 0 {
        let bound: nat = if num_bits < 2 { 2 } else { num_bits };
        let numerator = 2 * num_bits * KEYS_PER_BIT + num_items * SCALE;
        let denominator = 2 * num_items * SCALE;
        assert(numerator <= denominator * bound) by (nonlinear_arith)
            requires
                numerator == 2 * num_bits * 693_147_180_559_945 + num_items
                    * 1_000_000_000_000_000,
                denominator == 2 * num_items * 1_000_000_000_000_000,
                num_items >= 1,
                bound >= num_bits,
                bound >= 2,
        ;
        assert(numerator / denominator <= bound) by (nonlinear_arith)
            requires
                numerator <= denominator * bound,
                denominator > 0,
        ;
    }
}

/// What was added to a filter is found in it.
pub proof fn law_added_keys_are_contained(bloom: BloomView, key: Pubkey)
    requires
        bloom.bits.len() > 0,
    ensures
        bloom.add(key).contains(key),
{
    let after = bloom.add(key);
    assert forall|i: int| 0 <= i < after.keys.len() implies after.bits[after.pos(
        key,
        #[trigger] after.keys[i],
    )] by {
        let bit = after.pos(key, after.keys[i]);
        assert(bloom.pos(key, bloom.keys[i]) == bit);
        assert(bloom.hits(key, bit));
        assert(0 <= bit < bloom.bits.len());
    }
}

/// A filter forgets no key when another one is added.
pub proof fn law_contained_keys_stay(bloom: BloomView, key: Pubkey, added: Pubkey)
    requires
        bloom.bits.len() > 0,
        bloom.contains(key),
    ensures
        bloom.add(added).contains(key),
{
    let after = bloom.add(added);
    assert forall|i: int| 0 <= i < after.keys.len() implies after.bits[after.pos(
        key,
        #[trigger] after.keys[i],
    )] by {
        let bit = bloom.pos(key, bloom.keys[i]);
        assert(bloom.bits[bit]);
        assert(0 <= bit < bloom.bits.len());
    }
}

} // verus!
