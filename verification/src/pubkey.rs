//! The identity of a node.

use vstd::prelude::*;

verus! {

/// The identity of a node: 32 bytes, held as two big-endian words.
#[derive(Clone, Copy, Debug, PartialEq, Eq, Hash, Structural)]
pub struct Pubkey {
    pub hi: u128,
    pub lo: u128,
}

/// The byte at `index` of a word, counted from its most significant end.
pub open spec fn word_byte(word: u128, index: int) -> u8 {
    ((word >> ((8 * (15 - index)) as u128)) & 0xff) as u8
}

impl Pubkey {
    /// The order of keys by their bytes.
    pub open spec fn lt(self, other: Pubkey) -> bool {
        self.hi < other.hi || (self.hi == other.hi && self.lo < other.lo)
    }

    /// The byte at `index`, counted from the front of the key.
    pub open spec fn spec_byte(self, index: int) -> u8 {
        if index < 16 {
            word_byte(self.hi, index)
        } else {
            word_byte(self.lo, index - 16)
        }
    }

    /// The 32 bytes of the key.
    pub open spec fn bytes(self) -> Seq<u8> {
        Seq::new(32, |i: int| self.spec_byte(i))
    }

    /// Tells whether this key comes before `other` in the order of their bytes.
    pub fn is_before(&self, other: &Pubkey) -> (before: bool)
        ensures
            before == self.lt(*other),
    {
        self.hi < other.hi || (self.hi == other.hi && self.lo < other.lo)
    }

    /// The byte at `index`, counted from the front of the key.
    pub fn byte(&self, index: usize) -> (byte: u8)
        requires
            index < 32,
        ensures
            byte == self.spec_byte(index as int),
            byte == self.bytes()[index as int],
    {
        if index < 16 {
            ((self.hi >> (8 * (15 - index)) as u128) & 0xff) as u8
        } else {
            ((self.lo >> (8 * (31 - index)) as u128) & 0xff) as u8
        }
    }
}

} // verus!
