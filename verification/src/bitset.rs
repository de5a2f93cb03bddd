//! Bit sets in 64-bit words.
use crate::bits::{bit, has_bit, lemma_no_bits, with_bit, without_bit};
use vstd::prelude::*;

verus! {

/// A set of small numbers, one bit each.
pub struct BitSet {
    pub words: Vec<u64>,
}

impl BitSet {
    /// The number of bits that there is room for.
    pub open spec fn room(self) -> nat {
        self.words@.len() * 64
    }

    /// Whether `index` is in the set.
    pub open spec fn has(self, index: int) -> bool {
        bit(self.words@[index / 64], index % 64)
    }

    /// The empty set, with room for `nbits` bits.
    pub fn new(nbits: usize) -> (set: BitSet)
        ensures
            nbits <= set.room() < nbits + 64,
            forall|i: int| 0 <= i < set.room() ==> !#[trigger] set.has(i),
    {
        let num_words: usize = if nbits % 64 == 0 {
            nbits / 64
        } else {
            nbits / 64 + 1
        };
        let mut words: Vec<u64> = Vec::with_capacity(num_words);
        while words.len() < num_words
            invariant
                words@.len() <= num_words,
                forall|i: int| 0 <= i < words@.len() ==> #[trigger] words@[i] == 0,
            decreases num_words - words@.len(),
        {
            words.push(0);
        }
        proof {
            lemma_no_bits();
        }
        BitSet { words }
    }

    /// Puts `index` into the set.
    pub fn set(&mut self, index: usize)
        requires
            index < old(self).room(),
        ensures
            final(self).room() == old(self).room(),
            forall|i: int|
                0 <= i < old(self).room() ==> #[trigger] final(self).has(i) == (i == index || old(
                    self,
                ).has(i)),
    {
        let word_index: usize = index / 64;
        let bit_index: usize = index % 64;
        let word: u64 = with_bit(self.words[word_index], bit_index);
        self.words.set(word_index, word);
        proof {
            assert forall|i: int| 0 <= i < self.room() implies #[trigger] self.has(i) == (i == index
                || old(self).has(i)) by {
                if i / 64 == word_index {
                    assert(bit(word, i % 64) == (i % 64 == bit_index || bit(
                        old(self).words@[word_index as int],
                        i % 64,
                    )));
                }
            }
        }
    }

    /// Whether `index` is in the set.
    pub fn get(&self, index: usize) -> (held: bool)
        requires
            index < self.room(),
        ensures
            held == self.has(index as int),
    {
        has_bit(self.words[index / 64], index % 64)
    }

    /// Takes `index` out of the set.
    pub fn clear(&mut self, index: usize)
        requires
            index < old(self).room(),
        ensures
            final(self).room() == old(self).room(),
            forall|i: int|
                0 <= i < old(self).room() ==> #[trigger] final(self).has(i) == (i != index && old(
                    self,
                ).has(i)),
    {
        let word_index: usize = index / 64;
        let bit_index: usize = index % 64;
        let word: u64 = without_bit(self.words[word_index], bit_index);
        self.words.set(word_index, word);
        proof {
            assert forall|i: int| 0 <= i < self.room() implies #[trigger] self.has(i) == (i != index
                && old(self).has(i)) by {
                if i / 64 == word_index {
                    assert(bit(word, i % 64) == (i % 64 != bit_index && bit(
                        old(self).words@[word_index as int],
                        i % 64,
                    )));
                }
            }
        }
    }
}

/// The bits `[lo, hi)` of a word.
pub fn bit_range_mask(lo: usize, hi: usize) -> (mask: u64)
    requires
        lo <= 64,
        hi <= 64,
    ensures
        forall|j: int| 0 <= j < 64 ==> #[trigger] bit(mask, j) == (lo <= j < hi),
        hi <= lo ==> mask == 0,
{
    proof {
        lemma_no_bits();
    }
    if hi <= lo {
        return 0;
    }
    let high: u64 = if hi == 64 {
        u64::MAX
    } else {
        proof {
            lemma_low_bits(hi as u64, 0);
        }
        (1u64 << (hi as u64)) - 1
    };
    let low: u64 = if lo == 0 {
        0
    } else {
        proof {
            lemma_low_bits(lo as u64, 0);
        }
        (1u64 << (lo as u64)) - 1
    };
    let mask: u64 = high & !low;
    proof {
        assert forall|j: int| 0 <= j < 64 implies #[trigger] bit(mask, j) == (lo <= j < hi) by {
            lemma_without(high, low, j as u64);
            lemma_full_word(j as u64);
            assert(!bit(0, j));
            if hi < 64 {
                lemma_low_bits(hi as u64, j as u64);
            }
            if 0 < lo < 64 {
                lemma_low_bits(lo as u64, j as u64);
            }
        }
    }
    mask
}

/// The least bit of a word that is not zero.
pub fn lowest_bit(word: u64) -> (index: usize)
    requires
        word != 0,
    ensures
        index < 64,
        bit(word, index as int),
        forall|j: int| 0 <= j < index ==> !#[trigger] bit(word, j),
{
    let index: u32 = word.trailing_zeros();
    proof {
        vstd::std_specs::bits::axiom_u64_trailing_zeros(word);
        lemma_shifted(word, index as u64);
        assert forall|j: int| 0 <= j < index implies !#[trigger] bit(word, j) by {
            lemma_shifted(word, j as u64);
        }
    }
    index as usize
}

/// `word` has no bit exactly if it is zero.
pub proof fn lemma_zero_word(word: u64)
    ensures
        word == 0 <==> forall|j: int| 0 <= j < 64 ==> !#[trigger] bit(word, j),
{
    lemma_no_bits();
    if word != 0 {
        let r = vstd::std_specs::bits::u64_trailing_zeros(word);
        vstd::std_specs::bits::axiom_u64_trailing_zeros(word);
        lemma_shifted(word, r as u64);
        assert(bit(word, r as int));
    }
}

proof fn lemma_full_word(j: u64)
    by (bit_vector)
    requires
        j < 64,
    ensures
        0xffff_ffff_ffff_ffffu64 & (1u64 << j) != 0,
{
}

proof fn lemma_low_bits(h: u64, j: u64)
    by (bit_vector)
    requires
        h < 64,
        j < 64,
    ensures
        1u64 << h >= 1,
        ((((1u64 << h) - 1) as u64) & (1u64 << j) != 0) == (j < h),
{
}

/// Bits of a difference.
pub proof fn lemma_without(a: u64, b: u64, j: u64)
    by (bit_vector)
    requires
        j < 64,
    ensures
        ((a & !b) & (1u64 << j) != 0) == (a & (1u64 << j) != 0 && b & (1u64 << j) == 0),
{
}

/// Bits of a union.
pub proof fn lemma_union(a: u64, b: u64, j: u64)
    by (bit_vector)
    requires
        j < 64,
    ensures
        ((a | b) & (1u64 << j) != 0) == (a & (1u64 << j) != 0 || b & (1u64 << j) != 0),
{
}

proof fn lemma_shifted(word: u64, j: u64)
    by (bit_vector)
    requires
        j < 64,
    ensures
        (word & (1u64 << j) != 0) == ((word >> j) & 1 == 1),
        ((word >> j) & 1 == 0) == ((word >> j) & 1 != 1),
{
}

} // verus!
