//! Single bits of a 64-bit word.
use vstd::prelude::*;

verus! {

/// Whether bit `i` of `word` is set.
pub open spec fn bit(word: u64, i: int) -> bool {
    word & (1u64 << (i as u64)) != 0
}

pub proof fn lemma_set_bit(word: u64, i: u64, j: u64)
    by (bit_vector)
    requires
        i < 64,
        j < 64,
    ensures
        ((word | (1u64 << i)) & (1u64 << j) != 0) == (i == j || word & (1u64 << j) != 0),
{
}

pub proof fn lemma_clear_bit(word: u64, i: u64, j: u64)
    by (bit_vector)
    requires
        i < 64,
        j < 64,
    ensures
        ((word & !(1u64 << i)) & (1u64 << j) != 0) == (i != j && word & (1u64 << j) != 0),
{
}

pub proof fn lemma_zero_bits(j: u64)
    by (bit_vector)
    requires
        j < 64,
    ensures
        0u64 & (1u64 << j) == 0,
{
}

/// `word` with bit `i` set.
pub fn with_bit(word: u64, i: usize) -> (r: u64)
    requires
        i < 64,
    ensures
        forall|j: int| 0 <= j < 64 ==> #[trigger] bit(r, j) == (j == i || bit(word, j)),
{
    proof {
        assert forall|j: int| 0 <= j < 64 implies #[trigger] bit(word | (1u64 << (i as u64)), j)
            == (j == i || bit(word, j)) by {
            lemma_set_bit(word, i as u64, j as u64);
        }
    }
    word | (1u64 << (i as u64))
}

/// `word` with bit `i` cleared.
pub fn without_bit(word: u64, i: usize) -> (r: u64)
    requires
        i < 64,
    ensures
        forall|j: int| 0 <= j < 64 ==> #[trigger] bit(r, j) == (j != i && bit(word, j)),
{
    proof {
        assert forall|j: int| 0 <= j < 64 implies #[trigger] bit(word & !(1u64 << (i as u64)), j)
            == (j != i && bit(word, j)) by {
            lemma_clear_bit(word, i as u64, j as u64);
        }
    }
    word & !(1u64 << (i as u64))
}

/// Bit `i` of `word`.
pub fn has_bit(word: u64, i: usize) -> (r: bool)
    requires
        i < 64,
    ensures
        r == bit(word, i as int),
{
    word & (1u64 << (i as u64)) != 0
}

/// No bit of zero is set.
pub proof fn lemma_no_bits()
    ensures
        forall|j: int| 0 <= j < 64 ==> !#[trigger] bit(0, j),
{
    assert forall|j: int| 0 <= j < 64 implies !#[trigger] bit(0, j) by {
        lemma_zero_bits(j as u64);
    }
}

/// Bit `i` is worth two to the power of `i` in the number that the word writes.
pub proof fn law_bit(word: u64, i: u64)
    requires
        i < 64,
    ensures
        bit(word, i as int) <==> (word >> i) % 2 == 1,
{
    assert((word & (1u64 << i) != 0) == ((word >> i) % 2 == 1)) by (bit_vector)
        requires
            i < 64,
    ;
}

} // verus!
