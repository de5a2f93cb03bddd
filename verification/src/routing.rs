//! Which bytes of a key are hashed, and which shard a hash selects.
use crate::experimental::{sieve_c17s, sieve_r3};
use crate::hash::{shard_index, CacheKey};
use crate::sharded::is_shard_count;
use crate::tag::{is_entry_size, padded, stride_of, TagLayout, LANE, MAX_PER_SHARD};
use vstd::arithmetic::power2::{lemma_pow2_pos, lemma_pow2_unfold, pow2};
use vstd::bytes::*;
use vstd::prelude::*;
use vstd::utf8::*;

verus! {

proof fn lemma_mask(h: u64, n: usize, twice: usize)
    by (bit_vector)
    ensures
        n > 0 && n & ((n - 1) as usize) == 0 && h >= (n as u64) ==> (h as usize) & ((n - 1) as usize)
            == (((h - (n as u64)) as u64) as usize) & ((n - 1) as usize),
        n > 0 && n & ((n - 1) as usize) == 0 && h < (n as u64) ==> (h as usize) & ((n - 1) as usize)
            == h,
        n > 1 && n % 2 == 1 ==> n & ((n - 1) as usize) != 0,
        n > 0 && twice == 2 * n ==> (twice & ((twice - 1) as usize) == 0) == (n & ((n - 1) as usize)
            == 0),
        n == 1 ==> n & ((n - 1) as usize) == 0,
{
}

/// The numbers of shards that a bit mask can select are the powers of two.
pub proof fn law_shard_counts(n: usize)
    ensures
        is_shard_count(n) <==> exists|e: nat| n == #[trigger] pow2(e),
    decreases n,
{
    lemma_mask(0, n, 0);
    if n == 0 {
        assert forall|e: nat| n != #[trigger] pow2(e) by {
            lemma_pow2_pos(e);
        }
    } else if n == 1 {
        vstd::arithmetic::power2::lemma2_to64();
        assert(n == pow2(0));
    } else if n % 2 == 1 {
        assert forall|e: nat| n != #[trigger] pow2(e) by {
            if e == 0 {
                vstd::arithmetic::power2::lemma2_to64();
            } else {
                lemma_pow2_unfold(e);
            }
        }
    } else {
        let half = (n / 2) as usize;
        lemma_mask(0, half, n);
        law_shard_counts(half);
        if is_shard_count(half) {
            let e = choose|e: nat| half == #[trigger] pow2(e);
            lemma_pow2_unfold(e + 1);
            assert(n == pow2(e + 1));
        }
        if exists|e: nat| n == #[trigger] pow2(e) {
            let e = choose|e: nat| n == #[trigger] pow2(e);
            if e == 0 {
                vstd::arithmetic::power2::lemma2_to64();
            }
            lemma_pow2_unfold(e);
            assert(half == pow2((e - 1) as nat));
        }
    }
}

/// A hash selects the shard whose number is its remainder by the number of shards.
pub proof fn law_shard_of_hash(hash: u64, shards: usize)
    requires
        is_shard_count(shards),
    ensures
        shard_index(hash, (shards - 1) as usize) == hash % (shards as u64),
    decreases hash,
{
    lemma_mask(hash, shards, 0);
    if hash >= shards as u64 {
        let less = (hash - shards as u64) as u64;
        law_shard_of_hash(less, shards);
        assert(hash % (shards as u64) == less % (shards as u64)) by {
            vstd::arithmetic::div_mod::lemma_mod_add_multiples_vanish(less as int, shards as int);
        }
    } else {
        vstd::arithmetic::div_mod::lemma_small_mod(hash as nat, shards as nat);
    }
}

/// A number is hashed by all of its bytes: they give the number back.
pub proof fn law_number_bytes(a: u64, b: u32, c: i32)
    ensures
        a.hash_bytes().len() == 8,
        spec_u64_from_le_bytes(a.hash_bytes()) == a,
        b.hash_bytes().len() == 4,
        spec_u32_from_le_bytes(b.hash_bytes()) == b,
        c.hash_bytes() == (c as u32).hash_bytes(),
{
    lemma_auto_spec_u64_to_from_le_bytes();
    lemma_auto_spec_u32_to_from_le_bytes();
    assert(spec_u32_to_le_bytes(b).len() == 4);
}

/// A text is hashed by all of its characters: the bytes in front of the last, which no text
/// holds, give the text back.
pub proof fn law_text_bytes(s: String)
    ensures
        s.hash_bytes().last() == 0xff,
        decode_utf8(s.hash_bytes().drop_last()) == s@,
{
    encode_utf8_decode_utf8(s@);
    assert(s.hash_bytes().drop_last() =~= encode_utf8(s@));
}

/// A shard has room for up to 64 items.
pub proof fn law_shard_room(n: usize)
    ensures
        n <= MAX_PER_SHARD <==> n <= 64,
{
}

/// Tags are laid out in full groups, and in no more than are needed.
pub proof fn law_padded(slots: int)
    ensures
        padded(slots) % 16 == 0,
        padded(slots) >= 16,
        slots > 0 ==> slots <= padded(slots) < slots + 16,
{
    if slots > 0 {
        let g = (slots + (LANE - 1)) / (LANE as int);
        vstd::arithmetic::div_mod::lemma_mod_multiples_basic(g, LANE as int);
    }
}

/// Entries are strided at the least power of two that is no less than their size and their
/// alignment, up to 256. Versioned entries take 32 bytes at least, and those that can be removed
/// 16.
pub proof fn law_stride(size: usize, align: usize)
    ensures
        is_entry_size(stride_of(size, align)),
        stride_of(size, align) < 256 ==> stride_of(size, align) >= size && stride_of(size, align)
            >= align,
        stride_of(size, align) > 1 ==> stride_of(size, align) / 2 < size || stride_of(size, align)
            / 2 < align,
        stride_of(size, sieve_c17s::ENTRY_ALIGN) >= 32,
        size <= 32 ==> stride_of(size, sieve_c17s::ENTRY_ALIGN) == 32,
        stride_of(size, sieve_r3::ENTRY_ALIGN) >= 16,
        size <= 16 ==> stride_of(size, sieve_r3::ENTRY_ALIGN) == 16,
{
}

/// An entry's place is its id shifted by the logarithm of the stride.
pub proof fn law_shift(stride: usize, hash_bits: u32)
    requires
        is_entry_size(stride),
    ensures
        1usize << TagLayout::for_stride(stride, hash_bits).id_shift == stride,
{
    assert(1usize << 0u32 == 1 && 1usize << 1u32 == 2 && 1usize << 2u32 == 4 && 1usize << 3u32 == 8
        && 1usize << 4u32 == 16 && 1usize << 5u32 == 32 && 1usize << 6u32 == 64 && 1usize << 7u32
        == 128 && 1usize << 8u32 == 256) by (bit_vector);
}

} // verus!
