//! Keys, their hash and the shard that a hash selects.
use vstd::bytes::*;
use vstd::prelude::*;
use vstd::slice::*;
use vstd::string::*;
use vstd::utf8::*;

verus! {

/// The 64-bit XXH3 digest of a byte string.
pub uninterp spec fn xxh3_digest(bytes: Seq<u8>) -> u64;

/// `xxhash_rust::xxh3::xxh3_64`: the digest of `bytes` under the default secret
/// and seed zero. Only that it is a function of the bytes is claimed.
#[verifier::external_body]
fn xxh3_64(bytes: &[u8]) -> (digest: u64)
    ensures
        digest == xxh3_digest(bytes@),
{
    xxhash_rust::xxh3::xxh3_64(bytes)
}

/// What a cache asks of a key: an equality that is equality, and the bytes
/// that stand for the key in its hash.
pub trait CacheKey: Sized {
    /// Whether keys of this type that cannot be told apart are one.
    spec fn told_apart() -> bool;

    /// The bytes that are hashed for this key.
    spec fn hash_bytes(self) -> Seq<u8>;

    fn to_hash_bytes(&self) -> (bytes: Vec<u8>)
        ensures
            bytes@ == self.hash_bytes(),
    ;

    fn same_key(&self, other: &Self) -> (same: bool)
        ensures
            Self::told_apart() ==> same == (*self == *other),
    ;

    fn duplicate(&self) -> (copy: Self)
        ensures
            copy == *self,
    ;
}

impl CacheKey for u64 {
    open spec fn told_apart() -> bool {
        true
    }

    open spec fn hash_bytes(self) -> Seq<u8> {
        spec_u64_to_le_bytes(self)
    }

    fn to_hash_bytes(&self) -> (bytes: Vec<u8>) {
        u64_to_le_bytes(*self)
    }

    fn same_key(&self, other: &Self) -> (same: bool) {
        *self == *other
    }

    fn duplicate(&self) -> (copy: Self) {
        *self
    }
}

impl CacheKey for u32 {
    open spec fn told_apart() -> bool {
        true
    }

    open spec fn hash_bytes(self) -> Seq<u8> {
        spec_u32_to_le_bytes(self)
    }

    fn to_hash_bytes(&self) -> (bytes: Vec<u8>) {
        u32_to_le_bytes(*self)
    }

    fn same_key(&self, other: &Self) -> (same: bool) {
        *self == *other
    }

    fn duplicate(&self) -> (copy: Self) {
        *self
    }
}

impl CacheKey for i32 {
    open spec fn told_apart() -> bool {
        true
    }

    open spec fn hash_bytes(self) -> Seq<u8> {
        spec_u32_to_le_bytes(self as u32)
    }

    fn to_hash_bytes(&self) -> (bytes: Vec<u8>) {
        u32_to_le_bytes(*self as u32)
    }

    fn same_key(&self, other: &Self) -> (same: bool) {
        *self == *other
    }

    fn duplicate(&self) -> (copy: Self) {
        *self
    }
}

impl CacheKey for String {
    /// A text is its characters: two with the same characters are one. The shards ask for
    /// this; it is a condition on the caller, not proved here.
    open spec fn told_apart() -> bool {
        forall|a: String, b: String| #[trigger] a@ == #[trigger] b@ ==> a == b
    }

    /// The characters in UTF-8 and one byte that ends them, as a text is hashed.
    open spec fn hash_bytes(self) -> Seq<u8> {
        encode_utf8(self@).push(0xff)
    }

    fn to_hash_bytes(&self) -> (bytes: Vec<u8>) {
        let text: &str = self.as_str();
        let mut bytes: Vec<u8> = slice_to_vec(text.as_bytes());
        bytes.push(0xff);
        bytes
    }

    fn same_key(&self, other: &Self) -> (same: bool) {
        *self == *other
    }

    fn duplicate(&self) -> (copy: Self) {
        self.clone()
    }
}

/// The hash of a key.
pub open spec fn key_hash<K: CacheKey>(key: K) -> u64 {
    xxh3_digest(key.hash_bytes())
}

/// Hashes `key`.
pub fn hash_key<K: CacheKey>(key: &K) -> (hash: u64)
    ensures
        hash == key_hash(*key),
{
    let bytes: Vec<u8> = key.to_hash_bytes();
    xxh3_64(bytes.as_slice())
}

/// The shard that `hash` selects among `mask + 1` shards: its low bits.
pub open spec fn shard_index(hash: u64, mask: usize) -> usize {
    (hash as usize) & mask
}

/// Selects a shard by the low bits of `hash`.
pub fn shard_of_hash(hash: u64, mask: usize) -> (index: usize)
    ensures
        index == shard_index(hash, mask),
        index <= mask,
{
    let h: usize = hash as usize;
    assert(h & mask <= mask) by (bit_vector);
    h & mask
}

} // verus!
