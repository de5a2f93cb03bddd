//! 16-bit slot tags.
//!
//! A tag packs a live bit, the 6-bit id of the arena slot that holds the entry,
//! and the hash bits that are left. The id stands at `id_shift`, the logarithm
//! of the entry's stride, so that the masked tag is the entry's byte offset in
//! the arena. The hash bits fill the places below and above the id.
use vstd::prelude::*;

verus! {

/// The tag of a slot that holds nothing.
pub const EMPTY: u16 = 0;

/// Set in the tag of a slot that holds an entry.
pub const LIVE: u16 = 0x8000;

/// The bit below `LIVE`, free in a layout with 8 hash bits.
pub const SPARE: u16 = 0x4000;

/// Tags are laid out in groups of this many.
pub const LANE: usize = 16;

/// The number of ids that 6 bits tell apart.
pub const MAX_PER_SHARD: usize = 64;

/// Entry sizes whose logarithm can stand as an id shift.
pub open spec fn is_entry_size(s: usize) -> bool {
    s == 1 || s == 2 || s == 4 || s == 8 || s == 16 || s == 32 || s == 64 || s == 128 || s == 256
}

/// The logarithm of an entry size.
pub open spec fn shift_of_size(s: usize) -> u32 {
    if s == 1 {
        0
    } else if s == 2 {
        1
    } else if s == 4 {
        2
    } else if s == 8 {
        3
    } else if s == 16 {
        4
    } else if s == 32 {
        5
    } else if s == 64 {
        6
    } else if s == 128 {
        7
    } else {
        8
    }
}

/// The id shift for entries of `s` bytes.
pub fn id_shift_from_entry_size(s: usize) -> (shift: u32)
    requires
        is_entry_size(s),
    ensures
        shift == shift_of_size(s),
        shift <= 8,
        s == 1usize << shift,
{
    let mut shift: u32 = 0;
    let mut size: usize = 1;
    assert(1usize << 0u32 == 1) by (bit_vector);
    while size < s
        invariant
            is_entry_size(s),
            is_entry_size(size),
            size <= s,
            shift == shift_of_size(size),
            size == 1usize << shift,
        decreases s - size,
    {
        assert(1usize << shift == size && shift < 8 ==> 1usize << ((shift + 1) as u32) == 2 * size)
            by (bit_vector);
        size = size * 2;
        shift = shift + 1;
    }
    shift
}

/// The bits of the id at a shift.
pub fn id_mask_from_shift(id_shift: u32) -> (mask: u16)
    requires
        id_shift <= 8,
    ensures
        mask == 63u16 << id_shift,
{
    63u16 << id_shift
}

/// The size at which entries of `size` bytes are strided when each is aligned
/// to `align` bytes: the least power of two that is no less than either, as far
/// as the id shift can express it.
pub open spec fn stride_of(size: usize, align: usize) -> usize {
    let n = if size < align {
        align
    } else {
        size
    };
    if n <= 1 {
        1
    } else if n <= 2 {
        2
    } else if n <= 4 {
        4
    } else if n <= 8 {
        8
    } else if n <= 16 {
        16
    } else if n <= 32 {
        32
    } else if n <= 64 {
        64
    } else if n <= 128 {
        128
    } else {
        256
    }
}

/// Where the fields of a tag lie.
#[derive(Clone, Copy)]
pub struct TagLayout {
    pub id_shift: u32,
    pub id_mask: u16,
    pub hash_mask: u16,
    pub hash_bits: u32,
}

impl TagLayout {
    /// An id of 6 bits at a shift of at most 8, and 8 or 9 hash bits round it.
    pub open spec fn wf(self) -> bool {
        &&& self.id_shift <= 8
        &&& self.id_mask == 63u16 << self.id_shift
        &&& self.hash_bits == 8 || self.hash_bits == 9
        &&& self.hash_bits == 8 ==> self.hash_mask == 0x3FFFu16 & !self.id_mask
        &&& self.hash_bits == 9 ==> self.hash_mask == 0x7FFFu16 & !self.id_mask
    }

    /// The bits that a scan compares.
    pub open spec fn scan_bits(self) -> u16 {
        LIVE | self.hash_mask
    }

    /// The id in `tag`.
    pub open spec fn id(self, tag: u16) -> int {
        ((tag & self.id_mask) >> self.id_shift) as int
    }

    /// Whether `tag` has the live bit and the hash bits of `needle`.
    pub open spec fn matches_needle(self, tag: u16, needle: u16) -> bool {
        tag & self.scan_bits() == needle
    }

    /// Whether `needle` is a live bit and hash bits, and nothing else.
    pub open spec fn is_needle(self, needle: u16) -> bool {
        needle & self.scan_bits() == needle && needle & LIVE != 0
    }

    /// The live bit and the top bits of `hash`, spread round the id.
    pub open spec fn needle(self, hash: u64) -> u16 {
        let top = if self.hash_bits == 8 {
            (hash >> 56) as u16
        } else {
            (hash >> 55) as u16
        };
        let low = (1u16 << self.id_shift) - 1;
        LIVE | (top & (low as u16)) | ((top & !(low as u16)) << 6)
    }

    /// The layout for entries at a stride of `stride` bytes.
    pub open spec fn for_stride(stride: usize, hash_bits: u32) -> TagLayout {
        let id_shift = shift_of_size(stride);
        let id_mask = 63u16 << id_shift;
        TagLayout {
            id_shift,
            id_mask,
            hash_mask: if hash_bits == 8 {
                0x3FFFu16 & !id_mask
            } else {
                0x7FFFu16 & !id_mask
            },
            hash_bits,
        }
    }

    /// The layout for entries of `size` bytes, aligned to `align` bytes.
    pub fn for_entries(size: usize, align: usize, hash_bits: u32) -> (layout: TagLayout)
        requires
            hash_bits == 8 || hash_bits == 9,
        ensures
            layout.wf(),
            layout == TagLayout::for_stride(stride_of(size, align), hash_bits),
    {
        let n: usize = if size < align {
            align
        } else {
            size
        };
        let mut stride: usize = 1;
        while stride < n && stride < 256
            invariant
                is_entry_size(stride),
                stride == 1 || (stride / 2 < n),
                n == (if size < align {
                    align
                } else {
                    size
                }),
            decreases 256 - stride,
        {
            stride = stride * 2;
        }
        assert(stride == stride_of(size, align));
        let id_shift: u32 = id_shift_from_entry_size(stride);
        let id_mask: u16 = id_mask_from_shift(id_shift);
        let hash_mask: u16 = hash_mask_from_id_mask(id_mask, hash_bits);
        TagLayout { id_shift, id_mask, hash_mask, hash_bits }
    }

    /// The id in `tag`.
    pub fn id_of(&self, tag: u16) -> (id: usize)
        requires
            self.wf(),
        ensures
            id == self.id(tag),
            id < MAX_PER_SHARD,
    {
        proof {
            lemma_id_range(tag, self.id_shift);
        }
        ((tag & self.id_mask) >> self.id_shift) as usize
    }

    /// The bits that a scan compares.
    pub fn scan_mask(&self) -> (mask: u16)
        ensures
            mask == self.scan_bits(),
    {
        LIVE | self.hash_mask
    }

    /// The needle of `hash`.
    pub fn needle_from_hash(&self, hash: u64) -> (needle: u16)
        requires
            self.wf(),
        ensures
            needle == self.needle(hash),
            self.is_needle(needle),
    {
        let top: u16 = if self.hash_bits == 8 {
            (hash >> 56) as u16
        } else {
            (hash >> 55) as u16
        };
        let s: u32 = self.id_shift;
        proof {
            lemma_low_mask(s);
            lemma_needle(hash, s);
        }
        let low_mask: u16 = (1u16 << s) - 1;
        let low: u16 = top & low_mask;
        let high: u16 = (top & !low_mask) << 6;
        LIVE | low | high
    }

    /// The tag of the entry with `id`, under the hash bits of `needle`.
    pub fn encode(&self, id: usize, needle: u16) -> (tag: u16)
        requires
            self.wf(),
            id < MAX_PER_SHARD,
            self.is_needle(needle),
        ensures
            self.id(tag) == id,
            self.matches_needle(tag, needle),
            tag & LIVE != 0,
            self.hash_bits == 8 ==> tag & SPARE == 0,
    {
        proof {
            lemma_encode(id as u16, needle, self.id_shift);
        }
        LIVE | ((id as u16) << self.id_shift) | (needle & self.hash_mask)
    }

    /// `tag` with another id.
    pub fn with_id(&self, tag: u16, id: usize) -> (r: u16)
        requires
            self.wf(),
            id < MAX_PER_SHARD,
        ensures
            self.id(r) == id,
            r & self.scan_bits() == tag & self.scan_bits(),
            r & LIVE == tag & LIVE,
    {
        proof {
            lemma_with_id(tag, id as u16, self.id_shift);
        }
        (tag & !self.id_mask) | ((id as u16) << self.id_shift)
    }

    /// `tag` with its spare bit turned over: id, live bit and hash bits stay.
    pub fn flip_spare(&self, tag: u16) -> (r: u16)
        requires
            self.wf(),
            self.hash_bits == 8,
        ensures
            r != tag,
            r & SPARE != tag & SPARE,
            self.id(r) == self.id(tag),
            r & self.scan_bits() == tag & self.scan_bits(),
            r & LIVE == tag & LIVE,
    {
        proof {
            lemma_flip_spare(tag, self.id_shift);
        }
        tag ^ SPARE
    }

    /// `tag` with its spare bit set.
    pub fn set_spare(&self, tag: u16) -> (r: u16)
        requires
            self.wf(),
            self.hash_bits == 8,
        ensures
            r & SPARE != 0,
            self.id(r) == self.id(tag),
            r & self.scan_bits() == tag & self.scan_bits(),
            r & LIVE == tag & LIVE,
    {
        proof {
            lemma_spare(tag, self.id_shift);
        }
        tag | SPARE
    }

    /// `tag` with its spare bit cleared.
    pub fn clear_spare(&self, tag: u16) -> (r: u16)
        requires
            self.wf(),
            self.hash_bits == 8,
        ensures
            r & SPARE == 0,
            self.id(r) == self.id(tag),
            r & self.scan_bits() == tag & self.scan_bits(),
            r & LIVE == tag & LIVE,
    {
        proof {
            lemma_spare(tag, self.id_shift);
        }
        tag & !SPARE
    }

    /// Live bit, id bits and hash bits share no place, and with the spare bit,
    /// where the layout has one, they fill the tag.
    pub proof fn law_fields_exclusive(self)
        requires
            self.wf(),
        ensures
            LIVE & self.id_mask == 0,
            LIVE & self.hash_mask == 0,
            self.id_mask & self.hash_mask == 0,
            self.hash_bits == 9 ==> LIVE | self.id_mask | self.hash_mask == 0xFFFF,
            self.hash_bits == 8 ==> SPARE & self.id_mask == 0 && SPARE & self.hash_mask == 0,
            self.hash_bits == 8 ==> LIVE | SPARE | self.id_mask | self.hash_mask == 0xFFFF,
    {
        lemma_fields(self.id_shift);
    }

    /// Two hashes have the same needle exactly if their top bits agree.
    pub proof fn law_needle_tells_top_bits(self, a: u64, b: u64)
        requires
            self.wf(),
        ensures
            self.hash_bits == 8 ==> (self.needle(a) == self.needle(b) <==> a >> 56 == b >> 56),
            self.hash_bits == 9 ==> (self.needle(a) == self.needle(b) <==> a >> 55 == b >> 55),
    {
        lemma_low_mask(self.id_shift);
        lemma_needle_injective(a, b, self.id_shift);
    }
}

/// The hash bits of a layout with `hash_bits` of them: what the id and the live
/// bit leave, less the spare bit where there are 8.
pub fn hash_mask_from_id_mask(id_mask: u16, hash_bits: u32) -> (mask: u16)
    requires
        hash_bits == 8 || hash_bits == 9,
    ensures
        hash_bits == 8 ==> mask == 0x3FFFu16 & !id_mask,
        hash_bits == 9 ==> mask == 0x7FFFu16 & !id_mask,
{
    if hash_bits == 8 {
        0x3FFFu16 & !id_mask
    } else {
        0x7FFFu16 & !id_mask
    }
}

/// The number of tags that a shard of `slots` positions lays out: a multiple of
/// `LANE`, and one group at least.
pub open spec fn padded(slots: int) -> int {
    if slots <= 0 {
        LANE as int
    } else {
        (slots + (LANE - 1)) / (LANE as int) * (LANE as int)
    }
}

/// Rounds a number of slots up to full groups.
pub fn padded_len(slots: usize) -> (n: usize)
    requires
        slots + LANE <= usize::MAX,
    ensures
        n == padded(slots as int),
        n >= slots,
        n >= LANE,
{
    let n: usize = (slots + (LANE - 1)) / LANE * LANE;
    if n < LANE {
        LANE
    } else {
        n
    }
}

/// `n` empty tags.
pub fn zeroed(n: usize) -> (tags: Vec<u16>)
    ensures
        tags@.len() == n,
        forall|i: int| 0 <= i < n ==> #[trigger] tags@[i] == EMPTY,
{
    let mut tags: Vec<u16> = Vec::with_capacity(n);
    while tags.len() < n
        invariant
            tags@.len() <= n,
            forall|i: int| 0 <= i < tags@.len() ==> #[trigger] tags@[i] == EMPTY,
        decreases n - tags@.len(),
    {
        tags.push(EMPTY);
    }
    tags
}

proof fn lemma_id_range(tag: u16, s: u32)
    by (bit_vector)
    requires
        s <= 8,
    ensures
        ((tag & (63u16 << s)) >> s) < 64,
{
}

proof fn lemma_low_mask(s: u32)
    by (bit_vector)
    requires
        s <= 8,
    ensures
        1u16 << s >= 1,
        1u16 << s <= 256,
{
}

proof fn lemma_needle(hash: u64, s: u32)
    by (bit_vector)
    requires
        s <= 8,
    ensures
        ({
            let low = ((1u16 << s) - 1) as u16;
            let top8 = (hash >> 56) as u16;
            let top9 = (hash >> 55) as u16;
            let n8 = 0x8000u16 | (top8 & low) | ((top8 & !low) << 6);
            let n9 = 0x8000u16 | (top9 & low) | ((top9 & !low) << 6);
            let m8 = 0x8000u16 | (0x3FFFu16 & !(63u16 << s));
            let m9 = 0x8000u16 | (0x7FFFu16 & !(63u16 << s));
            n8 & m8 == n8 && n9 & m9 == n9 && n8 & 0x8000u16 != 0 && n9 & 0x8000u16 != 0
        }),
{
}

proof fn lemma_needle_injective(a: u64, b: u64, s: u32)
    by (bit_vector)
    requires
        s <= 8,
    ensures
        ({
            let low = ((1u16 << s) - 1) as u16;
            let a8 = (a >> 56) as u16;
            let b8 = (b >> 56) as u16;
            let a9 = (a >> 55) as u16;
            let b9 = (b >> 55) as u16;
            ((0x8000u16 | (a8 & low) | ((a8 & !low) << 6)) == (0x8000u16 | (b8 & low) | ((b8 & !low)
                << 6))) == (a >> 56 == b >> 56) && ((0x8000u16 | (a9 & low) | ((a9 & !low) << 6))
                == (0x8000u16 | (b9 & low) | ((b9 & !low) << 6))) == (a >> 55 == b >> 55)
        }),
{
}

proof fn lemma_encode(id: u16, needle: u16, s: u32)
    by (bit_vector)
    requires
        s <= 8,
        id < 64,
    ensures
        ({
            let h8 = 0x3FFFu16 & !(63u16 << s);
            let h9 = 0x7FFFu16 & !(63u16 << s);
            let t8 = 0x8000u16 | (id << s) | (needle & h8);
            let t9 = 0x8000u16 | (id << s) | (needle & h9);
            &&& (t8 & (63u16 << s)) >> s == id
            &&& (t9 & (63u16 << s)) >> s == id
            &&& t8 & 0x8000u16 != 0
            &&& t9 & 0x8000u16 != 0
            &&& needle & (0x8000u16 | h8) == needle && needle & 0x8000u16 != 0 ==> t8 & (0x8000u16
                | h8) == needle && t8 & 0x4000u16 == 0
            &&& needle & (0x8000u16 | h9) == needle && needle & 0x8000u16 != 0 ==> t9 & (0x8000u16
                | h9) == needle
        }),
{
}

proof fn lemma_with_id(tag: u16, id: u16, s: u32)
    by (bit_vector)
    requires
        s <= 8,
        id < 64,
    ensures
        ({
            let m = 63u16 << s;
            let h8 = 0x3FFFu16 & !m;
            let h9 = 0x7FFFu16 & !m;
            let r = (tag & !m) | (id << s);
            &&& (r & m) >> s == id
            &&& r & (0x8000u16 | h8) == tag & (0x8000u16 | h8)
            &&& r & (0x8000u16 | h9) == tag & (0x8000u16 | h9)
            &&& r & 0x8000u16 == tag & 0x8000u16
        }),
{
}

proof fn lemma_flip_spare(tag: u16, s: u32)
    by (bit_vector)
    requires
        s <= 8,
    ensures
        ({
            let m = 63u16 << s;
            let h8 = 0x3FFFu16 & !m;
            let r = tag ^ 0x4000u16;
            &&& r != tag
            &&& r & 0x4000u16 != tag & 0x4000u16
            &&& (r & m) >> s == (tag & m) >> s
            &&& r & (0x8000u16 | h8) == tag & (0x8000u16 | h8)
            &&& r & 0x8000u16 == tag & 0x8000u16
        }),
{
}

proof fn lemma_spare(tag: u16, s: u32)
    by (bit_vector)
    requires
        s <= 8,
    ensures
        ({
            let m = 63u16 << s;
            let h8 = 0x3FFFu16 & !m;
            let r = tag | 0x4000u16;
            let c = tag & !0x4000u16;
            &&& r & 0x4000u16 != 0
            &&& c & 0x4000u16 == 0
            &&& (r & m) >> s == (tag & m) >> s
            &&& (c & m) >> s == (tag & m) >> s
            &&& r & (0x8000u16 | h8) == tag & (0x8000u16 | h8)
            &&& c & (0x8000u16 | h8) == tag & (0x8000u16 | h8)
            &&& r & 0x8000u16 == tag & 0x8000u16
            &&& c & 0x8000u16 == tag & 0x8000u16
        }),
{
}

proof fn lemma_fields(s: u32)
    by (bit_vector)
    requires
        s <= 8,
    ensures
        ({
            let m = 63u16 << s;
            let h8 = 0x3FFFu16 & !m;
            let h9 = 0x7FFFu16 & !m;
            &&& 0x8000u16 & m == 0
            &&& 0x8000u16 & h8 == 0
            &&& 0x8000u16 & h9 == 0
            &&& m & h8 == 0
            &&& m & h9 == 0
            &&& 0x4000u16 & m == 0
            &&& 0x4000u16 & h8 == 0
            &&& 0x8000u16 | m | h9 == 0xFFFF
            &&& 0x8000u16 | 0x4000u16 | m | h8 == 0xFFFF
        }),
{
}

/// A tag that matches a needle is not empty.
pub proof fn lemma_match_is_live(layout: TagLayout, tag: u16, needle: u16)
    requires
        layout.wf(),
        layout.is_needle(needle),
        layout.matches_needle(tag, needle),
    ensures
        tag & LIVE != 0,
        tag != EMPTY,
{
    let h = layout.hash_mask;
    assert(tag & (0x8000u16 | h) == needle && needle & 0x8000u16 != 0 ==> tag & 0x8000u16 != 0
        && tag != 0) by (bit_vector);
}

} // verus!
