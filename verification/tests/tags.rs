//! Tags, stamps and counters.

use senba_research::bitset::lowest_bit;
use senba_research::seqlock::{
    after_claim, after_scan, after_tag_load, begin_write, end_write, is_idle, marks_after_restore,
    probe_by_tag, probe_by_version, ClaimStep, Probe, ReadStep, TagStep, MAX_READER_RETRY,
};
use senba_research::stats::Stats;
use senba_research::tag::{
    hash_mask_from_id_mask, id_mask_from_shift, id_shift_from_entry_size, padded_len, zeroed, TagLayout,
    LIVE, SPARE,
};

#[test]
fn masks_of_the_entry_sizes() {
    for (size, shift) in [(1usize, 0u32), (2, 1), (4, 2), (8, 3), (16, 4), (32, 5), (64, 6), (128, 7), (256, 8)] {
        assert_eq!(id_shift_from_entry_size(size), shift);
        let id = id_mask_from_shift(shift);
        assert_eq!(id, 63 << shift);
        assert_eq!(hash_mask_from_id_mask(id, 8).count_ones(), 8);
        assert_eq!(hash_mask_from_id_mask(id, 9).count_ones(), 9);
    }
}

#[test]
fn fields_of_a_tag_do_not_touch() {
    for size in [1usize, 3, 16, 20, 32, 200] {
        for bits in [8u32, 9] {
            let l = TagLayout::for_entries(size, 1, bits);
            let spare = if bits == 8 { SPARE } else { 0 };
            assert_eq!(LIVE | spare | l.id_mask | l.hash_mask, 0xFFFF);
            assert_eq!(LIVE as u32 + spare as u32 + l.id_mask as u32 + l.hash_mask as u32, 0xFFFF);
        }
    }
}

#[test]
fn tags_carry_id_and_hash_bits() {
    let l = TagLayout::for_entries(16, 1, 9);
    let needle = l.needle_from_hash(0xABCD_EF01_2345_6789);
    for id in [0usize, 1, 63] {
        let tag = l.encode(id, needle);
        assert_eq!(l.id_of(tag), id);
        assert_eq!(tag & l.scan_mask(), needle);
        assert_ne!(tag & LIVE, 0);
        let moved = l.with_id(tag, 63 - id);
        assert_eq!(l.id_of(moved), 63 - id);
        assert_eq!(moved & l.scan_mask(), needle);
    }
    assert_eq!(l.encode(63, needle), LIVE | (63 << 4) | (needle & l.hash_mask));
}

#[test]
fn needles_tell_the_top_bits_apart() {
    for (bits, count) in [(8u32, 256u64), (9, 512)] {
        let l = TagLayout::for_entries(32, 1, bits);
        let mut needles: Vec<u16> = (0..count).map(|top| l.needle_from_hash(top << (64 - bits))).collect();
        assert_eq!(l.needle_from_hash(1), l.needle_from_hash(2));
        needles.sort();
        needles.dedup();
        assert_eq!(needles.len() as u64, count);
    }
}

#[test]
fn the_spare_bit_is_turned_set_and_cleared() {
    let l = TagLayout::for_entries(16, 1, 8);
    let tag = l.encode(5, l.needle_from_hash(u64::MAX));
    assert_eq!(l.flip_spare(tag), tag ^ SPARE);
    assert_eq!(l.flip_spare(l.flip_spare(tag)), tag);
    assert_eq!(l.set_spare(tag), tag | SPARE);
    assert_eq!(l.clear_spare(l.set_spare(tag)), tag);
}

#[test]
fn tags_are_laid_out_in_whole_lanes() {
    assert_eq!(padded_len(1), 16);
    assert_eq!(padded_len(16), 16);
    assert_eq!(padded_len(17), 32);
    assert_eq!(zeroed(3), vec![0, 0, 0]);
}

#[test]
fn readers_trust_a_stable_tag_alone() {
    let l = TagLayout::for_entries(16, 1, 8);
    let needle = l.needle_from_hash(7 << 56);
    let tag = l.encode(2, needle);
    assert!(matches!(probe_by_tag(&l, needle, tag, tag, true), Probe::Found(())));
    assert!(matches!(probe_by_tag(&l, needle, tag, tag, false), Probe::Miss));
    assert!(matches!(probe_by_tag(&l, needle, tag, tag ^ SPARE, true), Probe::Racing));
    assert!(matches!(probe_by_tag(&l, needle, tag, 0, true), Probe::Racing));
    assert!(matches!(probe_by_tag(&l, needle, 0, 0, true), Probe::Miss));
}

#[test]
fn readers_trust_an_even_version_alone() {
    let l = TagLayout::for_entries(32, 32, 9);
    let needle = l.needle_from_hash(7 << 56);
    let tag = l.encode(2, needle);
    assert!(matches!(probe_by_version(&l, needle, tag, 4, 4, true), Probe::Found(())));
    assert!(matches!(probe_by_version(&l, needle, tag, 4, 4, false), Probe::Miss));
    assert!(matches!(probe_by_version(&l, needle, tag, 5, 5, true), Probe::Racing));
    assert!(matches!(probe_by_version(&l, needle, tag, 4, 6, true), Probe::Racing));
    assert!(matches!(probe_by_version(&l, needle, 0, 4, 4, true), Probe::Miss));
}

#[test]
fn a_write_moves_the_version_by_two() {
    assert!(is_idle(8));
    assert!(!is_idle(begin_write(8)));
    assert_eq!(end_write(begin_write(8)), 10);
    assert_eq!(end_write(begin_write(u32::MAX - 1)), 0);
}

#[test]
fn steps_of_readers_and_writers() {
    assert!(matches!(after_scan(0, true, false), ReadStep::Hit));
    assert!(matches!(after_scan(0, false, true), ReadStep::Settled));
    assert!(matches!(after_scan(0, false, false), ReadStep::Again));
    assert!(matches!(after_scan(MAX_READER_RETRY - 1, false, false), ReadStep::GiveUp));
    assert!(matches!(after_claim(0, true), ClaimStep::Write));
    assert!(matches!(after_claim(0, false), ClaimStep::Escalate));
    assert!(marks_after_restore(true));
    assert!(!marks_after_restore(false));
    assert!(matches!(after_tag_load(0), TagStep::Wait));
    assert!(matches!(after_tag_load(0x8001), TagStep::Read(0x8001)));
}

#[test]
fn counters_wrap() {
    let mut s = Stats { hits: u64::MAX, misses: 0, insertions: 0, evictions: 0 };
    s.count_read(true);
    s.count_read(false);
    s.count_insert(true);
    s.count_insert(false);
    assert_eq!(s, Stats { hits: 0, misses: 1, insertions: 2, evictions: 1 });
    let mut total = Stats::new();
    total.add_counts(&s);
    total.add_counts(&s);
    assert_eq!(total, Stats { hits: 0, misses: 2, insertions: 4, evictions: 2 });
}

#[test]
fn the_lowest_bit_is_found() {
    assert_eq!(lowest_bit(1), 0);
    assert_eq!(lowest_bit(0b1010_0000), 5);
    assert_eq!(lowest_bit(1 << 63), 63);
}
