//! Texts, trace files and presets.

use senba_research::hash::{hash_key, shard_of_hash};
use senba_research::text::{
    lower_chars, number_up_to, parse_u32, parse_u64, parse_usize, same, second_field, spells, split,
    trim, two_words, writes_float,
};
use senba_research::workload::arc_preset::lookup;
use senba_research::workload::file::{
    arc_range, key_of_line, libcachesim_csv_key, load, load_arc, load_arc_stream, twitter_csv_key,
    twitter_csv_key_string, ArcError, Format, LineError, TraceReader,
};
use senba_research::workload::twitter_texts::{load_texts, TextReader};
use senba_research::workload::zst::unpack;
use std::collections::hash_map::DefaultHasher;
use std::hash::{Hash, Hasher};

#[test]
fn trim_agrees_with_the_standard_library() {
    for text in ["", " ", "a", "  a b\t", "\u{3000}x\u{a0}", "\u{85}\u{2028}", "\u{200b}z\u{200b}"] {
        assert_eq!(trim(text), text.trim(), "{text:?}");
    }
}

#[test]
fn every_white_space_character_is_trimmed() {
    for u in 0..0x11_0000u32 {
        if let Some(c) = char::from_u32(u) {
            let text = c.to_string();
            if c.is_whitespace() || u % 4099 == 0 {
                assert_eq!(trim(&text), text.trim(), "{u:x}");
            }
        }
    }
}

#[test]
fn split_agrees_with_the_standard_library() {
    for text in ["", ",", "a", "a,b", ",a,,b,", "x, y ,z"] {
        let want: Vec<&str> = text.split(',').collect();
        assert_eq!(split(text, ','), want, "{text:?}");
        assert_eq!(second_field(text, ','), text.split(',').nth(1), "{text:?}");
    }
}

#[test]
fn words_agree_with_the_standard_library() {
    for text in ["", "  ", "a", " a  b c", "\t12 3", "x\u{2003}y"] {
        let mut it = text.split_whitespace();
        assert_eq!(two_words(text), (it.next(), it.next()), "{text:?}");
    }
}

#[test]
fn numbers_agree_with_the_standard_library() {
    for text in [
        "", "+", "-", "0", "-0", "+0", "007", "12a", " 1", "1 ", "++1", "4294967295", "4294967296",
        "18446744073709551615", "18446744073709551616", "99999999999999999999999", "\u{661}",
    ] {
        assert_eq!(parse_u64(text), text.parse::<u64>().ok(), "{text:?}");
        assert_eq!(parse_u32(text), text.parse::<u32>().ok(), "{text:?}");
        assert_eq!(parse_usize(text), text.parse::<usize>().ok(), "{text:?}");
    }
    assert_eq!(number_up_to("10", 10), Some(10));
    assert_eq!(number_up_to("11", 10), None);
}

#[test]
fn floats_agree_with_the_standard_library() {
    for text in [
        "", ".", "+", "1", "-1", "+1.5", "1.", ".5", "1e3", "1E-3", "1e", "1e+", "e1", ".e1", "1.5e+07",
        "inf", "-Infinity", "NaN", "nan1", "1.2.3", "0x1", " 1", "1 ", "1e5.", "infinit", "--1", "1_0",
    ] {
        assert_eq!(writes_float(text), text.parse::<f64>().is_ok(), "{text:?}");
    }
}

#[test]
fn small_letters_and_sameness() {
    let v = lower_chars("ConCat-\u{c4}Z");
    assert_eq!(v.iter().collect::<String>(), "ConCat-\u{c4}Z".to_ascii_lowercase());
    assert!(spells(&v, "concat-\u{c4}z"));
    assert!(!spells(&v, "concat"));
    assert!(same("a", "a"));
    assert!(!same("a", "ab"));
}

#[test]
fn presets_are_found_by_name() {
    let p = lookup("s3").unwrap();
    assert_eq!(p.trace_path, "external/mokabench/cache-trace/arc/S3.lis.zst");
    assert_eq!(p.default_capacities, vec![100_000, 400_000, 800_000]);
    let p = lookup("oltp").unwrap();
    assert_eq!(p.trace_path, "external/mokabench/cache-trace/arc/OLTP.lis.zst");
    assert_eq!(p.default_capacities, vec![256, 512, 1_000, 2_000]);
    assert_eq!(lookup("merge-p").unwrap().trace_path, lookup("mergep").unwrap().trace_path);
    assert_eq!(lookup("merge-s").unwrap().trace_path, lookup("merges").unwrap().trace_path);
    assert_eq!(lookup("p1").unwrap().default_capacities, vec![20_000, 160_000]);
    assert_eq!(lookup("p13").unwrap().trace_path, "external/mokabench/cache-trace/arc/P13.lis.zst");
    assert_eq!(lookup("p14").unwrap().default_capacities, vec![80_000, 640_000]);
    for i in 1..=14 {
        assert!(lookup(&format!("p{i}")).is_some());
    }
    assert!(lookup("p15").is_none());
    assert!(lookup("spc1likeread").is_none());
    assert!(lookup("").is_none());
}

#[test]
fn preset_names_ignore_case_and_outer_space() {
    assert_eq!(lookup(" ConCat\n").unwrap().trace_path, lookup("concat").unwrap().trace_path);
    assert_eq!(lookup("DS1").unwrap().default_capacities, vec![1_000_000, 4_000_000, 8_000_000]);
    assert!(lookup("d s1").is_none());
}

#[test]
fn lines_of_keys() {
    assert_eq!(key_of_line(" 42 "), Ok(42));
    assert_eq!(key_of_line("x"), Err(LineError::NotAKey));
    assert_eq!(key_of_line(""), Err(LineError::NotAKey));
}

#[test]
fn rows_of_the_twitter_trace() {
    let row = "0,q:q:1:8WTfjZU14ee,17,213,4,get,0";
    assert_eq!(twitter_csv_key_string(row).unwrap(), "q:q:1:8WTfjZU14ee");
    let mut h = DefaultHasher::new();
    "q:q:1:8WTfjZU14ee".hash(&mut h);
    assert_eq!(twitter_csv_key(row), Ok(h.finish()));
    let mut h = DefaultHasher::new();
    "".hash(&mut h);
    assert_eq!(twitter_csv_key("1,,"), Ok(h.finish()));
    assert_eq!(twitter_csv_key("no column"), Err(LineError::NoKeyColumn));
    assert!(twitter_csv_key_string("no column").is_err());
}

#[test]
fn rows_of_the_libcachesim_trace() {
    assert_eq!(libcachesim_csv_key("# time, object, size"), Ok(None));
    assert_eq!(libcachesim_csv_key("0, 13053225291711363978, 737, 13"), Ok(Some(13053225291711363978)));
    assert_eq!(libcachesim_csv_key("0"), Err(LineError::NoObjectColumn));
    assert_eq!(libcachesim_csv_key("0, x, 1"), Err(LineError::NotAnObject));
    assert_eq!(libcachesim_csv_key(" # 1,2"), Ok(Some(2)));
}

#[test]
fn rows_of_the_arc_traces() {
    assert_eq!(arc_range("10 3 0 1"), Ok((10, 13)));
    assert_eq!(arc_range("10"), Ok((10, 11)));
    assert_eq!(arc_range("10 0"), Ok((10, 10)));
    assert_eq!(arc_range("  "), Err(LineError::EmptyLine));
    assert_eq!(arc_range("* 1"), Err(LineError::BadStart));
    assert_eq!(arc_range("1 *"), Err(LineError::BadLen));
    assert_eq!(arc_range("18446744073709551615 1"), Err(LineError::RangeOverflow));
    assert_eq!(arc_range("18446744073709551615 0"), Ok((u64::MAX, u64::MAX)));
}

#[test]
fn files_are_read_line_by_line() {
    assert_eq!(load(Format::Keys, None, b"1\n2\r\n3"), Ok(vec![1, 2, 3]));
    assert_eq!(load(Format::Keys, None, b""), Ok(vec![]));
    assert_eq!(load(Format::Keys, None, b"1\n\n"), Err(LineError::NotAKey));
    assert_eq!(load(Format::Keys, None, b"1\n\xff\n"), Err(LineError::NotText));
    assert_eq!(load(Format::LibcachesimCsv, None, b"# h\n0, 7, 1\n# x\n1, 8, 1\n"), Ok(vec![7, 8]));
    assert_eq!(load(Format::Arc, None, b"5 2\n9\n"), Ok(vec![5, 6, 9]));
    let mut h = DefaultHasher::new();
    "\u{e9}".hash(&mut h);
    assert_eq!(load(Format::TwitterCsv, None, "0,\u{e9},1\n".as_bytes()), Ok(vec![h.finish()]));
}

#[test]
fn a_limit_takes_the_first_keys() {
    let bytes = b"1 4\n7\n20 2\n";
    let all = load(Format::Arc, None, bytes).unwrap();
    assert_eq!(all, vec![1, 2, 3, 4, 7, 20, 21]);
    for n in 0..10 {
        let want: Vec<u64> = all.iter().copied().take(n).collect();
        assert_eq!(load(Format::Arc, Some(n), bytes), Ok(want));
    }
    // Lines behind the last key are not looked at.
    assert_eq!(load(Format::Arc, Some(2), b"1 4\nbad\n"), Ok(vec![1, 2]));
    assert_eq!(load(Format::Keys, Some(0), b"bad\n"), Ok(vec![]));
    assert_eq!(load(Format::Arc, Some(3), b"0 18446744073709551615\n"), Ok(vec![0, 1, 2]));
}

#[test]
fn a_reader_takes_one_line_after_the_other() {
    let mut reader = TraceReader::new(Format::Keys, Some(2));
    assert!(reader.wants_more());
    assert_eq!(reader.feed(b"3\n"), Ok(()));
    assert_eq!(reader.feed(b"x\n"), Err(LineError::NotAKey));
    assert_eq!(reader.keys, vec![3]);
    assert_eq!(reader.feed(b"4"), Ok(()));
    assert!(!reader.wants_more());
    assert_eq!(reader.feed(b"5\n"), Ok(()));
    assert_eq!(reader.keys, vec![3, 4]);
}

#[test]
fn compressed_traces_are_decompressed() {
    let plain = b"100 3\n7\n".repeat(50);
    let packed = zstd::encode_all(&plain[..], 0).unwrap();
    let keys = load_arc(false, None, &plain).unwrap();
    assert_eq!(keys.len(), 200);
    assert_eq!(load_arc(true, None, &packed), Ok(keys.clone()));
    assert_eq!(load_arc(true, Some(5), &packed), Ok(vec![100, 101, 102, 7, 100]));
    assert_eq!(load_arc(true, None, &plain), Err(ArcError::Corrupt));
    assert_eq!(load_arc(false, None, b"x\n"), Err(ArcError::Row(LineError::BadStart)));
}

#[test]
fn keys_are_hashed_by_their_bytes() {
    for k in [0u64, 1, 42, u64::MAX] {
        assert_eq!(hash_key(&k), xxhash_rust::xxh3::xxh3_64(&k.to_le_bytes()));
    }
    assert_eq!(hash_key(&7u32), xxhash_rust::xxh3::xxh3_64(&7u32.to_le_bytes()));
    assert_eq!(hash_key(&-7i32), xxhash_rust::xxh3::xxh3_64(&(-7i32).to_le_bytes()));
    assert_eq!(hash_key(&"ab".to_string()), xxhash_rust::xxh3::xxh3_64(b"ab\xff"));
    let mut hasher = xxhash_rust::xxh3::Xxh3Default::new();
    "ab".to_string().hash(&mut hasher);
    assert_eq!(hash_key(&"ab".to_string()), hasher.finish());
    assert_eq!(shard_of_hash(0x1_0000_0000_0003, 7), 3);
}

#[test]
fn a_stream_that_breaks_off_gives_its_whole_lines() {
    let plain = b"1 2\n7\n9";
    assert_eq!(load_arc_stream(None, plain, true), Ok(vec![1, 2, 7, 9]));
    assert_eq!(load_arc_stream(None, plain, false), Err(ArcError::Corrupt));
    assert_eq!(load_arc_stream(Some(4), plain, false), Err(ArcError::Corrupt));
    assert_eq!(load_arc_stream(Some(3), plain, false), Ok(vec![1, 2, 7]));
    assert_eq!(load_arc_stream(Some(0), b"x", false), Ok(vec![]));
    assert_eq!(load_arc_stream(Some(2), b"1\nx\n", false), Err(ArcError::Row(LineError::BadStart)));
    assert_eq!(load_arc_stream(Some(2), b"1\nx", false), Err(ArcError::Corrupt));
    assert_eq!(load_arc_stream(Some(2), b"", true), Ok(vec![]));
}

#[test]
fn damage_behind_the_last_needed_key_does_no_harm() {
    let mut plain = Vec::new();
    for i in 0..200_000u64 {
        plain.extend_from_slice(format!("{}\n", i.wrapping_mul(0x9e37_79b9_7f4a_7c15)).as_bytes());
    }
    let packed = zstd::encode_all(&plain[..], 0).unwrap();
    let whole = load_arc(true, None, &packed).unwrap();
    assert_eq!(whole.len(), 200_000);
    let cut = &packed[..packed.len() / 2];
    assert_eq!(load_arc(true, None, cut), Err(ArcError::Corrupt));
    assert_eq!(load_arc(true, Some(1000), cut), Ok(whole[..1000].to_vec()));
    let (front, sound) = unpack(cut).unwrap();
    assert!(!sound);
    assert!(plain.starts_with(&front) && front.len() > plain.len() / 4);
    assert_eq!(unpack(&packed), Some((plain, true)));
    assert_eq!(unpack(b"no frame"), Some((vec![], false)));
    assert_eq!(unpack(b""), Some((vec![], false)));
}

#[test]
fn the_keys_of_a_twitter_trace_are_the_hashes_of_its_texts() {
    let file = "0,aa,1,get\r\n1,b b,2,set\n2,,3\n3,\u{e9}";
    let texts = load_texts(None, file.as_bytes()).unwrap();
    assert_eq!(texts, vec!["aa", "b b", "", "\u{e9}"]);
    let hashed: Vec<u64> = texts
        .iter()
        .map(|t| {
            let mut h = DefaultHasher::new();
            t.hash(&mut h);
            h.finish()
        })
        .collect();
    assert_eq!(load(Format::TwitterCsv, None, file.as_bytes()), Ok(hashed.clone()));
    assert_eq!(load(Format::TwitterCsv, Some(2), file.as_bytes()), Ok(hashed[..2].to_vec()));
    assert_eq!(load_texts(Some(2), file.as_bytes()), Ok(vec!["aa".to_string(), "b b".to_string()]));
    assert_eq!(load_texts(None, b"0,a\nplain\n"), Err(LineError::NoKeyColumn));
    assert_eq!(load_texts(None, b"0,\xff\n"), Err(LineError::NotText));
    assert_eq!(load_texts(Some(1), b"0,a\nplain\n"), Ok(vec!["a".to_string()]));
    assert_eq!(load_texts(Some(0), b"plain\n"), Ok(vec![]));
}

#[test]
fn a_text_reader_takes_one_line_after_the_other() {
    let mut reader = TextReader::new(Some(2));
    assert!(reader.wants_more());
    assert_eq!(reader.feed(b"0,x,1\n"), Ok(()));
    assert_eq!(reader.feed(b"y\n"), Err(LineError::NoKeyColumn));
    assert_eq!(reader.texts, vec!["x"]);
    assert_eq!(reader.feed(b"1,z"), Ok(()));
    assert!(!reader.wants_more());
    assert_eq!(reader.texts, vec!["x", "z"]);
}

#[test]
fn presets_name_distinct_traces_and_rising_capacities() {
    let names = [
        "concat", "ds1", "merge-p", "merge-s", "oltp", "p1", "p2", "p3", "p4", "p5", "p6", "p7", "p8",
        "p9", "p10", "p11", "p12", "p13", "p14", "s1", "s2", "s3",
    ];
    let mut paths = std::collections::HashSet::new();
    for name in names {
        let p = lookup(name).unwrap();
        assert!(p.trace_path.starts_with("external/mokabench/cache-trace/arc/"));
        assert!(p.trace_path.ends_with(".lis.zst"));
        assert!(p.default_capacities[0] > 0);
        assert!(p.default_capacities.windows(2).all(|w| w[0] < w[1]));
        assert!(paths.insert(p.trace_path));
    }
    assert_eq!(lookup("mergep").unwrap().trace_path, lookup("merge-p").unwrap().trace_path);
}
