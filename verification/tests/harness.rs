//! What the benchmark programs compute.

use senba_research::experimental::sieve_v0::SieveCache;
use senba_research::harness::args::ArgError;
use senba_research::harness::bench::{
    self, engine_of, text_engine_of, BenchError, Engine, PlanError, TracePlan,
};
use senba_research::harness::bench_concurrent::{
    self, BuildError, ConcError, Source, ValueKind,
};
use senba_research::harness::bench_single_shard::{self, make_stream, SingleError, Workload};
use senba_research::harness::bench_vtune;
use senba_research::harness::bench_vtune_concurrent;
use senba_research::harness::feed::{insert_seed, read_seed, TraceFeed};
use senba_research::harness::replay::{
    drive, eviction_stream, repeat_texts, repeat_trace, replay, replay_places, Tally,
};
use senba_research::harness::rivals::{replay_rival, MiniMokaSync, MiniMokaUnsync, Moka, Rival};
use senba_research::harness::text_rivals::{
    replay_texts, TextMiniMokaSync, TextMiniMokaUnsync, TextRival,
};
use senba_research::harness::value::{decimal_text, MakeValue};
use senba_research::harness::worker::{
    aggregate, first_call, inserts_after, per_thread, Call, Op, OpMix, ThreadCount, Worker,
};
use senba_research::workload::file::Format;

fn argv(line: &str) -> Vec<String> {
    line.split_whitespace().map(|s| s.to_string()).collect()
}

#[test]
fn bench_arguments_and_their_defaults() {
    let a = bench::parse_args(&argv("--capacity 1024,4096 --variant v0,moka")).ok().unwrap().unwrap();
    assert_eq!(a.source, "zipf");
    assert_eq!(a.skew, None);
    assert_eq!((a.keys, a.seed, a.len, a.repeat), (0, 0, None, 1));
    assert_eq!(a.path, None);
    assert_eq!(a.capacities, vec![1024, 4096]);
    assert_eq!(a.variants, vec!["v0", "moka"]);
}

#[test]
fn bench_lists_are_trimmed_and_the_last_flag_wins() {
    let line: Vec<String> = ["--capacity", " 1 , 2", "--variant", "a, b ", "--seed", "3", "--seed", "4"]
        .iter()
        .map(|s| s.to_string())
        .collect();
    let a = bench::parse_args(&line).ok().unwrap().unwrap();
    assert_eq!(a.capacities, vec![1, 2]);
    assert_eq!(a.variants, vec!["a", "b"]);
    assert_eq!(a.seed, 4);
}

#[test]
fn bench_presets_fill_what_is_missing() {
    let a = bench::parse_args(&argv("--arc-preset S3 --variant v0")).ok().unwrap().unwrap();
    assert_eq!(a.source, "arc");
    assert_eq!(a.path.as_deref(), Some("external/mokabench/cache-trace/arc/S3.lis.zst"));
    assert_eq!(a.capacities, vec![100_000, 400_000, 800_000]);
    let a = bench::parse_args(&argv("--arc-preset s3 --variant v0 --source file --path p --capacity 7"))
        .ok()
        .unwrap()
        .unwrap();
    assert_eq!(a.source, "file");
    assert_eq!(a.path.as_deref(), Some("p"));
    assert_eq!(a.capacities, vec![7]);
}

#[test]
fn bench_errors() {
    let e = |line: &str| bench::parse_args(&argv(line)).err().unwrap();
    assert_eq!(e("--capacity 1 --variant"), BenchError::Line(ArgError::MissingValue { at: 2 }));
    assert_eq!(e("--nope 1"), BenchError::Line(ArgError::UnknownFlag { at: 0 }));
    assert_eq!(e("--seed x"), BenchError::Line(ArgError::BadValue { at: 0 }));
    assert_eq!(e("--seed 1 --capacity 1,x"), BenchError::Line(ArgError::BadValue { at: 2 }));
    assert_eq!(e("--skew one"), BenchError::Line(ArgError::BadValue { at: 0 }));
    assert_eq!(e("--arc-preset nope --variant v0"), BenchError::UnknownPreset);
    assert_eq!(e("--repeat 0"), BenchError::NoRepeat);
    assert_eq!(e(""), BenchError::NoCapacity);
    assert_eq!(e("--capacity 1"), BenchError::NoVariant);
}

#[test]
fn bench_help_is_met_from_left_to_right() {
    assert!(bench::parse_args(&argv("--help --nope")).ok().unwrap().is_none());
    assert!(bench::parse_args(&argv("-h")).ok().unwrap().is_none());
    assert!(bench::parse_args(&argv("--nope --help")).is_err());
}

#[test]
fn bench_plans() {
    let plan = |line: &str| bench::parse_args(&argv(line)).ok().unwrap().unwrap().plan();
    let base = "--capacity 1 --variant v0";
    assert_eq!(
        plan(&format!("{base} --len 5 --keys 9 --skew 1.1 --seed 3")),
        Ok(TracePlan::Zipf { len: 5, keys: 9, seed: 3 })
    );
    assert_eq!(plan(&format!("{base} --keys 9 --skew 1.1")), Err(PlanError::NoLen));
    assert_eq!(plan(&format!("{base} --len 5 --skew 1.1")), Err(PlanError::NoKeys));
    assert_eq!(plan(&format!("{base} --len 5 --keys 9")), Err(PlanError::NoSkew));
    for (source, format) in [
        ("file", Format::Keys),
        ("twitter", Format::TwitterCsv),
        ("arc", Format::Arc),
        ("libcachesim-csv", Format::LibcachesimCsv),
    ] {
        assert_eq!(
            plan(&format!("{base} --source {source} --path p --len 8")),
            Ok(TracePlan::File { format, limit: Some(8) })
        );
        assert_eq!(plan(&format!("{base} --source {source}")), Err(PlanError::NoPath));
    }
    assert_eq!(
        plan(&format!("{base} --source twitter-string --path p")),
        Ok(TracePlan::Texts { limit: None })
    );
    assert_eq!(plan(&format!("{base} --source twitter-string")), Err(PlanError::NoPath));
    assert_eq!(plan(&format!("{base} --source nope")), Err(PlanError::UnknownSource));
}

#[test]
fn engines_by_name() {
    assert_eq!(engine_of("orig"), Some(Engine::Orig));
    assert_eq!(engine_of("v0"), Some(Engine::V0));
    assert_eq!(engine_of("v3"), None);
    assert_eq!(engine_of("j7"), Some(Engine::J7(None)));
    assert_eq!(engine_of("j7_n1"), Some(Engine::J7(Some(1))));
    assert_eq!(engine_of("j7_n2048"), Some(Engine::J7(Some(2048))));
    assert_eq!(engine_of("j7_n3"), None);
    assert_eq!(engine_of("j7_n4096"), None);
    assert_eq!(engine_of("j8"), Some(Engine::J8(None)));
    assert_eq!(engine_of("j8_n64"), Some(Engine::J8(Some(64))));
    assert_eq!(engine_of("j8_n8"), None);
    assert_eq!(engine_of("senba_n016"), None);
    assert_eq!(engine_of("senba_n16"), Some(Engine::Senba(Some(16))));
    assert_eq!(engine_of("mini_moka"), Some(Engine::MiniMokaSync));
    assert_eq!(engine_of("mini_moka_sync"), Some(Engine::MiniMokaSync));
    assert_eq!(engine_of("mini_moka_unsync"), Some(Engine::MiniMokaUnsync));
    assert_eq!(engine_of("moka"), Some(Engine::Moka));
    assert_eq!(engine_of(""), None);
    assert_eq!(text_engine_of("senba_n32"), Some(Engine::Senba(Some(32))));
    assert_eq!(text_engine_of("orig"), Some(Engine::Orig));
    assert_eq!(text_engine_of("moka"), None);
    assert_eq!(text_engine_of("j7"), None);
}

#[test]
fn concurrent_arguments_and_their_defaults() {
    let a = bench_concurrent::parse_args(&argv("")).ok().unwrap().unwrap();
    assert_eq!((a.cap, a.threads, a.keys, a.ops), (4096, 4, 100_000, 4_000_000));
    assert_eq!((a.warmup, a.trials, a.seed, a.shards), (200_000, 1, 42, 8));
    assert_eq!((a.ways, a.partitions), (1, 1));
    assert_eq!(a.variants, vec!["c8"]);
    assert_eq!(a.op_mix, OpMix::Gim);
    assert_eq!(a.value_kind, ValueKind::U64);
    assert_eq!(a.source, Source::Zipf);
    assert_eq!(a.trace_file, None);
    assert_eq!(a.workload_param, "");
    assert_eq!(a.trace_format(), None);
}

#[test]
fn concurrent_flags() {
    let a = bench_concurrent::parse_args(&argv(
        "--variants c9,r3x --variant c9,moka --op-mix read-heavy --value string --source twitter-yang \
         --trace-file f --ways 4 --shards 64 --partitions 2 --skew 0.9 --workload-param w",
    ))
    .ok()
    .unwrap()
    .unwrap();
    assert_eq!(a.variants, vec!["c9", "moka"]);
    assert_eq!(a.op_mix, OpMix::ReadHeavy);
    assert_eq!(a.value_kind, ValueKind::String);
    assert_eq!(a.source, Source::TwitterYang);
    assert_eq!(a.trace_format(), Some(Format::TwitterCsv));
    assert_eq!(a.skew.as_deref(), Some("0.9"));
    assert_eq!(a.workload_param, "w");
    let a = bench_concurrent::parse_args(&argv("--arc-preset OLTP")).ok().unwrap().unwrap();
    assert_eq!(a.source, Source::Arc);
    assert_eq!(a.trace_file.as_deref(), Some("external/mokabench/cache-trace/arc/OLTP.lis.zst"));
    assert_eq!(a.workload_param, "OLTP");
    assert_eq!(a.trace_format(), Some(Format::Arc));
    let a = bench_concurrent::parse_args(&argv("--source twitter --trace-file f")).ok().unwrap().unwrap();
    assert_eq!(a.trace_format(), Some(Format::LibcachesimCsv));
}

#[test]
fn a_source_flag_wins_over_a_preset() {
    for line in ["--source twitter --arc-preset oltp", "--arc-preset oltp --source twitter"] {
        let a = bench_concurrent::parse_args(&argv(line)).ok().unwrap().unwrap();
        assert_eq!(a.source, Source::Twitter);
        assert_eq!(a.trace_file.as_deref(), Some("external/mokabench/cache-trace/arc/OLTP.lis.zst"));
        assert_eq!(a.workload_param, "oltp");
    }
}

#[test]
fn concurrent_errors() {
    let e = |line: &str| bench_concurrent::parse_args(&argv(line)).err().unwrap();
    assert_eq!(e("--threads 3"), ConcError::Threads);
    assert_eq!(e("--threads 0"), ConcError::Threads);
    assert_eq!(e("--ops 6"), ConcError::Ops);
    assert_eq!(e("--warmup 6"), ConcError::Warmup);
    assert_eq!(e("--shards 12"), ConcError::Shards);
    assert_eq!(e("--shards 262144"), ConcError::Shards);
    assert_eq!(e("--ways 16"), ConcError::Ways);
    assert_eq!(e("--ways 0"), ConcError::Ways);
    assert_eq!(e("--partitions 0"), ConcError::Partitions);
    assert_eq!(e("--variant c9,nope"), ConcError::UnknownVariant { index: 1 });
    assert_eq!(e("--value string"), ConcError::NumbersOnly);
    assert_eq!(e("--source arc"), ConcError::NoTraceFile);
    assert_eq!(e("--arc-preset nope"), ConcError::Line(ArgError::UnknownPreset { at: 0 }));
    assert_eq!(e("--op-mix read-only"), ConcError::Line(ArgError::BadValue { at: 0 }));
    assert_eq!(e("--value u32"), ConcError::Line(ArgError::BadValue { at: 0 }));
    assert_eq!(e("--source file"), ConcError::Line(ArgError::BadValue { at: 0 }));
    assert_eq!(e("--cap"), ConcError::Line(ArgError::MissingValue { at: 0 }));
    assert_eq!(e("cap 1"), ConcError::Line(ArgError::UnknownFlag { at: 0 }));
    assert!(bench_concurrent::parse_args(&argv("--help")).ok().unwrap().is_none());
}

#[test]
fn concurrent_columns() {
    let a = bench_concurrent::parse_args(&argv("--shards 64 --ways 4 --partitions 8")).ok().unwrap().unwrap();
    let c = |name: &str| {
        let c = a.columns(name);
        (c.shards, c.ways, c.partitions)
    };
    assert_eq!(c("c17s"), (64, 1, 1));
    assert_eq!(c("r1"), (64, 4, 1));
    assert_eq!(c("r2h"), (64, 4, 1));
    assert_eq!(c("moka"), (0, 1, 1));
    assert_eq!(c("partitioned"), (0, 1, 8));
}

#[test]
fn concurrent_obstacles() {
    let at = |line: &str, name: &str| {
        bench_concurrent::parse_args(&argv(line)).ok().unwrap().unwrap().obstacle_to(name)
    };
    assert_eq!(at("--shards 64", "c16s"), None);
    assert_eq!(at("--shards 32", "c16s"), Some(BuildError::Shards));
    assert_eq!(at("--shards 4", "c17s"), None);
    assert_eq!(at("--shards 2", "c17s"), Some(BuildError::Shards));
    assert_eq!(at("--shards 1024", "c8"), Some(BuildError::Shards));
    assert_eq!(at("--shards 512", "c8"), None);
    assert_eq!(at("--variant c9 --value string", "c8"), Some(BuildError::NumbersOnly));
    assert_eq!(at("--cap 4 --partitions 8", "partitioned"), Some(BuildError::Partitions));
    assert_eq!(at("--cap 8 --partitions 8", "partitioned"), None);
    assert_eq!(at("", "nope"), Some(BuildError::UnknownVariant));
    assert_eq!(at("", "c9"), None);
}

#[test]
fn single_shard_arguments() {
    let a = bench_single_shard::parse_args(&argv("")).ok().unwrap().unwrap();
    assert_eq!(a.variant, "c8");
    assert_eq!((a.cap, a.threads, a.ops, a.warmup, a.trials), (64, 4, 4_000_000, 200_000, 1));
    assert_eq!((a.keys, a.seed), (100_000, 42));
    assert_eq!((a.workload, a.op_mix), (Workload::Zipf, OpMix::Gim));
    let a = bench_single_shard::parse_args(&argv("--variant c9 --workload uniform --op-mix read-only --threads 3 --ops 9 --warmup 3"))
        .ok()
        .unwrap()
        .unwrap();
    assert_eq!((a.workload, a.op_mix, a.threads), (Workload::Uniform, OpMix::ReadOnly, 3));
    let e = |line: &str| bench_single_shard::parse_args(&argv(line)).err().unwrap();
    assert_eq!(e("--threads 0"), SingleError::Threads);
    assert_eq!(e("--ops 6"), SingleError::Ops);
    assert_eq!(e("--warmup 6"), SingleError::Warmup);
    assert_eq!(e("--variant c10s"), SingleError::UnknownVariant);
    assert_eq!(e("--cap 65"), SingleError::Cap);
    assert_eq!(e("--cap 0"), SingleError::Cap);
    assert_eq!(e("--workload x"), SingleError::Line(ArgError::BadValue { at: 0 }));
}

#[test]
fn single_shard_streams() {
    assert!(make_stream(Workload::Zipf, 0, 4, 100).is_none());
    let mut hot = make_stream(Workload::AdversarialHot, 3, 4, 100).unwrap();
    assert_eq!((hot.next(), hot.next()), (0, 0));
    let mut range = make_stream(Workload::Uniform, 1, 4, 8).unwrap();
    let keys: Vec<u64> = (0..5).map(|_| range.next()).collect();
    assert_eq!(keys, vec![2, 3, 2, 3, 2]);
}

#[test]
fn vtune_arguments() {
    let a = bench_vtune::parse_args(&argv("")).ok().unwrap().unwrap();
    assert_eq!((a.cap, a.keys, a.warmup, a.ops, a.seed), (1 << 20, 4_000_000, 5_000_000, 20_000_000, 42));
    assert_eq!(a.variant, bench_vtune::Variant::Senba);
    assert_eq!(bench_vtune::parse_args(&argv("--variant orig")).ok().unwrap().unwrap().variant, bench_vtune::Variant::Orig);
    assert_eq!(bench_vtune::Variant::parse("orig"), Some(bench_vtune::Variant::Orig));
    assert_eq!(bench_vtune::Variant::parse("v0"), None);
    assert_eq!(bench_vtune::Variant::Senba.as_str(), "senba");
    assert_eq!(bench_vtune::parse_args(&argv("--cap 0")).err(), Some(bench_vtune::VtuneError::Cap));
    assert_eq!(bench_vtune::parse_args(&argv("--keys 0")).err(), Some(bench_vtune::VtuneError::Keys));
    assert_eq!(bench_vtune::parse_args(&argv("--ops 0")).err(), Some(bench_vtune::VtuneError::Ops));
    assert_eq!(bench_vtune::parse_args(&argv("--variant x")).err(), Some(bench_vtune::VtuneError::Line(ArgError::BadValue { at: 0 })));
    assert_eq!(bench_vtune::measure_seed(42), 42 ^ 0xDEAD_BEEF);
}

#[test]
fn vtune_concurrent_arguments() {
    let a = bench_vtune_concurrent::parse_args(&argv("")).ok().unwrap().unwrap();
    assert_eq!((a.threads, a.cap, a.shards, a.warmup, a.ops), (4, 4096, 64, 400_000, 8_000_000));
    assert_eq!(a.variant, bench_vtune_concurrent::Variant::C14s);
    assert_eq!(bench_vtune_concurrent::Variant::parse("c16s"), Some(bench_vtune_concurrent::Variant::C16s));
    assert_eq!(bench_vtune_concurrent::Variant::C9.as_str(), "c9");
    let e = |line: &str| bench_vtune_concurrent::parse_args(&argv(line)).err().unwrap();
    assert_eq!(e("--threads 6"), bench_vtune_concurrent::VtuneError::Threads);
    assert_eq!(e("--cap 0"), bench_vtune_concurrent::VtuneError::Cap);
    assert_eq!(e("--keys 0"), bench_vtune_concurrent::VtuneError::Keys);
    assert_eq!(e("--ops 0"), bench_vtune_concurrent::VtuneError::Ops);
    assert_eq!(e("--ops 6"), bench_vtune_concurrent::VtuneError::OpsShare);
    assert_eq!(e("--warmup 6"), bench_vtune_concurrent::VtuneError::WarmupShare);
    assert_eq!(e("--shards 4"), bench_vtune_concurrent::VtuneError::Shards);
    assert_eq!(e("--shards 1024"), bench_vtune_concurrent::VtuneError::Shards);
    assert_eq!(e("--shards 128"), bench_vtune_concurrent::VtuneError::FixedShards);
    assert_eq!(e("--variant c9 --shards 8 --cap 513"), bench_vtune_concurrent::VtuneError::PerShard);
    assert!(bench_vtune_concurrent::parse_args(&argv("--variant c9 --shards 8 --cap 512")).is_ok());
    assert_eq!(bench_vtune_concurrent::measure_seed(42, 3), (42 ^ 0xDEAD_BEEF_DEAD_BEEF) ^ 3);
}

#[test]
fn names_and_back() {
    assert_eq!(OpMix::Gim.as_str(), "gim");
    assert_eq!(OpMix::ReadHeavy.as_str(), "read-heavy");
    assert_eq!(OpMix::ReadOnly.as_str(), "read-only");
    assert_eq!(ValueKind::String.as_str(), "string");
    assert_eq!(Source::TwitterYang.as_str(), "twitter-yang");
    assert_eq!(Workload::AdversarialHot.as_str(), "adversarial-hot");
}

#[test]
fn replays_count_hits_misses_and_evictions() {
    let trace = vec![1u64, 2, 1, 3, 2, 4];
    assert_eq!(drive::<SieveCache<u64, u64>>(&trace, 2), Tally { hits: 1, misses: 5, evictions: 3 });
    let mut cache: SieveCache<u64, u64> = SieveCache::new(4);
    assert_eq!(replay(&mut cache, &trace), Tally { hits: 2, misses: 4, evictions: 0 });
    assert_eq!(replay(&mut cache, &trace), Tally { hits: 6, misses: 0, evictions: 0 });
    assert_eq!(
        eviction_stream::<SieveCache<u64, u64>>(&trace, 2),
        vec![None, None, None, Some((2, 2)), Some((1, 1)), Some((3, 3))]
    );
    let mut t = Tally::new();
    t.hit();
    t.miss(true);
    t.miss(false);
    assert_eq!(t, Tally { hits: 1, misses: 2, evictions: 1 });
    assert_eq!(t.total_reads(), 3);
}

#[test]
fn traces_are_repeated() {
    assert_eq!(repeat_trace(vec![1, 2], 3), vec![1, 2, 1, 2, 1, 2]);
    assert_eq!(repeat_trace(vec![1, 2], 1), vec![1, 2]);
    assert_eq!(repeat_trace(vec![], 9), Vec::<u64>::new());
}

#[test]
fn texts_are_repeated() {
    let texts = |all: &[&str]| -> Vec<String> { all.iter().map(|t| t.to_string()).collect() };
    assert_eq!(repeat_texts(texts(&["a", "b"]), 3), texts(&["a", "b", "a", "b", "a", "b"]));
    assert_eq!(repeat_texts(texts(&["a", "b"]), 1), texts(&["a", "b"]));
    assert_eq!(repeat_texts(vec![], 9), Vec::<String>::new());
}

#[test]
fn texts_replay_as_numbers_do() {
    let numbers: Vec<u64> = (0..3000u64).map(|i| i * i % 97).collect();
    let texts: Vec<String> = numbers.iter().map(|n| format!("key {n}")).collect();
    for cap in [1usize, 5, 40, 97] {
        let mut cache: SieveCache<String, u64> = SieveCache::new(cap);
        let mut by_number: SieveCache<u64, u64> = SieveCache::new(cap);
        let t = replay_places(&mut cache, &texts);
        assert_eq!(t, drive::<SieveCache<u64, u64>>(&numbers, cap));
        assert_eq!(t, replay_places(&mut by_number, &numbers));
        for (n, text) in numbers.iter().zip(&texts) {
            assert_eq!(cache.get(text), by_number.get(n));
        }
    }
}

#[test]
fn rivals_settle_on_what_they_hold() {
    let trace: Vec<u64> = (0..400).map(|i| i % 20).collect();
    let mut again = Vec::new();
    let mut cache = MiniMokaSync::new(8);
    for &k in &trace {
        let hit = cache.read(k);
        if !hit {
            cache.store(k, k);
        }
        again.push(hit);
    }
    let hits = again.iter().filter(|hit| **hit).count() as u64;
    assert_eq!(replay_rival(&mut MiniMokaSync::new(8), &trace).hits, hits);
}

#[test]
fn rivals_hit_what_was_read_before() {
    let trace: Vec<u64> = (0..50).chain(0..50).collect();
    let mut moka = Moka::new(1000);
    assert_eq!(replay_rival(&mut moka, &trace), Tally { hits: 50, misses: 50, evictions: 0 });
    let mut sync = MiniMokaSync::new(1000);
    assert_eq!(replay_rival(&mut sync, &trace), Tally { hits: 50, misses: 50, evictions: 0 });
    let mut unsync = MiniMokaUnsync::new(1000);
    assert_eq!(replay_rival(&mut unsync, &trace), Tally { hits: 50, misses: 50, evictions: 0 });
}

#[test]
fn rivals_without_room_never_hit() {
    let trace: Vec<u64> = vec![1, 2, 1, 2, 1];
    let mut moka = Moka::new(0);
    assert_eq!(replay_rival(&mut moka, &trace), Tally { hits: 0, misses: 5, evictions: 0 });
}

#[test]
fn rivals_with_room_hit_every_later_read() {
    let trace: Vec<u64> = vec![3, 1, 3, 2, 2, 1, 9, 3];
    let expected = Tally { hits: 4, misses: 4, evictions: 0 };
    assert_eq!(replay_rival(&mut Moka::new(4), &trace), expected);
    assert_eq!(replay_rival(&mut MiniMokaSync::new(4), &trace), expected);
    assert_eq!(replay_rival(&mut MiniMokaUnsync::new(4), &trace), expected);
    assert_eq!(replay_rival(&mut Moka::new(1000), &trace), expected);
    assert_eq!(replay_rival(&mut MiniMokaSync::new(1000), &trace), expected);
    assert_eq!(replay_rival(&mut MiniMokaUnsync::new(1000), &trace), expected);
}

#[test]
fn rivals_with_less_room_hit_no_more() {
    let trace: Vec<u64> = (0..400).map(|i| i * i % 61).collect();
    let all = replay_rival(&mut MiniMokaUnsync::new(100), &trace);
    for cap in [0usize, 1, 5, 20] {
        let sync = replay_rival(&mut MiniMokaSync::new(cap), &trace);
        let unsync = replay_rival(&mut MiniMokaUnsync::new(cap), &trace);
        let moka = replay_rival(&mut Moka::new(cap), &trace);
        for t in [sync, unsync, moka] {
            assert_eq!(t.hits + t.misses, 400);
            assert!(t.hits <= all.hits);
            assert_eq!(t.evictions, 0);
        }
    }
}

#[test]
fn text_rivals_with_room_hit_every_later_read() {
    let trace: Vec<String> = argv("a b a c c b zz a");
    let expected = Tally { hits: 4, misses: 4, evictions: 0 };
    assert_eq!(replay_texts(&mut TextMiniMokaSync::new(4), &trace), expected);
    assert_eq!(replay_texts(&mut TextMiniMokaUnsync::new(4), &trace), expected);
}

#[test]
fn text_rivals_without_room_never_hit() {
    let trace: Vec<String> = argv("a a a b b");
    let expected = Tally { hits: 0, misses: 5, evictions: 0 };
    assert_eq!(replay_texts(&mut TextMiniMokaSync::new(0), &trace), expected);
    assert_eq!(replay_texts(&mut TextMiniMokaUnsync::new(0), &trace), expected);
}

#[test]
fn values_name_their_keys() {
    assert_eq!(decimal_text(0), "0");
    assert_eq!(decimal_text(u64::MAX), u64::MAX.to_string());
    for k in [0u64, 7, 12_345_678, 123_456_789, u64::MAX] {
        assert_eq!(<String as MakeValue>::make(k), format!("v{k:08}"));
        assert_eq!(<u64 as MakeValue>::make(k), k);
    }
}

#[test]
fn workers_mix_their_operations() {
    let mut w = Worker::new(OpMix::ReadHeavy, 45);
    let mut inserts = 0;
    let mut made = 0;
    while let Some(op) = w.next_op() {
        assert_eq!(op == Op::Insert, made % 20 == 0);
        if op == Op::Insert {
            inserts += 1;
        }
        w.record(op == Op::Read && made % 2 == 1);
        made += 1;
    }
    assert_eq!((made, inserts), (45, 3));
    assert_eq!(w.hits, 22);
    assert_eq!(Worker::new(OpMix::ReadOnly, 1).next_op(), Some(Op::Read));
    assert_eq!(Worker::new(OpMix::Gim, 1).next_op(), Some(Op::ReadOrInsert));
    assert_eq!(Worker::new(OpMix::Gim, 0).next_op(), None);
}

#[test]
fn workers_close_a_chunk_every_1024_operations() {
    let mut w = Worker::new(OpMix::Gim, 3000);
    let mut closed = Vec::new();
    for i in 0..3000 {
        if w.record(false) {
            closed.push(i + 1);
        }
    }
    assert_eq!(closed, vec![1024, 2048]);
    assert_eq!(w.next_op(), None);
}

#[test]
fn threads_are_added_up() {
    let threads = vec![
        ThreadCount { elapsed_ns: 5, hits: 1, misses: 2 },
        ThreadCount { elapsed_ns: 9, hits: 10, misses: 20 },
        ThreadCount { elapsed_ns: 7, hits: 100, misses: 200 },
    ];
    assert_eq!(aggregate(&threads), ThreadCount { elapsed_ns: 9, hits: 111, misses: 222 });
    assert_eq!(aggregate(&vec![]), ThreadCount { elapsed_ns: 0, hits: 0, misses: 0 });
    assert_eq!(per_thread(4_000_000, 4), 1_000_000);
}

#[test]
fn threads_play_their_own_slices() {
    let trace: Vec<u64> = (0..10).collect();
    let mut ends = Vec::new();
    for tid in 0..3 {
        let f = TraceFeed::build(tid, trace.len(), 3).unwrap();
        ends.push((f.start, f.end));
    }
    assert_eq!(ends, vec![(0, 3), (3, 6), (6, 10)]);
    let mut f = TraceFeed::build(1, trace.len(), 3).unwrap();
    let gets: Vec<u64> = (0..5).map(|_| f.next_get(&trace)).collect();
    assert_eq!(gets, vec![3, 4, 5, 3, 4]);
    let inserts: Vec<u64> = (0..2).map(|_| f.next_ins(&trace)).collect();
    assert_eq!(inserts, vec![3, 4]);
    assert!(TraceFeed::build(0, 1, 2).is_none());
    assert!(TraceFeed::build(1, 1, 2).is_some());
}

#[test]
fn threads_have_their_own_seeds() {
    assert_eq!(read_seed(42, 0), 42);
    assert_eq!(read_seed(42, 3), 41);
    assert_eq!(insert_seed(42, 3), 41 ^ 0x00C0_FFEE_DEAD_BEEF);
}

#[test]
fn an_operation_inserts_only_after_a_miss() {
    assert_eq!(first_call(Op::Read), Call::Read);
    assert_eq!(first_call(Op::ReadOrInsert), Call::Read);
    assert_eq!(first_call(Op::Insert), Call::Insert);
    assert!(inserts_after(Op::ReadOrInsert, false));
    assert!(!inserts_after(Op::ReadOrInsert, true));
    assert!(!inserts_after(Op::Read, false));
    assert!(!inserts_after(Op::Insert, false));
}

#[test]
fn rivals_hit_at_most_the_repeats() {
    let trace: Vec<u64> = (0..200).map(|i| i * i % 37).collect();
    let mut seen = std::collections::HashSet::new();
    let repeats = trace.iter().filter(|k| !seen.insert(**k)).count() as u64;
    for t in [
        replay_rival(&mut Moka::new(3), &trace),
        replay_rival(&mut MiniMokaSync::new(3), &trace),
        replay_rival(&mut MiniMokaUnsync::new(3), &trace),
    ] {
        assert_eq!(t.hits + t.misses, 200);
        assert!(t.hits <= repeats);
    }
}
