//! The concurrent benchmark: several threads at one cache.

use vstd::prelude::*;
use vstd::string::*;

use crate::harness::args::{
    float_in, float_of, lemma_last_flag, lemma_one_flag, names, names_in, names_of, opt_text, parse, parsed, taken, u64_in, u64_of, usize_in,
    usize_of, ArgError, SetError, Settings,
};
use crate::harness::worker::OpMix;
use crate::sharded::is_shard_count;
use crate::harness::value::{digits, law_digits_round_trip};
use crate::text::{is_float, number, same, strings};
use crate::workload::arc_preset::{lookup, preset_of};
use crate::workload::file::Format;

verus! {

/// What is cached under a key: the key, or a text that names it.
#[derive(Clone, Copy, Debug, PartialEq, Eq, Structural)]
pub enum ValueKind {
    U64,
    String,
}

impl ValueKind {
    pub open spec fn name(self) -> Seq<char> {
        match self {
            ValueKind::U64 => "u64"@,
            ValueKind::String => "string"@,
        }
    }

    pub fn as_str(self) -> (s: &'static str)
        ensures
            s@ == self.name(),
    {
        match self {
            ValueKind::U64 => "u64",
            ValueKind::String => "string",
        }
    }
}

/// Where the keys come from: a generator for each thread, or a trace of which
/// each thread plays its own slice.
#[derive(Clone, Copy, Debug, PartialEq, Eq, Structural)]
pub enum Source {
    Zipf,
    /// The CSV of libCacheSim, with numbers for objects.
    Twitter,
    /// The Twitter trace with texts for keys.
    TwitterYang,
    Arc,
}

impl Source {
    pub open spec fn name(self) -> Seq<char> {
        match self {
            Source::Zipf => "zipf"@,
            Source::Twitter => "twitter"@,
            Source::TwitterYang => "twitter-yang"@,
            Source::Arc => "arc"@,
        }
    }

    pub fn as_str(self) -> (s: &'static str)
        ensures
            s@ == self.name(),
    {
        match self {
            Source::Zipf => "zipf",
            Source::Twitter => "twitter",
            Source::TwitterYang => "twitter-yang",
            Source::Arc => "arc",
        }
    }
}

/// The mixes that this benchmark offers.
pub open spec fn mix_in(value: Seq<char>) -> Result<OpMix, SetError> {
    if value == "gim"@ {
        Ok(OpMix::Gim)
    } else if value == "read-heavy"@ {
        Ok(OpMix::ReadHeavy)
    } else {
        Err(SetError::BadValue)
    }
}

pub fn mix_of(value: &str) -> (r: Result<OpMix, SetError>)
    ensures
        r == mix_in(value@),
{
    if same(value, "gim") {
        Ok(OpMix::Gim)
    } else if same(value, "read-heavy") {
        Ok(OpMix::ReadHeavy)
    } else {
        Err(SetError::BadValue)
    }
}

/// The name of a value is read back as that value.
pub proof fn law_mix_round_trip(v: OpMix)
    requires
        !(v is ReadOnly),
    ensures
        mix_in(v.name()) == Ok::<OpMix, SetError>(v),
{
    reveal_strlit("gim");
    reveal_strlit("read-heavy");
    assert("gim"@.len() != "read-heavy"@.len());
}

/// The kind of value that a text names.
pub open spec fn value_kind_in(value: Seq<char>) -> Result<ValueKind, SetError> {
    if value == "u64"@ {
        Ok(ValueKind::U64)
    } else if value == "string"@ {
        Ok(ValueKind::String)
    } else {
        Err(SetError::BadValue)
    }
}

pub fn value_kind_of(value: &str) -> (r: Result<ValueKind, SetError>)
    ensures
        r == value_kind_in(value@),
{
    if same(value, "u64") {
        Ok(ValueKind::U64)
    } else if same(value, "string") {
        Ok(ValueKind::String)
    } else {
        Err(SetError::BadValue)
    }
}

/// The name of a value is read back as that value.
pub proof fn law_value_kind_round_trip(v: ValueKind)
    ensures
        value_kind_in(v.name()) == Ok::<ValueKind, SetError>(v),
{
    reveal_strlit("u64");
    reveal_strlit("string");
    assert("u64"@.len() != "string"@.len());
}

/// The source that a text names.
pub open spec fn source_in(value: Seq<char>) -> Result<Source, SetError> {
    if value == "zipf"@ {
        Ok(Source::Zipf)
    } else if value == "twitter"@ {
        Ok(Source::Twitter)
    } else if value == "twitter-yang"@ {
        Ok(Source::TwitterYang)
    } else if value == "arc"@ {
        Ok(Source::Arc)
    } else {
        Err(SetError::BadValue)
    }
}

pub fn source_of(value: &str) -> (r: Result<Source, SetError>)
    ensures
        r == source_in(value@),
{
    if same(value, "zipf") {
        Ok(Source::Zipf)
    } else if same(value, "twitter") {
        Ok(Source::Twitter)
    } else if same(value, "twitter-yang") {
        Ok(Source::TwitterYang)
    } else if same(value, "arc") {
        Ok(Source::Arc)
    } else {
        Err(SetError::BadValue)
    }
}

/// The name of a value is read back as that value.
pub proof fn law_source_round_trip(v: Source)
    ensures
        source_in(v.name()) == Ok::<Source, SetError>(v),
{
    reveal_strlit("zipf");
    reveal_strlit("twitter");
    reveal_strlit("twitter-yang");
    reveal_strlit("arc");
    assert("zipf"@.len() != "twitter"@.len());
    assert("zipf"@.len() != "twitter-yang"@.len());
    assert("twitter"@.len() != "twitter-yang"@.len());
    assert("zipf"@.len() != "arc"@.len());
    assert("twitter"@.len() != "arc"@.len());
    assert("twitter-yang"@.len() != "arc"@.len());
}

/// The settings of a run.
pub struct Args {
    pub cap: usize,
    pub threads: usize,
    /// The text of the skew, a floating-point number.
    pub skew: Option<String>,
    pub keys: u64,
    pub ops: usize,
    pub warmup: usize,
    pub trials: usize,
    pub seed: u64,
    pub variants: Vec<String>,
    pub shards: usize,
    pub op_mix: OpMix,
    pub value_kind: ValueKind,
    pub ways: usize,
    pub partitions: usize,
    pub source: Source,
    /// Whether `--source` was given.
    pub source_explicit: bool,
    pub trace_file: Option<String>,
    pub workload_param: String,
}

/// What the settings say.
#[verifier::ext_equal]
pub struct Model {
    pub cap: usize,
    pub threads: usize,
    pub skew: Option<Seq<char>>,
    pub keys: u64,
    pub ops: usize,
    pub warmup: usize,
    pub trials: usize,
    pub seed: u64,
    pub variants: Seq<Seq<char>>,
    pub shards: usize,
    pub op_mix: OpMix,
    pub value_kind: ValueKind,
    pub ways: usize,
    pub partitions: usize,
    pub source: Source,
    pub source_explicit: bool,
    pub trace_file: Option<Seq<char>>,
    pub workload_param: Seq<char>,
}

/// What holds where no flag is given.
pub open spec fn defaults() -> Model {
    Model {
        cap: 4096,
        threads: 4,
        skew: None,
        keys: 100_000,
        ops: 4_000_000,
        warmup: 200_000,
        trials: 1,
        seed: 42,
        variants: seq!["c8"@],
        shards: 8,
        op_mix: OpMix::Gim,
        value_kind: ValueKind::U64,
        ways: 1,
        partitions: 1,
        source: Source::Zipf,
        source_explicit: false,
        trace_file: None,
        workload_param: Seq::empty(),
    }
}

/// The flags that take a size.
pub open spec fn takes_size(flag: Seq<char>) -> bool {
    ||| flag == "--cap"@
    ||| flag == "--threads"@
    ||| flag == "--ops"@
    ||| flag == "--warmup"@
    ||| flag == "--trials"@
    ||| flag == "--shards"@
    ||| flag == "--ways"@
    ||| flag == "--partitions"@
}

/// The settings `m` after such a flag with the number `n`.
pub open spec fn put_size(m: Model, flag: Seq<char>, n: usize) -> Model {
    if flag == "--cap"@ {
        Model { cap: n, ..m }
    } else if flag == "--threads"@ {
        Model { threads: n, ..m }
    } else if flag == "--ops"@ {
        Model { ops: n, ..m }
    } else if flag == "--warmup"@ {
        Model { warmup: n, ..m }
    } else if flag == "--trials"@ {
        Model { trials: n, ..m }
    } else if flag == "--shards"@ {
        Model { shards: n, ..m }
    } else if flag == "--ways"@ {
        Model { ways: n, ..m }
    } else {
        Model { partitions: n, ..m }
    }
}

pub open spec fn with_size(m: Model, flag: Seq<char>, value: Seq<char>) -> Result<Model, SetError> {
    taken(usize_in(value), |n: usize| put_size(m, flag, n))
}

fn is_size_flag(flag: &str) -> (r: bool)
    ensures
        r == takes_size(flag@),
{
    same(flag, "--cap")
        || same(flag, "--threads")
        || same(flag, "--ops")
        || same(flag, "--warmup")
        || same(flag, "--trials")
        || same(flag, "--shards")
        || same(flag, "--ways")
        || same(flag, "--partitions")
}

/// The flags that take a 64-bit number.
pub open spec fn takes_long(flag: Seq<char>) -> bool {
    ||| flag == "--keys"@
    ||| flag == "--seed"@
}

/// The settings `m` after such a flag with the number `n`.
pub open spec fn put_long(m: Model, flag: Seq<char>, n: u64) -> Model {
    if flag == "--keys"@ {
        Model { keys: n, ..m }
    } else {
        Model { seed: n, ..m }
    }
}

pub open spec fn with_long(m: Model, flag: Seq<char>, value: Seq<char>) -> Result<Model, SetError> {
    taken(u64_in(value), |n: u64| put_long(m, flag, n))
}

fn is_long_flag(flag: &str) -> (r: bool)
    ensures
        r == takes_long(flag@),
{
    same(flag, "--keys")
        || same(flag, "--seed")
}

/// The flags that say what is done to which caches.
pub open spec fn takes_load(flag: Seq<char>) -> bool {
    ||| flag == "--skew"@
    ||| flag == "--variant"@
    ||| flag == "--variants"@
    ||| flag == "--op-mix"@
    ||| flag == "--value"@
}

pub open spec fn with_load(m: Model, flag: Seq<char>, value: Seq<char>) -> Result<Model, SetError> {
    if flag == "--skew"@ {
        taken(float_in(value), |t: Seq<char>| Model { skew: Some(t), ..m })
    } else if flag == "--variant"@ || flag == "--variants"@ {
        Ok(Model { variants: names_in(value), ..m })
    } else if flag == "--op-mix"@ {
        taken(mix_in(value), |v: OpMix| Model { op_mix: v, ..m })
    } else if flag == "--value"@ {
        taken(value_kind_in(value), |v: ValueKind| Model { value_kind: v, ..m })
    } else {
        Err(SetError::BadValue)
    }
}

fn is_load_flag(flag: &str) -> (r: bool)
    ensures
        r == takes_load(flag@),
{
    same(flag, "--skew")
        || same(flag, "--variant")
        || same(flag, "--variants")
        || same(flag, "--op-mix")
        || same(flag, "--value")
}

/// The flags that say where the keys come from.
pub open spec fn takes_source(flag: Seq<char>) -> bool {
    ||| flag == "--source"@
    ||| flag == "--trace-file"@
    ||| flag == "--workload-param"@
    ||| flag == "--arc-preset"@
}

pub open spec fn with_source(m: Model, flag: Seq<char>, value: Seq<char>) -> Result<Model, SetError> {
    if flag == "--source"@ {
        taken(source_in(value), |v: Source| Model { source: v, source_explicit: true, ..m })
    } else if flag == "--trace-file"@ {
        Ok(Model { trace_file: Some(value), ..m })
    } else if flag == "--workload-param"@ {
        Ok(Model { workload_param: value, ..m })
    } else if flag == "--arc-preset"@ {
        match preset_of(value) {
            Some(p) => Ok(
                Model {
                    source: if m.source_explicit {
                        m.source
                    } else {
                        Source::Arc
                    },
                    trace_file: if m.trace_file is None {
                        Some(p.trace_path)
                    } else {
                        m.trace_file
                    },
                    workload_param: if m.workload_param.len() == 0 {
                        value
                    } else {
                        m.workload_param
                    },
                    ..m
                },
            ),
            None => Err(SetError::UnknownPreset),
        }
    } else {
        Err(SetError::BadValue)
    }
}

/// A preset overrides nothing that a flag before it gave.
pub proof fn law_flags_win_over_presets(m: Model, name: Seq<char>)
    requires
        with_source(m, "--arc-preset"@, name) is Ok,
    ensures
        m.source_explicit ==> with_source(m, "--arc-preset"@, name)->Ok_0.source == m.source,
        !m.source_explicit ==> with_source(m, "--arc-preset"@, name)->Ok_0.source == Source::Arc,
        m.trace_file is Some ==> with_source(m, "--arc-preset"@, name)->Ok_0.trace_file
            == m.trace_file,
        m.workload_param.len() > 0 ==> with_source(m, "--arc-preset"@, name)->Ok_0.workload_param
            == m.workload_param,
{
    reveal_strlit("--arc-preset");
    reveal_strlit("--source");
    reveal_strlit("--trace-file");
    reveal_strlit("--workload-param");
    assert("--arc-preset"@.len() != "--source"@.len());
    assert("--arc-preset"@[2] != "--trace-file"@[2]);
    assert("--arc-preset"@.len() != "--workload-param"@.len());
}

fn is_source_flag(flag: &str) -> (r: bool)
    ensures
        r == takes_source(flag@),
{
    same(flag, "--source")
        || same(flag, "--trace-file")
        || same(flag, "--workload-param")
        || same(flag, "--arc-preset")
}

impl Args {
    #[verifier::spinoff_prover]
    fn put_size(&mut self, flag: &str, n: usize)
        requires
            takes_size(flag@),
        ensures
            final(self).model() == put_size(old(self).model(), flag@, n),
    {
        if same(flag, "--cap") {
            self.cap = n;
        } else if same(flag, "--threads") {
            self.threads = n;
        } else if same(flag, "--ops") {
            self.ops = n;
        } else if same(flag, "--warmup") {
            self.warmup = n;
        } else if same(flag, "--trials") {
            self.trials = n;
        } else if same(flag, "--shards") {
            self.shards = n;
        } else if same(flag, "--ways") {
            self.ways = n;
        } else {
            self.partitions = n;
        }
    }

    fn set_size(&mut self, flag: &str, value: &str) -> (r: Result<(), SetError>)
        requires
            takes_size(flag@),
        ensures
            match r {
                Ok(_) => with_size(old(self).model(), flag@, value@) == Ok::<Model, SetError>(
                    final(self).model(),
                ),
                Err(e) => with_size(old(self).model(), flag@, value@) == Err::<Model, SetError>(e),
            },
    {
        match usize_of(value) {
            Ok(n) => {
                self.put_size(flag, n);
                Ok(())
            },
            Err(e) => Err(e),
        }
    }

    #[verifier::spinoff_prover]
    fn put_long(&mut self, flag: &str, n: u64)
        requires
            takes_long(flag@),
        ensures
            final(self).model() == put_long(old(self).model(), flag@, n),
    {
        if same(flag, "--keys") {
            self.keys = n;
        } else {
            self.seed = n;
        }
    }

    fn set_long(&mut self, flag: &str, value: &str) -> (r: Result<(), SetError>)
        requires
            takes_long(flag@),
        ensures
            match r {
                Ok(_) => with_long(old(self).model(), flag@, value@) == Ok::<Model, SetError>(
                    final(self).model(),
                ),
                Err(e) => with_long(old(self).model(), flag@, value@) == Err::<Model, SetError>(e),
            },
    {
        match u64_of(value) {
            Ok(n) => {
                self.put_long(flag, n);
                Ok(())
            },
            Err(e) => Err(e),
        }
    }

    #[verifier::spinoff_prover]
    fn set_load(&mut self, flag: &str, value: &str) -> (r: Result<(), SetError>)
        ensures
            match r {
                Ok(_) => with_load(old(self).model(), flag@, value@) == Ok::<Model, SetError>(
                    final(self).model(),
                ),
                Err(e) => with_load(old(self).model(), flag@, value@) == Err::<Model, SetError>(e),
            },
    {
        if same(flag, "--skew") {
            match float_of(value) {
                Ok(t) => {
                    self.skew = Some(t);
                    Ok(())
                },
                Err(e) => Err(e),
            }
        } else if same(flag, "--variant") || same(flag, "--variants") {
            self.variants = names_of(value);
            Ok(())
        } else if same(flag, "--op-mix") {
            match mix_of(value) {
                Ok(v) => {
                    self.op_mix = v;
                    Ok(())
                },
                Err(e) => Err(e),
            }
        } else if same(flag, "--value") {
            match value_kind_of(value) {
                Ok(v) => {
                    self.value_kind = v;
                    Ok(())
                },
                Err(e) => Err(e),
            }
        } else {
            Err(SetError::BadValue)
        }
    }

    #[verifier::spinoff_prover]
    fn set_source(&mut self, flag: &str, value: &str) -> (r: Result<(), SetError>)
        ensures
            match r {
                Ok(_) => with_source(old(self).model(), flag@, value@) == Ok::<Model, SetError>(
                    final(self).model(),
                ),
                Err(e) => with_source(old(self).model(), flag@, value@) == Err::<Model, SetError>(e),
            },
    {
        if same(flag, "--source") {
            match source_of(value) {
                Ok(v) => {
                    self.source = v;
                    self.source_explicit = true;
                    Ok(())
                },
                Err(e) => Err(e),
            }
        } else if same(flag, "--trace-file") {
            self.trace_file = Some(value.to_owned());
            Ok(())
        } else if same(flag, "--workload-param") {
            self.workload_param = value.to_owned();
            Ok(())
        } else if same(flag, "--arc-preset") {
            match lookup(value) {
                Some(p) => {
                    if !self.source_explicit {
                        self.source = Source::Arc;
                    }
                    if self.trace_file.is_none() {
                        self.trace_file = Some(p.trace_path.to_owned());
                    }
                    if self.workload_param.as_str().unicode_len() == 0 {
                        self.workload_param = value.to_owned();
                    }
                    Ok(())
                },
                None => Err(SetError::UnknownPreset),
            }
        } else {
            Err(SetError::BadValue)
        }
    }
}

impl Settings for Args {
    type M = Model;

    open spec fn model(self) -> Model {
        Model {
            cap: self.cap,
            threads: self.threads,
            skew: opt_text(self.skew),
            keys: self.keys,
            ops: self.ops,
            warmup: self.warmup,
            trials: self.trials,
            seed: self.seed,
            variants: strings(self.variants@),
            shards: self.shards,
            op_mix: self.op_mix,
            value_kind: self.value_kind,
            ways: self.ways,
            partitions: self.partitions,
            source: self.source,
            source_explicit: self.source_explicit,
            trace_file: opt_text(self.trace_file),
            workload_param: self.workload_param@,
        }
    }

    open spec fn takes(flag: Seq<char>) -> bool {
        ||| takes_size(flag)
        ||| takes_long(flag)
        ||| takes_load(flag)
        ||| takes_source(flag)
    }

    open spec fn with(m: Model, flag: Seq<char>, value: Seq<char>) -> Result<Model, SetError> {
        if takes_size(flag) {
            with_size(m, flag, value)
        } else if takes_long(flag) {
            with_long(m, flag, value)
        } else if takes_load(flag) {
            with_load(m, flag, value)
        } else {
            with_source(m, flag, value)
        }
    }

    fn is_flag(flag: &str) -> (r: bool) {
        is_size_flag(flag)
            || is_long_flag(flag)
            || is_load_flag(flag)
            || is_source_flag(flag)
    }

    fn set(&mut self, flag: &str, value: &str) -> (r: Result<(), SetError>) {
        if is_size_flag(flag) {
            self.set_size(flag, value)
        } else if is_long_flag(flag) {
            self.set_long(flag, value)
        } else if is_load_flag(flag) {
            self.set_load(flag, value)
        } else {
            self.set_source(flag, value)
        }
    }
}

/// Why no benchmark can be run.
#[derive(Clone, Copy, Debug, PartialEq, Eq, Structural)]
pub enum ConcError {
    Line(ArgError),
    /// The number of threads is no power of two.
    Threads,
    /// The threads do not divide the operations evenly.
    Ops,
    /// The threads do not divide the operations of the warm-up evenly.
    Warmup,
    /// The number of shards is no power of two up to 131072.
    Shards,
    /// The number of ways is no power of two up to the number of shards.
    Ways,
    /// The number of partitions is no power of two.
    Partitions,
    /// There is no variant of the name at this place of the list.
    UnknownVariant { index: usize },
    /// One of the variants holds numbers alone and is to hold texts.
    NumbersOnly,
    /// A trace is to be played and no file is named.
    NoTraceFile,
}

/// The caches that the benchmark knows by name.
pub open spec fn is_variant(name: Seq<char>) -> bool {
    ||| name == "c8"@
    ||| name == "c9"@
    ||| name == "moka"@
    ||| name == "mini_moka"@
    ||| name == "c14s"@
    ||| name == "c15s_16"@
    ||| name == "c15s_8"@
    ||| name == "c15s_4"@
    ||| name == "c16s"@
    ||| name == "c17s"@
    ||| name == "c18s"@
    ||| name == "r1"@
    ||| name == "r2h"@
    ||| name == "partitioned"@
}

fn test_is_variant(name: &str) -> (r: bool)
    ensures
        r == is_variant(name@),
{
    same(name, "c8")
        || same(name, "c9")
        || same(name, "moka")
        || same(name, "mini_moka")
        || same(name, "c14s")
        || same(name, "c15s_16")
        || same(name, "c15s_8")
        || same(name, "c15s_4")
        || same(name, "c16s")
        || same(name, "c17s")
        || same(name, "c18s")
        || same(name, "r1")
        || same(name, "r2h")
        || same(name, "partitioned")
}

/// The caches whose number of shards can be set.
pub open spec fn has_shards(name: Seq<char>) -> bool {
    ||| name == "c8"@
    ||| name == "c9"@
    ||| name == "c14s"@
    ||| name == "c15s_16"@
    ||| name == "c15s_8"@
    ||| name == "c15s_4"@
    ||| name == "c16s"@
    ||| name == "c17s"@
    ||| name == "c18s"@
    ||| name == "r1"@
    ||| name == "r2h"@
}

fn test_has_shards(name: &str) -> (r: bool)
    ensures
        r == has_shards(name@),
{
    same(name, "c8")
        || same(name, "c9")
        || same(name, "c14s")
        || same(name, "c15s_16")
        || same(name, "c15s_8")
        || same(name, "c15s_4")
        || same(name, "c16s")
        || same(name, "c17s")
        || same(name, "c18s")
        || same(name, "r1")
        || same(name, "r2h")
}

/// The caches that spread a key over several ways.
pub open spec fn has_ways(name: Seq<char>) -> bool {
    ||| name == "r1"@
    ||| name == "r2h"@
}

fn test_has_ways(name: &str) -> (r: bool)
    ensures
        r == has_ways(name@),
{
    same(name, "r1")
        || same(name, "r2h")
}

/// The caches that are built for 64 shards alone.
pub open spec fn needs_64_shards(name: Seq<char>) -> bool {
    ||| name == "c14s"@
    ||| name == "c15s_16"@
    ||| name == "c15s_8"@
    ||| name == "c15s_4"@
    ||| name == "c16s"@
    ||| name == "c18s"@
}

fn test_needs_64_shards(name: &str) -> (r: bool)
    ensures
        r == needs_64_shards(name@),
{
    same(name, "c14s")
        || same(name, "c15s_16")
        || same(name, "c15s_8")
        || same(name, "c15s_4")
        || same(name, "c16s")
        || same(name, "c18s")
}

/// The caches that are built for every power of two from 4 to 131072.
pub open spec fn scales_shards(name: Seq<char>) -> bool {
    ||| name == "c17s"@
    ||| name == "r1"@
    ||| name == "r2h"@
}

fn test_scales_shards(name: &str) -> (r: bool)
    ensures
        r == scales_shards(name@),
{
    same(name, "c17s")
        || same(name, "r1")
        || same(name, "r2h")
}

/// The first place from `i` on whose name is no variant, or the end.
pub open spec fn first_unknown(variants: Seq<Seq<char>>, i: int) -> int
    decreases variants.len() - i,
{
    if i >= variants.len() {
        variants.len() as int
    } else if is_variant(variants[i]) {
        first_unknown(variants, i + 1)
    } else {
        i
    }
}

/// The settings, where a benchmark can be run with them.
pub open spec fn checked(m: Model) -> Result<Model, ConcError> {
    let unknown = first_unknown(m.variants, 0);
    if !is_shard_count(m.threads) {
        Err(ConcError::Threads)
    } else if m.ops % m.threads != 0 {
        Err(ConcError::Ops)
    } else if m.warmup % m.threads != 0 {
        Err(ConcError::Warmup)
    } else if !(is_shard_count(m.shards) && m.shards <= 131_072) {
        Err(ConcError::Shards)
    } else if !(is_shard_count(m.ways) && m.ways <= m.shards) {
        Err(ConcError::Ways)
    } else if !is_shard_count(m.partitions) {
        Err(ConcError::Partitions)
    } else if unknown < m.variants.len() {
        Err(ConcError::UnknownVariant { index: unknown as usize })
    } else if m.value_kind is String && m.variants.contains("c8"@) {
        Err(ConcError::NumbersOnly)
    } else if !(m.source is Zipf) && m.trace_file is None {
        Err(ConcError::NoTraceFile)
    } else {
        Ok(m)
    }
}

/// What a command line asks for; `None` where that is help.
pub open spec fn asked(argv: Seq<Seq<char>>) -> Result<Option<Model>, ConcError> {
    match parsed::<Args>(argv, 0, defaults()) {
        Ok(Some(m)) => match checked(m) {
            Ok(r) => Ok(Some(r)),
            Err(e) => Err(e),
        },
        Ok(None) => Ok(None),
        Err(e) => Err(ConcError::Line(e)),
    }
}

/// Reads the command line.
pub fn parse_args(argv: &Vec<String>) -> (r: Result<Option<Args>, ConcError>)
    ensures
        match r {
            Ok(Some(a)) => asked(strings(argv@)) == Ok::<Option<Model>, ConcError>(Some(a.model())),
            Ok(None) => asked(strings(argv@)) == Ok::<Option<Model>, ConcError>(None),
            Err(e) => asked(strings(argv@)) == Err::<Option<Model>, ConcError>(e),
        },
{
    let mut variants: Vec<String> = Vec::new();
    variants.push("c8".to_owned());
    let start = Args {
        cap: 4096,
        threads: 4,
        skew: None,
        keys: 100_000,
        ops: 4_000_000,
        warmup: 200_000,
        trials: 1,
        seed: 42,
        variants,
        shards: 8,
        op_mix: OpMix::Gim,
        value_kind: ValueKind::U64,
        ways: 1,
        partitions: 1,
        source: Source::Zipf,
        source_explicit: false,
        trace_file: None,
        workload_param: String::new(),
    };
    proof {
        assert(strings(start.variants@) =~= seq!["c8"@]);
        assert(start.workload_param@ =~= Seq::<char>::empty());
        assert(start.model() =~= defaults());
    }
    match parse(argv, start) {
        Ok(Some(a)) => match a.check() {
            Some(e) => Err(e),
            None => Ok(Some(a)),
        },
        Ok(None) => Ok(None),
        Err(e) => Err(ConcError::Line(e)),
    }
}

/// Whether `n` is a power of two.
pub fn power_of_two(n: usize) -> (r: bool)
    ensures
        r == is_shard_count(n),
{
    n > 0 && n & (n - 1) == 0
}

impl Args {
    fn unknown_variant(&self) -> (i: usize)
        ensures
            i == first_unknown(strings(self.variants@), 0),
            i <= self.variants@.len(),
    {
        let ghost all = strings(self.variants@);
        let mut i: usize = 0;
        while i < self.variants.len() && test_is_variant(self.variants[i].as_str())
            invariant
                i <= self.variants@.len(),
                all == strings(self.variants@),
                first_unknown(all, i as int) == first_unknown(all, 0),
            decreases self.variants@.len() - i,
        {
            assert(all[i as int] == self.variants@[i as int]@);
            i += 1;
        }
        proof {
            assert(all.len() == self.variants@.len());
            if i < all.len() {
                assert(all[i as int] == self.variants@[i as int]@);
            }
        }
        i
    }

    fn names_c8(&self) -> (r: bool)
        ensures
            r == strings(self.variants@).contains("c8"@),
    {
        let ghost all = strings(self.variants@);
        let mut i: usize = 0;
        while i < self.variants.len()
            invariant
                i <= self.variants@.len(),
                all == strings(self.variants@),
                forall|k: int| 0 <= k < i ==> #[trigger] all[k] != "c8"@,
            decreases self.variants@.len() - i,
        {
            assert(all[i as int] == self.variants@[i as int]@);
            if same(self.variants[i].as_str(), "c8") {
                assert(all.contains("c8"@));
                return true;
            }
            i += 1;
        }
        assert(all.len() == self.variants@.len());
        false
    }

    fn check(&self) -> (r: Option<ConcError>)
        ensures
            match r {
                Some(e) => checked(self.model()) == Err::<Model, ConcError>(e),
                None => checked(self.model()) == Ok::<Model, ConcError>(self.model()),
            },
    {
        assert(strings(self.variants@).len() == self.variants@.len());
        let is_zipf = match self.source {
            Source::Zipf => true,
            _ => false,
        };
        let texts = match self.value_kind {
            ValueKind::String => true,
            ValueKind::U64 => false,
        };
        if !power_of_two(self.threads) {
            return Some(ConcError::Threads);
        }
        if self.ops % self.threads != 0 {
            return Some(ConcError::Ops);
        }
        if self.warmup % self.threads != 0 {
            return Some(ConcError::Warmup);
        }
        if !(power_of_two(self.shards) && self.shards <= 131_072) {
            return Some(ConcError::Shards);
        }
        if !(power_of_two(self.ways) && self.ways <= self.shards) {
            return Some(ConcError::Ways);
        }
        if !power_of_two(self.partitions) {
            return Some(ConcError::Partitions);
        }
        let unknown = self.unknown_variant();
        if unknown < self.variants.len() {
            return Some(ConcError::UnknownVariant { index: unknown });
        }
        if texts && self.names_c8() {
            return Some(ConcError::NumbersOnly);
        }
        if !is_zipf && self.trace_file.is_none() {
            return Some(ConcError::NoTraceFile);
        }
        None
    }
}

/// The format of the trace file, or `None` where no trace is played.
pub open spec fn format_of(m: Model) -> Option<Format> {
    if m.trace_file is None {
        None
    } else {
        match m.source {
            Source::Zipf => None,
            Source::Twitter => Some(Format::LibcachesimCsv),
            Source::TwitterYang => Some(Format::TwitterCsv),
            Source::Arc => Some(Format::Arc),
        }
    }
}

/// What a cache of the given name reports as its number of shards: nought where
/// it has none to set.
pub open spec fn shards_shown(name: Seq<char>, shards: usize) -> usize {
    if has_shards(name) {
        shards
    } else {
        0
    }
}

pub open spec fn ways_shown(name: Seq<char>, ways: usize) -> usize {
    if has_ways(name) {
        ways
    } else {
        1
    }
}

pub open spec fn partitions_shown(name: Seq<char>, partitions: usize) -> usize {
    if name == "partitioned"@ {
        partitions
    } else {
        1
    }
}

/// The columns of a report that depend on what the cache can be set to.
#[derive(Clone, Copy, Debug, PartialEq, Eq, Structural)]
pub struct Columns {
    pub shards: usize,
    pub ways: usize,
    pub partitions: usize,
}

/// Why a cache cannot be built as the settings ask.
#[derive(Clone, Copy, Debug, PartialEq, Eq, Structural)]
pub enum BuildError {
    /// The cache is not built for this number of shards.
    Shards,
    /// There are more partitions than items.
    Partitions,
    /// The cache holds numbers alone.
    NumbersOnly,
    /// There is no such cache.
    UnknownVariant,
}

/// What stands in the way of the cache `name` with these settings.
pub open spec fn obstacle(name: Seq<char>, m: Model) -> Option<BuildError> {
    if !is_variant(name) {
        Some(BuildError::UnknownVariant)
    } else if name == "c8"@ && m.value_kind is String {
        Some(BuildError::NumbersOnly)
    } else if name == "c8"@ && !(is_shard_count(m.shards) && 8 <= m.shards <= 512) {
        Some(BuildError::Shards)
    } else if needs_64_shards(name) && m.shards != 64 {
        Some(BuildError::Shards)
    } else if scales_shards(name) && !(is_shard_count(m.shards) && 4 <= m.shards <= 131_072) {
        Some(BuildError::Shards)
    } else if name == "partitioned"@ && m.cap < m.partitions {
        Some(BuildError::Partitions)
    } else {
        None
    }
}

impl Args {
    /// The format of the trace file, or `None` where no trace is played.
    pub fn trace_format(&self) -> (r: Option<Format>)
        ensures
            r == format_of(self.model()),
    {
        if self.trace_file.is_none() {
            return None;
        }
        match self.source {
            Source::Zipf => None,
            Source::Twitter => Some(Format::LibcachesimCsv),
            Source::TwitterYang => Some(Format::TwitterCsv),
            Source::Arc => Some(Format::Arc),
        }
    }

    /// What the report shows for the cache `name`.
    pub fn columns(&self, name: &str) -> (c: Columns)
        ensures
            c.shards == shards_shown(name@, self.shards),
            c.ways == ways_shown(name@, self.ways),
            c.partitions == partitions_shown(name@, self.partitions),
    {
        Columns {
            shards: if test_has_shards(name) {
                self.shards
            } else {
                0
            },
            ways: if test_has_ways(name) {
                self.ways
            } else {
                1
            },
            partitions: if same(name, "partitioned") {
                self.partitions
            } else {
                1
            },
        }
    }

    /// What stands in the way of the cache `name`.
    pub fn obstacle_to(&self, name: &str) -> (r: Option<BuildError>)
        ensures
            r == obstacle(name@, self.model()),
    {
        let texts = match self.value_kind {
            ValueKind::String => true,
            ValueKind::U64 => false,
        };
        if !test_is_variant(name) {
            Some(BuildError::UnknownVariant)
        } else if same(name, "c8") && texts {
            Some(BuildError::NumbersOnly)
        } else if same(name, "c8") && !(power_of_two(self.shards) && 8 <= self.shards && self.shards
            <= 512) {
            Some(BuildError::Shards)
        } else if test_needs_64_shards(name) && self.shards != 64 {
            Some(BuildError::Shards)
        } else if test_scales_shards(name) && !(power_of_two(self.shards) && 4 <= self.shards
            && self.shards <= 131_072) {
            Some(BuildError::Shards)
        } else if same(name, "partitioned") && self.cap < self.partitions {
            Some(BuildError::Partitions)
        } else {
            None
        }
    }
}

/// Settings that were accepted name caches that exist, and none of them for texts
/// that holds numbers alone.
pub proof fn law_accepted_variants(m: Model, i: int)
    requires
        checked(m) is Ok,
        0 <= i < m.variants.len(),
    ensures
        is_variant(m.variants[i]),
        m.value_kind is String ==> m.variants[i] != "c8"@,
        !(obstacle(m.variants[i], m) matches Some(BuildError::UnknownVariant)),
        !(obstacle(m.variants[i], m) matches Some(BuildError::NumbersOnly)),
{
    lemma_first_unknown(m.variants, 0);
}

proof fn lemma_first_unknown(variants: Seq<Seq<char>>, i: int)
    requires
        0 <= i <= variants.len(),
    ensures
        i <= first_unknown(variants, i) <= variants.len(),
        forall|k: int| i <= k < first_unknown(variants, i) ==> is_variant(#[trigger] variants[k]),
    decreases variants.len() - i,
{
    if i < variants.len() && is_variant(variants[i]) {
        lemma_first_unknown(variants, i + 1);
    }
}

impl Args {
    /// Each setting is what the field of its name holds.
    pub proof fn law_fields(self)
        ensures
            self.model().cap == self.cap,
            self.model().threads == self.threads,
            self.skew is None <==> self.model().skew is None,
            self.skew matches Some(t) ==> self.model().skew == Some(t@),
            self.model().keys == self.keys,
            self.model().ops == self.ops,
            self.model().warmup == self.warmup,
            self.model().trials == self.trials,
            self.model().seed == self.seed,
            self.model().variants.len() == self.variants@.len(),
            forall|i: int|
                0 <= i < self.variants@.len() ==> #[trigger] self.model().variants[i] == self.variants@[i]@,
            self.model().shards == self.shards,
            self.model().op_mix == self.op_mix,
            self.model().value_kind == self.value_kind,
            self.model().ways == self.ways,
            self.model().partitions == self.partitions,
            self.model().source == self.source,
            self.model().source_explicit == self.source_explicit,
            self.trace_file is None <==> self.model().trace_file is None,
            self.trace_file matches Some(t) ==> self.model().trace_file == Some(t@),
            self.model().workload_param == self.workload_param@,
    {
    }
}

/// What tells two flags apart.
spec fn flag_mark(f: Seq<char>) -> (nat, char, char) {
    (f.len(), f[2], f[3])
}

#[verifier::spinoff_prover]
proof fn lemma_flag_marks()
    ensures
        flag_mark("--cap"@) == (5nat, 'c', 'a'),
        flag_mark("--threads"@) == (9nat, 't', 'h'),
        flag_mark("--ops"@) == (5nat, 'o', 'p'),
        flag_mark("--warmup"@) == (8nat, 'w', 'a'),
        flag_mark("--trials"@) == (8nat, 't', 'r'),
        flag_mark("--shards"@) == (8nat, 's', 'h'),
        flag_mark("--ways"@) == (6nat, 'w', 'a'),
        flag_mark("--partitions"@) == (12nat, 'p', 'a'),
        flag_mark("--keys"@) == (6nat, 'k', 'e'),
        flag_mark("--seed"@) == (6nat, 's', 'e'),
        flag_mark("--trace-file"@) == (12nat, 't', 'r'),
        flag_mark("--workload-param"@) == (16nat, 'w', 'o'),
        flag_mark("--skew"@) == (6nat, 's', 'k'),
        flag_mark("--variant"@) == (9nat, 'v', 'a'),
        flag_mark("--variants"@) == (10nat, 'v', 'a'),
        flag_mark("--op-mix"@) == (8nat, 'o', 'p'),
        flag_mark("--value"@) == (7nat, 'v', 'a'),
        flag_mark("--source"@) == (8nat, 's', 'o'),
        flag_mark("--arc-preset"@) == (12nat, 'a', 'r'),
{
    reveal_strlit("--cap");
    reveal_strlit("--threads");
    reveal_strlit("--ops");
    reveal_strlit("--warmup");
    reveal_strlit("--trials");
    reveal_strlit("--shards");
    reveal_strlit("--ways");
    reveal_strlit("--partitions");
    reveal_strlit("--keys");
    reveal_strlit("--seed");
    reveal_strlit("--trace-file");
    reveal_strlit("--workload-param");
    reveal_strlit("--skew");
    reveal_strlit("--variant");
    reveal_strlit("--variants");
    reveal_strlit("--op-mix");
    reveal_strlit("--value");
    reveal_strlit("--source");
    reveal_strlit("--arc-preset");
}

/// Each flag that takes a size sets what it names to the number that is written, and nothing
/// else; what is no number is refused.
#[verifier::spinoff_prover]
pub proof fn law_size_flags(m: Model, n: usize, v: Seq<char>)
    ensures
        <Args as Settings>::with(m, "--cap"@, digits(n as nat)) == Ok::<Model, SetError>(Model { cap: n, ..m }),
        <Args as Settings>::with(m, "--threads"@, digits(n as nat)) == Ok::<Model, SetError>(Model { threads: n, ..m }),
        <Args as Settings>::with(m, "--ops"@, digits(n as nat)) == Ok::<Model, SetError>(Model { ops: n, ..m }),
        <Args as Settings>::with(m, "--warmup"@, digits(n as nat)) == Ok::<Model, SetError>(Model { warmup: n, ..m }),
        <Args as Settings>::with(m, "--trials"@, digits(n as nat)) == Ok::<Model, SetError>(Model { trials: n, ..m }),
        <Args as Settings>::with(m, "--shards"@, digits(n as nat)) == Ok::<Model, SetError>(Model { shards: n, ..m }),
        <Args as Settings>::with(m, "--ways"@, digits(n as nat)) == Ok::<Model, SetError>(Model { ways: n, ..m }),
        <Args as Settings>::with(m, "--partitions"@, digits(n as nat)) == Ok::<Model, SetError>(Model { partitions: n, ..m }),
        number(v, usize::MAX as nat) is None ==> <Args as Settings>::with(m, "--cap"@, v) == Err::<Model, SetError>(SetError::BadValue),
        number(v, usize::MAX as nat) is None ==> <Args as Settings>::with(m, "--threads"@, v) == Err::<Model, SetError>(SetError::BadValue),
        number(v, usize::MAX as nat) is None ==> <Args as Settings>::with(m, "--ops"@, v) == Err::<Model, SetError>(SetError::BadValue),
        number(v, usize::MAX as nat) is None ==> <Args as Settings>::with(m, "--warmup"@, v) == Err::<Model, SetError>(SetError::BadValue),
        number(v, usize::MAX as nat) is None ==> <Args as Settings>::with(m, "--trials"@, v) == Err::<Model, SetError>(SetError::BadValue),
        number(v, usize::MAX as nat) is None ==> <Args as Settings>::with(m, "--shards"@, v) == Err::<Model, SetError>(SetError::BadValue),
        number(v, usize::MAX as nat) is None ==> <Args as Settings>::with(m, "--ways"@, v) == Err::<Model, SetError>(SetError::BadValue),
        number(v, usize::MAX as nat) is None ==> <Args as Settings>::with(m, "--partitions"@, v) == Err::<Model, SetError>(SetError::BadValue),
{
    lemma_flag_marks();
    law_digits_round_trip(n as nat, usize::MAX as nat);
}

/// The flags that take a 64-bit number do the same with it.
#[verifier::spinoff_prover]
pub proof fn law_long_flags(m: Model, n: u64, v: Seq<char>)
    ensures
        <Args as Settings>::with(m, "--keys"@, digits(n as nat)) == Ok::<Model, SetError>(Model { keys: n, ..m }),
        number(v, u64::MAX as nat) is None ==> <Args as Settings>::with(m, "--keys"@, v) == Err::<Model, SetError>(SetError::BadValue),
        <Args as Settings>::with(m, "--seed"@, digits(n as nat)) == Ok::<Model, SetError>(Model { seed: n, ..m }),
        number(v, u64::MAX as nat) is None ==> <Args as Settings>::with(m, "--seed"@, v) == Err::<Model, SetError>(SetError::BadValue),
{
    lemma_flag_marks();
    law_digits_round_trip(n as nat, u64::MAX as nat);
}

/// The other flags set what they name to the text, the list or the choice that is written.
#[verifier::spinoff_prover]
pub proof fn law_text_flags(m: Model, t: Seq<char>)
    ensures
        <Args as Settings>::with(m, "--trace-file"@, t) == Ok::<Model, SetError>(Model { trace_file: Some(t), ..m }),
        <Args as Settings>::with(m, "--workload-param"@, t) == Ok::<Model, SetError>(Model { workload_param: t, ..m }),
        is_float(t) ==> <Args as Settings>::with(m, "--skew"@, t) == Ok::<Model, SetError>(Model { skew: Some(t), ..m }),
        !is_float(t) ==> <Args as Settings>::with(m, "--skew"@, t) == Err::<Model, SetError>(SetError::BadValue),
        <Args as Settings>::with(m, "--variant"@, t) == Ok::<Model, SetError>(Model { variants: names_in(t), ..m }),
        <Args as Settings>::with(m, "--variants"@, t) == Ok::<Model, SetError>(Model { variants: names_in(t), ..m }),
        <Args as Settings>::with(m, "--op-mix"@, "gim"@) == Ok::<Model, SetError>(Model { op_mix: OpMix::Gim, ..m }),
        <Args as Settings>::with(m, "--op-mix"@, "read-heavy"@) == Ok::<Model, SetError>(Model { op_mix: OpMix::ReadHeavy, ..m }),
        <Args as Settings>::with(m, "--value"@, "u64"@) == Ok::<Model, SetError>(Model { value_kind: ValueKind::U64, ..m }),
        <Args as Settings>::with(m, "--value"@, "string"@) == Ok::<Model, SetError>(Model { value_kind: ValueKind::String, ..m }),
        <Args as Settings>::with(m, "--source"@, "zipf"@) == Ok::<Model, SetError>(Model { source: Source::Zipf, source_explicit: true, ..m }),
        <Args as Settings>::with(m, "--source"@, "twitter"@) == Ok::<Model, SetError>(Model { source: Source::Twitter, source_explicit: true, ..m }),
        <Args as Settings>::with(m, "--source"@, "twitter-yang"@) == Ok::<Model, SetError>(Model { source: Source::TwitterYang, source_explicit: true, ..m }),
        <Args as Settings>::with(m, "--source"@, "arc"@) == Ok::<Model, SetError>(Model { source: Source::Arc, source_explicit: true, ..m }),
        t != "gim"@ && t != "read-heavy"@ ==> <Args as Settings>::with(m, "--op-mix"@, t) == Err::<Model, SetError>(SetError::BadValue),
        t != "u64"@ && t != "string"@ ==> <Args as Settings>::with(m, "--value"@, t) == Err::<Model, SetError>(SetError::BadValue),
        t != "zipf"@ && t != "twitter"@ && t != "twitter-yang"@ && t != "arc"@ ==> <Args as Settings>::with(m, "--source"@, t) == Err::<Model, SetError>(SetError::BadValue),
{
    lemma_flag_marks();
    reveal_strlit("gim");
    reveal_strlit("read-heavy");
    assert("gim"@.len() != "read-heavy"@.len());
    reveal_strlit("u64");
    reveal_strlit("string");
    assert("u64"@.len() != "string"@.len());
    reveal_strlit("zipf");
    reveal_strlit("twitter");
    reveal_strlit("twitter-yang");
    reveal_strlit("arc");
    assert("zipf"@.len() != "twitter"@.len());
    assert("zipf"@.len() != "twitter-yang"@.len());
    assert("zipf"@.len() != "arc"@.len());
    assert("twitter"@.len() != "twitter-yang"@.len());
    assert("twitter"@.len() != "arc"@.len());
    assert("twitter-yang"@.len() != "arc"@.len());
}

/// There are these flags and no others.
#[verifier::spinoff_prover]
pub proof fn law_known_flags(flag: Seq<char>)
    ensures
        <Args as Settings>::takes(flag) <==> flag == "--cap"@
            || flag == "--threads"@
            || flag == "--ops"@
            || flag == "--warmup"@
            || flag == "--trials"@
            || flag == "--shards"@
            || flag == "--ways"@
            || flag == "--partitions"@
            || flag == "--keys"@
            || flag == "--seed"@
            || flag == "--trace-file"@
            || flag == "--workload-param"@
            || flag == "--skew"@
            || flag == "--variant"@
            || flag == "--variants"@
            || flag == "--op-mix"@
            || flag == "--value"@
            || flag == "--source"@
            || flag == "--arc-preset"@,
{
}

/// A run needs powers of two of threads, shards, ways and partitions, threads that share the
/// operations and the warm-up evenly, caches that are known and can hold the values, and a trace
/// file where the keys come from one. Such settings are taken as they are.
pub proof fn law_checked(m: Model)
    ensures
        checked(m) is Ok <==> {
            &&& is_shard_count(m.threads)
            &&& m.ops % m.threads == 0 && m.warmup % m.threads == 0
            &&& is_shard_count(m.shards) && m.shards <= 131_072
            &&& is_shard_count(m.ways) && m.ways <= m.shards
            &&& is_shard_count(m.partitions)
            &&& forall|i: int| 0 <= i < m.variants.len() ==> is_variant(#[trigger] m.variants[i])
            &&& m.value_kind is String ==> !m.variants.contains("c8"@)
            &&& m.source is Zipf || m.trace_file is Some
        },
        checked(m) matches Ok(r) ==> r == m,
        checked(m) matches Err(ConcError::Threads) <==> !is_shard_count(m.threads),
        checked(m) matches Err(ConcError::Ops) ==> m.ops % m.threads != 0,
        checked(m) matches Err(ConcError::Warmup) ==> m.warmup % m.threads != 0,
        checked(m) matches Err(ConcError::Shards) ==> !is_shard_count(m.shards) || m.shards
            > 131_072,
        checked(m) matches Err(ConcError::Ways) ==> !is_shard_count(m.ways) || m.ways > m.shards,
        checked(m) matches Err(ConcError::Partitions) ==> !is_shard_count(m.partitions),
        checked(m) matches Err(ConcError::NoTraceFile) ==> m.trace_file is None,
        checked(m) matches Err(ConcError::NumbersOnly) ==> m.variants.contains("c8"@),
{
    lemma_first_unknown(m.variants, 0);
    let u = first_unknown(m.variants, 0);
    lemma_unknown(m.variants, 0);
}

proof fn lemma_unknown(variants: Seq<Seq<char>>, i: int)
    requires
        0 <= i <= variants.len(),
    ensures
        first_unknown(variants, i) < variants.len() ==> !is_variant(
            variants[first_unknown(variants, i)],
        ),
    decreases variants.len() - i,
{
    if i < variants.len() && is_variant(variants[i]) {
        lemma_unknown(variants, i + 1);
    }
}

/// The cache that is refused is the first one that is not known.
pub proof fn law_first_unknown(variants: Seq<Seq<char>>)
    ensures
        0 <= first_unknown(variants, 0) <= variants.len(),
        forall|i: int|
            0 <= i < first_unknown(variants, 0) ==> is_variant(#[trigger] variants[i]),
        first_unknown(variants, 0) < variants.len() ==> !is_variant(
            variants[first_unknown(variants, 0)],
        ),
{
    lemma_first_unknown(variants, 0);
    lemma_unknown(variants, 0);
}

/// A preset gives the file of its trace and its name as the parameter where no flag did. It
/// changes nothing but these two and the source. A name without a preset is refused.
#[verifier::spinoff_prover]
pub proof fn law_presets_fill_in(m: Model, name: Seq<char>)
    ensures
        preset_of(name) is None ==> <Args as Settings>::with(m, "--arc-preset"@, name) == Err::<
            Model,
            SetError,
        >(SetError::UnknownPreset),
        preset_of(name) is Some ==> <Args as Settings>::with(m, "--arc-preset"@, name) is Ok,
        <Args as Settings>::with(m, "--arc-preset"@, name) matches Ok(r) ==> {
            &&& m.source_explicit ==> r.source == m.source
            &&& !m.source_explicit ==> r.source is Arc
            &&& r.trace_file == Some(
                if m.trace_file is Some {
                    m.trace_file->0
                } else {
                    preset_of(name)->0.trace_path
                },
            )
            &&& m.workload_param.len() == 0 ==> r.workload_param == name
            &&& m.workload_param.len() > 0 ==> r.workload_param == m.workload_param
            &&& r == (Model {
                source: r.source,
                trace_file: r.trace_file,
                workload_param: r.workload_param,
                ..m
            })
        },
{
    lemma_flag_marks();
}

/// A trace file is read in the format of its source; where the keys do not come from a file,
/// there is none.
pub proof fn law_formats(m: Model)
    ensures
        format_of(m) is Some <==> m.trace_file is Some && !(m.source is Zipf),
        m.trace_file is Some && m.source is Twitter ==> format_of(m) == Some(
            Format::LibcachesimCsv,
        ),
        m.trace_file is Some && m.source is TwitterYang ==> format_of(m) == Some(
            Format::TwitterCsv,
        ),
        m.trace_file is Some && m.source is Arc ==> format_of(m) == Some(Format::Arc),
{
}

/// The known caches are those with shards, two from elsewhere and the partitioned one. Those
/// with shards take few, exactly 64, or any power of two; those with ways are among the last.
/// Each shows what it can be set to and a neutral number for the rest.
#[verifier::spinoff_prover]
pub proof fn law_kinds(name: Seq<char>, n: usize)
    ensures
        is_variant(name) <==> has_shards(name) || name == "moka"@ || name == "mini_moka"@ || name
            == "partitioned"@,
        has_shards(name) <==> name == "c8"@ || name == "c9"@ || needs_64_shards(name)
            || scales_shards(name),
        has_ways(name) ==> scales_shards(name) && name != "c17s"@,
        scales_shards(name) && name != "c17s"@ ==> has_ways(name),
        !(needs_64_shards(name) && scales_shards(name)),
        shards_shown(name, n) == if has_shards(name) {
            n
        } else {
            0
        },
        ways_shown(name, n) == if has_ways(name) {
            n
        } else {
            1
        },
        partitions_shown(name, n) == if name == "partitioned"@ {
            n
        } else {
            1
        },
        !has_shards("moka"@) && !has_shards("mini_moka"@) && !has_shards("partitioned"@),
{
    lemma_kind_marks();
}

spec fn kind_mark(name: Seq<char>) -> (nat, char, char) {
    (name.len(), name[0], name[name.len() - 2])
}

#[verifier::spinoff_prover]
proof fn lemma_kind_marks()
    ensures
        kind_mark("c8"@) == (2nat, 'c', 'c'),
        kind_mark("c9"@) == (2nat, 'c', 'c'),
        kind_mark("moka"@) == (4nat, 'm', 'k'),
        kind_mark("mini_moka"@) == (9nat, 'm', 'k'),
        kind_mark("c14s"@) == (4nat, 'c', '4'),
        kind_mark("c15s_16"@) == (7nat, 'c', '1'),
        kind_mark("c15s_8"@) == (6nat, 'c', '_'),
        kind_mark("c15s_4"@) == (6nat, 'c', '_'),
        kind_mark("c16s"@) == (4nat, 'c', '6'),
        kind_mark("c17s"@) == (4nat, 'c', '7'),
        kind_mark("c18s"@) == (4nat, 'c', '8'),
        kind_mark("r1"@) == (2nat, 'r', 'r'),
        kind_mark("r2h"@) == (3nat, 'r', '2'),
        kind_mark("partitioned"@) == (11nat, 'p', 'e'),
{
    reveal_strlit("c8");
    reveal_strlit("c9");
    reveal_strlit("moka");
    reveal_strlit("mini_moka");
    reveal_strlit("c14s");
    reveal_strlit("c15s_16");
    reveal_strlit("c15s_8");
    reveal_strlit("c15s_4");
    reveal_strlit("c16s");
    reveal_strlit("c17s");
    reveal_strlit("c18s");
    reveal_strlit("r1");
    reveal_strlit("r2h");
    reveal_strlit("partitioned");
}

/// What stands in the way of a cache: that it is not known, that it cannot hold the values, that
/// it cannot have so many shards, or that it has more partitions than places.
#[verifier::spinoff_prover]
pub proof fn law_obstacles(name: Seq<char>, m: Model)
    ensures
        obstacle(name, m) is None <==> {
            &&& is_variant(name)
            &&& name == "c8"@ ==> !(m.value_kind is String) && is_shard_count(m.shards) && 8
                <= m.shards <= 512
            &&& needs_64_shards(name) ==> m.shards == 64
            &&& scales_shards(name) ==> is_shard_count(m.shards) && 4 <= m.shards <= 131_072
            &&& name == "partitioned"@ ==> m.partitions <= m.cap
        },
        obstacle(name, m) == Some(BuildError::UnknownVariant) <==> !is_variant(name),
        obstacle(name, m) == Some(BuildError::NumbersOnly) <==> name == "c8"@
            && m.value_kind is String,
        obstacle(name, m) == Some(BuildError::Partitions) ==> name == "partitioned"@ && m.cap
            < m.partitions,
        obstacle(name, m) == Some(BuildError::Shards) ==> has_shards(name),
{
    lemma_kind_marks();
}

/// Which of the caches takes which number of shards, and what each shows of its shards and ways.
#[verifier::spinoff_prover]
pub proof fn law_caches(name: Seq<char>, m: Model, n: usize)
    ensures
        name == "c9"@ || name == "moka"@ || name == "mini_moka"@ ==> obstacle(name, m) is None,
        name == "c14s"@ || name == "c15s_16"@ || name == "c15s_8"@ || name == "c15s_4"@ || name
            == "c16s"@ || name == "c18s"@ ==> (obstacle(name, m) is None <==> m.shards == 64),
        name == "c17s"@ || name == "r1"@ || name == "r2h"@ ==> (obstacle(name, m) is None
            <==> is_shard_count(m.shards) && 4 <= m.shards <= 131_072),
        name == "c8"@ || name == "c9"@ || name == "c14s"@ || name == "c15s_16"@ || name == "c15s_8"@
            || name == "c15s_4"@ || name == "c16s"@ || name == "c17s"@ || name == "c18s"@ || name
            == "r1"@ || name == "r2h"@ ==> shards_shown(name, n) == n && partitions_shown(name, n)
            == 1,
        name == "moka"@ || name == "mini_moka"@ || name == "partitioned"@ ==> shards_shown(name, n)
            == 0,
        ways_shown(name, n) == n || ways_shown(name, n) == 1,
        1 < n ==> (ways_shown(name, n) == n <==> name == "r1"@ || name == "r2h"@),
        1 < n ==> (partitions_shown(name, n) == n <==> name == "partitioned"@),
{
    lemma_kind_marks();
    if name == "c15s_8"@ || name == "c15s_4"@ {
        reveal_strlit("c15s_8");
        reveal_strlit("c15s_4");
        assert("c15s_8"@[5] == '8' && "c15s_4"@[5] == '4');
    }
    if name == "c8"@ || name == "c9"@ {
        reveal_strlit("c8");
        reveal_strlit("c9");
        assert("c8"@[1] == '8' && "c9"@[1] == '9');
    }
}

/// A command line that cannot be read is refused for that reason, and one that asks for help
/// asks for nothing else. Of any other the settings are those that its flags make of the
/// defaults, where a run can be made with them.
pub proof fn law_asked(argv: Seq<Seq<char>>)
    ensures
        parsed::<Args>(argv, 0, defaults()) matches Err(e) ==> asked(argv) == Err::<
            Option<Model>,
            ConcError,
        >(ConcError::Line(e)),
        parsed::<Args>(argv, 0, defaults()) == Ok::<Option<Model>, ArgError>(None) <==> asked(argv)
            == Ok::<Option<Model>, ConcError>(None),
        asked(argv) matches Ok(Some(r)) ==> exists|m: Model| #[trigger]
            checked(m) == Ok::<Model, ConcError>(r) && parsed::<Args>(argv, 0, defaults()) == Ok::<
                Option<Model>,
                ArgError,
            >(Some(m)),
        parsed::<Args>(argv, 0, defaults()) matches Ok(Some(m)) ==> (asked(argv) is Ok <==> checked(
            m,
        ) is Ok),
{
    if let Ok(Some(m)) = parsed::<Args>(argv, 0, defaults()) {
        if let Ok(r) = checked(m) {
            assert(checked(m) == Ok::<Model, ConcError>(r));
        }
    }
}

/// A setting whose flag a command line does not name has its default.
#[verifier::spinoff_prover]
#[verifier::rlimit(60)]
pub proof fn law_defaults(argv: Seq<Seq<char>>)
    ensures
        parsed::<Args>(argv, 0, defaults()) matches Ok(Some(r)) ==> {
            &&& !names(argv, 0, "--cap"@) ==> r.cap == 4096
            &&& !names(argv, 0, "--threads"@) ==> r.threads == 4
            &&& !names(argv, 0, "--ops"@) ==> r.ops == 4_000_000
            &&& !names(argv, 0, "--warmup"@) ==> r.warmup == 200_000
            &&& !names(argv, 0, "--trials"@) ==> r.trials == 1
            &&& !names(argv, 0, "--shards"@) ==> r.shards == 8
            &&& !names(argv, 0, "--ways"@) ==> r.ways == 1
            &&& !names(argv, 0, "--partitions"@) ==> r.partitions == 1
            &&& !names(argv, 0, "--keys"@) ==> r.keys == 100_000
            &&& !names(argv, 0, "--seed"@) ==> r.seed == 42
            &&& !names(argv, 0, "--skew"@) ==> r.skew == None::<Seq<char>>
            &&& !names(argv, 0, "--op-mix"@) ==> r.op_mix == OpMix::Gim
            &&& !names(argv, 0, "--value"@) ==> r.value_kind == ValueKind::U64
        },
{
    lemma_flag_marks();
    if !names(argv, 0, "--cap"@) {
        lemma_one_flag::<Args, usize>(argv, 0, defaults(), |m: Model| m.cap, "--cap"@);
    }
    if !names(argv, 0, "--threads"@) {
        lemma_one_flag::<Args, usize>(argv, 0, defaults(), |m: Model| m.threads, "--threads"@);
    }
    if !names(argv, 0, "--ops"@) {
        lemma_one_flag::<Args, usize>(argv, 0, defaults(), |m: Model| m.ops, "--ops"@);
    }
    if !names(argv, 0, "--warmup"@) {
        lemma_one_flag::<Args, usize>(argv, 0, defaults(), |m: Model| m.warmup, "--warmup"@);
    }
    if !names(argv, 0, "--trials"@) {
        lemma_one_flag::<Args, usize>(argv, 0, defaults(), |m: Model| m.trials, "--trials"@);
    }
    if !names(argv, 0, "--shards"@) {
        lemma_one_flag::<Args, usize>(argv, 0, defaults(), |m: Model| m.shards, "--shards"@);
    }
    if !names(argv, 0, "--ways"@) {
        lemma_one_flag::<Args, usize>(argv, 0, defaults(), |m: Model| m.ways, "--ways"@);
    }
    if !names(argv, 0, "--partitions"@) {
        lemma_one_flag::<Args, usize>(argv, 0, defaults(), |m: Model| m.partitions, "--partitions"@);
    }
    if !names(argv, 0, "--keys"@) {
        lemma_one_flag::<Args, u64>(argv, 0, defaults(), |m: Model| m.keys, "--keys"@);
    }
    if !names(argv, 0, "--seed"@) {
        lemma_one_flag::<Args, u64>(argv, 0, defaults(), |m: Model| m.seed, "--seed"@);
    }
    if !names(argv, 0, "--skew"@) {
        lemma_one_flag::<Args, Option<Seq<char>>>(argv, 0, defaults(), |m: Model| m.skew, "--skew"@);
    }
    if !names(argv, 0, "--op-mix"@) {
        lemma_one_flag::<Args, OpMix>(argv, 0, defaults(), |m: Model| m.op_mix, "--op-mix"@);
    }
    if !names(argv, 0, "--value"@) {
        lemma_one_flag::<Args, ValueKind>(argv, 0, defaults(), |m: Model| m.value_kind, "--value"@);
    }
}

proof fn lemma_number_taken(argv: Seq<Seq<char>>, i: int, m: Model, at: int)
    requires
        0 <= i <= at,
        at + 1 < argv.len(),
        (at - i) % 2 == 0,
        parsed::<Args>(argv, i, m) matches Ok(Some(_)),
    ensures
        exists|x: Model| (#[trigger] <Args as Settings>::with(x, argv[at], argv[at + 1])) is Ok,
    decreases at - i,
{
    if i < at {
        lemma_number_taken(
            argv,
            i + 2,
            <Args as Settings>::with(m, argv[i], argv[i + 1])->Ok_0,
            at,
        );
    } else {
        assert(<Args as Settings>::with(m, argv[at], argv[at + 1]) is Ok);
    }
}

/// Of a number that a command line gives more than once the last counts.
#[verifier::spinoff_prover]
#[verifier::rlimit(60)]
pub proof fn law_last_number_counts(argv: Seq<Seq<char>>, at: int)
    requires
        0 <= at,
        at + 1 < argv.len(),
        at % 2 == 0,
    ensures
        parsed::<Args>(argv, 0, defaults()) matches Ok(Some(r)) ==> {
            &&& argv[at] == "--cap"@ && !names(argv, at + 2, "--cap"@) ==> number(argv[at + 1], usize::MAX as nat) == Some(r.cap as nat)
            &&& argv[at] == "--threads"@ && !names(argv, at + 2, "--threads"@) ==> number(argv[at + 1], usize::MAX as nat) == Some(r.threads as nat)
            &&& argv[at] == "--ops"@ && !names(argv, at + 2, "--ops"@) ==> number(argv[at + 1], usize::MAX as nat) == Some(r.ops as nat)
            &&& argv[at] == "--warmup"@ && !names(argv, at + 2, "--warmup"@) ==> number(argv[at + 1], usize::MAX as nat) == Some(r.warmup as nat)
            &&& argv[at] == "--trials"@ && !names(argv, at + 2, "--trials"@) ==> number(argv[at + 1], usize::MAX as nat) == Some(r.trials as nat)
            &&& argv[at] == "--shards"@ && !names(argv, at + 2, "--shards"@) ==> number(argv[at + 1], usize::MAX as nat) == Some(r.shards as nat)
            &&& argv[at] == "--ways"@ && !names(argv, at + 2, "--ways"@) ==> number(argv[at + 1], usize::MAX as nat) == Some(r.ways as nat)
            &&& argv[at] == "--partitions"@ && !names(argv, at + 2, "--partitions"@) ==> number(argv[at + 1], usize::MAX as nat) == Some(r.partitions as nat)
            &&& argv[at] == "--keys"@ && !names(argv, at + 2, "--keys"@) ==> number(argv[at + 1], u64::MAX as nat) == Some(r.keys as nat)
            &&& argv[at] == "--seed"@ && !names(argv, at + 2, "--seed"@) ==> number(argv[at + 1], u64::MAX as nat) == Some(r.seed as nat)
        },
{
    lemma_flag_marks();
    if parsed::<Args>(argv, 0, defaults()) matches Ok(Some(_)) {
        if argv[at] == "--cap"@ && !names(argv, at + 2, "--cap"@) {
            lemma_last_flag::<Args, nat>(
                argv,
                0,
                defaults(),
                |m: Model| m.cap as nat,
                "--cap"@,
                at,
                number(argv[at + 1], usize::MAX as nat)->0,
            );
            lemma_number_taken(argv, 0, defaults(), at);
        }
        if argv[at] == "--threads"@ && !names(argv, at + 2, "--threads"@) {
            lemma_last_flag::<Args, nat>(
                argv,
                0,
                defaults(),
                |m: Model| m.threads as nat,
                "--threads"@,
                at,
                number(argv[at + 1], usize::MAX as nat)->0,
            );
            lemma_number_taken(argv, 0, defaults(), at);
        }
        if argv[at] == "--ops"@ && !names(argv, at + 2, "--ops"@) {
            lemma_last_flag::<Args, nat>(
                argv,
                0,
                defaults(),
                |m: Model| m.ops as nat,
                "--ops"@,
                at,
                number(argv[at + 1], usize::MAX as nat)->0,
            );
            lemma_number_taken(argv, 0, defaults(), at);
        }
        if argv[at] == "--warmup"@ && !names(argv, at + 2, "--warmup"@) {
            lemma_last_flag::<Args, nat>(
                argv,
                0,
                defaults(),
                |m: Model| m.warmup as nat,
                "--warmup"@,
                at,
                number(argv[at + 1], usize::MAX as nat)->0,
            );
            lemma_number_taken(argv, 0, defaults(), at);
        }
        if argv[at] == "--trials"@ && !names(argv, at + 2, "--trials"@) {
            lemma_last_flag::<Args, nat>(
                argv,
                0,
                defaults(),
                |m: Model| m.trials as nat,
                "--trials"@,
                at,
                number(argv[at + 1], usize::MAX as nat)->0,
            );
            lemma_number_taken(argv, 0, defaults(), at);
        }
        if argv[at] == "--shards"@ && !names(argv, at + 2, "--shards"@) {
            lemma_last_flag::<Args, nat>(
                argv,
                0,
                defaults(),
                |m: Model| m.shards as nat,
                "--shards"@,
                at,
                number(argv[at + 1], usize::MAX as nat)->0,
            );
            lemma_number_taken(argv, 0, defaults(), at);
        }
        if argv[at] == "--ways"@ && !names(argv, at + 2, "--ways"@) {
            lemma_last_flag::<Args, nat>(
                argv,
                0,
                defaults(),
                |m: Model| m.ways as nat,
                "--ways"@,
                at,
                number(argv[at + 1], usize::MAX as nat)->0,
            );
            lemma_number_taken(argv, 0, defaults(), at);
        }
        if argv[at] == "--partitions"@ && !names(argv, at + 2, "--partitions"@) {
            lemma_last_flag::<Args, nat>(
                argv,
                0,
                defaults(),
                |m: Model| m.partitions as nat,
                "--partitions"@,
                at,
                number(argv[at + 1], usize::MAX as nat)->0,
            );
            lemma_number_taken(argv, 0, defaults(), at);
        }
        if argv[at] == "--keys"@ && !names(argv, at + 2, "--keys"@) {
            lemma_last_flag::<Args, nat>(
                argv,
                0,
                defaults(),
                |m: Model| m.keys as nat,
                "--keys"@,
                at,
                number(argv[at + 1], u64::MAX as nat)->0,
            );
            lemma_number_taken(argv, 0, defaults(), at);
        }
        if argv[at] == "--seed"@ && !names(argv, at + 2, "--seed"@) {
            lemma_last_flag::<Args, nat>(
                argv,
                0,
                defaults(),
                |m: Model| m.seed as nat,
                "--seed"@,
                at,
                number(argv[at + 1], u64::MAX as nat)->0,
            );
            lemma_number_taken(argv, 0, defaults(), at);
        }
    }
}

} // verus!
