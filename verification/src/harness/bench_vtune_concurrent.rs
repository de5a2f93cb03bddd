//! The concurrent profiling benchmark: several threads at one cache, with a
//! warm-up that is not observed.

use vstd::prelude::*;

use crate::harness::args::{
    float_in, float_of, lemma_last_flag, lemma_one_flag, names, opt_text, parse, parsed, taken, u64_in, u64_of, usize_in, usize_of, ArgError,
    SetError, Settings,
};
use crate::harness::bench_concurrent::power_of_two;
use crate::sharded::{is_shard_count, share};
use crate::tag::MAX_PER_SHARD;
use crate::harness::value::{digits, law_digits_round_trip};
use crate::text::{is_float, number, same, strings};

verus! {

/// The caches that are profiled.
#[derive(Clone, Copy, Debug, PartialEq, Eq, Structural)]
pub enum Variant {
    C8,
    C9,
    C14s,
    C16s,
}

impl Variant {
    pub open spec fn name(self) -> Seq<char> {
        match self {
            Variant::C8 => "c8"@,
            Variant::C9 => "c9"@,
            Variant::C14s => "c14s"@,
            Variant::C16s => "c16s"@,
        }
    }

    pub fn as_str(self) -> (s: &'static str)
        ensures
            s@ == self.name(),
    {
        match self {
            Variant::C8 => "c8",
            Variant::C9 => "c9",
            Variant::C14s => "c14s",
            Variant::C16s => "c16s",
        }
    }
}

/// The variant that a text names.
pub open spec fn variant_in(value: Seq<char>) -> Result<Variant, SetError> {
    if value == "c8"@ {
        Ok(Variant::C8)
    } else if value == "c9"@ {
        Ok(Variant::C9)
    } else if value == "c14s"@ {
        Ok(Variant::C14s)
    } else if value == "c16s"@ {
        Ok(Variant::C16s)
    } else {
        Err(SetError::BadValue)
    }
}

impl Variant {
    /// The variant that `s` names.
    pub fn parse(s: &str) -> (r: Option<Variant>)
        ensures
            match r {
                Some(v) => variant_in(s@) == Ok::<Variant, SetError>(v),
                None => variant_in(s@) == Err::<Variant, SetError>(SetError::BadValue),
            },
    {
        if same(s, "c8") {
            Some(Variant::C8)
        } else if same(s, "c9") {
            Some(Variant::C9)
        } else if same(s, "c14s") {
            Some(Variant::C14s)
        } else if same(s, "c16s") {
            Some(Variant::C16s)
        } else {
            None
        }
    }
}

fn variant_of(value: &str) -> (r: Result<Variant, SetError>)
    ensures
        r == variant_in(value@),
{
    match Variant::parse(value) {
        Some(v) => Ok(v),
        None => Err(SetError::BadValue),
    }
}

/// The name of a value is read back as that value.
pub proof fn law_variant_round_trip(v: Variant)
    ensures
        variant_in(v.name()) == Ok::<Variant, SetError>(v),
{
    reveal_strlit("c8");
    reveal_strlit("c9");
    reveal_strlit("c14s");
    reveal_strlit("c16s");
    assert("c8"@[1] != "c9"@[1]);
    assert("c8"@.len() != "c14s"@.len());
    assert("c9"@.len() != "c14s"@.len());
    assert("c8"@.len() != "c16s"@.len());
    assert("c9"@.len() != "c16s"@.len());
    assert("c14s"@[2] != "c16s"@[2]);
}

/// The settings of a run.
pub struct Args {
    pub variant: Variant,
    pub threads: usize,
    pub cap: usize,
    pub keys: u64,
    /// The text of the skew, a floating-point number.
    pub skew: Option<String>,
    pub warmup: usize,
    pub ops: usize,
    pub seed: u64,
    pub shards: usize,
}

/// What the settings say.
#[verifier::ext_equal]
pub struct Model {
    pub variant: Variant,
    pub threads: usize,
    pub cap: usize,
    pub keys: u64,
    pub skew: Option<Seq<char>>,
    pub warmup: usize,
    pub ops: usize,
    pub seed: u64,
    pub shards: usize,
}

/// What holds where no flag is given.
pub open spec fn defaults() -> Model {
    Model {
        variant: Variant::C14s,
            threads: 4,
            cap: 4096,
            keys: 100_000,
            skew: None,
            warmup: 400_000,
            ops: 8_000_000,
            seed: 42,
            shards: 64,
    }
}

/// The flags that take a size.
pub open spec fn takes_size(flag: Seq<char>) -> bool {
    ||| flag == "--threads"@
    ||| flag == "--cap"@
    ||| flag == "--warmup"@
    ||| flag == "--ops"@
    ||| flag == "--shards"@
}

/// The settings `m` after such a flag with the number `n`.
pub open spec fn put_size(m: Model, flag: Seq<char>, n: usize) -> Model {
    if flag == "--threads"@ {
        Model { threads: n, ..m }
    } else if flag == "--cap"@ {
        Model { cap: n, ..m }
    } else if flag == "--warmup"@ {
        Model { warmup: n, ..m }
    } else if flag == "--ops"@ {
        Model { ops: n, ..m }
    } else {
        Model { shards: n, ..m }
    }
}

pub open spec fn with_size(m: Model, flag: Seq<char>, value: Seq<char>) -> Result<Model, SetError> {
    taken(usize_in(value), |n: usize| put_size(m, flag, n))
}

fn is_size_flag(flag: &str) -> (r: bool)
    ensures
        r == takes_size(flag@),
{
    same(flag, "--threads")
        || same(flag, "--cap")
        || same(flag, "--warmup")
        || same(flag, "--ops")
        || same(flag, "--shards")
}

/// The flags that take a 64-bit number.
pub open spec fn takes_long(flag: Seq<char>) -> bool {
    ||| flag == "--keys"@
    ||| flag == "--seed"@
}

/// The settings `m` after such a flag with the number `n`.
pub open spec fn put_long(m: Model, flag: Seq<char>, n: u64) -> Model {
    if flag == "--keys"@ {
        Model { keys: n, ..m }
    } else {
        Model { seed: n, ..m }
    }
}

pub open spec fn with_long(m: Model, flag: Seq<char>, value: Seq<char>) -> Result<Model, SetError> {
    taken(u64_in(value), |n: u64| put_long(m, flag, n))
}

fn is_long_flag(flag: &str) -> (r: bool)
    ensures
        r == takes_long(flag@),
{
    same(flag, "--keys")
        || same(flag, "--seed")
}

/// The flags that say which cache is profiled with which keys.
pub open spec fn takes_load(flag: Seq<char>) -> bool {
    ||| flag == "--variant"@
    ||| flag == "--skew"@
}

pub open spec fn with_load(m: Model, flag: Seq<char>, value: Seq<char>) -> Result<Model, SetError> {
    if flag == "--variant"@ {
        taken(variant_in(value), |v: Variant| Model { variant: v, ..m })
    } else if flag == "--skew"@ {
        taken(float_in(value), |t: Seq<char>| Model { skew: Some(t), ..m })
    } else {
        Err(SetError::BadValue)
    }
}

fn is_load_flag(flag: &str) -> (r: bool)
    ensures
        r == takes_load(flag@),
{
    same(flag, "--variant")
        || same(flag, "--skew")
}

impl Args {
    #[verifier::spinoff_prover]
    fn put_size(&mut self, flag: &str, n: usize)
        requires
            takes_size(flag@),
        ensures
            final(self).model() == put_size(old(self).model(), flag@, n),
    {
        if same(flag, "--threads") {
            self.threads = n;
        } else if same(flag, "--cap") {
            self.cap = n;
        } else if same(flag, "--warmup") {
            self.warmup = n;
        } else if same(flag, "--ops") {
            self.ops = n;
        } else {
            self.shards = n;
        }
    }

    fn set_size(&mut self, flag: &str, value: &str) -> (r: Result<(), SetError>)
        requires
            takes_size(flag@),
        ensures
            match r {
                Ok(_) => with_size(old(self).model(), flag@, value@) == Ok::<Model, SetError>(
                    final(self).model(),
                ),
                Err(e) => with_size(old(self).model(), flag@, value@) == Err::<Model, SetError>(e),
            },
    {
        match usize_of(value) {
            Ok(n) => {
                self.put_size(flag, n);
                Ok(())
            },
            Err(e) => Err(e),
        }
    }

    #[verifier::spinoff_prover]
    fn put_long(&mut self, flag: &str, n: u64)
        requires
            takes_long(flag@),
        ensures
            final(self).model() == put_long(old(self).model(), flag@, n),
    {
        if same(flag, "--keys") {
            self.keys = n;
        } else {
            self.seed = n;
        }
    }

    fn set_long(&mut self, flag: &str, value: &str) -> (r: Result<(), SetError>)
        requires
            takes_long(flag@),
        ensures
            match r {
                Ok(_) => with_long(old(self).model(), flag@, value@) == Ok::<Model, SetError>(
                    final(self).model(),
                ),
                Err(e) => with_long(old(self).model(), flag@, value@) == Err::<Model, SetError>(e),
            },
    {
        match u64_of(value) {
            Ok(n) => {
                self.put_long(flag, n);
                Ok(())
            },
            Err(e) => Err(e),
        }
    }

    #[verifier::spinoff_prover]
    fn set_load(&mut self, flag: &str, value: &str) -> (r: Result<(), SetError>)
        ensures
            match r {
                Ok(_) => with_load(old(self).model(), flag@, value@) == Ok::<Model, SetError>(
                    final(self).model(),
                ),
                Err(e) => with_load(old(self).model(), flag@, value@) == Err::<Model, SetError>(e),
            },
    {
        if same(flag, "--variant") {
            match variant_of(value) {
                Ok(v) => {
                    self.variant = v;
                    Ok(())
                },
                Err(e) => Err(e),
            }
        } else if same(flag, "--skew") {
            match float_of(value) {
                Ok(t) => {
                    self.skew = Some(t);
                    Ok(())
                },
                Err(e) => Err(e),
            }
        } else {
            Err(SetError::BadValue)
        }
    }
}

impl Settings for Args {
    type M = Model;

    open spec fn model(self) -> Model {
        Model {
        variant: self.variant,
            threads: self.threads,
            cap: self.cap,
            keys: self.keys,
            skew: opt_text(self.skew),
            warmup: self.warmup,
            ops: self.ops,
            seed: self.seed,
            shards: self.shards,
        }
    }

    open spec fn takes(flag: Seq<char>) -> bool {
        ||| takes_size(flag)
        ||| takes_long(flag)
        ||| takes_load(flag)
    }

    open spec fn with(m: Model, flag: Seq<char>, value: Seq<char>) -> Result<Model, SetError> {
        if takes_size(flag) {
            with_size(m, flag, value)
        } else if takes_long(flag) {
            with_long(m, flag, value)
        } else {
            with_load(m, flag, value)
        }
    }

    fn is_flag(flag: &str) -> (r: bool) {
        is_size_flag(flag)
            || is_long_flag(flag)
            || is_load_flag(flag)
    }

    fn set(&mut self, flag: &str, value: &str) -> (r: Result<(), SetError>) {
        if is_size_flag(flag) {
            self.set_size(flag, value)
        } else if is_long_flag(flag) {
            self.set_long(flag, value)
        } else {
            self.set_load(flag, value)
        }
    }
}

/// Why no benchmark can be run.
#[derive(Clone, Copy, Debug, PartialEq, Eq, Structural)]
pub enum VtuneError {
    Line(ArgError),
    /// The number of threads is no power of two.
    Threads,
    /// There is no room for an item.
    Cap,
    /// There is no key.
    Keys,
    /// There is no operation.
    Ops,
    /// The threads do not divide the operations evenly.
    OpsShare,
    /// The threads do not divide the operations of the warm-up evenly.
    WarmupShare,
    /// The number of shards is no power of two from 8 to 512.
    Shards,
    /// The cache is built for 64 shards alone.
    FixedShards,
    /// There is more than 64 items' room for each shard.
    PerShard,
}

/// The settings, where a benchmark can be run with them.
pub open spec fn checked(m: Model) -> Result<Model, VtuneError> {
    if !is_shard_count(m.threads) {
        Err(VtuneError::Threads)
    } else if m.cap == 0 {
        Err(VtuneError::Cap)
    } else if m.keys == 0 {
        Err(VtuneError::Keys)
    } else if m.ops == 0 {
        Err(VtuneError::Ops)
    } else if m.ops % m.threads != 0 {
        Err(VtuneError::OpsShare)
    } else if m.warmup % m.threads != 0 {
        Err(VtuneError::WarmupShare)
    } else if !(is_shard_count(m.shards) && 8 <= m.shards <= 512) {
        Err(VtuneError::Shards)
    } else if (m.variant is C14s || m.variant is C16s) && m.shards != 64 {
        Err(VtuneError::FixedShards)
    } else if m.cap > 64 * m.shards {
        Err(VtuneError::PerShard)
    } else {
        Ok(m)
    }
}

/// What a command line asks for; `None` where that is help.
pub open spec fn asked(argv: Seq<Seq<char>>) -> Result<Option<Model>, VtuneError> {
    match parsed::<Args>(argv, 0, defaults()) {
        Ok(Some(m)) => match checked(m) {
            Ok(r) => Ok(Some(r)),
            Err(e) => Err(e),
        },
        Ok(None) => Ok(None),
        Err(e) => Err(VtuneError::Line(e)),
    }
}

/// Reads the command line.
pub fn parse_args(argv: &Vec<String>) -> (r: Result<Option<Args>, VtuneError>)
    ensures
        match r {
            Ok(Some(a)) => asked(strings(argv@)) == Ok::<Option<Model>, VtuneError>(Some(a.model())),
            Ok(None) => asked(strings(argv@)) == Ok::<Option<Model>, VtuneError>(None),
            Err(e) => asked(strings(argv@)) == Err::<Option<Model>, VtuneError>(e),
        },
{
    let start = Args {
        variant: Variant::C14s,
        threads: 4,
        cap: 4096,
        keys: 100_000,
        skew: None,
        warmup: 400_000,
        ops: 8_000_000,
        seed: 42,
        shards: 64,
    };
    assert(start.model() =~= defaults());
    match parse(argv, start) {
        Ok(Some(a)) => match a.check() {
            Some(e) => Err(e),
            None => Ok(Some(a)),
        },
        Ok(None) => Ok(None),
        Err(e) => Err(VtuneError::Line(e)),
    }
}

impl Args {
    fn check(&self) -> (r: Option<VtuneError>)
        ensures
            match r {
                Some(e) => checked(self.model()) == Err::<Model, VtuneError>(e),
                None => checked(self.model()) == Ok::<Model, VtuneError>(self.model()),
            },
    {
        let fixed = match self.variant {
            Variant::C14s => true,
            Variant::C16s => true,
            _ => false,
        };
        if !power_of_two(self.threads) {
            Some(VtuneError::Threads)
        } else if self.cap == 0 {
            Some(VtuneError::Cap)
        } else if self.keys == 0 {
            Some(VtuneError::Keys)
        } else if self.ops == 0 {
            Some(VtuneError::Ops)
        } else if self.ops % self.threads != 0 {
            Some(VtuneError::OpsShare)
        } else if self.warmup % self.threads != 0 {
            Some(VtuneError::WarmupShare)
        } else if !(power_of_two(self.shards) && 8 <= self.shards && self.shards <= 512) {
            Some(VtuneError::Shards)
        } else if fixed && self.shards != 64 {
            Some(VtuneError::FixedShards)
        } else if self.cap > 64 * self.shards {
            Some(VtuneError::PerShard)
        } else {
            None
        }
    }
}

/// What tells the seeds of the measured keys from those of the warm-up.
pub const MEASURE_SEED: u64 = 0xDEAD_BEEF_DEAD_BEEF;

/// The seed of the keys that thread `tid` measures.
pub fn measure_seed(seed: u64, tid: u64) -> (s: u64)
    ensures
        s == (seed ^ MEASURE_SEED) ^ tid,
{
    (seed ^ MEASURE_SEED) ^ tid
}

/// The threads measure with different seeds, and none with that of its warm-up.
pub proof fn law_measure_seeds_differ(seed: u64, a: u64, b: u64)
    ensures
        a != b ==> (seed ^ MEASURE_SEED) ^ a != (seed ^ MEASURE_SEED) ^ b,
        (seed ^ MEASURE_SEED) ^ a != seed ^ a,
{
    assert(a != b ==> (seed ^ 0xDEAD_BEEF_DEAD_BEEFu64) ^ a != (seed ^ 0xDEAD_BEEF_DEAD_BEEFu64) ^ b)
        by (bit_vector);
    assert((seed ^ 0xDEAD_BEEF_DEAD_BEEFu64) ^ a != seed ^ a) by (bit_vector);
}

/// Settings that were accepted leave no shard with more than 64 items.
pub proof fn law_accepted_capacity(m: Model)
    requires
        checked(m) is Ok,
    ensures
        share(m.cap as int, m.shards as int, 0) <= MAX_PER_SHARD,
{
    let c = m.cap as int;
    let s = m.shards as int;
    assert(c / s + (if 0 < c % s {
        1int
    } else {
        0
    }) <= 64) by (nonlinear_arith)
        requires
            0 < s,
            0 < c <= 64 * s,
    ;
}

impl Args {
    /// Each setting is what the field of its name holds.
    pub proof fn law_fields(self)
        ensures
            self.model().variant == self.variant,
            self.model().threads == self.threads,
            self.model().cap == self.cap,
            self.model().keys == self.keys,
            self.skew is None <==> self.model().skew is None,
            self.skew matches Some(t) ==> self.model().skew == Some(t@),
            self.model().warmup == self.warmup,
            self.model().ops == self.ops,
            self.model().seed == self.seed,
            self.model().shards == self.shards,
    {
    }
}

/// What tells two flags apart.
spec fn flag_mark(f: Seq<char>) -> (nat, char, char) {
    (f.len(), f[2], f[3])
}

#[verifier::spinoff_prover]
proof fn lemma_flag_marks()
    ensures
        flag_mark("--threads"@) == (9nat, 't', 'h'),
        flag_mark("--cap"@) == (5nat, 'c', 'a'),
        flag_mark("--warmup"@) == (8nat, 'w', 'a'),
        flag_mark("--ops"@) == (5nat, 'o', 'p'),
        flag_mark("--shards"@) == (8nat, 's', 'h'),
        flag_mark("--keys"@) == (6nat, 'k', 'e'),
        flag_mark("--seed"@) == (6nat, 's', 'e'),
        flag_mark("--skew"@) == (6nat, 's', 'k'),
        flag_mark("--variant"@) == (9nat, 'v', 'a'),
{
    reveal_strlit("--threads");
    reveal_strlit("--cap");
    reveal_strlit("--warmup");
    reveal_strlit("--ops");
    reveal_strlit("--shards");
    reveal_strlit("--keys");
    reveal_strlit("--seed");
    reveal_strlit("--skew");
    reveal_strlit("--variant");
}

/// Each flag that takes a size sets what it names to the number that is written, and nothing
/// else; what is no number is refused.
#[verifier::spinoff_prover]
pub proof fn law_size_flags(m: Model, n: usize, v: Seq<char>)
    ensures
        <Args as Settings>::with(m, "--threads"@, digits(n as nat)) == Ok::<Model, SetError>(Model { threads: n, ..m }),
        <Args as Settings>::with(m, "--cap"@, digits(n as nat)) == Ok::<Model, SetError>(Model { cap: n, ..m }),
        <Args as Settings>::with(m, "--warmup"@, digits(n as nat)) == Ok::<Model, SetError>(Model { warmup: n, ..m }),
        <Args as Settings>::with(m, "--ops"@, digits(n as nat)) == Ok::<Model, SetError>(Model { ops: n, ..m }),
        <Args as Settings>::with(m, "--shards"@, digits(n as nat)) == Ok::<Model, SetError>(Model { shards: n, ..m }),
        number(v, usize::MAX as nat) is None ==> <Args as Settings>::with(m, "--threads"@, v) == Err::<Model, SetError>(SetError::BadValue),
        number(v, usize::MAX as nat) is None ==> <Args as Settings>::with(m, "--cap"@, v) == Err::<Model, SetError>(SetError::BadValue),
        number(v, usize::MAX as nat) is None ==> <Args as Settings>::with(m, "--warmup"@, v) == Err::<Model, SetError>(SetError::BadValue),
        number(v, usize::MAX as nat) is None ==> <Args as Settings>::with(m, "--ops"@, v) == Err::<Model, SetError>(SetError::BadValue),
        number(v, usize::MAX as nat) is None ==> <Args as Settings>::with(m, "--shards"@, v) == Err::<Model, SetError>(SetError::BadValue),
{
    lemma_flag_marks();
    law_digits_round_trip(n as nat, usize::MAX as nat);
}

/// The flags that take a 64-bit number do the same with it.
#[verifier::spinoff_prover]
pub proof fn law_long_flags(m: Model, n: u64, v: Seq<char>)
    ensures
        <Args as Settings>::with(m, "--keys"@, digits(n as nat)) == Ok::<Model, SetError>(Model { keys: n, ..m }),
        number(v, u64::MAX as nat) is None ==> <Args as Settings>::with(m, "--keys"@, v) == Err::<Model, SetError>(SetError::BadValue),
        <Args as Settings>::with(m, "--seed"@, digits(n as nat)) == Ok::<Model, SetError>(Model { seed: n, ..m }),
        number(v, u64::MAX as nat) is None ==> <Args as Settings>::with(m, "--seed"@, v) == Err::<Model, SetError>(SetError::BadValue),
{
    lemma_flag_marks();
    law_digits_round_trip(n as nat, u64::MAX as nat);
}

/// The other flags set what they name to the text, the list or the choice that is written.
#[verifier::spinoff_prover]
pub proof fn law_text_flags(m: Model, t: Seq<char>)
    ensures
        is_float(t) ==> <Args as Settings>::with(m, "--skew"@, t) == Ok::<Model, SetError>(Model { skew: Some(t), ..m }),
        !is_float(t) ==> <Args as Settings>::with(m, "--skew"@, t) == Err::<Model, SetError>(SetError::BadValue),
        <Args as Settings>::with(m, "--variant"@, "c8"@) == Ok::<Model, SetError>(Model { variant: Variant::C8, ..m }),
        <Args as Settings>::with(m, "--variant"@, "c9"@) == Ok::<Model, SetError>(Model { variant: Variant::C9, ..m }),
        <Args as Settings>::with(m, "--variant"@, "c14s"@) == Ok::<Model, SetError>(Model { variant: Variant::C14s, ..m }),
        <Args as Settings>::with(m, "--variant"@, "c16s"@) == Ok::<Model, SetError>(Model { variant: Variant::C16s, ..m }),
        t != "c8"@ && t != "c9"@ && t != "c14s"@ && t != "c16s"@ ==> <Args as Settings>::with(m, "--variant"@, t) == Err::<Model, SetError>(SetError::BadValue),
{
    lemma_flag_marks();
    reveal_strlit("c8");
    reveal_strlit("c9");
    reveal_strlit("c14s");
    reveal_strlit("c16s");
    assert("c8"@[1] != "c9"@[1]);
    assert("c8"@.len() != "c14s"@.len());
    assert("c8"@.len() != "c16s"@.len());
    assert("c9"@.len() != "c14s"@.len());
    assert("c9"@.len() != "c16s"@.len());
    assert("c14s"@[2] != "c16s"@[2]);
}

/// There are these flags and no others.
#[verifier::spinoff_prover]
pub proof fn law_known_flags(flag: Seq<char>)
    ensures
        <Args as Settings>::takes(flag) <==> flag == "--threads"@
            || flag == "--cap"@
            || flag == "--warmup"@
            || flag == "--ops"@
            || flag == "--shards"@
            || flag == "--keys"@
            || flag == "--seed"@
            || flag == "--skew"@
            || flag == "--variant"@,
{
}

/// A run needs a power of two of threads that share the operations and the warm-up evenly, and
/// shards that can hold the capacity. Such settings are taken as they are.
pub proof fn law_checked(m: Model)
    ensures
        checked(m) is Ok <==> {
            &&& is_shard_count(m.threads)
            &&& m.cap > 0 && m.keys > 0 && m.ops > 0
            &&& m.ops % m.threads == 0 && m.warmup % m.threads == 0
            &&& is_shard_count(m.shards) && 8 <= m.shards <= 512
            &&& m.variant is C14s || m.variant is C16s ==> m.shards == 64
            &&& m.cap <= 64 * m.shards
        },
        checked(m) matches Ok(r) ==> r == m,
        checked(m) matches Err(VtuneError::Threads) <==> !is_shard_count(m.threads),
        checked(m) matches Err(VtuneError::Cap) ==> m.cap == 0,
        checked(m) matches Err(VtuneError::Keys) ==> m.keys == 0,
        checked(m) matches Err(VtuneError::Ops) ==> m.ops == 0,
        checked(m) matches Err(VtuneError::OpsShare) ==> m.ops % m.threads != 0,
        checked(m) matches Err(VtuneError::WarmupShare) ==> m.warmup % m.threads != 0,
        checked(m) matches Err(VtuneError::Shards) ==> !is_shard_count(m.shards) || m.shards < 8
            || m.shards > 512,
        checked(m) matches Err(VtuneError::FixedShards) ==> m.shards != 64,
        checked(m) matches Err(VtuneError::PerShard) ==> m.cap > 64 * m.shards,
{
}

/// A command line that cannot be read is refused for that reason, and one that asks for help
/// asks for nothing else. Of any other the settings are those that its flags make of the
/// defaults, where a run can be made with them.
pub proof fn law_asked(argv: Seq<Seq<char>>)
    ensures
        parsed::<Args>(argv, 0, defaults()) matches Err(e) ==> asked(argv) == Err::<
            Option<Model>,
            VtuneError,
        >(VtuneError::Line(e)),
        parsed::<Args>(argv, 0, defaults()) == Ok::<Option<Model>, ArgError>(None) <==> asked(argv)
            == Ok::<Option<Model>, VtuneError>(None),
        asked(argv) matches Ok(Some(r)) ==> exists|m: Model| #[trigger]
            checked(m) == Ok::<Model, VtuneError>(r) && parsed::<Args>(argv, 0, defaults()) == Ok::<
                Option<Model>,
                ArgError,
            >(Some(m)),
        parsed::<Args>(argv, 0, defaults()) matches Ok(Some(m)) ==> (asked(argv) is Ok <==> checked(
            m,
        ) is Ok),
{
    if let Ok(Some(m)) = parsed::<Args>(argv, 0, defaults()) {
        if let Ok(r) = checked(m) {
            assert(checked(m) == Ok::<Model, VtuneError>(r));
        }
    }
}

/// A setting whose flag a command line does not name has its default.
#[verifier::spinoff_prover]
#[verifier::rlimit(60)]
pub proof fn law_defaults(argv: Seq<Seq<char>>)
    ensures
        parsed::<Args>(argv, 0, defaults()) matches Ok(Some(r)) ==> {
            &&& !names(argv, 0, "--threads"@) ==> r.threads == 4
            &&& !names(argv, 0, "--cap"@) ==> r.cap == 4096
            &&& !names(argv, 0, "--warmup"@) ==> r.warmup == 400_000
            &&& !names(argv, 0, "--ops"@) ==> r.ops == 8_000_000
            &&& !names(argv, 0, "--shards"@) ==> r.shards == 64
            &&& !names(argv, 0, "--keys"@) ==> r.keys == 100_000
            &&& !names(argv, 0, "--seed"@) ==> r.seed == 42
            &&& !names(argv, 0, "--skew"@) ==> r.skew == None::<Seq<char>>
            &&& !names(argv, 0, "--variant"@) ==> r.variant == Variant::C14s
        },
{
    lemma_flag_marks();
    if !names(argv, 0, "--threads"@) {
        lemma_one_flag::<Args, usize>(argv, 0, defaults(), |m: Model| m.threads, "--threads"@);
    }
    if !names(argv, 0, "--cap"@) {
        lemma_one_flag::<Args, usize>(argv, 0, defaults(), |m: Model| m.cap, "--cap"@);
    }
    if !names(argv, 0, "--warmup"@) {
        lemma_one_flag::<Args, usize>(argv, 0, defaults(), |m: Model| m.warmup, "--warmup"@);
    }
    if !names(argv, 0, "--ops"@) {
        lemma_one_flag::<Args, usize>(argv, 0, defaults(), |m: Model| m.ops, "--ops"@);
    }
    if !names(argv, 0, "--shards"@) {
        lemma_one_flag::<Args, usize>(argv, 0, defaults(), |m: Model| m.shards, "--shards"@);
    }
    if !names(argv, 0, "--keys"@) {
        lemma_one_flag::<Args, u64>(argv, 0, defaults(), |m: Model| m.keys, "--keys"@);
    }
    if !names(argv, 0, "--seed"@) {
        lemma_one_flag::<Args, u64>(argv, 0, defaults(), |m: Model| m.seed, "--seed"@);
    }
    if !names(argv, 0, "--skew"@) {
        lemma_one_flag::<Args, Option<Seq<char>>>(argv, 0, defaults(), |m: Model| m.skew, "--skew"@);
    }
    if !names(argv, 0, "--variant"@) {
        lemma_one_flag::<Args, Variant>(argv, 0, defaults(), |m: Model| m.variant, "--variant"@);
    }
}

proof fn lemma_number_taken(argv: Seq<Seq<char>>, i: int, m: Model, at: int)
    requires
        0 <= i <= at,
        at + 1 < argv.len(),
        (at - i) % 2 == 0,
        parsed::<Args>(argv, i, m) matches Ok(Some(_)),
    ensures
        exists|x: Model| (#[trigger] <Args as Settings>::with(x, argv[at], argv[at + 1])) is Ok,
    decreases at - i,
{
    if i < at {
        lemma_number_taken(
            argv,
            i + 2,
            <Args as Settings>::with(m, argv[i], argv[i + 1])->Ok_0,
            at,
        );
    } else {
        assert(<Args as Settings>::with(m, argv[at], argv[at + 1]) is Ok);
    }
}

/// Of a number that a command line gives more than once the last counts.
#[verifier::spinoff_prover]
#[verifier::rlimit(60)]
pub proof fn law_last_number_counts(argv: Seq<Seq<char>>, at: int)
    requires
        0 <= at,
        at + 1 < argv.len(),
        at % 2 == 0,
    ensures
        parsed::<Args>(argv, 0, defaults()) matches Ok(Some(r)) ==> {
            &&& argv[at] == "--threads"@ && !names(argv, at + 2, "--threads"@) ==> number(argv[at + 1], usize::MAX as nat) == Some(r.threads as nat)
            &&& argv[at] == "--cap"@ && !names(argv, at + 2, "--cap"@) ==> number(argv[at + 1], usize::MAX as nat) == Some(r.cap as nat)
            &&& argv[at] == "--warmup"@ && !names(argv, at + 2, "--warmup"@) ==> number(argv[at + 1], usize::MAX as nat) == Some(r.warmup as nat)
            &&& argv[at] == "--ops"@ && !names(argv, at + 2, "--ops"@) ==> number(argv[at + 1], usize::MAX as nat) == Some(r.ops as nat)
            &&& argv[at] == "--shards"@ && !names(argv, at + 2, "--shards"@) ==> number(argv[at + 1], usize::MAX as nat) == Some(r.shards as nat)
            &&& argv[at] == "--keys"@ && !names(argv, at + 2, "--keys"@) ==> number(argv[at + 1], u64::MAX as nat) == Some(r.keys as nat)
            &&& argv[at] == "--seed"@ && !names(argv, at + 2, "--seed"@) ==> number(argv[at + 1], u64::MAX as nat) == Some(r.seed as nat)
        },
{
    lemma_flag_marks();
    if parsed::<Args>(argv, 0, defaults()) matches Ok(Some(_)) {
        if argv[at] == "--threads"@ && !names(argv, at + 2, "--threads"@) {
            lemma_last_flag::<Args, nat>(
                argv,
                0,
                defaults(),
                |m: Model| m.threads as nat,
                "--threads"@,
                at,
                number(argv[at + 1], usize::MAX as nat)->0,
            );
            lemma_number_taken(argv, 0, defaults(), at);
        }
        if argv[at] == "--cap"@ && !names(argv, at + 2, "--cap"@) {
            lemma_last_flag::<Args, nat>(
                argv,
                0,
                defaults(),
                |m: Model| m.cap as nat,
                "--cap"@,
                at,
                number(argv[at + 1], usize::MAX as nat)->0,
            );
            lemma_number_taken(argv, 0, defaults(), at);
        }
        if argv[at] == "--warmup"@ && !names(argv, at + 2, "--warmup"@) {
            lemma_last_flag::<Args, nat>(
                argv,
                0,
                defaults(),
                |m: Model| m.warmup as nat,
                "--warmup"@,
                at,
                number(argv[at + 1], usize::MAX as nat)->0,
            );
            lemma_number_taken(argv, 0, defaults(), at);
        }
        if argv[at] == "--ops"@ && !names(argv, at + 2, "--ops"@) {
            lemma_last_flag::<Args, nat>(
                argv,
                0,
                defaults(),
                |m: Model| m.ops as nat,
                "--ops"@,
                at,
                number(argv[at + 1], usize::MAX as nat)->0,
            );
            lemma_number_taken(argv, 0, defaults(), at);
        }
        if argv[at] == "--shards"@ && !names(argv, at + 2, "--shards"@) {
            lemma_last_flag::<Args, nat>(
                argv,
                0,
                defaults(),
                |m: Model| m.shards as nat,
                "--shards"@,
                at,
                number(argv[at + 1], usize::MAX as nat)->0,
            );
            lemma_number_taken(argv, 0, defaults(), at);
        }
        if argv[at] == "--keys"@ && !names(argv, at + 2, "--keys"@) {
            lemma_last_flag::<Args, nat>(
                argv,
                0,
                defaults(),
                |m: Model| m.keys as nat,
                "--keys"@,
                at,
                number(argv[at + 1], u64::MAX as nat)->0,
            );
            lemma_number_taken(argv, 0, defaults(), at);
        }
        if argv[at] == "--seed"@ && !names(argv, at + 2, "--seed"@) {
            lemma_last_flag::<Args, nat>(
                argv,
                0,
                defaults(),
                |m: Model| m.seed as nat,
                "--seed"@,
                at,
                number(argv[at + 1], u64::MAX as nat)->0,
            );
            lemma_number_taken(argv, 0, defaults(), at);
        }
    }
}

} // verus!
