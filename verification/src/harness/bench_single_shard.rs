//! The single-shard benchmark: several threads at one shard.

use vstd::prelude::*;

use crate::harness::args::{
    float_in, float_of, lemma_last_flag, lemma_one_flag, names, opt_text, parse, parsed, taken, u64_in, u64_of, usize_in, usize_of, ArgError,
    SetError, Settings,
};
use crate::harness::worker::OpMix;
use crate::single_shard::workload::{span_of, AdversarialHot, UniformDisjoint};
use crate::tag::MAX_PER_SHARD;
use crate::harness::value::{digits, law_digits_round_trip};
use crate::text::{is_float, number, same, strings};

verus! {

/// The key streams that the benchmark offers.
#[derive(Clone, Copy, Debug, PartialEq, Eq, Structural)]
pub enum Workload {
    /// Zipf keys, with a seed of its own for each thread.
    Zipf,
    /// One key for all threads.
    AdversarialHot,
    /// A range of its own for each thread.
    Uniform,
}

impl Workload {
    pub open spec fn name(self) -> Seq<char> {
        match self {
            Workload::Zipf => "zipf"@,
            Workload::AdversarialHot => "adversarial-hot"@,
            Workload::Uniform => "uniform"@,
        }
    }

    pub fn as_str(self) -> (s: &'static str)
        ensures
            s@ == self.name(),
    {
        match self {
            Workload::Zipf => "zipf",
            Workload::AdversarialHot => "adversarial-hot",
            Workload::Uniform => "uniform",
        }
    }
}

/// The workload that a text names.
pub open spec fn workload_in(value: Seq<char>) -> Result<Workload, SetError> {
    if value == "zipf"@ {
        Ok(Workload::Zipf)
    } else if value == "adversarial-hot"@ {
        Ok(Workload::AdversarialHot)
    } else if value == "uniform"@ {
        Ok(Workload::Uniform)
    } else {
        Err(SetError::BadValue)
    }
}

pub fn workload_of(value: &str) -> (r: Result<Workload, SetError>)
    ensures
        r == workload_in(value@),
{
    if same(value, "zipf") {
        Ok(Workload::Zipf)
    } else if same(value, "adversarial-hot") {
        Ok(Workload::AdversarialHot)
    } else if same(value, "uniform") {
        Ok(Workload::Uniform)
    } else {
        Err(SetError::BadValue)
    }
}

/// The name of a value is read back as that value.
pub proof fn law_workload_round_trip(v: Workload)
    ensures
        workload_in(v.name()) == Ok::<Workload, SetError>(v),
{
    reveal_strlit("zipf");
    reveal_strlit("adversarial-hot");
    reveal_strlit("uniform");
    assert("zipf"@.len() != "adversarial-hot"@.len());
    assert("zipf"@.len() != "uniform"@.len());
    assert("adversarial-hot"@.len() != "uniform"@.len());
}

/// The mix that a text names.
pub open spec fn mix_in(value: Seq<char>) -> Result<OpMix, SetError> {
    if value == "read-only"@ {
        Ok(OpMix::ReadOnly)
    } else if value == "read-heavy"@ {
        Ok(OpMix::ReadHeavy)
    } else if value == "gim"@ {
        Ok(OpMix::Gim)
    } else {
        Err(SetError::BadValue)
    }
}

pub fn mix_of(value: &str) -> (r: Result<OpMix, SetError>)
    ensures
        r == mix_in(value@),
{
    if same(value, "read-only") {
        Ok(OpMix::ReadOnly)
    } else if same(value, "read-heavy") {
        Ok(OpMix::ReadHeavy)
    } else if same(value, "gim") {
        Ok(OpMix::Gim)
    } else {
        Err(SetError::BadValue)
    }
}

/// The name of a value is read back as that value.
pub proof fn law_mix_round_trip(v: OpMix)
    ensures
        mix_in(v.name()) == Ok::<OpMix, SetError>(v),
{
    reveal_strlit("read-only");
    reveal_strlit("read-heavy");
    reveal_strlit("gim");
    assert("read-only"@.len() != "read-heavy"@.len());
    assert("read-only"@.len() != "gim"@.len());
    assert("read-heavy"@.len() != "gim"@.len());
}

/// The settings of a run.
pub struct Args {
    pub variant: String,
    pub cap: usize,
    pub threads: usize,
    pub workload: Workload,
    /// The text of the skew, a floating-point number.
    pub skew: Option<String>,
    pub keys: u64,
    pub ops: usize,
    pub warmup: usize,
    pub trials: usize,
    pub seed: u64,
    pub op_mix: OpMix,
}

/// What the settings say.
#[verifier::ext_equal]
pub struct Model {
    pub variant: Seq<char>,
    pub cap: usize,
    pub threads: usize,
    pub workload: Workload,
    pub skew: Option<Seq<char>>,
    pub keys: u64,
    pub ops: usize,
    pub warmup: usize,
    pub trials: usize,
    pub seed: u64,
    pub op_mix: OpMix,
}

/// What holds where no flag is given.
pub open spec fn defaults() -> Model {
    Model {
        variant: "c8"@,
            cap: 64,
            threads: 4,
            workload: Workload::Zipf,
            skew: None,
            keys: 100_000,
            ops: 4_000_000,
            warmup: 200_000,
            trials: 1,
            seed: 42,
            op_mix: OpMix::Gim,
    }
}

/// The flags that take a size.
pub open spec fn takes_size(flag: Seq<char>) -> bool {
    ||| flag == "--cap"@
    ||| flag == "--threads"@
    ||| flag == "--ops"@
    ||| flag == "--warmup"@
    ||| flag == "--trials"@
}

/// The settings `m` after such a flag with the number `n`.
pub open spec fn put_size(m: Model, flag: Seq<char>, n: usize) -> Model {
    if flag == "--cap"@ {
        Model { cap: n, ..m }
    } else if flag == "--threads"@ {
        Model { threads: n, ..m }
    } else if flag == "--ops"@ {
        Model { ops: n, ..m }
    } else if flag == "--warmup"@ {
        Model { warmup: n, ..m }
    } else {
        Model { trials: n, ..m }
    }
}

pub open spec fn with_size(m: Model, flag: Seq<char>, value: Seq<char>) -> Result<Model, SetError> {
    taken(usize_in(value), |n: usize| put_size(m, flag, n))
}

fn is_size_flag(flag: &str) -> (r: bool)
    ensures
        r == takes_size(flag@),
{
    same(flag, "--cap")
        || same(flag, "--threads")
        || same(flag, "--ops")
        || same(flag, "--warmup")
        || same(flag, "--trials")
}

/// The flags that take a 64-bit number.
pub open spec fn takes_long(flag: Seq<char>) -> bool {
    ||| flag == "--keys"@
    ||| flag == "--seed"@
}

/// The settings `m` after such a flag with the number `n`.
pub open spec fn put_long(m: Model, flag: Seq<char>, n: u64) -> Model {
    if flag == "--keys"@ {
        Model { keys: n, ..m }
    } else {
        Model { seed: n, ..m }
    }
}

pub open spec fn with_long(m: Model, flag: Seq<char>, value: Seq<char>) -> Result<Model, SetError> {
    taken(u64_in(value), |n: u64| put_long(m, flag, n))
}

fn is_long_flag(flag: &str) -> (r: bool)
    ensures
        r == takes_long(flag@),
{
    same(flag, "--keys")
        || same(flag, "--seed")
}

/// The flags that say what is done to which shard.
pub open spec fn takes_load(flag: Seq<char>) -> bool {
    ||| flag == "--variant"@
    ||| flag == "--workload"@
    ||| flag == "--skew"@
    ||| flag == "--op-mix"@
}

pub open spec fn with_load(m: Model, flag: Seq<char>, value: Seq<char>) -> Result<Model, SetError> {
    if flag == "--variant"@ {
        Ok(Model { variant: value, ..m })
    } else if flag == "--workload"@ {
        taken(workload_in(value), |v: Workload| Model { workload: v, ..m })
    } else if flag == "--skew"@ {
        taken(float_in(value), |t: Seq<char>| Model { skew: Some(t), ..m })
    } else if flag == "--op-mix"@ {
        taken(mix_in(value), |v: OpMix| Model { op_mix: v, ..m })
    } else {
        Err(SetError::BadValue)
    }
}

fn is_load_flag(flag: &str) -> (r: bool)
    ensures
        r == takes_load(flag@),
{
    same(flag, "--variant")
        || same(flag, "--workload")
        || same(flag, "--skew")
        || same(flag, "--op-mix")
}

impl Args {
    #[verifier::spinoff_prover]
    fn put_size(&mut self, flag: &str, n: usize)
        requires
            takes_size(flag@),
        ensures
            final(self).model() == put_size(old(self).model(), flag@, n),
    {
        if same(flag, "--cap") {
            self.cap = n;
        } else if same(flag, "--threads") {
            self.threads = n;
        } else if same(flag, "--ops") {
            self.ops = n;
        } else if same(flag, "--warmup") {
            self.warmup = n;
        } else {
            self.trials = n;
        }
    }

    fn set_size(&mut self, flag: &str, value: &str) -> (r: Result<(), SetError>)
        requires
            takes_size(flag@),
        ensures
            match r {
                Ok(_) => with_size(old(self).model(), flag@, value@) == Ok::<Model, SetError>(
                    final(self).model(),
                ),
                Err(e) => with_size(old(self).model(), flag@, value@) == Err::<Model, SetError>(e),
            },
    {
        match usize_of(value) {
            Ok(n) => {
                self.put_size(flag, n);
                Ok(())
            },
            Err(e) => Err(e),
        }
    }

    #[verifier::spinoff_prover]
    fn put_long(&mut self, flag: &str, n: u64)
        requires
            takes_long(flag@),
        ensures
            final(self).model() == put_long(old(self).model(), flag@, n),
    {
        if same(flag, "--keys") {
            self.keys = n;
        } else {
            self.seed = n;
        }
    }

    fn set_long(&mut self, flag: &str, value: &str) -> (r: Result<(), SetError>)
        requires
            takes_long(flag@),
        ensures
            match r {
                Ok(_) => with_long(old(self).model(), flag@, value@) == Ok::<Model, SetError>(
                    final(self).model(),
                ),
                Err(e) => with_long(old(self).model(), flag@, value@) == Err::<Model, SetError>(e),
            },
    {
        match u64_of(value) {
            Ok(n) => {
                self.put_long(flag, n);
                Ok(())
            },
            Err(e) => Err(e),
        }
    }

    #[verifier::spinoff_prover]
    fn set_load(&mut self, flag: &str, value: &str) -> (r: Result<(), SetError>)
        ensures
            match r {
                Ok(_) => with_load(old(self).model(), flag@, value@) == Ok::<Model, SetError>(
                    final(self).model(),
                ),
                Err(e) => with_load(old(self).model(), flag@, value@) == Err::<Model, SetError>(e),
            },
    {
        if same(flag, "--variant") {
            self.variant = value.to_owned();
            Ok(())
        } else if same(flag, "--workload") {
            match workload_of(value) {
                Ok(v) => {
                    self.workload = v;
                    Ok(())
                },
                Err(e) => Err(e),
            }
        } else if same(flag, "--skew") {
            match float_of(value) {
                Ok(t) => {
                    self.skew = Some(t);
                    Ok(())
                },
                Err(e) => Err(e),
            }
        } else if same(flag, "--op-mix") {
            match mix_of(value) {
                Ok(v) => {
                    self.op_mix = v;
                    Ok(())
                },
                Err(e) => Err(e),
            }
        } else {
            Err(SetError::BadValue)
        }
    }
}

impl Settings for Args {
    type M = Model;

    open spec fn model(self) -> Model {
        Model {
        variant: self.variant@,
            cap: self.cap,
            threads: self.threads,
            workload: self.workload,
            skew: opt_text(self.skew),
            keys: self.keys,
            ops: self.ops,
            warmup: self.warmup,
            trials: self.trials,
            seed: self.seed,
            op_mix: self.op_mix,
        }
    }

    open spec fn takes(flag: Seq<char>) -> bool {
        ||| takes_size(flag)
        ||| takes_long(flag)
        ||| takes_load(flag)
    }

    open spec fn with(m: Model, flag: Seq<char>, value: Seq<char>) -> Result<Model, SetError> {
        if takes_size(flag) {
            with_size(m, flag, value)
        } else if takes_long(flag) {
            with_long(m, flag, value)
        } else {
            with_load(m, flag, value)
        }
    }

    fn is_flag(flag: &str) -> (r: bool) {
        is_size_flag(flag)
            || is_long_flag(flag)
            || is_load_flag(flag)
    }

    fn set(&mut self, flag: &str, value: &str) -> (r: Result<(), SetError>) {
        if is_size_flag(flag) {
            self.set_size(flag, value)
        } else if is_long_flag(flag) {
            self.set_long(flag, value)
        } else {
            self.set_load(flag, value)
        }
    }
}

/// Why no benchmark can be run.
#[derive(Clone, Copy, Debug, PartialEq, Eq, Structural)]
pub enum SingleError {
    Line(ArgError),
    /// There is no thread.
    Threads,
    /// The threads do not divide the operations evenly.
    Ops,
    /// The threads do not divide the operations of the warm-up evenly.
    Warmup,
    /// There is no shard of that name.
    UnknownVariant,
    /// A shard holds between 1 and 64 items.
    Cap,
}

/// The settings, where a benchmark can be run with them.
pub open spec fn checked(m: Model) -> Result<Model, SingleError> {
    if m.threads == 0 {
        Err(SingleError::Threads)
    } else if m.ops % m.threads != 0 {
        Err(SingleError::Ops)
    } else if m.warmup % m.threads != 0 {
        Err(SingleError::Warmup)
    } else if !(m.variant == "c8"@ || m.variant == "c9"@) {
        Err(SingleError::UnknownVariant)
    } else if !(0 < m.cap <= MAX_PER_SHARD) {
        Err(SingleError::Cap)
    } else {
        Ok(m)
    }
}

/// What a command line asks for; `None` where that is help.
pub open spec fn asked(argv: Seq<Seq<char>>) -> Result<Option<Model>, SingleError> {
    match parsed::<Args>(argv, 0, defaults()) {
        Ok(Some(m)) => match checked(m) {
            Ok(r) => Ok(Some(r)),
            Err(e) => Err(e),
        },
        Ok(None) => Ok(None),
        Err(e) => Err(SingleError::Line(e)),
    }
}

/// Reads the command line.
pub fn parse_args(argv: &Vec<String>) -> (r: Result<Option<Args>, SingleError>)
    ensures
        match r {
            Ok(Some(a)) => asked(strings(argv@)) == Ok::<Option<Model>, SingleError>(Some(a.model())),
            Ok(None) => asked(strings(argv@)) == Ok::<Option<Model>, SingleError>(None),
            Err(e) => asked(strings(argv@)) == Err::<Option<Model>, SingleError>(e),
        },
{
    let start = Args {
        variant: "c8".to_owned(),
        cap: 64,
        threads: 4,
        workload: Workload::Zipf,
        skew: None,
        keys: 100_000,
        ops: 4_000_000,
        warmup: 200_000,
        trials: 1,
        seed: 42,
        op_mix: OpMix::Gim,
    };
    assert(start.model() =~= defaults());
    match parse(argv, start) {
        Ok(Some(a)) => match a.check() {
            Some(e) => Err(e),
            None => Ok(Some(a)),
        },
        Ok(None) => Ok(None),
        Err(e) => Err(SingleError::Line(e)),
    }
}

impl Args {
    fn check(&self) -> (r: Option<SingleError>)
        ensures
            match r {
                Some(e) => checked(self.model()) == Err::<Model, SingleError>(e),
                None => checked(self.model()) == Ok::<Model, SingleError>(self.model()),
            },
    {
        if self.threads == 0 {
            Some(SingleError::Threads)
        } else if self.ops % self.threads != 0 {
            Some(SingleError::Ops)
        } else if self.warmup % self.threads != 0 {
            Some(SingleError::Warmup)
        } else if !(same(self.variant.as_str(), "c8") || same(self.variant.as_str(), "c9")) {
            Some(SingleError::UnknownVariant)
        } else if !(0 < self.cap && self.cap <= MAX_PER_SHARD) {
            Some(SingleError::Cap)
        } else {
            None
        }
    }
}

/// The keys of one thread, where no generator is needed for them. Reads and
/// insertions take them in turn from one stream.
pub enum Stream {
    Hot(AdversarialHot),
    Range(UniformDisjoint),
}

impl Stream {
    pub open spec fn wf(self) -> bool {
        match self {
            Stream::Hot(_) => true,
            Stream::Range(s) => s.wf(),
        }
    }

    /// The key that comes next.
    pub open spec fn upcoming(self) -> int {
        match self {
            Stream::Hot(_) => 0,
            Stream::Range(s) => s.upcoming(),
        }
    }

    /// The hot stream has one key alone, the same for every thread. Any other stream stays in
    /// its range.
    pub proof fn law_upcoming(self)
        requires
            self.wf(),
        ensures
            self is Hot ==> self.upcoming() == 0,
            self matches Stream::Range(s) ==> self.upcoming() == s.after(0) && s.first()
                <= self.upcoming() < s.end_key(),
    {
        if let Stream::Range(s) = self {
            vstd::arithmetic::div_mod::lemma_small_mod(
                (s.upcoming() - s.first()) as nat,
                (s.end_key() - s.first()) as nat,
            );
        }
    }

    /// The next key.
    pub fn next(&mut self) -> (k: u64)
        requires
            old(self).wf(),
        ensures
            final(self).wf(),
            k == old(self).upcoming(),
            match *old(self) {
                Stream::Hot(_) => *final(self) is Hot,
                Stream::Range(s) => *final(self) matches Stream::Range(t) && t.first() == s.first()
                    && t.end_key() == s.end_key() && t.upcoming() == if s.upcoming() + 1
                    < s.end_key() {
                    s.upcoming() + 1
                } else {
                    s.first()
                },
            },
    {
        match self {
            Stream::Hot(s) => s.next().unwrap(),
            Stream::Range(s) => s.next().unwrap(),
        }
    }
}

/// The keys of thread `tid`, or `None` where a generator has to make them.
pub fn make_stream(workload: Workload, tid: u64, threads: u64, keys: u64) -> (r: Option<Stream>)
    requires
        workload is Uniform ==> threads > 0 && keys > 0 && (tid + 1) * span_of(threads, keys)
            <= u64::MAX,
    ensures
        match workload {
            Workload::Zipf => r is None,
            Workload::AdversarialHot => r matches Some(Stream::Hot(_)),
            Workload::Uniform => r matches Some(Stream::Range(s)) && s.wf() && s.first() == tid
                * span_of(threads, keys) && s.upcoming() == s.first() && s.end_key() == (tid
                + 1) * span_of(threads, keys),
        },
{
    match workload {
        Workload::Zipf => None,
        Workload::AdversarialHot => Some(Stream::Hot(AdversarialHot)),
        Workload::Uniform => Some(Stream::Range(UniformDisjoint::new(tid, threads, keys))),
    }
}

impl Args {
    /// Each setting is what the field of its name holds.
    pub proof fn law_fields(self)
        ensures
            self.model().variant == self.variant@,
            self.model().cap == self.cap,
            self.model().threads == self.threads,
            self.model().workload == self.workload,
            self.skew is None <==> self.model().skew is None,
            self.skew matches Some(t) ==> self.model().skew == Some(t@),
            self.model().keys == self.keys,
            self.model().ops == self.ops,
            self.model().warmup == self.warmup,
            self.model().trials == self.trials,
            self.model().seed == self.seed,
            self.model().op_mix == self.op_mix,
    {
    }
}

/// What tells two flags apart.
spec fn flag_mark(f: Seq<char>) -> (nat, char, char) {
    (f.len(), f[2], f[3])
}

#[verifier::spinoff_prover]
proof fn lemma_flag_marks()
    ensures
        flag_mark("--cap"@) == (5nat, 'c', 'a'),
        flag_mark("--threads"@) == (9nat, 't', 'h'),
        flag_mark("--ops"@) == (5nat, 'o', 'p'),
        flag_mark("--warmup"@) == (8nat, 'w', 'a'),
        flag_mark("--trials"@) == (8nat, 't', 'r'),
        flag_mark("--keys"@) == (6nat, 'k', 'e'),
        flag_mark("--seed"@) == (6nat, 's', 'e'),
        flag_mark("--variant"@) == (9nat, 'v', 'a'),
        flag_mark("--skew"@) == (6nat, 's', 'k'),
        flag_mark("--workload"@) == (10nat, 'w', 'o'),
        flag_mark("--op-mix"@) == (8nat, 'o', 'p'),
{
    reveal_strlit("--cap");
    reveal_strlit("--threads");
    reveal_strlit("--ops");
    reveal_strlit("--warmup");
    reveal_strlit("--trials");
    reveal_strlit("--keys");
    reveal_strlit("--seed");
    reveal_strlit("--variant");
    reveal_strlit("--skew");
    reveal_strlit("--workload");
    reveal_strlit("--op-mix");
}

/// Each flag that takes a size sets what it names to the number that is written, and nothing
/// else; what is no number is refused.
#[verifier::spinoff_prover]
pub proof fn law_size_flags(m: Model, n: usize, v: Seq<char>)
    ensures
        <Args as Settings>::with(m, "--cap"@, digits(n as nat)) == Ok::<Model, SetError>(Model { cap: n, ..m }),
        <Args as Settings>::with(m, "--threads"@, digits(n as nat)) == Ok::<Model, SetError>(Model { threads: n, ..m }),
        <Args as Settings>::with(m, "--ops"@, digits(n as nat)) == Ok::<Model, SetError>(Model { ops: n, ..m }),
        <Args as Settings>::with(m, "--warmup"@, digits(n as nat)) == Ok::<Model, SetError>(Model { warmup: n, ..m }),
        <Args as Settings>::with(m, "--trials"@, digits(n as nat)) == Ok::<Model, SetError>(Model { trials: n, ..m }),
        number(v, usize::MAX as nat) is None ==> <Args as Settings>::with(m, "--cap"@, v) == Err::<Model, SetError>(SetError::BadValue),
        number(v, usize::MAX as nat) is None ==> <Args as Settings>::with(m, "--threads"@, v) == Err::<Model, SetError>(SetError::BadValue),
        number(v, usize::MAX as nat) is None ==> <Args as Settings>::with(m, "--ops"@, v) == Err::<Model, SetError>(SetError::BadValue),
        number(v, usize::MAX as nat) is None ==> <Args as Settings>::with(m, "--warmup"@, v) == Err::<Model, SetError>(SetError::BadValue),
        number(v, usize::MAX as nat) is None ==> <Args as Settings>::with(m, "--trials"@, v) == Err::<Model, SetError>(SetError::BadValue),
{
    lemma_flag_marks();
    law_digits_round_trip(n as nat, usize::MAX as nat);
}

/// The flags that take a 64-bit number do the same with it.
#[verifier::spinoff_prover]
pub proof fn law_long_flags(m: Model, n: u64, v: Seq<char>)
    ensures
        <Args as Settings>::with(m, "--keys"@, digits(n as nat)) == Ok::<Model, SetError>(Model { keys: n, ..m }),
        number(v, u64::MAX as nat) is None ==> <Args as Settings>::with(m, "--keys"@, v) == Err::<Model, SetError>(SetError::BadValue),
        <Args as Settings>::with(m, "--seed"@, digits(n as nat)) == Ok::<Model, SetError>(Model { seed: n, ..m }),
        number(v, u64::MAX as nat) is None ==> <Args as Settings>::with(m, "--seed"@, v) == Err::<Model, SetError>(SetError::BadValue),
{
    lemma_flag_marks();
    law_digits_round_trip(n as nat, u64::MAX as nat);
}

/// The other flags set what they name to the text, the list or the choice that is written.
#[verifier::spinoff_prover]
pub proof fn law_text_flags(m: Model, t: Seq<char>)
    ensures
        <Args as Settings>::with(m, "--variant"@, t) == Ok::<Model, SetError>(Model { variant: t, ..m }),
        is_float(t) ==> <Args as Settings>::with(m, "--skew"@, t) == Ok::<Model, SetError>(Model { skew: Some(t), ..m }),
        !is_float(t) ==> <Args as Settings>::with(m, "--skew"@, t) == Err::<Model, SetError>(SetError::BadValue),
        <Args as Settings>::with(m, "--workload"@, "zipf"@) == Ok::<Model, SetError>(Model { workload: Workload::Zipf, ..m }),
        <Args as Settings>::with(m, "--workload"@, "adversarial-hot"@) == Ok::<Model, SetError>(Model { workload: Workload::AdversarialHot, ..m }),
        <Args as Settings>::with(m, "--workload"@, "uniform"@) == Ok::<Model, SetError>(Model { workload: Workload::Uniform, ..m }),
        <Args as Settings>::with(m, "--op-mix"@, "read-only"@) == Ok::<Model, SetError>(Model { op_mix: OpMix::ReadOnly, ..m }),
        <Args as Settings>::with(m, "--op-mix"@, "read-heavy"@) == Ok::<Model, SetError>(Model { op_mix: OpMix::ReadHeavy, ..m }),
        <Args as Settings>::with(m, "--op-mix"@, "gim"@) == Ok::<Model, SetError>(Model { op_mix: OpMix::Gim, ..m }),
        t != "zipf"@ && t != "adversarial-hot"@ && t != "uniform"@ ==> <Args as Settings>::with(m, "--workload"@, t) == Err::<Model, SetError>(SetError::BadValue),
        t != "read-only"@ && t != "read-heavy"@ && t != "gim"@ ==> <Args as Settings>::with(m, "--op-mix"@, t) == Err::<Model, SetError>(SetError::BadValue),
{
    lemma_flag_marks();
    reveal_strlit("zipf");
    reveal_strlit("adversarial-hot");
    reveal_strlit("uniform");
    assert("zipf"@.len() != "adversarial-hot"@.len());
    assert("zipf"@.len() != "uniform"@.len());
    assert("adversarial-hot"@.len() != "uniform"@.len());
    reveal_strlit("read-only");
    reveal_strlit("read-heavy");
    reveal_strlit("gim");
    assert("read-only"@.len() != "read-heavy"@.len());
    assert("read-only"@.len() != "gim"@.len());
    assert("read-heavy"@.len() != "gim"@.len());
}

/// There are these flags and no others.
#[verifier::spinoff_prover]
pub proof fn law_known_flags(flag: Seq<char>)
    ensures
        <Args as Settings>::takes(flag) <==> flag == "--cap"@
            || flag == "--threads"@
            || flag == "--ops"@
            || flag == "--warmup"@
            || flag == "--trials"@
            || flag == "--keys"@
            || flag == "--seed"@
            || flag == "--variant"@
            || flag == "--skew"@
            || flag == "--workload"@
            || flag == "--op-mix"@,
{
}

/// A run needs threads that share the operations and the warm-up evenly, a shard of a known
/// kind, and a capacity that one shard can have. Such settings are taken as they are.
pub proof fn law_checked(m: Model)
    ensures
        checked(m) is Ok <==> m.threads > 0 && m.ops % m.threads == 0 && m.warmup % m.threads == 0
            && (m.variant == "c8"@ || m.variant == "c9"@) && 1 <= m.cap <= 64,
        checked(m) matches Ok(r) ==> r == m,
        checked(m) matches Err(SingleError::Threads) <==> m.threads == 0,
        checked(m) matches Err(SingleError::Ops) ==> m.threads > 0 && m.ops % m.threads != 0,
        checked(m) matches Err(SingleError::Warmup) ==> m.threads > 0 && m.warmup % m.threads != 0,
        checked(m) matches Err(SingleError::UnknownVariant) ==> m.variant != "c8"@ && m.variant
            != "c9"@,
        checked(m) matches Err(SingleError::Cap) ==> m.cap == 0 || m.cap > 64,
{
}

/// A command line that cannot be read is refused for that reason, and one that asks for help
/// asks for nothing else. Of any other the settings are those that its flags make of the
/// defaults, where a run can be made with them.
pub proof fn law_asked(argv: Seq<Seq<char>>)
    ensures
        parsed::<Args>(argv, 0, defaults()) matches Err(e) ==> asked(argv) == Err::<
            Option<Model>,
            SingleError,
        >(SingleError::Line(e)),
        parsed::<Args>(argv, 0, defaults()) == Ok::<Option<Model>, ArgError>(None) <==> asked(argv)
            == Ok::<Option<Model>, SingleError>(None),
        asked(argv) matches Ok(Some(r)) ==> exists|m: Model| #[trigger]
            checked(m) == Ok::<Model, SingleError>(r) && parsed::<Args>(argv, 0, defaults()) == Ok::<
                Option<Model>,
                ArgError,
            >(Some(m)),
        parsed::<Args>(argv, 0, defaults()) matches Ok(Some(m)) ==> (asked(argv) is Ok <==> checked(
            m,
        ) is Ok),
{
    if let Ok(Some(m)) = parsed::<Args>(argv, 0, defaults()) {
        if let Ok(r) = checked(m) {
            assert(checked(m) == Ok::<Model, SingleError>(r));
        }
    }
}

/// A setting whose flag a command line does not name has its default.
#[verifier::spinoff_prover]
#[verifier::rlimit(60)]
pub proof fn law_defaults(argv: Seq<Seq<char>>)
    ensures
        parsed::<Args>(argv, 0, defaults()) matches Ok(Some(r)) ==> {
            &&& !names(argv, 0, "--cap"@) ==> r.cap == 64
            &&& !names(argv, 0, "--threads"@) ==> r.threads == 4
            &&& !names(argv, 0, "--ops"@) ==> r.ops == 4_000_000
            &&& !names(argv, 0, "--warmup"@) ==> r.warmup == 200_000
            &&& !names(argv, 0, "--trials"@) ==> r.trials == 1
            &&& !names(argv, 0, "--keys"@) ==> r.keys == 100_000
            &&& !names(argv, 0, "--seed"@) ==> r.seed == 42
            &&& !names(argv, 0, "--skew"@) ==> r.skew == None::<Seq<char>>
            &&& !names(argv, 0, "--variant"@) ==> r.variant == "c8"@
            &&& !names(argv, 0, "--workload"@) ==> r.workload == Workload::Zipf
            &&& !names(argv, 0, "--op-mix"@) ==> r.op_mix == OpMix::Gim
        },
{
    lemma_flag_marks();
    if !names(argv, 0, "--cap"@) {
        lemma_one_flag::<Args, usize>(argv, 0, defaults(), |m: Model| m.cap, "--cap"@);
    }
    if !names(argv, 0, "--threads"@) {
        lemma_one_flag::<Args, usize>(argv, 0, defaults(), |m: Model| m.threads, "--threads"@);
    }
    if !names(argv, 0, "--ops"@) {
        lemma_one_flag::<Args, usize>(argv, 0, defaults(), |m: Model| m.ops, "--ops"@);
    }
    if !names(argv, 0, "--warmup"@) {
        lemma_one_flag::<Args, usize>(argv, 0, defaults(), |m: Model| m.warmup, "--warmup"@);
    }
    if !names(argv, 0, "--trials"@) {
        lemma_one_flag::<Args, usize>(argv, 0, defaults(), |m: Model| m.trials, "--trials"@);
    }
    if !names(argv, 0, "--keys"@) {
        lemma_one_flag::<Args, u64>(argv, 0, defaults(), |m: Model| m.keys, "--keys"@);
    }
    if !names(argv, 0, "--seed"@) {
        lemma_one_flag::<Args, u64>(argv, 0, defaults(), |m: Model| m.seed, "--seed"@);
    }
    if !names(argv, 0, "--skew"@) {
        lemma_one_flag::<Args, Option<Seq<char>>>(argv, 0, defaults(), |m: Model| m.skew, "--skew"@);
    }
    if !names(argv, 0, "--variant"@) {
        lemma_one_flag::<Args, Seq<char>>(argv, 0, defaults(), |m: Model| m.variant, "--variant"@);
    }
    if !names(argv, 0, "--workload"@) {
        lemma_one_flag::<Args, Workload>(argv, 0, defaults(), |m: Model| m.workload, "--workload"@);
    }
    if !names(argv, 0, "--op-mix"@) {
        lemma_one_flag::<Args, OpMix>(argv, 0, defaults(), |m: Model| m.op_mix, "--op-mix"@);
    }
}

proof fn lemma_number_taken(argv: Seq<Seq<char>>, i: int, m: Model, at: int)
    requires
        0 <= i <= at,
        at + 1 < argv.len(),
        (at - i) % 2 == 0,
        parsed::<Args>(argv, i, m) matches Ok(Some(_)),
    ensures
        exists|x: Model| (#[trigger] <Args as Settings>::with(x, argv[at], argv[at + 1])) is Ok,
    decreases at - i,
{
    if i < at {
        lemma_number_taken(
            argv,
            i + 2,
            <Args as Settings>::with(m, argv[i], argv[i + 1])->Ok_0,
            at,
        );
    } else {
        assert(<Args as Settings>::with(m, argv[at], argv[at + 1]) is Ok);
    }
}

/// Of a number that a command line gives more than once the last counts.
#[verifier::spinoff_prover]
#[verifier::rlimit(60)]
pub proof fn law_last_number_counts(argv: Seq<Seq<char>>, at: int)
    requires
        0 <= at,
        at + 1 < argv.len(),
        at % 2 == 0,
    ensures
        parsed::<Args>(argv, 0, defaults()) matches Ok(Some(r)) ==> {
            &&& argv[at] == "--cap"@ && !names(argv, at + 2, "--cap"@) ==> number(argv[at + 1], usize::MAX as nat) == Some(r.cap as nat)
            &&& argv[at] == "--threads"@ && !names(argv, at + 2, "--threads"@) ==> number(argv[at + 1], usize::MAX as nat) == Some(r.threads as nat)
            &&& argv[at] == "--ops"@ && !names(argv, at + 2, "--ops"@) ==> number(argv[at + 1], usize::MAX as nat) == Some(r.ops as nat)
            &&& argv[at] == "--warmup"@ && !names(argv, at + 2, "--warmup"@) ==> number(argv[at + 1], usize::MAX as nat) == Some(r.warmup as nat)
            &&& argv[at] == "--trials"@ && !names(argv, at + 2, "--trials"@) ==> number(argv[at + 1], usize::MAX as nat) == Some(r.trials as nat)
            &&& argv[at] == "--keys"@ && !names(argv, at + 2, "--keys"@) ==> number(argv[at + 1], u64::MAX as nat) == Some(r.keys as nat)
            &&& argv[at] == "--seed"@ && !names(argv, at + 2, "--seed"@) ==> number(argv[at + 1], u64::MAX as nat) == Some(r.seed as nat)
        },
{
    lemma_flag_marks();
    if parsed::<Args>(argv, 0, defaults()) matches Ok(Some(_)) {
        if argv[at] == "--cap"@ && !names(argv, at + 2, "--cap"@) {
            lemma_last_flag::<Args, nat>(
                argv,
                0,
                defaults(),
                |m: Model| m.cap as nat,
                "--cap"@,
                at,
                number(argv[at + 1], usize::MAX as nat)->0,
            );
            lemma_number_taken(argv, 0, defaults(), at);
        }
        if argv[at] == "--threads"@ && !names(argv, at + 2, "--threads"@) {
            lemma_last_flag::<Args, nat>(
                argv,
                0,
                defaults(),
                |m: Model| m.threads as nat,
                "--threads"@,
                at,
                number(argv[at + 1], usize::MAX as nat)->0,
            );
            lemma_number_taken(argv, 0, defaults(), at);
        }
        if argv[at] == "--ops"@ && !names(argv, at + 2, "--ops"@) {
            lemma_last_flag::<Args, nat>(
                argv,
                0,
                defaults(),
                |m: Model| m.ops as nat,
                "--ops"@,
                at,
                number(argv[at + 1], usize::MAX as nat)->0,
            );
            lemma_number_taken(argv, 0, defaults(), at);
        }
        if argv[at] == "--warmup"@ && !names(argv, at + 2, "--warmup"@) {
            lemma_last_flag::<Args, nat>(
                argv,
                0,
                defaults(),
                |m: Model| m.warmup as nat,
                "--warmup"@,
                at,
                number(argv[at + 1], usize::MAX as nat)->0,
            );
            lemma_number_taken(argv, 0, defaults(), at);
        }
        if argv[at] == "--trials"@ && !names(argv, at + 2, "--trials"@) {
            lemma_last_flag::<Args, nat>(
                argv,
                0,
                defaults(),
                |m: Model| m.trials as nat,
                "--trials"@,
                at,
                number(argv[at + 1], usize::MAX as nat)->0,
            );
            lemma_number_taken(argv, 0, defaults(), at);
        }
        if argv[at] == "--keys"@ && !names(argv, at + 2, "--keys"@) {
            lemma_last_flag::<Args, nat>(
                argv,
                0,
                defaults(),
                |m: Model| m.keys as nat,
                "--keys"@,
                at,
                number(argv[at + 1], u64::MAX as nat)->0,
            );
            lemma_number_taken(argv, 0, defaults(), at);
        }
        if argv[at] == "--seed"@ && !names(argv, at + 2, "--seed"@) {
            lemma_last_flag::<Args, nat>(
                argv,
                0,
                defaults(),
                |m: Model| m.seed as nat,
                "--seed"@,
                at,
                number(argv[at + 1], u64::MAX as nat)->0,
            );
            lemma_number_taken(argv, 0, defaults(), at);
        }
    }
}

} // verus!
