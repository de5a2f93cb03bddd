//! The single-thread benchmark: one trace through several caches.

use vstd::prelude::*;
use vstd::string::*;

use crate::harness::args::{
    float_in, float_of, lemma_last_flag, lemma_one_flag, names, names_in, names_of, opt_text, parse, parsed, sizes_in, sizes_of, taken, u32_in,
    u32_of, u64_in, u64_of, usize_in, usize_of, ArgError, SetError, Settings,
};
use crate::harness::value::{decimal_text, digits, law_digits_round_trip, lemma_digits};
use crate::text::{is_float, number, same, strings};
use crate::workload::arc_preset::{lookup, preset_of};
use crate::workload::file::Format;

verus! {

/// The settings of a run. While the command line is read, those that no flag gave
/// are still missing.
pub struct Args {
    pub source: String,
    pub source_explicit: bool,
    /// The text of the skew, a floating-point number.
    pub skew: Option<String>,
    pub keys: u64,
    pub seed: u64,
    pub len: Option<usize>,
    pub path: Option<String>,
    pub capacities: Vec<usize>,
    pub variants: Vec<String>,
    pub arc_preset: Option<String>,
    pub repeat: u32,
}

/// What the settings say.
#[verifier::ext_equal]
pub struct Model {
    pub source: Seq<char>,
    pub source_explicit: bool,
    pub skew: Option<Seq<char>>,
    pub keys: u64,
    pub seed: u64,
    pub len: Option<usize>,
    pub path: Option<Seq<char>>,
    pub capacities: Seq<usize>,
    pub variants: Seq<Seq<char>>,
    pub arc_preset: Option<Seq<char>>,
    pub repeat: u32,
}

/// What holds where no flag is given.
pub open spec fn defaults() -> Model {
    Model {
        source: "zipf"@,
        source_explicit: false,
        skew: None,
        keys: 0,
        seed: 0,
        len: None,
        path: None,
        capacities: Seq::empty(),
        variants: Seq::empty(),
        arc_preset: None,
        repeat: 1,
    }
}

impl Settings for Args {
    type M = Model;

    open spec fn model(self) -> Model {
        Model {
            source: self.source@,
            source_explicit: self.source_explicit,
            skew: opt_text(self.skew),
            keys: self.keys,
            seed: self.seed,
            len: self.len,
            path: opt_text(self.path),
            capacities: self.capacities@,
            variants: strings(self.variants@),
            arc_preset: opt_text(self.arc_preset),
            repeat: self.repeat,
        }
    }

    open spec fn takes(flag: Seq<char>) -> bool {
        ||| flag == "--source"@
        ||| flag == "--skew"@
        ||| flag == "--keys"@
        ||| flag == "--seed"@
        ||| flag == "--len"@
        ||| flag == "--path"@
        ||| flag == "--capacity"@
        ||| flag == "--variant"@
        ||| flag == "--arc-preset"@
        ||| flag == "--repeat"@
    }

    open spec fn with(m: Model, flag: Seq<char>, value: Seq<char>) -> Result<Model, SetError> {
        if flag == "--source"@ {
            Ok(Model { source: value, source_explicit: true, ..m })
        } else if flag == "--skew"@ {
            taken(float_in(value), |t: Seq<char>| Model { skew: Some(t), ..m })
        } else if flag == "--keys"@ {
            taken(u64_in(value), |n: u64| Model { keys: n, ..m })
        } else if flag == "--seed"@ {
            taken(u64_in(value), |n: u64| Model { seed: n, ..m })
        } else if flag == "--len"@ {
            taken(usize_in(value), |n: usize| Model { len: Some(n), ..m })
        } else if flag == "--path"@ {
            Ok(Model { path: Some(value), ..m })
        } else if flag == "--capacity"@ {
            taken(sizes_in(value), |v: Seq<usize>| Model { capacities: v, ..m })
        } else if flag == "--variant"@ {
            Ok(Model { variants: names_in(value), ..m })
        } else if flag == "--arc-preset"@ {
            Ok(Model { arc_preset: Some(value), ..m })
        } else if flag == "--repeat"@ {
            taken(u32_in(value), |n: u32| Model { repeat: n, ..m })
        } else {
            Err(SetError::BadValue)
        }
    }

    fn is_flag(flag: &str) -> (r: bool) {
        same(flag, "--source")
            || same(flag, "--skew")
            || same(flag, "--keys")
            || same(flag, "--seed")
            || same(flag, "--len")
            || same(flag, "--path")
            || same(flag, "--capacity")
            || same(flag, "--variant")
            || same(flag, "--arc-preset")
            || same(flag, "--repeat")
    }

    #[verifier::spinoff_prover]
    fn set(&mut self, flag: &str, value: &str) -> (r: Result<(), SetError>) {
        if same(flag, "--source") {
            self.source = value.to_owned();
            self.source_explicit = true;
            Ok(())
        } else if same(flag, "--skew") {
            match float_of(value) {
                Ok(t) => {
                    self.skew = Some(t);
                    Ok(())
                },
                Err(e) => Err(e),
            }
        } else if same(flag, "--keys") {
            match u64_of(value) {
                Ok(n) => {
                    self.keys = n;
                    Ok(())
                },
                Err(e) => Err(e),
            }
        } else if same(flag, "--seed") {
            match u64_of(value) {
                Ok(n) => {
                    self.seed = n;
                    Ok(())
                },
                Err(e) => Err(e),
            }
        } else if same(flag, "--len") {
            match usize_of(value) {
                Ok(n) => {
                    self.len = Some(n);
                    Ok(())
                },
                Err(e) => Err(e),
            }
        } else if same(flag, "--path") {
            self.path = Some(value.to_owned());
            Ok(())
        } else if same(flag, "--capacity") {
            match sizes_of(value) {
                Ok(v) => {
                    self.capacities = v;
                    Ok(())
                },
                Err(e) => Err(e),
            }
        } else if same(flag, "--variant") {
            self.variants = names_of(value);
            Ok(())
        } else if same(flag, "--arc-preset") {
            self.arc_preset = Some(value.to_owned());
            Ok(())
        } else if same(flag, "--repeat") {
            match u32_of(value) {
                Ok(n) => {
                    self.repeat = n;
                    Ok(())
                },
                Err(e) => Err(e),
            }
        } else {
            Err(SetError::BadValue)
        }
    }
}

/// Why no benchmark can be run.
#[derive(Clone, Copy, Debug, PartialEq, Eq, Structural)]
pub enum BenchError {
    Line(ArgError),
    /// There is no ARC preset of the given name.
    UnknownPreset,
    /// The trace is to be played no times.
    NoRepeat,
    /// There is neither a capacity nor a preset.
    NoCapacity,
    /// No variant is named.
    NoVariant,
}

/// Settings with all that a run needs.
pub open spec fn checked(m: Model) -> Result<Model, BenchError> {
    if m.repeat == 0 {
        Err(BenchError::NoRepeat)
    } else if m.capacities.len() == 0 {
        Err(BenchError::NoCapacity)
    } else if m.variants.len() == 0 {
        Err(BenchError::NoVariant)
    } else {
        Ok(m)
    }
}

/// The settings with a preset looked up: it fills in what no flag gave.
pub open spec fn resolved(m: Model) -> Result<Model, BenchError> {
    match m.arc_preset {
        Some(name) => match preset_of(name) {
            Some(p) => checked(
                Model {
                    source: if m.source_explicit {
                        m.source
                    } else {
                        "arc"@
                    },
                    path: if m.path is None {
                        Some(p.trace_path)
                    } else {
                        m.path
                    },
                    capacities: if m.capacities.len() == 0 {
                        p.default_capacities
                    } else {
                        m.capacities
                    },
                    ..m
                },
            ),
            None => Err(BenchError::UnknownPreset),
        },
        None => checked(m),
    }
}

/// A preset overrides nothing that a flag gave.
pub proof fn law_flags_win_over_presets(m: Model)
    requires
        resolved(m) is Ok,
    ensures
        m.source_explicit ==> resolved(m)->Ok_0.source == m.source,
        m.path is Some ==> resolved(m)->Ok_0.path == m.path,
        m.capacities.len() > 0 ==> resolved(m)->Ok_0.capacities == m.capacities,
{
}

/// What a command line asks for; `None` where that is help.
pub open spec fn asked(argv: Seq<Seq<char>>) -> Result<Option<Model>, BenchError> {
    match parsed::<Args>(argv, 0, defaults()) {
        Ok(Some(m)) => match resolved(m) {
            Ok(r) => Ok(Some(r)),
            Err(e) => Err(e),
        },
        Ok(None) => Ok(None),
        Err(e) => Err(BenchError::Line(e)),
    }
}

/// Reads the command line.
pub fn parse_args(argv: &Vec<String>) -> (r: Result<Option<Args>, BenchError>)
    ensures
        match r {
            Ok(Some(a)) => asked(strings(argv@)) == Ok::<Option<Model>, BenchError>(Some(a.model())),
            Ok(None) => asked(strings(argv@)) == Ok::<Option<Model>, BenchError>(None),
            Err(e) => asked(strings(argv@)) == Err::<Option<Model>, BenchError>(e),
        },
{
    let start = Args {
        source: "zipf".to_owned(),
        source_explicit: false,
        skew: None,
        keys: 0,
        seed: 0,
        len: None,
        path: None,
        capacities: Vec::new(),
        variants: Vec::new(),
        arc_preset: None,
        repeat: 1,
    };
    assert(start.model() =~= defaults());
    match parse(argv, start) {
        Ok(Some(a)) => match a.resolve() {
            Ok(a) => Ok(Some(a)),
            Err(e) => Err(e),
        },
        Ok(None) => Ok(None),
        Err(e) => Err(BenchError::Line(e)),
    }
}

impl Args {
    fn resolve(self) -> (r: Result<Args, BenchError>)
        ensures
            match r {
                Ok(a) => resolved(self.model()) == Ok::<Model, BenchError>(a.model()),
                Err(e) => resolved(self.model()) == Err::<Model, BenchError>(e),
            },
    {
        let ghost m = self.model();
        let mut a = self;
        if a.arc_preset.is_some() {
            match lookup(a.arc_preset.as_ref().unwrap().as_str()) {
                Some(p) => {
                    if !a.source_explicit {
                        a.source = "arc".to_owned();
                    }
                    if a.path.is_none() {
                        a.path = Some(p.trace_path.to_owned());
                    }
                    if a.capacities.len() == 0 {
                        a.capacities = p.default_capacities;
                    }
                },
                None => {
                    return Err(BenchError::UnknownPreset);
                },
            }
        }
        assert(strings(a.variants@).len() == a.variants@.len());
        if a.repeat == 0 {
            Err(BenchError::NoRepeat)
        } else if a.capacities.len() == 0 {
            Err(BenchError::NoCapacity)
        } else if a.variants.len() == 0 {
            Err(BenchError::NoVariant)
        } else {
            Ok(a)
        }
    }
}

/// Where the keys of a run come from.
#[derive(Clone, Copy, Debug, PartialEq, Eq, Structural)]
pub enum TracePlan {
    /// So many keys of a Zipf distribution, with the skew of the settings.
    Zipf { len: usize, keys: u64, seed: u64 },
    /// A file of the settings' path.
    File { format: Format, limit: Option<usize> },
    /// The key texts of a Twitter trace of the settings' path.
    Texts { limit: Option<usize> },
}

/// What a source needs and was not given.
#[derive(Clone, Copy, Debug, PartialEq, Eq, Structural)]
pub enum PlanError {
    NoLen,
    NoKeys,
    NoSkew,
    NoPath,
    UnknownSource,
}

pub open spec fn file_plan(m: Model, format: Format) -> Result<TracePlan, PlanError> {
    if m.path is Some {
        Ok(TracePlan::File { format, limit: m.len })
    } else {
        Err(PlanError::NoPath)
    }
}

/// Where the keys of a run with these settings come from.
pub open spec fn planned(m: Model) -> Result<TracePlan, PlanError> {
    if m.source == "zipf"@ {
        match m.len {
            None => Err(PlanError::NoLen),
            Some(len) => if m.keys == 0 {
                Err(PlanError::NoKeys)
            } else if m.skew is None {
                Err(PlanError::NoSkew)
            } else {
                Ok(TracePlan::Zipf { len, keys: m.keys, seed: m.seed })
            },
        }
    } else if m.source == "file"@ {
        file_plan(m, Format::Keys)
    } else if m.source == "twitter"@ {
        file_plan(m, Format::TwitterCsv)
    } else if m.source == "arc"@ {
        file_plan(m, Format::Arc)
    } else if m.source == "libcachesim-csv"@ {
        file_plan(m, Format::LibcachesimCsv)
    } else if m.source == "twitter-string"@ {
        if m.path is Some {
            Ok(TracePlan::Texts { limit: m.len })
        } else {
            Err(PlanError::NoPath)
        }
    } else {
        Err(PlanError::UnknownSource)
    }
}

impl Args {
    fn plan_file(&self, format: Format) -> (r: Result<TracePlan, PlanError>)
        ensures
            r == file_plan(self.model(), format),
    {
        if self.path.is_some() {
            Ok(TracePlan::File { format, limit: self.len })
        } else {
            Err(PlanError::NoPath)
        }
    }

    /// Where the keys of the run come from.
    pub fn plan(&self) -> (r: Result<TracePlan, PlanError>)
        ensures
            r == planned(self.model()),
    {
        let source = self.source.as_str();
        if same(source, "zipf") {
            match self.len {
                None => Err(PlanError::NoLen),
                Some(len) => if self.keys == 0 {
                    Err(PlanError::NoKeys)
                } else if self.skew.is_none() {
                    Err(PlanError::NoSkew)
                } else {
                    Ok(TracePlan::Zipf { len, keys: self.keys, seed: self.seed })
                },
            }
        } else if same(source, "file") {
            self.plan_file(Format::Keys)
        } else if same(source, "twitter") {
            self.plan_file(Format::TwitterCsv)
        } else if same(source, "arc") {
            self.plan_file(Format::Arc)
        } else if same(source, "libcachesim-csv") {
            self.plan_file(Format::LibcachesimCsv)
        } else if same(source, "twitter-string") {
            if self.path.is_some() {
                Ok(TracePlan::Texts { limit: self.len })
            } else {
                Err(PlanError::NoPath)
            }
        } else {
            Err(PlanError::UnknownSource)
        }
    }
}

/// A cache that the benchmark knows by name. Some are split into shards; `None`
/// leaves the number of shards to the cache.
#[derive(Clone, Copy, Debug, PartialEq, Eq, Structural)]
pub enum Engine {
    Orig,
    V0,
    J7(Option<usize>),
    J8(Option<usize>),
    Senba(Option<usize>),
    MiniMokaSync,
    MiniMokaUnsync,
    Moka,
}

/// The powers of two from `lo` up to 2048.
pub open spec fn shard_choice(n: nat, lo: nat) -> bool
    decreases n,
{
    lo <= n <= 2048 && (n == lo || (n % 2 == 0 && shard_choice(n / 2, lo)))
}

/// Whether `name` is `prefix` followed by the number of shards `n`.
pub open spec fn pins(name: Seq<char>, prefix: Seq<char>, n: nat) -> bool {
    name == prefix + digits(n)
}

/// The number of shards that `name` pins behind `prefix`.
pub open spec fn pinned(name: Seq<char>, prefix: Seq<char>, lo: nat) -> Option<nat> {
    if exists|n: nat| shard_choice(n, lo) && #[trigger] pins(name, prefix, n) {
        Some(choose|n: nat| shard_choice(n, lo) && #[trigger] pins(name, prefix, n))
    } else {
        None
    }
}

proof fn lemma_choices_double(n: nat, m: nat, lo: nat)
    requires
        0 < lo,
        shard_choice(n, lo),
        shard_choice(m, lo),
        n < m,
    ensures
        m >= 2 * n,
    decreases m,
{
    reveal_with_fuel(shard_choice, 2);
    if n != lo {
        lemma_choices_double(n / 2, m / 2, lo);
    }
}

proof fn lemma_pins_once(name: Seq<char>, prefix: Seq<char>, n: nat, m: nat)
    requires
        pins(name, prefix, n),
        pins(name, prefix, m),
    ensures
        n == m,
{
    assert(digits(n) =~= name.skip(prefix.len() as int));
    assert(digits(m) =~= name.skip(prefix.len() as int));
    law_digits_round_trip(n, n + m);
    law_digits_round_trip(m, n + m);
}

fn pinned_shards(name: &str, prefix: &str, lo: u64) -> (r: Option<usize>)
    requires
        0 < lo <= 2048,
    ensures
        match r {
            Some(n) => pinned(name@, prefix@, lo as nat) == Some(n as nat),
            None => pinned(name@, prefix@, lo as nat) is None,
        },
{
    let mut n: u64 = lo;
    while n <= 2048
        invariant
            0 < lo <= n <= 4096,
            n <= 2048 ==> shard_choice(n as nat, lo as nat),
            forall|m: nat|
                m < n && shard_choice(m, lo as nat) ==> !#[trigger] pins(name@, prefix@, m),
        decreases 4096 - n,
    {
        let mut full = prefix.to_owned();
        full.append(decimal_text(n).as_str());
        assert(full@ =~= prefix@ + digits(n as nat));
        if same(name, full.as_str()) {
            proof {
                assert(pins(name@, prefix@, n as nat));
                let c = choose|m: nat|
                    shard_choice(m, lo as nat) && #[trigger] pins(name@, prefix@, m);
                lemma_pins_once(name@, prefix@, n as nat, c);
            }
            return Some(n as usize);
        }
        proof {
            assert forall|m: nat| m < 2 * n && shard_choice(m, lo as nat) implies !#[trigger] pins(
                name@,
                prefix@,
                m,
            ) by {
                if m > n {
                    lemma_choices_double(n as nat, m, lo as nat);
                }
            }
            assert((2 * n) as nat / 2 == n);
        }
        n = n * 2;
    }
    None
}

pub open spec fn some_size(n: nat) -> Option<usize> {
    Some(n as usize)
}

/// The cache that a name stands for, for keys that are numbers.
pub open spec fn engine_named(name: Seq<char>) -> Option<Engine> {
    if name == "orig"@ {
        Some(Engine::Orig)
    } else if name == "v0"@ {
        Some(Engine::V0)
    } else if name == "j7"@ {
        Some(Engine::J7(None))
    } else if name == "j8"@ {
        Some(Engine::J8(None))
    } else if name == "senba"@ {
        Some(Engine::Senba(None))
    } else if name == "mini_moka"@ || name == "mini_moka_sync"@ {
        Some(Engine::MiniMokaSync)
    } else if name == "mini_moka_unsync"@ {
        Some(Engine::MiniMokaUnsync)
    } else if name == "moka"@ {
        Some(Engine::Moka)
    } else if pinned(name, "j7_n"@, 1) is Some {
        Some(Engine::J7(some_size(pinned(name, "j7_n"@, 1)->0)))
    } else if pinned(name, "j8_n"@, 16) is Some {
        Some(Engine::J8(some_size(pinned(name, "j8_n"@, 16)->0)))
    } else if pinned(name, "senba_n"@, 16) is Some {
        Some(Engine::Senba(some_size(pinned(name, "senba_n"@, 16)->0)))
    } else {
        None
    }
}

/// The cache that a name stands for, for keys that are texts.
pub open spec fn text_engine_named(name: Seq<char>) -> Option<Engine> {
    match engine_named(name) {
        Some(Engine::Orig) => Some(Engine::Orig),
        Some(Engine::Senba(n)) => Some(Engine::Senba(n)),
        Some(Engine::MiniMokaSync) => Some(Engine::MiniMokaSync),
        Some(Engine::MiniMokaUnsync) => Some(Engine::MiniMokaUnsync),
        _ => None,
    }
}

/// The cache that `name` stands for, for keys that are numbers.
pub fn engine_of(name: &str) -> (r: Option<Engine>)
    ensures
        r == engine_named(name@),
{
    if same(name, "orig") {
        Some(Engine::Orig)
    } else if same(name, "v0") {
        Some(Engine::V0)
    } else if same(name, "j7") {
        Some(Engine::J7(None))
    } else if same(name, "j8") {
        Some(Engine::J8(None))
    } else if same(name, "senba") {
        Some(Engine::Senba(None))
    } else if same(name, "mini_moka") || same(name, "mini_moka_sync") {
        Some(Engine::MiniMokaSync)
    } else if same(name, "mini_moka_unsync") {
        Some(Engine::MiniMokaUnsync)
    } else if same(name, "moka") {
        Some(Engine::Moka)
    } else {
        let j7 = pinned_shards(name, "j7_n", 1);
        if j7.is_some() {
            return Some(Engine::J7(j7));
        }
        let j8 = pinned_shards(name, "j8_n", 16);
        if j8.is_some() {
            return Some(Engine::J8(j8));
        }
        let senba = pinned_shards(name, "senba_n", 16);
        if senba.is_some() {
            return Some(Engine::Senba(senba));
        }
        None
    }
}

/// The cache that `name` stands for, for keys that are texts.
pub fn text_engine_of(name: &str) -> (r: Option<Engine>)
    ensures
        r == text_engine_named(name@),
{
    match engine_of(name) {
        Some(Engine::Orig) => Some(Engine::Orig),
        Some(Engine::Senba(n)) => Some(Engine::Senba(n)),
        Some(Engine::MiniMokaSync) => Some(Engine::MiniMokaSync),
        Some(Engine::MiniMokaUnsync) => Some(Engine::MiniMokaUnsync),
        _ => None,
    }
}

/// The number of shards is read back from the name that pins it.
pub proof fn law_pinned(prefix: Seq<char>, lo: nat, n: nat)
    requires
        shard_choice(n, lo),
    ensures
        pinned(prefix + digits(n), prefix, lo) == Some(n),
{
    let name = prefix + digits(n);
    assert(pins(name, prefix, n));
    let c = choose|m: nat| shard_choice(m, lo) && #[trigger] pins(name, prefix, m);
    lemma_pins_once(name, prefix, n, c);
}

impl Args {
    /// Each setting is what the field of its name holds.
    pub proof fn law_fields(self)
        ensures
            self.model().source == self.source@,
            self.model().source_explicit == self.source_explicit,
            self.skew is None <==> self.model().skew is None,
            self.skew matches Some(t) ==> self.model().skew == Some(t@),
            self.model().keys == self.keys,
            self.model().seed == self.seed,
            self.model().len == self.len,
            self.path is None <==> self.model().path is None,
            self.path matches Some(t) ==> self.model().path == Some(t@),
            self.model().capacities == self.capacities@,
            self.model().variants.len() == self.variants@.len(),
            forall|i: int|
                0 <= i < self.variants@.len() ==> #[trigger] self.model().variants[i] == self.variants@[i]@,
            self.arc_preset is None <==> self.model().arc_preset is None,
            self.arc_preset matches Some(t) ==> self.model().arc_preset == Some(t@),
            self.model().repeat == self.repeat,
    {
    }
}

/// What tells two flags apart.
spec fn flag_mark(f: Seq<char>) -> (nat, char, char) {
    (f.len(), f[2], f[3])
}

#[verifier::spinoff_prover]
proof fn lemma_flag_marks()
    ensures
        flag_mark("--len"@) == (5nat, 'l', 'e'),
        flag_mark("--keys"@) == (6nat, 'k', 'e'),
        flag_mark("--seed"@) == (6nat, 's', 'e'),
        flag_mark("--repeat"@) == (8nat, 'r', 'e'),
        flag_mark("--path"@) == (6nat, 'p', 'a'),
        flag_mark("--source"@) == (8nat, 's', 'o'),
        flag_mark("--arc-preset"@) == (12nat, 'a', 'r'),
        flag_mark("--skew"@) == (6nat, 's', 'k'),
        flag_mark("--variant"@) == (9nat, 'v', 'a'),
        flag_mark("--capacity"@) == (10nat, 'c', 'a'),
{
    reveal_strlit("--len");
    reveal_strlit("--keys");
    reveal_strlit("--seed");
    reveal_strlit("--repeat");
    reveal_strlit("--path");
    reveal_strlit("--source");
    reveal_strlit("--arc-preset");
    reveal_strlit("--skew");
    reveal_strlit("--variant");
    reveal_strlit("--capacity");
}

/// Each flag that takes a size sets what it names to the number that is written, and nothing
/// else; what is no number is refused.
#[verifier::spinoff_prover]
pub proof fn law_size_flags(m: Model, n: usize, v: Seq<char>)
    ensures
        <Args as Settings>::with(m, "--len"@, digits(n as nat)) == Ok::<Model, SetError>(Model { len: Some(n), ..m }),
        number(v, usize::MAX as nat) is None ==> <Args as Settings>::with(m, "--len"@, v) == Err::<Model, SetError>(SetError::BadValue),
{
    lemma_flag_marks();
    law_digits_round_trip(n as nat, usize::MAX as nat);
}

/// The flags that take a 64-bit number or a count do the same with it.
#[verifier::spinoff_prover]
pub proof fn law_long_flags(m: Model, n: u64, c: u32, v: Seq<char>)
    ensures
        <Args as Settings>::with(m, "--keys"@, digits(n as nat)) == Ok::<Model, SetError>(Model { keys: n, ..m }),
        number(v, u64::MAX as nat) is None ==> <Args as Settings>::with(m, "--keys"@, v) == Err::<Model, SetError>(SetError::BadValue),
        <Args as Settings>::with(m, "--seed"@, digits(n as nat)) == Ok::<Model, SetError>(Model { seed: n, ..m }),
        number(v, u64::MAX as nat) is None ==> <Args as Settings>::with(m, "--seed"@, v) == Err::<Model, SetError>(SetError::BadValue),
        <Args as Settings>::with(m, "--repeat"@, digits(c as nat)) == Ok::<Model, SetError>(Model { repeat: c, ..m }),
        number(v, u32::MAX as nat) is None ==> <Args as Settings>::with(m, "--repeat"@, v) == Err::<Model, SetError>(SetError::BadValue),
{
    lemma_flag_marks();
    law_digits_round_trip(n as nat, u64::MAX as nat);
    law_digits_round_trip(c as nat, u32::MAX as nat);
}

/// The other flags set what they name to the text, the list or the choice that is written.
#[verifier::spinoff_prover]
pub proof fn law_text_flags(m: Model, t: Seq<char>)
    ensures
        <Args as Settings>::with(m, "--path"@, t) == Ok::<Model, SetError>(Model { path: Some(t), ..m }),
        <Args as Settings>::with(m, "--source"@, t) == Ok::<Model, SetError>(Model { source: t, source_explicit: true, ..m }),
        <Args as Settings>::with(m, "--arc-preset"@, t) == Ok::<Model, SetError>(Model { arc_preset: Some(t), ..m }),
        is_float(t) ==> <Args as Settings>::with(m, "--skew"@, t) == Ok::<Model, SetError>(Model { skew: Some(t), ..m }),
        !is_float(t) ==> <Args as Settings>::with(m, "--skew"@, t) == Err::<Model, SetError>(SetError::BadValue),
        <Args as Settings>::with(m, "--variant"@, t) == Ok::<Model, SetError>(Model { variants: names_in(t), ..m }),
        sizes_in(t) matches Ok(s) ==> <Args as Settings>::with(m, "--capacity"@, t) == Ok::<Model, SetError>(Model { capacities: s, ..m }),
        sizes_in(t) is Err ==> <Args as Settings>::with(m, "--capacity"@, t) == Err::<Model, SetError>(SetError::BadValue),
{
    lemma_flag_marks();
}

/// There are these flags and no others.
#[verifier::spinoff_prover]
pub proof fn law_known_flags(flag: Seq<char>)
    ensures
        <Args as Settings>::takes(flag) <==> flag == "--len"@
            || flag == "--keys"@
            || flag == "--seed"@
            || flag == "--repeat"@
            || flag == "--path"@
            || flag == "--source"@
            || flag == "--arc-preset"@
            || flag == "--skew"@
            || flag == "--variant"@
            || flag == "--capacity"@,
{
}

/// A run needs to be repeated at least once, a capacity and a cache; settings with all of them
/// are taken as they are, and otherwise the first that is missing is named.
pub proof fn law_checked(m: Model)
    ensures
        checked(m) is Ok <==> m.repeat > 0 && m.capacities.len() > 0 && m.variants.len() > 0,
        checked(m) matches Ok(r) ==> r == m,
        checked(m) matches Err(BenchError::NoRepeat) <==> m.repeat == 0,
        checked(m) matches Err(BenchError::NoCapacity) <==> m.repeat > 0 && m.capacities.len() == 0,
        checked(m) matches Err(BenchError::NoVariant) <==> m.repeat > 0 && m.capacities.len() > 0
            && m.variants.len() == 0,
{
}

/// A preset gives the file of its trace and its capacities where no flag did, and makes the
/// source an ARC trace where none was named. It changes nothing else. A name without a preset is
/// refused.
pub proof fn law_presets_fill_in(m: Model, name: Seq<char>)
    requires
        m.arc_preset == Some(name),
    ensures
        preset_of(name) is None ==> resolved(m) == Err::<Model, BenchError>(
            BenchError::UnknownPreset,
        ),
        resolved(m) matches Ok(r) ==> {
            &&& preset_of(name) is Some
            &&& !m.source_explicit ==> r.source == "arc"@
            &&& m.path is None ==> r.path == Some(preset_of(name)->0.trace_path)
            &&& m.capacities.len() == 0 ==> r.capacities == preset_of(name)->0.default_capacities
            &&& r == (Model { source: r.source, path: r.path, capacities: r.capacities, ..m })
        },
        resolved(Model { arc_preset: None, ..m }) == checked(Model { arc_preset: None, ..m }),
{
}

/// Each source that is a file is read in its own format up to the length that is asked for; it
/// needs a path. Keys drawn at random need their number, their range and their skew.
#[verifier::spinoff_prover]
pub proof fn law_plans(m: Model)
    ensures
        m.path is Some ==> {
            &&& m.source == "file"@ ==> planned(m) == Ok::<TracePlan, PlanError>(
                TracePlan::File { format: Format::Keys, limit: m.len },
            )
            &&& m.source == "twitter"@ ==> planned(m) == Ok::<TracePlan, PlanError>(
                TracePlan::File { format: Format::TwitterCsv, limit: m.len },
            )
            &&& m.source == "arc"@ ==> planned(m) == Ok::<TracePlan, PlanError>(
                TracePlan::File { format: Format::Arc, limit: m.len },
            )
            &&& m.source == "libcachesim-csv"@ ==> planned(m) == Ok::<TracePlan, PlanError>(
                TracePlan::File { format: Format::LibcachesimCsv, limit: m.len },
            )
            &&& m.source == "twitter-string"@ ==> planned(m) == Ok::<TracePlan, PlanError>(
                TracePlan::Texts { limit: m.len },
            )
        },
        m.path is None && (m.source == "file"@ || m.source == "twitter"@ || m.source == "arc"@
            || m.source == "libcachesim-csv"@ || m.source == "twitter-string"@) ==> planned(m)
            == Err::<TracePlan, PlanError>(PlanError::NoPath),
        m.source == "zipf"@ ==> {
            &&& planned(m) is Ok <==> m.len is Some && m.keys > 0 && m.skew is Some
            &&& planned(m) matches Ok(p) ==> p == (TracePlan::Zipf {
                len: m.len->0,
                keys: m.keys,
                seed: m.seed,
            })
            &&& m.len is None ==> planned(m) == Err::<TracePlan, PlanError>(PlanError::NoLen)
            &&& m.len is Some && m.keys == 0 ==> planned(m) == Err::<TracePlan, PlanError>(
                PlanError::NoKeys,
            )
            &&& m.len is Some && m.keys > 0 && m.skew is None ==> planned(m) == Err::<
                TracePlan,
                PlanError,
            >(PlanError::NoSkew)
        },
        planned(m) == Err::<TracePlan, PlanError>(PlanError::UnknownSource) <==> m.source
            != "zipf"@ && m.source != "file"@ && m.source != "twitter"@ && m.source != "arc"@
            && m.source != "libcachesim-csv"@ && m.source != "twitter-string"@,
{
    reveal_strlit("zipf");
    reveal_strlit("file");
    reveal_strlit("twitter");
    reveal_strlit("arc");
    reveal_strlit("libcachesim-csv");
    reveal_strlit("twitter-string");
    assert("zipf"@[0] != "file"@[0]);
    assert("zipf"@.len() == 4 && "file"@.len() == 4 && "twitter"@.len() == 7 && "arc"@.len() == 3
        && "libcachesim-csv"@.len() == 15 && "twitter-string"@.len() == 14);
}

/// The numbers of shards that can be pinned are the powers of two from the least one up to 2048.
pub proof fn law_shard_choices(n: nat)
    ensures
        shard_choice(n, 16) <==> n == 16 || n == 32 || n == 64 || n == 128 || n == 256 || n == 512
            || n == 1024 || n == 2048,
        shard_choice(n, 1) <==> n == 1 || n == 2 || n == 4 || n == 8 || shard_choice(n, 16),
{
    reveal_with_fuel(shard_choice, 13);
}

/// A cache with a number of shards behind its name is that cache with so many shards; the plain
/// names are the caches that they say.
#[verifier::spinoff_prover]
pub proof fn law_engines(n: nat)
    requires
        shard_choice(n, 16),
    ensures
        engine_named("senba_n"@ + digits(n)) == Some(Engine::Senba(Some(n as usize))),
        text_engine_named("senba_n"@ + digits(n)) == Some(Engine::Senba(Some(n as usize))),
        engine_named("orig"@) == Some(Engine::Orig),
        engine_named("v0"@) == Some(Engine::V0),
        engine_named("senba"@) == Some(Engine::Senba(None)),
        engine_named("mini_moka"@) == Some(Engine::MiniMokaSync),
        engine_named("mini_moka_sync"@) == Some(Engine::MiniMokaSync),
        engine_named("mini_moka_unsync"@) == Some(Engine::MiniMokaUnsync),
        engine_named("moka"@) == Some(Engine::Moka),
        text_engine_named("moka"@) is None,
        text_engine_named("v0"@) is None,
{
    lemma_engine_marks();
    lemma_digits(n);
    law_pinned("senba_n"@, 16, n);
    let name = "senba_n"@ + digits(n);
    assert(engine_mark(name) == engine_mark("senba_n"@ + digits(n)));
    assert(name[0] == "senba_n"@[0] && name[5] == "senba_n"@[5] && name.len() > 7);
    assert(pinned(name, "j7_n"@, 1) is None) by {
        assert forall|k: nat| !#[trigger] pins(name, "j7_n"@, k) by {
            assert(("j7_n"@ + digits(k))[0] == 'j') by {
                lemma_digits(k);
            }
        }
    }
    assert(pinned(name, "j8_n"@, 16) is None) by {
        assert forall|k: nat| !#[trigger] pins(name, "j8_n"@, k) by {
            assert(("j8_n"@ + digits(k))[0] == 'j') by {
                lemma_digits(k);
            }
        }
    }
}

/// A name stands for the same cache whatever the keys are, but four of the caches take no texts.
pub proof fn law_text_engines(name: Seq<char>)
    ensures
        text_engine_named(name) is Some ==> text_engine_named(name) == engine_named(name),
        engine_named(name) matches Some(e) ==> (text_engine_named(name) is None <==> e is V0
            || e is J7 || e is J8 || e is Moka),
{
}

spec fn engine_mark(name: Seq<char>) -> (nat, char, char) {
    (name.len(), name[0], name[1])
}

#[verifier::spinoff_prover]
proof fn lemma_engine_marks()
    ensures
        engine_mark("orig"@) == (4nat, 'o', 'r'),
        engine_mark("v0"@) == (2nat, 'v', '0'),
        engine_mark("j7"@) == (2nat, 'j', '7'),
        engine_mark("j8"@) == (2nat, 'j', '8'),
        engine_mark("senba"@) == (5nat, 's', 'e'),
        engine_mark("mini_moka"@) == (9nat, 'm', 'i'),
        engine_mark("mini_moka_sync"@) == (14nat, 'm', 'i'),
        engine_mark("mini_moka_unsync"@) == (16nat, 'm', 'i'),
        engine_mark("moka"@) == (4nat, 'm', 'o'),
        engine_mark("j7_n"@) == (4nat, 'j', '7'),
        engine_mark("j8_n"@) == (4nat, 'j', '8'),
        engine_mark("senba_n"@) == (7nat, 's', 'e'),
        "senba_n"@[5] == '_',
{
    reveal_strlit("orig");
    reveal_strlit("v0");
    reveal_strlit("j7");
    reveal_strlit("j8");
    reveal_strlit("senba");
    reveal_strlit("mini_moka");
    reveal_strlit("mini_moka_sync");
    reveal_strlit("mini_moka_unsync");
    reveal_strlit("moka");
    reveal_strlit("j7_n");
    reveal_strlit("j8_n");
    reveal_strlit("senba_n");
}

/// A command line that cannot be read is refused for that reason, and one that asks for help
/// asks for nothing else. Of any other the settings are those that its flags make of the
/// defaults, where a run can be made with them.
pub proof fn law_asked(argv: Seq<Seq<char>>)
    ensures
        parsed::<Args>(argv, 0, defaults()) matches Err(e) ==> asked(argv) == Err::<
            Option<Model>,
            BenchError,
        >(BenchError::Line(e)),
        parsed::<Args>(argv, 0, defaults()) == Ok::<Option<Model>, ArgError>(None) <==> asked(argv)
            == Ok::<Option<Model>, BenchError>(None),
        asked(argv) matches Ok(Some(r)) ==> exists|m: Model| #[trigger]
            resolved(m) == Ok::<Model, BenchError>(r) && parsed::<Args>(argv, 0, defaults()) == Ok::<
                Option<Model>,
                ArgError,
            >(Some(m)),
        parsed::<Args>(argv, 0, defaults()) matches Ok(Some(m)) ==> (asked(argv) is Ok <==> resolved(
            m,
        ) is Ok),
{
    if let Ok(Some(m)) = parsed::<Args>(argv, 0, defaults()) {
        if let Ok(r) = resolved(m) {
            assert(resolved(m) == Ok::<Model, BenchError>(r));
        }
    }
}

/// A name stands for a cache only where it is one of the plain names or pins a number of shards.
pub proof fn law_engines_only(name: Seq<char>)
    ensures
        engine_named(name) is Some <==> {
            ||| name == "orig"@ || name == "v0"@ || name == "j7"@ || name == "j8"@ || name
                == "senba"@
            ||| name == "mini_moka"@ || name == "mini_moka_sync"@ || name == "mini_moka_unsync"@
                || name == "moka"@
            ||| exists|k: nat| shard_choice(k, 1) && name == "j7_n"@ + #[trigger] digits(k)
            ||| exists|k: nat| shard_choice(k, 16) && name == "j8_n"@ + #[trigger] digits(k)
            ||| exists|k: nat| shard_choice(k, 16) && name == "senba_n"@ + #[trigger] digits(k)
        },
{
    if exists|k: nat| shard_choice(k, 1) && name == "j7_n"@ + #[trigger] digits(k) {
        let k = choose|k: nat| shard_choice(k, 1) && name == "j7_n"@ + #[trigger] digits(k);
        assert(pins(name, "j7_n"@, k));
    }
    if pinned(name, "j7_n"@, 1) is Some {
        let k = choose|k: nat| shard_choice(k, 1) && #[trigger] pins(name, "j7_n"@, k);
        assert(name == "j7_n"@ + digits(k));
    }
    if exists|k: nat| shard_choice(k, 16) && name == "j8_n"@ + #[trigger] digits(k) {
        let k = choose|k: nat| shard_choice(k, 16) && name == "j8_n"@ + #[trigger] digits(k);
        assert(pins(name, "j8_n"@, k));
    }
    if pinned(name, "j8_n"@, 16) is Some {
        let k = choose|k: nat| shard_choice(k, 16) && #[trigger] pins(name, "j8_n"@, k);
        assert(name == "j8_n"@ + digits(k));
    }
    if exists|k: nat| shard_choice(k, 16) && name == "senba_n"@ + #[trigger] digits(k) {
        let k = choose|k: nat| shard_choice(k, 16) && name == "senba_n"@ + #[trigger] digits(k);
        assert(pins(name, "senba_n"@, k));
    }
    if pinned(name, "senba_n"@, 16) is Some {
        let k = choose|k: nat| shard_choice(k, 16) && #[trigger] pins(name, "senba_n"@, k);
        assert(name == "senba_n"@ + digits(k));
    }
}

/// A setting whose flag a command line does not name has its default.
#[verifier::spinoff_prover]
#[verifier::rlimit(60)]
pub proof fn law_defaults(argv: Seq<Seq<char>>)
    ensures
        parsed::<Args>(argv, 0, defaults()) matches Ok(Some(r)) ==> {
            &&& !names(argv, 0, "--keys"@) ==> r.keys == 0
            &&& !names(argv, 0, "--seed"@) ==> r.seed == 0
            &&& !names(argv, 0, "--len"@) ==> r.len == None::<usize>
            &&& !names(argv, 0, "--repeat"@) ==> r.repeat == 1
            &&& !names(argv, 0, "--skew"@) ==> r.skew == None::<Seq<char>>
            &&& !names(argv, 0, "--path"@) ==> r.path == None::<Seq<char>>
            &&& !names(argv, 0, "--arc-preset"@) ==> r.arc_preset == None::<Seq<char>>
            &&& !names(argv, 0, "--source"@) ==> r.source == "zipf"@
            &&& !names(argv, 0, "--capacity"@) ==> r.capacities == Seq::<usize>::empty()
            &&& !names(argv, 0, "--variant"@) ==> r.variants == Seq::<Seq<char>>::empty()
        },
{
    lemma_flag_marks();
    if !names(argv, 0, "--keys"@) {
        lemma_one_flag::<Args, u64>(argv, 0, defaults(), |m: Model| m.keys, "--keys"@);
    }
    if !names(argv, 0, "--seed"@) {
        lemma_one_flag::<Args, u64>(argv, 0, defaults(), |m: Model| m.seed, "--seed"@);
    }
    if !names(argv, 0, "--len"@) {
        lemma_one_flag::<Args, Option<usize>>(argv, 0, defaults(), |m: Model| m.len, "--len"@);
    }
    if !names(argv, 0, "--repeat"@) {
        lemma_one_flag::<Args, u32>(argv, 0, defaults(), |m: Model| m.repeat, "--repeat"@);
    }
    if !names(argv, 0, "--skew"@) {
        lemma_one_flag::<Args, Option<Seq<char>>>(argv, 0, defaults(), |m: Model| m.skew, "--skew"@);
    }
    if !names(argv, 0, "--path"@) {
        lemma_one_flag::<Args, Option<Seq<char>>>(argv, 0, defaults(), |m: Model| m.path, "--path"@);
    }
    if !names(argv, 0, "--arc-preset"@) {
        lemma_one_flag::<Args, Option<Seq<char>>>(argv, 0, defaults(), |m: Model| m.arc_preset, "--arc-preset"@);
    }
    if !names(argv, 0, "--source"@) {
        lemma_one_flag::<Args, Seq<char>>(argv, 0, defaults(), |m: Model| m.source, "--source"@);
    }
    if !names(argv, 0, "--capacity"@) {
        lemma_one_flag::<Args, Seq<usize>>(argv, 0, defaults(), |m: Model| m.capacities, "--capacity"@);
    }
    if !names(argv, 0, "--variant"@) {
        lemma_one_flag::<Args, Seq<Seq<char>>>(argv, 0, defaults(), |m: Model| m.variants, "--variant"@);
    }
}

proof fn lemma_number_taken(argv: Seq<Seq<char>>, i: int, m: Model, at: int)
    requires
        0 <= i <= at,
        at + 1 < argv.len(),
        (at - i) % 2 == 0,
        parsed::<Args>(argv, i, m) matches Ok(Some(_)),
    ensures
        exists|x: Model| (#[trigger] <Args as Settings>::with(x, argv[at], argv[at + 1])) is Ok,
    decreases at - i,
{
    if i < at {
        lemma_number_taken(
            argv,
            i + 2,
            <Args as Settings>::with(m, argv[i], argv[i + 1])->Ok_0,
            at,
        );
    } else {
        assert(<Args as Settings>::with(m, argv[at], argv[at + 1]) is Ok);
    }
}

/// Of a number that a command line gives more than once the last counts.
#[verifier::spinoff_prover]
#[verifier::rlimit(60)]
pub proof fn law_last_number_counts(argv: Seq<Seq<char>>, at: int)
    requires
        0 <= at,
        at + 1 < argv.len(),
        at % 2 == 0,
    ensures
        parsed::<Args>(argv, 0, defaults()) matches Ok(Some(r)) ==> {
            &&& argv[at] == "--keys"@ && !names(argv, at + 2, "--keys"@) ==> number(argv[at + 1], u64::MAX as nat) == Some(r.keys as nat)
            &&& argv[at] == "--seed"@ && !names(argv, at + 2, "--seed"@) ==> number(argv[at + 1], u64::MAX as nat) == Some(r.seed as nat)
            &&& argv[at] == "--repeat"@ && !names(argv, at + 2, "--repeat"@) ==> number(argv[at + 1], u32::MAX as nat) == Some(r.repeat as nat)
        },
{
    lemma_flag_marks();
    if parsed::<Args>(argv, 0, defaults()) matches Ok(Some(_)) {
        if argv[at] == "--keys"@ && !names(argv, at + 2, "--keys"@) {
            lemma_last_flag::<Args, nat>(
                argv,
                0,
                defaults(),
                |m: Model| m.keys as nat,
                "--keys"@,
                at,
                number(argv[at + 1], u64::MAX as nat)->0,
            );
            lemma_number_taken(argv, 0, defaults(), at);
        }
        if argv[at] == "--seed"@ && !names(argv, at + 2, "--seed"@) {
            lemma_last_flag::<Args, nat>(
                argv,
                0,
                defaults(),
                |m: Model| m.seed as nat,
                "--seed"@,
                at,
                number(argv[at + 1], u64::MAX as nat)->0,
            );
            lemma_number_taken(argv, 0, defaults(), at);
        }
        if argv[at] == "--repeat"@ && !names(argv, at + 2, "--repeat"@) {
            lemma_last_flag::<Args, nat>(
                argv,
                0,
                defaults(),
                |m: Model| m.repeat as nat,
                "--repeat"@,
                at,
                number(argv[at + 1], u32::MAX as nat)->0,
            );
            lemma_number_taken(argv, 0, defaults(), at);
        }
    }
}

} // verus!
