//! Command lines of flags that each take one value.

use vstd::prelude::*;

use crate::harness::value::{digits, law_digits_round_trip};
use crate::spelling::law_fields_first;
use crate::text::{
    fields, is_float, joined, number, parse_u32, parse_u64, parse_usize, same, split,
    strings, texts, trim, trimmed, writes_float,
};

verus! {

/// Why a command line is refused. `at` is the position of the flag concerned.
#[derive(Clone, Copy, Debug, PartialEq, Eq, Structural)]
pub enum ArgError {
    /// The flag stands last and its value is missing.
    MissingValue { at: usize },
    /// There is no such flag.
    UnknownFlag { at: usize },
    /// The value is not of the kind that the flag takes.
    BadValue { at: usize },
    /// There is no preset of that name.
    UnknownPreset { at: usize },
}

/// Why a flag does not take a value.
#[derive(Clone, Copy, Debug, PartialEq, Eq, Structural)]
pub enum SetError {
    BadValue,
    UnknownPreset,
}

/// The settings of a program while its command line is read.
pub trait Settings: Sized {
    /// What the settings say, as mathematical values.
    type M;

    spec fn model(self) -> Self::M;

    /// Whether there is such a flag.
    spec fn takes(flag: Seq<char>) -> bool;

    /// The settings `m` after a flag with its value.
    spec fn with(m: Self::M, flag: Seq<char>, value: Seq<char>) -> Result<Self::M, SetError>;

    fn is_flag(flag: &str) -> (r: bool)
        ensures
            r == Self::takes(flag@),
    ;

    fn set(&mut self, flag: &str, value: &str) -> (r: Result<(), SetError>)
        requires
            Self::takes(flag@),
        ensures
            match r {
                Ok(_) => Self::with(old(self).model(), flag@, value@) == Ok::<Self::M, SetError>(
                    final(self).model(),
                ),
                Err(e) => Self::with(old(self).model(), flag@, value@) == Err::<Self::M, SetError>(e),
            },
    ;
}

pub open spec fn is_help(flag: Seq<char>) -> bool {
    flag == "-h"@ || flag == "--help"@
}

/// The settings after the flags from position `i` on, read from left to right;
/// `None` where the help flag is met first. A later flag overrides an earlier one.
pub open spec fn parsed<S: Settings>(argv: Seq<Seq<char>>, i: int, m: S::M) -> Result<
    Option<S::M>,
    ArgError,
>
    decreases argv.len() - i,
{
    if i >= argv.len() {
        Ok(Some(m))
    } else if is_help(argv[i]) {
        Ok(None)
    } else if !S::takes(argv[i]) {
        Err(ArgError::UnknownFlag { at: i as usize })
    } else if i + 1 >= argv.len() {
        Err(ArgError::MissingValue { at: i as usize })
    } else {
        match S::with(m, argv[i], argv[i + 1]) {
            Ok(next) => parsed::<S>(argv, i + 2, next),
            Err(SetError::BadValue) => Err(ArgError::BadValue { at: i as usize }),
            Err(SetError::UnknownPreset) => Err(ArgError::UnknownPreset { at: i as usize }),
        }
    }
}

/// Reads a command line into `settings`; `None` where it asks for help.
pub fn parse<S: Settings>(argv: &Vec<String>, settings: S) -> (r: Result<Option<S>, ArgError>)
    ensures
        match r {
            Ok(Some(s)) => parsed::<S>(strings(argv@), 0, settings.model()) == Ok::<
                Option<S::M>,
                ArgError,
            >(Some(s.model())),
            Ok(None) => parsed::<S>(strings(argv@), 0, settings.model()) == Ok::<
                Option<S::M>,
                ArgError,
            >(None),
            Err(e) => parsed::<S>(strings(argv@), 0, settings.model()) == Err::<
                Option<S::M>,
                ArgError,
            >(e),
        },
{
    let ghost all = strings(argv@);
    let ghost start = settings.model();
    let mut now = settings;
    let mut i: usize = 0;
    while i < argv.len()
        invariant
            i <= argv@.len(),
            all == strings(argv@),
            start == settings.model(),
            parsed::<S>(all, i as int, now.model()) == parsed::<S>(all, 0, start),
        decreases argv@.len() - i,
    {
        let flag = argv[i].as_str();
        assert(flag@ == all[i as int]);
        if same(flag, "-h") || same(flag, "--help") {
            return Ok(None);
        }
        if !S::is_flag(flag) {
            return Err(ArgError::UnknownFlag { at: i });
        }
        if argv.len() - i < 2 {
            return Err(ArgError::MissingValue { at: i });
        }
        let value = argv[i + 1].as_str();
        assert(value@ == all[i + 1]);
        match now.set(flag, value) {
            Ok(_) => {},
            Err(SetError::BadValue) => {
                return Err(ArgError::BadValue { at: i });
            },
            Err(SetError::UnknownPreset) => {
                return Err(ArgError::UnknownPreset { at: i });
            },
        }
        i += 2;
    }
    Ok(Some(now))
}

pub open spec fn usize_in(value: Seq<char>) -> Result<usize, SetError> {
    match number(value, usize::MAX as nat) {
        Some(n) => Ok(n as usize),
        None => Err(SetError::BadValue),
    }
}

pub open spec fn u64_in(value: Seq<char>) -> Result<u64, SetError> {
    match number(value, u64::MAX as nat) {
        Some(n) => Ok(n as u64),
        None => Err(SetError::BadValue),
    }
}

pub open spec fn u32_in(value: Seq<char>) -> Result<u32, SetError> {
    match number(value, u32::MAX as nat) {
        Some(n) => Ok(n as u32),
        None => Err(SetError::BadValue),
    }
}

pub fn usize_of(value: &str) -> (r: Result<usize, SetError>)
    ensures
        r == usize_in(value@),
{
    match parse_usize(value) {
        Some(n) => Ok(n),
        None => Err(SetError::BadValue),
    }
}

pub fn u64_of(value: &str) -> (r: Result<u64, SetError>)
    ensures
        r == u64_in(value@),
{
    match parse_u64(value) {
        Some(n) => Ok(n),
        None => Err(SetError::BadValue),
    }
}

pub fn u32_of(value: &str) -> (r: Result<u32, SetError>)
    ensures
        r == u32_in(value@),
{
    match parse_u32(value) {
        Some(n) => Ok(n),
        None => Err(SetError::BadValue),
    }
}

/// The settings that `f` makes of a value, where it is of the right kind.
pub open spec fn taken<T, M>(value: Result<T, SetError>, f: spec_fn(T) -> M) -> Result<M, SetError> {
    match value {
        Ok(v) => Ok(f(v)),
        Err(e) => Err(e),
    }
}

/// The text of a floating-point number; the number itself is not computed here.
pub open spec fn float_in(value: Seq<char>) -> Result<Seq<char>, SetError> {
    if is_float(value) {
        Ok(value)
    } else {
        Err(SetError::BadValue)
    }
}

pub fn float_of(value: &str) -> (r: Result<String, SetError>)
    ensures
        match r {
            Ok(t) => float_in(value@) == Ok::<Seq<char>, SetError>(t@),
            Err(e) => float_in(value@) == Err::<Seq<char>, SetError>(e),
        },
{
    if writes_float(value) {
        Ok(value.to_owned())
    } else {
        Err(SetError::BadValue)
    }
}

/// The entries of a list with commas, without the white space around them.
pub open spec fn names_in(value: Seq<char>) -> Seq<Seq<char>> {
    Seq::new(fields(value, ',').len(), |i: int| trimmed(fields(value, ',')[i]))
}

pub fn names_of(value: &str) -> (v: Vec<String>)
    ensures
        strings(v@) == names_in(value@),
{
    let pieces = split(value, ',');
    let mut v: Vec<String> = Vec::new();
    let mut i: usize = 0;
    while i < pieces.len()
        invariant
            i <= pieces@.len(),
            texts(pieces@) == fields(value@, ','),
            strings(v@) == names_in(value@).take(i as int),
        decreases pieces@.len() - i,
    {
        assert(texts(pieces@)[i as int] == pieces@[i as int]@);
        let ghost before = strings(v@);
        let name = trim(pieces[i]).to_owned();
        v.push(name);
        proof {
            assert(strings(v@) =~= before.push(name@));
            assert(names_in(value@).take(i + 1) =~= names_in(value@).take(i as int).push(name@));
        }
        i += 1;
    }
    assert(texts(pieces@).len() == pieces@.len());
    assert(names_in(value@).take(i as int) =~= names_in(value@));
    v
}

/// The numbers of a list with commas.
pub open spec fn sizes_in(value: Seq<char>) -> Result<Seq<usize>, SetError> {
    let names = names_in(value);
    if forall|i: int| 0 <= i < names.len() ==> usize_in(#[trigger] names[i]) is Ok {
        Ok(Seq::new(names.len(), |i: int| usize_in(names[i])->Ok_0))
    } else {
        Err(SetError::BadValue)
    }
}

pub fn sizes_of(value: &str) -> (r: Result<Vec<usize>, SetError>)
    ensures
        match r {
            Ok(v) => sizes_in(value@) == Ok::<Seq<usize>, SetError>(v@),
            Err(e) => sizes_in(value@) == Err::<Seq<usize>, SetError>(e),
        },
{
    let names = names_of(value);
    let ghost all = names_in(value@);
    let mut v: Vec<usize> = Vec::new();
    let mut i: usize = 0;
    while i < names.len()
        invariant
            i <= names@.len(),
            all == names_in(value@),
            strings(names@) == all,
            v@.len() == i,
            forall|k: int| 0 <= k < i ==> usize_in(#[trigger] all[k]) == Ok::<usize, SetError>(v@[k]),
        decreases names@.len() - i,
    {
        assert(strings(names@)[i as int] == names@[i as int]@);
        match usize_of(names[i].as_str()) {
            Ok(n) => {
                v.push(n);
            },
            Err(e) => {
                return Err(e);
            },
        }
        i += 1;
    }
    assert(strings(names@).len() == names@.len());
    assert(sizes_in(value@) is Ok);
    assert(sizes_in(value@)->Ok_0 =~= v@);
    Ok(v)
}

/// The text in an optional string.
pub open spec fn opt_text(s: Option<String>) -> Option<Seq<char>> {
    match s {
        Some(t) => Some(t@),
        None => None,
    }
}

/// A command line is read flag by flag from left to right: each flag takes the value behind it,
/// and the rest is read with the settings that this leaves. It ends well with its last value, or
/// at a flag that asks for help; a flag that is unknown, has no value or does not take it is
/// refused at its place.
pub proof fn law_command_line<S: Settings>(argv: Seq<Seq<char>>, i: int, m: S::M)
    requires
        0 <= i <= argv.len() <= usize::MAX,
    ensures
        i == argv.len() ==> parsed::<S>(argv, i, m) == Ok::<Option<S::M>, ArgError>(Some(m)),
        i < argv.len() && (argv[i] == "-h"@ || argv[i] == "--help"@) ==> parsed::<S>(argv, i, m)
            == Ok::<Option<S::M>, ArgError>(None),
        i < argv.len() && argv[i] != "-h"@ && argv[i] != "--help"@ ==> {
            &&& !S::takes(argv[i]) ==> parsed::<S>(argv, i, m) == Err::<Option<S::M>, ArgError>(
                ArgError::UnknownFlag { at: i as usize },
            )
            &&& S::takes(argv[i]) && i == argv.len() - 1 ==> parsed::<S>(argv, i, m) == Err::<
                Option<S::M>,
                ArgError,
            >(ArgError::MissingValue { at: i as usize })
            &&& S::takes(argv[i]) && i < argv.len() - 1 ==> (match S::with(
                m,
                argv[i],
                argv[i + 1],
            ) {
                Ok(next) => parsed::<S>(argv, i, m) == parsed::<S>(argv, i + 2, next),
                Err(SetError::BadValue) => parsed::<S>(argv, i, m) == Err::<
                    Option<S::M>,
                    ArgError,
                >(ArgError::BadValue { at: i as usize }),
                Err(SetError::UnknownPreset) => parsed::<S>(argv, i, m) == Err::<
                    Option<S::M>,
                    ArgError,
                >(ArgError::UnknownPreset { at: i as usize }),
            })
        },
{
}

/// Pieces with a separator between each two are split into these pieces again.
pub proof fn law_split_joined(pieces: Seq<Seq<char>>, sep: char)
    requires
        pieces.len() > 0,
        forall|i: int| 0 <= i < pieces.len() ==> !(#[trigger] pieces[i]).contains(sep),
    ensures
        fields(joined(pieces, sep), sep) == pieces,
    decreases pieces.len(),
{
    let first = pieces[0];
    assert forall|k: int| 0 <= k < first.len() implies #[trigger] first[k] != sep by {
        assert(!first.contains(sep));
    }
    if pieces.len() == 1 {
        law_fields_first(first, Seq::empty(), sep);
        assert(pieces =~= seq![first]);
    } else {
        let rest = pieces.skip(1);
        assert forall|i: int| 0 <= i < rest.len() implies !(#[trigger] rest[i]).contains(sep) by {
            assert(rest[i] == pieces[i + 1]);
        }
        law_split_joined(rest, sep);
        law_fields_first(first, joined(rest, sep), sep);
        assert(first.push(sep) =~= first + seq![sep]);
        assert(seq![first] + rest =~= pieces);
    }
}

/// A list with commas names its entries in order, without the white space around each.
pub proof fn law_names(pieces: Seq<Seq<char>>)
    requires
        pieces.len() > 0,
        forall|i: int| 0 <= i < pieces.len() ==> !(#[trigger] pieces[i]).contains(','),
    ensures
        names_in(joined(pieces, ',')).len() == pieces.len(),
        forall|i: int|
            0 <= i < pieces.len() ==> #[trigger] names_in(joined(pieces, ','))[i] == trimmed(
                pieces[i],
            ),
{
    law_split_joined(pieces, ',');
}

/// Numbers that are written with commas between them, and perhaps white space around each, are
/// read as these numbers.
pub proof fn law_sizes(ns: Seq<usize>, pieces: Seq<Seq<char>>)
    requires
        ns.len() > 0,
        pieces.len() == ns.len(),
        forall|k: int|
            0 <= k < pieces.len() ==> !(#[trigger] pieces[k]).contains(',') && trimmed(pieces[k])
                == digits(ns[k] as nat),
    ensures
        sizes_in(joined(pieces, ',')) == Ok::<Seq<usize>, SetError>(ns),
{
    law_names(pieces);
    let names = names_in(joined(pieces, ','));
    assert forall|k: int| 0 <= k < names.len() implies usize_in(#[trigger] names[k]) == Ok::<
        usize,
        SetError,
    >(ns[k]) by {
        assert(names[k] == trimmed(pieces[k]));
        law_digits_round_trip(ns[k] as nat, usize::MAX as nat);
    }
    assert(Seq::new(names.len(), |k: int| usize_in(names[k])->Ok_0) =~= ns);
}

/// A list of numbers with an entry that is none is refused.
pub proof fn law_sizes_refused(pieces: Seq<Seq<char>>, i: int)
    requires
        0 <= i < pieces.len(),
        forall|k: int| 0 <= k < pieces.len() ==> !(#[trigger] pieces[k]).contains(','),
        number(trimmed(pieces[i]), usize::MAX as nat) is None,
    ensures
        sizes_in(joined(pieces, ',')) == Err::<Seq<usize>, SetError>(SetError::BadValue),
{
    law_names(pieces);
    assert(names_in(joined(pieces, ','))[i] == trimmed(pieces[i]));
}

/// Whether a command line names a flag, from position `i` on, where a flag stands.
pub open spec fn names(argv: Seq<Seq<char>>, i: int, flag: Seq<char>) -> bool {
    exists|k: int| i <= k < argv.len() && (k - i) % 2 == 0 && #[trigger] argv[k] == flag
}

/// What only one flag can change stays as it was where the command line does not name this flag;
/// where it does, the last value that it has there decides.
pub proof fn lemma_one_flag<S: Settings, T>(
    argv: Seq<Seq<char>>,
    i: int,
    m: S::M,
    get: spec_fn(S::M) -> T,
    flag: Seq<char>,
)
    requires
        0 <= i,
        forall|x: S::M, f: Seq<char>, v: Seq<char>|
            f != flag && S::takes(f) && (#[trigger] S::with(x, f, v)) is Ok ==> get(
                S::with(x, f, v)->Ok_0,
            ) == get(x),
        !names(argv, i, flag),
    ensures
        parsed::<S>(argv, i, m) matches Ok(Some(r)) ==> get(r) == get(m),
    decreases argv.len() - i,
{
    if i < argv.len() {
        assert(argv[i] != flag);
        if i + 1 < argv.len() {
            if S::with(m, argv[i], argv[i + 1]) is Ok {
                let next = S::with(m, argv[i], argv[i + 1])->Ok_0;
                if names(argv, i + 2, flag) {
                    let k = choose|k: int|
                        i + 2 <= k < argv.len() && (k - (i + 2)) % 2 == 0 && #[trigger] argv[k]
                            == flag;
                    assert(argv[k] == flag && (k - i) % 2 == 0);
                }
                lemma_one_flag::<S, T>(argv, i + 2, next, get, flag);
            }
        }
    }
}

/// What only one flag can change has in the end what this flag made of it where the command line
/// names it last.
pub proof fn lemma_last_flag<S: Settings, T>(
    argv: Seq<Seq<char>>,
    i: int,
    m: S::M,
    get: spec_fn(S::M) -> T,
    flag: Seq<char>,
    at: int,
    value: T,
)
    requires
        0 <= i <= at,
        at + 1 < argv.len(),
        (at - i) % 2 == 0,
        argv[at] == flag,
        !names(argv, at + 2, flag),
        forall|x: S::M, f: Seq<char>, v: Seq<char>|
            f != flag && S::takes(f) && (#[trigger] S::with(x, f, v)) is Ok ==> get(
                S::with(x, f, v)->Ok_0,
            ) == get(x),
        forall|x: S::M|
            (#[trigger] S::with(x, flag, argv[at + 1])) is Ok ==> get(
                S::with(x, flag, argv[at + 1])->Ok_0,
            ) == value,
    ensures
        parsed::<S>(argv, i, m) matches Ok(Some(r)) ==> get(r) == value,
    decreases argv.len() - i,
{
    if S::with(m, argv[i], argv[i + 1]) is Ok {
        let next = S::with(m, argv[i], argv[i + 1])->Ok_0;
        if i == at {
            lemma_one_flag::<S, T>(argv, i + 2, next, get, flag);
        } else {
            lemma_last_flag::<S, T>(argv, i + 2, next, get, flag, at, value);
        }
    }
}

} // verus!
