//! Trace files: which keys each line stands for, and how a file is read up to a
//! number of keys.
//!
//! Four formats are read, each a text with one row per line:
//! - one decimal key per line;
//! - the Twitter cache trace, `timestamp,anonymized_key,ksize,...`, whose key
//!   column is hashed to 64 bits; the operation column is not looked at;
//! - the CSV of libCacheSim, `# time, object, size, next_access_vtime`, whose
//!   object column is already a number;
//! - the ARC paper traces, `start len ...`, each row an interval of keys.

use vstd::prelude::*;
use vstd::slice::*;
use vstd::string::*;
use vstd::utf8::*;
use std::collections::hash_map::DefaultHasher;
use std::hash::Hasher;
use vstd::std_specs::hash::DefaultHasherAdditionalSpecFns;

use crate::text::{fields, number, parse_u64, second_field, trim, trimmed, two_words, words};
use crate::workload::zst::{unpack, zstd_stream};

verus! {

/// How the rows of a trace file are written.
#[derive(Clone, Copy, Debug, PartialEq, Eq, Structural)]
pub enum Format {
    Keys,
    TwitterCsv,
    LibcachesimCsv,
    Arc,
}

/// Why a row cannot be read.
#[derive(Clone, Copy, Debug, PartialEq, Eq, Structural)]
pub enum LineError {
    /// The line is not UTF-8.
    NotText,
    /// The line is no 64-bit key.
    NotAKey,
    /// The row of a Twitter trace has no second column.
    NoKeyColumn,
    /// The row of a libCacheSim trace has no second column.
    NoObjectColumn,
    /// The second column of a libCacheSim trace is no 64-bit number.
    NotAnObject,
    /// A line of an ARC trace holds no word.
    EmptyLine,
    /// The first word of an ARC row is no 64-bit number.
    BadStart,
    /// The second word of an ARC row is no 64-bit number.
    BadLen,
    /// The interval of an ARC row ends beyond the 64-bit numbers.
    RangeOverflow,
}

/// The keys `start`, `start + 1`, ... up to but not including `end`.
pub open spec fn interval(start: u64, end: u64) -> Seq<u64> {
    Seq::new((end - start) as nat, |i: int| (start + i) as u64)
}

pub open spec fn key_in(line: Seq<char>) -> Result<u64, LineError> {
    match number(trimmed(line), u64::MAX as nat) {
        Some(k) => Ok(k as u64),
        None => Err(LineError::NotAKey),
    }
}

/// The text of the key column of a Twitter trace row.
pub open spec fn twitter_key_in(line: Seq<char>) -> Result<Seq<char>, LineError> {
    if fields(line, ',').len() > 1 {
        Ok(fields(line, ',')[1])
    } else {
        Err(LineError::NoKeyColumn)
    }
}

/// What the default hasher of the standard library makes of a text: its bytes
/// and then one byte that no text holds.
pub open spec fn text_hash(s: Seq<char>) -> u64 {
    DefaultHasher::spec_finish(seq![encode_utf8(s), seq![0xffu8]])
}

/// The object of a libCacheSim row, or `None` for a comment line.
pub open spec fn object_in(line: Seq<char>) -> Result<Option<u64>, LineError> {
    if line.len() > 0 && line[0] == '#' {
        Ok(None)
    } else if fields(line, ',').len() <= 1 {
        Err(LineError::NoObjectColumn)
    } else {
        match number(trimmed(fields(line, ',')[1]), u64::MAX as nat) {
            Some(k) => Ok(Some(k as u64)),
            None => Err(LineError::NotAnObject),
        }
    }
}

/// The length of the interval that an ARC row names: its second word, or one.
pub open spec fn arc_len_in(line: Seq<char>) -> Option<nat> {
    if words(line).len() > 1 {
        number(words(line)[1], u64::MAX as nat)
    } else {
        Some(1)
    }
}

/// The interval of an ARC row: its first key and the one behind its last.
pub open spec fn arc_range_in(line: Seq<char>) -> Result<(u64, u64), LineError> {
    if words(line).len() == 0 {
        Err(LineError::EmptyLine)
    } else {
        match number(words(line)[0], u64::MAX as nat) {
            None => Err(LineError::BadStart),
            Some(start) => match arc_len_in(line) {
                None => Err(LineError::BadLen),
                Some(len) => if start + len > u64::MAX {
                    Err(LineError::RangeOverflow)
                } else {
                    Ok((start as u64, (start + len) as u64))
                },
            },
        }
    }
}

/// The keys that a line stands for, in order.
pub open spec fn keys_in(format: Format, line: Seq<char>) -> Result<Seq<u64>, LineError> {
    match format {
        Format::Keys => match key_in(line) {
            Ok(k) => Ok(seq![k]),
            Err(e) => Err(e),
        },
        Format::TwitterCsv => match twitter_key_in(line) {
            Ok(t) => Ok(seq![text_hash(t)]),
            Err(e) => Err(e),
        },
        Format::LibcachesimCsv => match object_in(line) {
            Ok(Some(k)) => Ok(seq![k]),
            Ok(None) => Ok(Seq::empty()),
            Err(e) => Err(e),
        },
        Format::Arc => match arc_range_in(line) {
            Ok((start, end)) => Ok(interval(start, end)),
            Err(e) => Err(e),
        },
    }
}

/// A line as it stands in the file, without its line end: a newline, and a
/// carriage return in front of that newline.
pub open spec fn bare(raw: Seq<u8>) -> Seq<u8> {
    if raw.len() > 0 && raw.last() == 0x0a {
        if raw.len() > 1 && raw[raw.len() - 2] == 0x0d {
            raw.take(raw.len() - 2)
        } else {
            raw.drop_last()
        }
    } else {
        raw
    }
}

/// The keys that a line of the file stands for.
pub open spec fn keys_in_raw(format: Format, raw: Seq<u8>) -> Result<Seq<u64>, LineError> {
    if valid_utf8(bare(raw)) {
        keys_in(format, decode_utf8(bare(raw)))
    } else {
        Err(LineError::NotText)
    }
}

/// As many of `keys` as a trace of `have` keys still takes.
pub open spec fn admitted(keys: Seq<u64>, have: nat, limit: Option<usize>) -> Seq<u64> {
    match limit {
        Some(n) => if have + keys.len() <= n {
            keys
        } else if have < n {
            keys.take(n - have)
        } else {
            Seq::empty()
        },
        None => keys,
    }
}

pub open spec fn complete(have: nat, limit: Option<usize>) -> bool {
    match limit {
        Some(n) => have >= n,
        None => false,
    }
}

/// The key that a line of decimal keys stands for.
pub fn key_of_line(line: &str) -> (r: Result<u64, LineError>)
    ensures
        r == key_in(line@),
{
    match parse_u64(trim(line)) {
        Some(k) => Ok(k),
        None => Err(LineError::NotAKey),
    }
}

/// The key column of a Twitter trace row, as it stands there.
pub fn twitter_csv_key_string(line: &str) -> (r: Result<String, LineError>)
    ensures
        match r {
            Ok(t) => twitter_key_in(line@) == Ok::<Seq<char>, LineError>(t@),
            Err(e) => twitter_key_in(line@) == Err::<Seq<char>, LineError>(e),
        },
{
    match second_field(line, ',') {
        Some(t) => Ok(t.to_owned()),
        None => Err(LineError::NoKeyColumn),
    }
}

fn hash_text(text: &str) -> (h: u64)
    ensures
        h == text_hash(text@),
{
    let mut hasher = DefaultHasher::new();
    hasher.write(text.as_bytes());
    let end: Vec<u8> = vec![0xff];
    hasher.write(end.as_slice());
    proof {
        assert(hasher@ =~= seq![encode_utf8(text@), end@]);
        assert(end@ =~= seq![0xffu8]);
    }
    hasher.finish()
}

/// The hash of the key column of a Twitter trace row.
pub fn twitter_csv_key(line: &str) -> (r: Result<u64, LineError>)
    ensures
        r == (match twitter_key_in(line@) {
            Ok(t) => Ok(text_hash(t)),
            Err(e) => Err(e),
        }),
{
    match second_field(line, ',') {
        Some(t) => Ok(hash_text(t)),
        None => Err(LineError::NoKeyColumn),
    }
}

/// The object of a libCacheSim row; `None` for a comment.
pub fn libcachesim_csv_key(line: &str) -> (r: Result<Option<u64>, LineError>)
    ensures
        r == object_in(line@),
{
    if line.unicode_len() > 0 && line.get_char(0) == '#' {
        return Ok(None);
    }
    match second_field(line, ',') {
        Some(t) => match parse_u64(trim(t)) {
            Some(k) => Ok(Some(k)),
            None => Err(LineError::NotAnObject),
        },
        None => Err(LineError::NoObjectColumn),
    }
}

/// The interval of an ARC row.
pub fn arc_range(line: &str) -> (r: Result<(u64, u64), LineError>)
    ensures
        r == arc_range_in(line@),
{
    let (first, second) = two_words(line);
    match first {
        None => Err(LineError::EmptyLine),
        Some(first) => match parse_u64(first) {
            None => Err(LineError::BadStart),
            Some(start) => {
                let len: u64 = match second {
                    None => 1,
                    Some(second) => match parse_u64(second) {
                        None => {
                            return Err(LineError::BadLen);
                        },
                        Some(len) => len,
                    },
                };
                match start.checked_add(len) {
                    Some(end) => Ok((start, end)),
                    None => Err(LineError::RangeOverflow),
                }
            },
        },
    }
}

/// `std::str::from_utf8`: the text that the bytes encode, or `None` where they
/// are not UTF-8.
#[verifier::external_body]
pub(crate) fn utf8_text(bytes: &[u8]) -> (r: Option<&str>)
    ensures
        match r {
            Some(t) => valid_utf8(bytes@) && t@ == decode_utf8(bytes@),
            None => !valid_utf8(bytes@),
        },
{
    std::str::from_utf8(bytes).ok()
}

/// What a trace of `keys` becomes by one more line.
pub open spec fn fed(format: Format, limit: Option<usize>, keys: Seq<u64>, raw: Seq<u8>) -> Result<
    Seq<u64>,
    LineError,
> {
    match keys_in_raw(format, raw) {
        Ok(more) => Ok(keys + admitted(more, keys.len(), limit)),
        Err(e) => Err(e),
    }
}

/// A trace while its file is read line by line.
pub struct TraceReader {
    pub format: Format,
    pub limit: Option<usize>,
    pub keys: Vec<u64>,
}

impl TraceReader {
    /// A reader that stops at `limit` keys, where there is a limit.
    pub fn new(format: Format, limit: Option<usize>) -> (r: Self)
        ensures
            r.format == format,
            r.limit == limit,
            r.keys@ == Seq::<u64>::empty(),
    {
        TraceReader { format, limit, keys: Vec::new() }
    }

    /// Whether further lines can add keys.
    pub fn wants_more(&self) -> (r: bool)
        ensures
            r == !complete(self.keys@.len(), self.limit),
    {
        match self.limit {
            Some(n) => self.keys.len() < n,
            None => true,
        }
    }

    fn push(&mut self, key: u64)
        ensures
            final(self).format == old(self).format,
            final(self).limit == old(self).limit,
            final(self).keys@ == old(self).keys@ + admitted(seq![key], old(self).keys@.len(), old(self).limit),
    {
        if self.wants_more() {
            self.keys.push(key);
        } else {
            assert(self.keys@ + Seq::<u64>::empty() =~= self.keys@);
        }
    }

    fn push_interval(&mut self, start: u64, end: u64)
        requires
            start <= end,
        ensures
            final(self).format == old(self).format,
            final(self).limit == old(self).limit,
            final(self).keys@ == old(self).keys@ + admitted(interval(start, end), old(self).keys@.len(), old(self).limit),
    {
        let ghost all = interval(start, end);
        let ghost base = self.keys@;
        let mut k: u64 = start;
        assert(all.take(0) =~= Seq::<u64>::empty());
        while k < end && self.wants_more()
            invariant
                start <= k <= end,
                all == interval(start, end),
                self.format == old(self).format,
                self.limit == old(self).limit,
                self.keys@ == base + all.take(k - start),
                k > start ==> !complete((self.keys@.len() - 1) as nat, self.limit),
            decreases end - k,
        {
            proof {
                assert(all.take(k - start + 1) =~= all.take(k - start).push(k));
                assert(base + all.take(k - start + 1) =~= (base + all.take(k - start)).push(k));
            }
            self.keys.push(k);
            k += 1;
        }
        proof {
            assert(all.take(all.len() as int) =~= all);
        }
    }

    /// Adds the keys of one line, given with its line end. On an error the trace
    /// stays as it was.
    pub fn feed(&mut self, raw: &[u8]) -> (r: Result<(), LineError>)
        ensures
            final(self).format == old(self).format,
            final(self).limit == old(self).limit,
            match r {
                Ok(_) => fed(old(self).format, old(self).limit, old(self).keys@, raw@) == Ok::<Seq<u64>, LineError>(final(self).keys@),
                Err(e) => {
                    &&& keys_in_raw(old(self).format, raw@) == Err::<Seq<u64>, LineError>(e)
                    &&& final(self).keys@ == old(self).keys@
                },
            },
    {
        let n = bare_len(raw);
        let line = match utf8_text(slice_subrange(raw, 0, n)) {
            Some(t) => t,
            None => {
                return Err(LineError::NotText);
            },
        };
        match self.format {
            Format::Keys => match key_of_line(line) {
                Ok(k) => {
                    self.push(k);
                    Ok(())
                },
                Err(e) => Err(e),
            },
            Format::TwitterCsv => match twitter_csv_key(line) {
                Ok(k) => {
                    self.push(k);
                    Ok(())
                },
                Err(e) => Err(e),
            },
            Format::LibcachesimCsv => match libcachesim_csv_key(line) {
                Ok(Some(k)) => {
                    self.push(k);
                    Ok(())
                },
                Ok(None) => {
                    proof {
                        let none = Seq::<u64>::empty();
                        assert(admitted(none, self.keys@.len(), self.limit) =~= none);
                        assert(self.keys@ + none =~= self.keys@);
                    }
                    Ok(())
                },
                Err(e) => Err(e),
            },
            Format::Arc => match arc_range(line) {
                Ok((start, end)) => {
                    self.push_interval(start, end);
                    Ok(())
                },
                Err(e) => Err(e),
            },
        }
    }
}

pub(crate) fn bare_len(raw: &[u8]) -> (n: usize)
    ensures
        n <= raw@.len(),
        raw@.subrange(0, n as int) == bare(raw@),
{
    let len = raw.len();
    let n: usize = if len > 0 && raw[len - 1] == 0x0a {
        if len > 1 && raw[len - 2] == 0x0d {
            len - 2
        } else {
            len - 1
        }
    } else {
        len
    };
    assert(raw@.subrange(0, n as int) =~= bare(raw@));
    n
}

/// The position behind the line that starts at `i`, its newline included.
pub open spec fn line_end(bytes: Seq<u8>, i: int) -> int
    decreases bytes.len() - i,
{
    if i >= bytes.len() {
        bytes.len() as int
    } else if bytes[i] == 0x0a {
        i + 1
    } else {
        line_end(bytes, i + 1)
    }
}

pub proof fn lemma_line_end(bytes: Seq<u8>, i: int)
    requires
        0 <= i < bytes.len(),
    ensures
        i < line_end(bytes, i) <= bytes.len(),
    decreases bytes.len() - i,
{
    reveal_with_fuel(line_end, 2);
    if bytes[i] != 0x0a && i + 1 < bytes.len() {
        lemma_line_end(bytes, i + 1);
    }
}

/// What a trace of `keys` becomes by the rest of a file: one line after the
/// other, until the trace is complete, the file ends, or a line cannot be read.
pub open spec fn loaded(
    format: Format,
    limit: Option<usize>,
    bytes: Seq<u8>,
    i: int,
    keys: Seq<u64>,
) -> Result<Seq<u64>, LineError>
    decreases bytes.len() - i,
{
    let j = line_end(bytes, i);
    if i < 0 || i >= bytes.len() || j <= i || j > bytes.len() || complete(keys.len(), limit) {
        Ok(keys)
    } else {
        match fed(format, limit, keys, bytes.subrange(i, j)) {
            Ok(more) => loaded(format, limit, bytes, j, more),
            Err(e) => Err(e),
        }
    }
}

/// The trace in a file with the content `bytes`: its keys in order, the first
/// `limit` of them where there is a limit. Lines behind the last key that is
/// needed are not looked at.
pub fn load(format: Format, limit: Option<usize>, bytes: &[u8]) -> (r: Result<Vec<u64>, LineError>)
    ensures
        match r {
            Ok(keys) => loaded(format, limit, bytes@, 0, Seq::empty()) == Ok::<Seq<u64>, LineError>(keys@),
            Err(e) => loaded(format, limit, bytes@, 0, Seq::empty()) == Err::<Seq<u64>, LineError>(e),
        },
{
    let mut reader = TraceReader::new(format, limit);
    let mut i: usize = 0;
    while i < bytes.len() && reader.wants_more()
        invariant
            i <= bytes@.len(),
            reader.format == format,
            reader.limit == limit,
            loaded(format, limit, bytes@, i as int, reader.keys@) == loaded(format, limit, bytes@, 0, Seq::empty()),
        decreases bytes@.len() - i,
    {
        proof {
            lemma_line_end(bytes@, i as int);
        }
        let mut j: usize = i;
        while j < bytes.len() && bytes[j] != 0x0a
            invariant
                i <= j <= bytes@.len(),
                line_end(bytes@, j as int) == line_end(bytes@, i as int),
            decreases bytes@.len() - j,
        {
            j += 1;
        }
        if j < bytes.len() {
            j += 1;
        }
        assert(j == line_end(bytes@, i as int));
        match reader.feed(slice_subrange(bytes, i, j)) {
            Ok(_) => {},
            Err(e) => {
                return Err(e);
            },
        }
        i = j;
    }
    Ok(reader.keys)
}

/// Why an ARC trace cannot be loaded.
#[derive(Clone, Copy, Debug, PartialEq, Eq, Structural)]
pub enum ArcError {
    /// The compressed file cannot be decompressed as far as its keys are needed.
    Corrupt,
    /// A row cannot be read.
    Row(LineError),
}

/// The position behind the last newline, or 0 where there is none.
pub open spec fn lines_end(bytes: Seq<u8>) -> int
    decreases bytes.len(),
{
    if bytes.len() == 0 || bytes.last() == 0x0a {
        bytes.len() as int
    } else {
        lines_end(bytes.drop_last())
    }
}

/// The ARC trace in a stream that gives `plain` and then ends, soundly or with an error.
/// Before an error only whole lines count, and they must give all keys that are needed.
pub open spec fn arc_loaded(limit: Option<usize>, plain: Seq<u8>, sound: bool) -> Result<
    Seq<u64>,
    ArcError,
> {
    let text = if sound {
        plain
    } else {
        plain.take(lines_end(plain))
    };
    match loaded(Format::Arc, limit, text, 0, Seq::empty()) {
        Ok(keys) => if sound || complete(keys.len(), limit) {
            Ok(keys)
        } else {
            Err(ArcError::Corrupt)
        },
        Err(e) => Err(ArcError::Row(e)),
    }
}

/// The ARC trace in a file with the content `bytes`, a zstd stream or plain text.
pub open spec fn arc_in(compressed: bool, limit: Option<usize>, bytes: Seq<u8>) -> Result<
    Seq<u64>,
    ArcError,
> {
    if compressed {
        match zstd_stream(bytes) {
            Some((plain, sound)) => arc_loaded(limit, plain, sound),
            None => Err(ArcError::Corrupt),
        }
    } else {
        arc_loaded(limit, bytes, true)
    }
}

/// The ARC trace in a stream that gives `plain` and then ends, soundly or with an error.
pub fn load_arc_stream(limit: Option<usize>, plain: &[u8], sound: bool) -> (r: Result<
    Vec<u64>,
    ArcError,
>)
    ensures
        match r {
            Ok(keys) => arc_loaded(limit, plain@, sound) == Ok::<Seq<u64>, ArcError>(keys@),
            Err(e) => arc_loaded(limit, plain@, sound) == Err::<Seq<u64>, ArcError>(e),
        },
{
    let mut n: usize = plain.len();
    if !sound {
        assert(plain@.take(n as int) =~= plain@);
        while n > 0 && plain[n - 1] != 0x0a
            invariant
                n <= plain@.len(),
                lines_end(plain@.take(n as int)) == lines_end(plain@),
            decreases n,
        {
            assert(plain@.take(n as int).drop_last() =~= plain@.take(n - 1));
            n -= 1;
        }
    }
    assert(plain@.subrange(0, n as int) =~= if sound {
        plain@
    } else {
        plain@.take(lines_end(plain@))
    });
    match load(Format::Arc, limit, slice_subrange(plain, 0, n)) {
        Ok(keys) => {
            let enough = match limit {
                Some(m) => keys.len() >= m,
                None => false,
            };
            if sound || enough {
                Ok(keys)
            } else {
                Err(ArcError::Corrupt)
            }
        },
        Err(e) => Err(ArcError::Row(e)),
    }
}

/// The ARC trace in a file with the content `bytes`, which is decompressed first
/// where the file is a `.zst`. Damage behind the last key that is needed does no harm.
pub fn load_arc(compressed: bool, limit: Option<usize>, bytes: &[u8]) -> (r: Result<Vec<u64>, ArcError>)
    ensures
        match r {
            Ok(keys) => arc_in(compressed, limit, bytes@) == Ok::<Seq<u64>, ArcError>(keys@),
            Err(e) => arc_in(compressed, limit, bytes@) == Err::<Seq<u64>, ArcError>(e),
        },
{
    if compressed {
        match unpack(bytes) {
            Some((plain, sound)) => load_arc_stream(limit, plain.as_slice(), sound),
            None => Err(ArcError::Corrupt),
        }
    } else {
        load_arc_stream(limit, bytes, true)
    }
}

proof fn lemma_lines_end(bytes: Seq<u8>)
    ensures
        0 <= lines_end(bytes) <= bytes.len(),
        lines_end(bytes) > 0 ==> bytes[lines_end(bytes) - 1] == 0x0a,
    decreases bytes.len(),
{
    if bytes.len() > 0 && bytes.last() != 0x0a {
        lemma_lines_end(bytes.drop_last());
    }
}

proof fn lemma_line_end_in_front(bytes: Seq<u8>, m: int, i: int)
    requires
        0 <= i < m <= bytes.len(),
        bytes[m - 1] == 0x0a,
    ensures
        line_end(bytes.take(m), i) == line_end(bytes, i),
        line_end(bytes, i) <= m,
    decreases m - i,
{
    reveal_with_fuel(line_end, 2);
    if bytes[i] != 0x0a {
        lemma_line_end_in_front(bytes, m, i + 1);
    }
}

proof fn lemma_loaded_in_front(
    format: Format,
    limit: Option<usize>,
    bytes: Seq<u8>,
    m: int,
    i: int,
    keys: Seq<u64>,
)
    requires
        0 <= i <= m <= bytes.len(),
        m > 0 ==> bytes[m - 1] == 0x0a,
        loaded(format, limit, bytes.take(m), i, keys) matches Ok(all) && complete(all.len(), limit),
    ensures
        loaded(format, limit, bytes, i, keys) == loaded(format, limit, bytes.take(m), i, keys),
    decreases m - i,
{
    if i < m && !complete(keys.len(), limit) {
        let j = line_end(bytes, i);
        lemma_line_end(bytes, i);
        lemma_line_end_in_front(bytes, m, i);
        assert(bytes.take(m).subrange(i, j) =~= bytes.subrange(i, j));
        let more = fed(format, limit, keys, bytes.subrange(i, j))->Ok_0;
        lemma_loaded_in_front(format, limit, bytes, m, j, more);
    }
}

/// Where a stream that breaks off gives a trace, the sound stream that it is the start of
/// gives the same.
pub proof fn law_damage_behind_does_no_harm(limit: Option<usize>, plain: Seq<u8>, whole: Seq<u8>)
    requires
        plain.is_prefix_of(whole),
        arc_loaded(limit, plain, false) is Ok,
    ensures
        arc_loaded(limit, whole, true) == arc_loaded(limit, plain, false),
{
    let m = lines_end(plain);
    lemma_lines_end(plain);
    assert(plain.take(m) =~= whole.take(m));
    lemma_loaded_in_front(Format::Arc, limit, whole, m, 0, Seq::empty());
}

/// A file that can be read whole gives, up to a number of keys, the first so many
/// of all its keys.
pub proof fn law_limit_takes_a_prefix(format: Format, limit: usize, bytes: Seq<u8>)
    requires
        loaded(format, None, bytes, 0, Seq::empty()) is Ok,
    ensures
        ({
            let all = loaded(format, None, bytes, 0, Seq::empty())->Ok_0;
            loaded(format, Some(limit), bytes, 0, Seq::empty()) == Ok::<Seq<u64>, LineError>(
                cut(all, limit),
            )
        }),
{
    assert(cut(Seq::empty(), limit) =~= Seq::<u64>::empty());
    lemma_limited(format, limit, bytes, 0, Seq::empty());
}

/// The first `limit` keys, or all where there are fewer.
pub open spec fn cut(keys: Seq<u64>, limit: usize) -> Seq<u64> {
    if limit <= keys.len() {
        keys.take(limit as int)
    } else {
        keys
    }
}

proof fn lemma_loaded_extends(format: Format, bytes: Seq<u8>, i: int, keys: Seq<u64>)
    requires
        0 <= i,
        loaded(format, None, bytes, i, keys) is Ok,
    ensures
        keys.is_prefix_of(loaded(format, None, bytes, i, keys)->Ok_0),
    decreases bytes.len() - i,
{
    if i < bytes.len() {
        let j = line_end(bytes, i);
        lemma_line_end(bytes, i);
        let more = fed(format, None, keys, bytes.subrange(i, j))->Ok_0;
        lemma_loaded_extends(format, bytes, j, more);
        assert(keys.is_prefix_of(more));
    }
}

proof fn lemma_limited(format: Format, limit: usize, bytes: Seq<u8>, i: int, keys: Seq<u64>)
    requires
        0 <= i,
        loaded(format, None, bytes, i, keys) is Ok,
    ensures
        loaded(format, Some(limit), bytes, i, cut(keys, limit)) == Ok::<Seq<u64>, LineError>(
            cut(loaded(format, None, bytes, i, keys)->Ok_0, limit),
        ),
    decreases bytes.len() - i,
{
    let all = loaded(format, None, bytes, i, keys)->Ok_0;
    lemma_loaded_extends(format, bytes, i, keys);
    if i < bytes.len() {
        let j = line_end(bytes, i);
        lemma_line_end(bytes, i);
        if keys.len() >= limit {
            assert(cut(keys, limit) =~= cut(all, limit));
        } else {
            let raw = bytes.subrange(i, j);
            let more = keys_in_raw(format, raw)->Ok_0;
            lemma_limited(format, limit, bytes, j, keys + more);
            assert(keys + admitted(more, keys.len(), Some(limit)) =~= cut(keys + more, limit));
        }
    }
}

} // verus!
