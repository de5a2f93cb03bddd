//! What rows and files that are written down are read as.
use crate::harness::value::{digits, lemma_digits};
use crate::spelling::{
    law_fields_first, law_number, law_trim_pads, law_words_first, law_words_skip_space,
    lemma_digits_are_no_space, lemma_words_skip_spaces,
};
use crate::text::{all_digits, fields, is_digit, is_space, number, words};
use crate::workload::file::{
    admitted, arc_in, arc_loaded, bare, complete, fed, keys_in, keys_in_raw, lemma_line_end, line_end,
    lines_end, loaded, text_hash, twitter_key_in, ArcError, Format, LineError,
};
use crate::workload::twitter_texts::{text_in_raw, texts_loaded};
use crate::workload::zst::zstd_stream;
use std::collections::hash_map::DefaultHasher;
use vstd::prelude::*;
use vstd::std_specs::hash::DefaultHasherAdditionalSpecFns;
use vstd::utf8::*;

verus! {

/// Whether a text is white space alone.
pub open spec fn blank(s: Seq<char>) -> bool {
    forall|k: int| 0 <= k < s.len() ==> is_space(#[trigger] s[k])
}

proof fn lemma_two_words(
    front: Seq<char>,
    a: Seq<char>,
    between: Seq<char>,
    b: Seq<char>,
    rest: Seq<char>,
)
    requires
        blank(front),
        blank(between),
        between.len() > 0,
        a.len() > 0,
        b.len() > 0,
        all_digits(a),
        all_digits(b),
        rest.len() == 0 || is_space(rest[0]),
    ensures
        words(front + a + between + b + rest).len() >= 2,
        words(front + a + between + b + rest)[0] == a,
        words(front + a + between + b + rest)[1] == b,
{
    lemma_digits_are_no_space(a);
    lemma_digits_are_no_space(b);
    let tail = between + b + rest;
    assert(front + a + between + b + rest =~= front + (a + tail));
    lemma_words_skip_spaces(front, a + tail);
    assert(tail[0] == between[0]);
    law_words_first(a, tail);
    assert(tail =~= between + (b + rest));
    lemma_words_skip_spaces(between, b + rest);
    law_words_first(b, rest);
}

proof fn lemma_one_word(front: Seq<char>, a: Seq<char>, back: Seq<char>)
    requires
        blank(front),
        blank(back),
        a.len() > 0,
        all_digits(a),
    ensures
        words(front + a + back) == seq![a],
        words(front).len() == 0,
{
    lemma_digits_are_no_space(a);
    assert(front + a + back =~= front + (a + back));
    lemma_words_skip_spaces(front, a + back);
    law_words_first(a, back);
    assert(back + Seq::<char>::empty() =~= back);
    lemma_words_skip_spaces(back, Seq::empty());
    assert(front + Seq::<char>::empty() =~= front);
    lemma_words_skip_spaces(front, Seq::empty());
    law_words_skip_space(' ', Seq::empty());
    assert(words(front + a + back) =~= seq![a]);
}

/// A row of an ARC trace that writes a start and a length stands for that many keys from the
/// start on, whatever the length is and whatever further words follow.
pub proof fn law_arc_row(
    start: u64,
    len: u64,
    front: Seq<char>,
    between: Seq<char>,
    rest: Seq<char>,
)
    requires
        start + len <= u64::MAX,
        blank(front),
        blank(between),
        between.len() > 0,
        rest.len() == 0 || is_space(rest[0]),
    ensures
        ({
            let row = front + digits(start as nat) + between + digits(len as nat) + rest;
            &&& keys_in(Format::Arc, row) is Ok
            &&& keys_in(Format::Arc, row)->Ok_0.len() == len
            &&& forall|i: int|
                0 <= i < len ==> #[trigger] keys_in(Format::Arc, row)->Ok_0[i] == start + i
        }),
{
    lemma_digits(start as nat);
    lemma_digits(len as nat);
    law_number(digits(start as nat), u64::MAX as nat);
    law_number(digits(len as nat), u64::MAX as nat);
    lemma_two_words(front, digits(start as nat), between, digits(len as nat), rest);
}

/// A row of an ARC trace with a start alone stands for that one key.
pub proof fn law_arc_start_alone(start: u64, front: Seq<char>, back: Seq<char>)
    requires
        start < u64::MAX,
        blank(front),
        blank(back),
    ensures
        keys_in(Format::Arc, front + digits(start as nat) + back) == Ok::<Seq<u64>, LineError>(
            seq![start],
        ),
{
    lemma_digits(start as nat);
    law_number(digits(start as nat), u64::MAX as nat);
    let row = front + digits(start as nat) + back;
    lemma_one_word(front, digits(start as nat), back);
    assert(words(row)[0] == digits(start as nat));
    assert(keys_in(Format::Arc, row)->Ok_0 =~= seq![start]);
}

/// A row of an ARC trace that reaches beyond the 64-bit numbers is refused, as is one without
/// words.
pub proof fn law_arc_row_refused(
    start: u64,
    len: u64,
    front: Seq<char>,
    between: Seq<char>,
    rest: Seq<char>,
)
    requires
        start + len > u64::MAX,
        blank(front),
        blank(between),
        between.len() > 0,
        rest.len() == 0 || is_space(rest[0]),
    ensures
        keys_in(Format::Arc, front + digits(start as nat) + between + digits(len as nat) + rest)
            == Err::<Seq<u64>, LineError>(LineError::RangeOverflow),
        keys_in(Format::Arc, front) == Err::<Seq<u64>, LineError>(LineError::EmptyLine),
{
    lemma_digits(start as nat);
    lemma_digits(len as nat);
    law_number(digits(start as nat), u64::MAX as nat);
    law_number(digits(len as nat), u64::MAX as nat);
    lemma_two_words(front, digits(start as nat), between, digits(len as nat), rest);
    lemma_one_word(front, digits(start as nat), between);
}

/// A line with a number, and perhaps white space round it, stands for that key.
pub proof fn law_key_row(key: u64, front: Seq<char>, back: Seq<char>)
    requires
        blank(front),
        blank(back),
    ensures
        keys_in(Format::Keys, front + digits(key as nat) + back) == Ok::<Seq<u64>, LineError>(
            seq![key],
        ),
{
    let d = digits(key as nat);
    lemma_digits(key as nat);
    lemma_digits_are_no_space(d);
    law_number(d, u64::MAX as nat);
    law_trim_pads(front, d, back);
}

proof fn lemma_second_column(a: Seq<char>, b: Seq<char>, rest: Seq<char>)
    requires
        forall|k: int| 0 <= k < a.len() ==> #[trigger] a[k] != ',',
        forall|k: int| 0 <= k < b.len() ==> #[trigger] b[k] != ',',
        rest.len() == 0 || rest[0] == ',',
    ensures
        fields(a + seq![','] + b + rest, ',').len() > 1,
        fields(a + seq![','] + b + rest, ',')[0] == a,
        fields(a + seq![','] + b + rest, ',')[1] == b,
{
    let row = a + seq![','] + b + rest;
    assert(row =~= a + seq![','] + (b + rest));
    law_fields_first(a, b + rest, ',');
    if rest.len() == 0 {
        assert(b + rest =~= b);
        law_fields_first(b, rest, ',');
    } else {
        assert(b + rest =~= b + seq![','] + rest.skip(1));
        law_fields_first(b, rest.skip(1), ',');
    }
}

/// A row of a libCacheSim trace stands for the number in its second column; a line that starts
/// with a hash sign stands for nothing.
pub proof fn law_object_row(
    time: Seq<char>,
    front: Seq<char>,
    object: u64,
    back: Seq<char>,
    rest: Seq<char>,
)
    requires
        forall|k: int| 0 <= k < time.len() ==> #[trigger] time[k] != ',',
        time.len() > 0 ==> time[0] != '#',
        blank(front),
        blank(back),
        rest.len() == 0 || rest[0] == ',',
    ensures
        keys_in(
            Format::LibcachesimCsv,
            time + seq![','] + (front + digits(object as nat) + back) + rest,
        ) == Ok::<Seq<u64>, LineError>(seq![object]),
        keys_in(Format::LibcachesimCsv, seq!['#'] + time) == Ok::<Seq<u64>, LineError>(
            Seq::empty(),
        ),
        keys_in(Format::LibcachesimCsv, time) == Err::<Seq<u64>, LineError>(
            LineError::NoObjectColumn,
        ),
{
    let d = digits(object as nat);
    lemma_digits(object as nat);
    lemma_digits_are_no_space(d);
    law_number(d, u64::MAX as nat);
    law_trim_pads(front, d, back);
    let b = front + d + back;
    assert forall|k: int| 0 <= k < b.len() implies #[trigger] b[k] != ',' by {
        if k < front.len() {
            assert(b[k] == front[k]);
        } else if k < front.len() + d.len() {
            assert(b[k] == d[k - front.len()]);
            assert(is_digit(d[k - front.len()]));
        } else {
            assert(b[k] == back[k - front.len() - d.len()]);
        }
    }
    lemma_second_column(time, b, rest);
    let row = time + seq![','] + b + rest;
    if time.len() > 0 {
        assert(row[0] == time[0]);
    } else {
        assert(row[0] == ',');
    }
    assert((seq!['#'] + time)[0] == '#');
    law_fields_first(time, Seq::empty(), ',');
}

/// A row of a Twitter trace stands for the hash of its second column, whatever the others hold;
/// a row with one column is refused.
pub proof fn law_twitter_row(time: Seq<char>, key: Seq<char>, rest: Seq<char>)
    requires
        forall|k: int| 0 <= k < time.len() ==> #[trigger] time[k] != ',',
        forall|k: int| 0 <= k < key.len() ==> #[trigger] key[k] != ',',
        rest.len() == 0 || rest[0] == ',',
    ensures
        twitter_key_in(time + seq![','] + key + rest) == Ok::<Seq<char>, LineError>(key),
        keys_in(Format::TwitterCsv, time + seq![','] + key + rest) == Ok::<Seq<u64>, LineError>(
            seq![text_hash(key)],
        ),
        keys_in(Format::TwitterCsv, time) == Err::<Seq<u64>, LineError>(LineError::NoKeyColumn),
{
    lemma_second_column(time, key, rest);
    law_fields_first(time, Seq::empty(), ',');
}

/// A text is hashed by its UTF-8 bytes and one byte behind them that no text holds.
pub proof fn law_text_hash(s: Seq<char>)
    ensures
        exists|writes: Seq<Seq<u8>>|
            writes.flatten() == encode_utf8(s).push(0xff) && text_hash(s)
                == #[trigger] DefaultHasher::spec_finish(writes),
{
    let e = encode_utf8(s);
    let end = seq![0xffu8];
    let writes = seq![e, end];
    assert(writes.drop_first() =~= seq![end]);
    assert(writes.drop_first().drop_first() =~= Seq::<Seq<u8>>::empty());
    reveal_with_fuel(Seq::flatten, 3);
    assert(writes.flatten() =~= e.push(0xff));
    assert(text_hash(s) == DefaultHasher::spec_finish(writes));
}

/// A line is read by its characters, whether it ends with a newline, with a carriage return and
/// a newline, or with the file; bytes that are no text are refused.
pub proof fn law_line_bytes(format: Format, line: Seq<char>, bytes: Seq<u8>)
    requires
        !valid_utf8(bytes),
        bytes.len() > 0 ==> bytes.last() != 0x0d,
    ensures
        ({
            let e = encode_utf8(line);
            &&& keys_in_raw(format, e + seq![0x0du8, 0x0au8]) == keys_in(format, line)
            &&& e.len() > 0 && e.last() == 0x0d || keys_in_raw(format, e + seq![0x0au8]) == keys_in(
                format,
                line,
            )
            &&& e.len() > 0 && e.last() == 0x0a || keys_in_raw(format, e) == keys_in(format, line)
        }),
        keys_in_raw(format, bytes + seq![0x0au8]) == Err::<Seq<u64>, LineError>(LineError::NotText),
{
    let e = encode_utf8(line);
    encode_utf8_valid_utf8(line);
    encode_utf8_decode_utf8(line);
    let a = e + seq![0x0du8, 0x0au8];
    assert(a.take(a.len() - 2) =~= e);
    let b = e + seq![0x0au8];
    assert(b.drop_last() =~= e);
    let c = bytes + seq![0x0au8];
    assert(c.drop_last() =~= bytes);
    if e.len() > 0 {
        assert(b[b.len() - 2] == e.last());
    }
    if bytes.len() > 0 {
        assert(c[c.len() - 2] == bytes.last());
    }
}

proof fn lemma_line_end_shift(a: Seq<u8>, b: Seq<u8>, i: int)
    requires
        0 <= i <= b.len(),
    ensures
        line_end(a + b, a.len() + i) == a.len() + line_end(b, i),
    decreases b.len() - i,
{
    if i < b.len() {
        assert((a + b)[a.len() + i] == b[i]);
        lemma_line_end_shift(a, b, i + 1);
    }
}

proof fn lemma_loaded_shift(
    format: Format,
    limit: Option<usize>,
    a: Seq<u8>,
    b: Seq<u8>,
    i: int,
    keys: Seq<u64>,
)
    requires
        0 <= i <= b.len(),
    ensures
        loaded(format, limit, a + b, a.len() + i, keys) == loaded(format, limit, b, i, keys),
    decreases b.len() - i,
{
    lemma_line_end_shift(a, b, i);
    if i < b.len() && !complete(keys.len(), limit) {
        lemma_line_end(b, i);
        let j = line_end(b, i);
        assert((a + b).subrange(a.len() + i, a.len() + j) =~= b.subrange(i, j));
        if let Ok(more) = fed(format, limit, keys, b.subrange(i, j)) {
            lemma_loaded_shift(format, limit, a, b, j, more);
        }
    }
}

proof fn lemma_first_line(line: Seq<u8>, rest: Seq<u8>, i: int)
    requires
        0 <= i <= line.len(),
        forall|k: int| 0 <= k < line.len() ==> #[trigger] line[k] != 0x0a,
    ensures
        line_end(line + seq![0x0au8] + rest, i) == line.len() + 1,
        line_end(line, i) == line.len(),
    decreases line.len() - i,
{
    let all = line + seq![0x0au8] + rest;
    if i < line.len() {
        assert(all[i] == line[i]);
        lemma_first_line(line, rest, i + 1);
    } else {
        assert(all[i] == 0x0a);
    }
}

proof fn lemma_one_line(format: Format, limit: Option<usize>, bytes: Seq<u8>, keys: Seq<u64>)
    requires
        bytes.len() > 0,
        limit is Some ==> keys.len() < limit->0,
    ensures
        ({
            let j = line_end(bytes, 0);
            loaded(format, limit, bytes, 0, keys) == (match keys_in_raw(
                format,
                bytes.subrange(0, j),
            ) {
                Err(e) => Err(e),
                Ok(more) => if limit is Some && keys.len() + more.len() >= limit->0 {
                    Ok((keys + more).take(limit->0 as int))
                } else {
                    loaded(format, limit, bytes, j, keys + more)
                },
            })
        }),
{
    let j = line_end(bytes, 0);
    lemma_line_end(bytes, 0);
    if let Ok(more) = keys_in_raw(format, bytes.subrange(0, j)) {
        if limit is Some && keys.len() + more.len() >= limit->0 {
            let n = limit->0 as int;
            let part = keys + admitted(more, keys.len(), limit);
            assert(part =~= (keys + more).take(n));
            assert(loaded(format, limit, bytes, j, part) == Ok::<Seq<u64>, LineError>(part));
        }
    }
}

/// A file is read line by line: the keys of the first line, as far as they are needed, come in
/// front of those of the rest, which is looked at only where keys are still missing. The last
/// line needs no newline.
pub proof fn law_next_line(
    format: Format,
    limit: Option<usize>,
    line: Seq<u8>,
    rest: Seq<u8>,
    keys: Seq<u64>,
)
    requires
        forall|k: int| 0 <= k < line.len() ==> #[trigger] line[k] != 0x0a,
        limit is Some ==> keys.len() < limit->0,
    ensures
        loaded(format, limit, line + seq![0x0au8] + rest, 0, keys) == (match keys_in_raw(
            format,
            line + seq![0x0au8],
        ) {
            Err(e) => Err(e),
            Ok(more) => if limit is Some && keys.len() + more.len() >= limit->0 {
                Ok((keys + more).take(limit->0 as int))
            } else {
                loaded(format, limit, rest, 0, keys + more)
            },
        }),
        line.len() > 0 ==> loaded(format, limit, line, 0, keys) == (match keys_in_raw(
            format,
            line,
        ) {
            Err(e) => Err(e),
            Ok(more) => if limit is Some && keys.len() + more.len() >= limit->0 {
                Ok((keys + more).take(limit->0 as int))
            } else {
                Ok(keys + more)
            },
        }),
        loaded(format, limit, Seq::empty(), 0, keys) == Ok::<Seq<u64>, LineError>(keys),
{
    let head = line + seq![0x0au8];
    let all = head + rest;
    lemma_first_line(line, rest, 0);
    assert(all.subrange(0, head.len() as int) =~= head);
    lemma_one_line(format, limit, all, keys);
    if let Ok(more) = keys_in_raw(format, head) {
        lemma_loaded_shift(format, limit, head, rest, 0, keys + more);
    }
    if line.len() > 0 {
        assert(line.subrange(0, line.len() as int) =~= line);
        lemma_one_line(format, limit, line, keys);
    }
}

/// Of no keys, none are read, whatever the file holds.
pub proof fn law_no_keys(format: Format, bytes: Seq<u8>)
    ensures
        loaded(format, Some(0usize), bytes, 0, Seq::empty()) == Ok::<Seq<u64>, LineError>(
            Seq::empty(),
        ),
{
}

/// A line that is no number is no key; a start or a length that is no number is refused; so is
/// an object that is none.
pub proof fn law_bad_rows(w: Seq<char>, start: u64, rest: Seq<char>, time: Seq<char>)
    requires
        w.len() > 0,
        forall|k: int| 0 <= k < w.len() ==> !is_space(#[trigger] w[k]) && w[k] != ',',
        number(w, u64::MAX as nat) is None,
        rest.len() == 0 || is_space(rest[0]),
        forall|k: int| 0 <= k < time.len() ==> #[trigger] time[k] != ',',
        time.len() > 0 ==> time[0] != '#',
    ensures
        keys_in(Format::Keys, w) == Err::<Seq<u64>, LineError>(LineError::NotAKey),
        keys_in(Format::Arc, w + rest) == Err::<Seq<u64>, LineError>(LineError::BadStart),
        keys_in(Format::Arc, digits(start as nat) + (seq![' '] + (w + rest))) == Err::<
            Seq<u64>,
            LineError,
        >(LineError::BadLen),
        keys_in(Format::LibcachesimCsv, time + seq![','] + w + Seq::<char>::empty()) == Err::<
            Seq<u64>,
            LineError,
        >(LineError::NotAnObject),
{
    law_trim_pads(Seq::empty(), w, Seq::empty());
    assert(Seq::<char>::empty() + w + Seq::<char>::empty() =~= w);
    law_words_first(w, rest);
    assert(words(w + rest)[0] == w);
    let a = digits(start as nat);
    lemma_digits(start as nat);
    lemma_digits_are_no_space(a);
    law_number(a, u64::MAX as nat);
    let tail = seq![' '] + (w + rest);
    assert(tail[0] == ' ');
    law_words_first(a, tail);
    law_words_skip_space(' ', w + rest);
    assert(words(a + tail)[0] == a);
    assert(words(a + tail)[1] == w);
    lemma_second_column(time, w, Seq::empty());
    let row = time + seq![','] + w + Seq::<char>::empty();
    if time.len() > 0 {
        assert(row[0] == time[0]);
    } else {
        assert(row[0] == ',');
    }
}

proof fn lemma_lines_end(lines: Seq<u8>, part: Seq<u8>)
    requires
        lines.len() == 0 || lines.last() == 0x0a,
        forall|k: int| 0 <= k < part.len() ==> #[trigger] part[k] != 0x0a,
    ensures
        lines_end(lines + part) == lines.len(),
    decreases part.len(),
{
    let all = lines + part;
    if part.len() > 0 {
        lemma_lines_end(lines, part.drop_last());
        assert(all.drop_last() =~= lines + part.drop_last());
        assert(all.last() == part.last());
    } else {
        assert(all =~= lines);
    }
}

/// A stream that ends soundly gives what the file gives. One that breaks off inside a line gives
/// what its whole lines give, where these are all the keys that are needed; where they are not,
/// the stream is damaged.
pub proof fn law_streams(limit: Option<usize>, lines: Seq<u8>, part: Seq<u8>)
    requires
        lines.len() == 0 || lines.last() == 0x0a,
        forall|k: int| 0 <= k < part.len() ==> #[trigger] part[k] != 0x0a,
    ensures
        arc_loaded(limit, lines + part, true) == (match loaded(
            Format::Arc,
            limit,
            lines + part,
            0,
            Seq::empty(),
        ) {
            Ok(keys) => Ok(keys),
            Err(e) => Err(ArcError::Row(e)),
        }),
        arc_loaded(limit, lines + part, false) == (match loaded(
            Format::Arc,
            limit,
            lines,
            0,
            Seq::empty(),
        ) {
            Ok(keys) => if limit is Some && keys.len() >= limit->0 {
                Ok(keys)
            } else {
                Err(ArcError::Corrupt)
            },
            Err(e) => Err(ArcError::Row(e)),
        }),
{
    lemma_lines_end(lines, part);
    assert((lines + part).take(lines.len() as int) =~= lines);
}

proof fn lemma_texts_shift(
    limit: Option<usize>,
    a: Seq<u8>,
    b: Seq<u8>,
    i: int,
    texts: Seq<Seq<char>>,
)
    requires
        0 <= i <= b.len(),
    ensures
        texts_loaded(limit, a + b, a.len() + i, texts) == texts_loaded(limit, b, i, texts),
    decreases b.len() - i,
{
    lemma_line_end_shift(a, b, i);
    if i < b.len() && !complete(texts.len(), limit) {
        lemma_line_end(b, i);
        let j = line_end(b, i);
        assert((a + b).subrange(a.len() + i, a.len() + j) =~= b.subrange(i, j));
        if let Ok(t) = text_in_raw(b.subrange(i, j)) {
            lemma_texts_shift(limit, a, b, j, texts.push(t));
        }
    }
}

/// The key column is read line by line: the text of the first row comes in front of those of
/// the rest, which is looked at only where texts are still missing.
pub proof fn law_next_text(
    limit: Option<usize>,
    time: Seq<char>,
    key: Seq<char>,
    more: Seq<char>,
    rest: Seq<u8>,
    texts: Seq<Seq<char>>,
)
    requires
        forall|k: int| 0 <= k < time.len() ==> #[trigger] time[k] != ',',
        forall|k: int| 0 <= k < key.len() ==> #[trigger] key[k] != ',',
        more.len() == 0 || more[0] == ',',
        forall|k: int|
            0 <= k < encode_utf8(time + seq![','] + key + more).len() ==> #[trigger] encode_utf8(
                time + seq![','] + key + more,
            )[k] != 0x0a,
        limit is Some ==> texts.len() < limit->0,
    ensures
        texts_loaded(
            limit,
            encode_utf8(time + seq![','] + key + more) + seq![0x0du8, 0x0au8] + rest,
            0,
            texts,
        ) == texts_loaded(limit, rest, 0, texts.push(key)),
        limit is Some && texts.len() + 1 >= limit->0 ==> texts_loaded(
            limit,
            rest,
            0,
            texts.push(key),
        ) == Ok::<Seq<Seq<char>>, LineError>(texts.push(key)),
        texts_loaded(limit, Seq::empty(), 0, texts) == Ok::<Seq<Seq<char>>, LineError>(texts),
{
    let row = time + seq![','] + key + more;
    let e = encode_utf8(row);
    let line = e.push(0x0d);
    let head = line + seq![0x0au8];
    let all = head + rest;
    assert(e + seq![0x0du8, 0x0au8] + rest =~= all);
    assert forall|k: int| 0 <= k < line.len() implies #[trigger] line[k] != 0x0a by {
        if k < e.len() {
            assert(line[k] == e[k]);
        }
    }
    lemma_first_line(line, rest, 0);
    assert(all.subrange(0, head.len() as int) =~= head);
    encode_utf8_valid_utf8(row);
    encode_utf8_decode_utf8(row);
    assert(bare(head) =~= e);
    law_twitter_row(time, key, more);
    lemma_texts_shift(limit, head, rest, 0, texts.push(key));
}

/// One more line adds its keys, but none beyond those that are needed; a trace with all of them
/// stays as it is. Further lines are wanted exactly as long as keys are missing.
pub proof fn law_one_more_line(
    format: Format,
    limit: Option<usize>,
    keys: Seq<u64>,
    raw: Seq<u8>,
)
    ensures
        limit is None ==> !complete(keys.len(), limit),
        limit matches Some(n) ==> (complete(keys.len(), limit) <==> n <= keys.len()),
        fed(format, limit, keys, raw) == (match keys_in_raw(format, raw) {
            Err(e) => Err(e),
            Ok(more) => match limit {
                None => Ok(keys + more),
                Some(n) => if keys.len() >= n {
                    Ok(keys)
                } else if keys.len() + more.len() <= n {
                    Ok(keys + more)
                } else {
                    Ok((keys + more).take(n as int))
                },
            },
        }),
{
    if let Ok(more) = keys_in_raw(format, raw) {
        if let Some(n) = limit {
            if keys.len() >= n {
                assert(keys + admitted(more, keys.len(), limit) =~= keys);
            } else if keys.len() + more.len() > n {
                assert(keys + admitted(more, keys.len(), limit) =~= (keys + more).take(n as int));
            }
        }
    }
}

/// A line without a number is no key.
pub proof fn law_blank_line(line: Seq<char>)
    requires
        blank(line),
    ensures
        keys_in(Format::Keys, line) == Err::<Seq<u64>, LineError>(LineError::NotAKey),
{
    law_trim_pads(line, Seq::empty(), Seq::empty());
    assert(line + Seq::<char>::empty() + Seq::<char>::empty() =~= line);
}

/// A plain file is a sound stream. A compressed one is the stream that comes out of it, and
/// damaged where none does.
pub proof fn law_arc_files(limit: Option<usize>, bytes: Seq<u8>)
    ensures
        arc_in(false, limit, bytes) == arc_loaded(limit, bytes, true),
        zstd_stream(bytes) is None ==> arc_in(true, limit, bytes) == Err::<Seq<u64>, ArcError>(
            ArcError::Corrupt,
        ),
        zstd_stream(bytes) matches Some((plain, sound)) ==> arc_in(true, limit, bytes)
            == arc_loaded(limit, plain, sound),
{
}

} // verus!
