//! What letters, digits, blanks and words are, and how numbers are written.
use crate::text::{
    fields, fields_from, law_trimmed, next_of, trimmed,
    all_digits, decimal, exponent_at, fraction_at, is_digit, is_float, is_space,
    lower, lowered, number, skip_digits, skip_sign, skip_space, skip_word, without_plus, words,
    words_from,
};
use vstd::prelude::*;

verus! {

/// The white space characters are these 25 and no others.
pub proof fn law_spaces(c: char)
    ensures
        is_space(c) <==> seq![
            '\u{9}',
            '\u{a}',
            '\u{b}',
            '\u{c}',
            '\u{d}',
            ' ',
            '\u{85}',
            '\u{a0}',
            '\u{1680}',
            '\u{2000}',
            '\u{2001}',
            '\u{2002}',
            '\u{2003}',
            '\u{2004}',
            '\u{2005}',
            '\u{2006}',
            '\u{2007}',
            '\u{2008}',
            '\u{2009}',
            '\u{200a}',
            '\u{2028}',
            '\u{2029}',
            '\u{202f}',
            '\u{205f}',
            '\u{3000}',
        ].contains(c),
{
    let all = seq![
        '\u{9}',
        '\u{a}',
        '\u{b}',
        '\u{c}',
        '\u{d}',
        ' ',
        '\u{85}',
        '\u{a0}',
        '\u{1680}',
        '\u{2000}',
        '\u{2001}',
        '\u{2002}',
        '\u{2003}',
        '\u{2004}',
        '\u{2005}',
        '\u{2006}',
        '\u{2007}',
        '\u{2008}',
        '\u{2009}',
        '\u{200a}',
        '\u{2028}',
        '\u{2029}',
        '\u{202f}',
        '\u{205f}',
        '\u{3000}',
    ];
    if is_space(c) {
        assert(exists|i: int| 0 <= i < 25 && #[trigger] all[i] == c) by {
            let u = c as u32;
            let i: int = if u <= 0x0d {
                u - 9
            } else if u == 0x20 {
                5
            } else if u == 0x85 {
                6
            } else if u == 0xa0 {
                7
            } else if u == 0x1680 {
                8
            } else if u <= 0x200a {
                9 + u - 0x2000
            } else if u == 0x2028 {
                20
            } else if u == 0x2029 {
                21
            } else if u == 0x202f {
                22
            } else if u == 0x205f {
                23
            } else {
                24
            };
            assert(all[i] == c);
        }
    }
}

/// The digits are the ten characters from 0 to 9, each with its own value.
pub proof fn law_digits(c: char)
    ensures
        is_digit(c) <==> "0123456789"@.contains(c),
        forall|i: int| 0 <= i < 10 ==> decimal(seq![#[trigger] "0123456789"@[i]]) == i,
{
    reveal_strlit("0123456789");
    let all = "0123456789"@;
    if is_digit(c) {
        assert(all[c as u32 - 0x30] == c);
    }
    assert forall|i: int| 0 <= i < 10 implies decimal(seq![#[trigger] all[i]]) == i by {
        let s = seq![all[i]];
        reveal_with_fuel(decimal, 2);
        assert(s.drop_last() =~= Seq::empty());
    }
}

/// A digit behind a number makes it ten times as large and adds its value; zeros in front
/// make no difference.
pub proof fn law_decimal(s: Seq<char>, c: char)
    ensures
        decimal(s.push(c)) == 10 * decimal(s) + decimal(seq![c]),
        decimal(seq!['0'] + s) == decimal(s),
    decreases s.len(),
{
    reveal_with_fuel(decimal, 2);
    assert(s.push(c).drop_last() =~= s);
    assert(seq![c].drop_last() =~= Seq::empty());
    let t = seq!['0'] + s;
    if s.len() > 0 {
        law_decimal(s.drop_last(), c);
        assert(t.drop_last() =~= seq!['0'] + s.drop_last());
    } else {
        assert(t.drop_last() =~= Seq::empty());
    }
}

/// A row of digits is read as the number that it writes, with or without a plus sign in front,
/// where that is not too large.
pub proof fn law_number(s: Seq<char>, max: nat)
    requires
        s.len() > 0,
        all_digits(s),
    ensures
        number(s, max) == if decimal(s) <= max {
            Some(decimal(s))
        } else {
            None
        },
        number(seq!['+'] + s, max) == number(s, max),
{
    let t = seq!['+'] + s;
    assert(is_digit(s[0]));
    assert(t.skip(1) =~= s);
}

/// What holds anything but digits behind a plus sign is no number, nor is a text without
/// digits.
pub proof fn law_no_number(s: Seq<char>, i: int, max: nat)
    requires
        s.len() == 0 || s == seq!['+'] || 0 <= i < s.len() && !is_digit(s[i]) && !(i == 0 && s[0]
            == '+'),
    ensures
        number(s, max) is None,
{
    if 0 <= i < s.len() && !is_digit(s[i]) && !(i == 0 && s[0] == '+') {
        let d = without_plus(s);
        if s[0] == '+' {
            assert(d[i - 1] == s[i]);
        }
    }
}

/// Capitals become the small letters of the alphabet; nothing else changes.
pub proof fn law_lower(c: char)
    ensures
        forall|i: int|
            0 <= i < 26 ==> lower(#[trigger] "ABCDEFGHIJKLMNOPQRSTUVWXYZ"@[i])
                == "abcdefghijklmnopqrstuvwxyz"@[i],
        !"ABCDEFGHIJKLMNOPQRSTUVWXYZ"@.contains(c) ==> lower(c) == c,
        lowered(seq![c]) == seq![lower(c)],
{
    reveal_strlit("ABCDEFGHIJKLMNOPQRSTUVWXYZ");
    reveal_strlit("abcdefghijklmnopqrstuvwxyz");
    let big = "ABCDEFGHIJKLMNOPQRSTUVWXYZ"@;
    if 0x41 <= c as u32 <= 0x5a {
        assert(big[c as u32 - 0x41] == c);
    }
    assert(lowered(seq![c]) =~= seq![lower(c)]);
}

/// Small letters are made one character after the other.
pub proof fn law_lowered(a: Seq<char>, b: Seq<char>)
    ensures
        lowered(a + b) == lowered(a) + lowered(b),
{
    assert(lowered(a + b) =~= lowered(a) + lowered(b));
}

proof fn lemma_skips_shift(a: Seq<char>, s: Seq<char>, i: int)
    requires
        0 <= i <= s.len(),
    ensures
        skip_space(a + s, a.len() + i) == a.len() + skip_space(s, i),
        skip_word(a + s, a.len() + i) == a.len() + skip_word(s, i),
        skip_digits(a + s, a.len() + i) == a.len() + skip_digits(s, i),
        i <= skip_space(s, i) <= s.len(),
        i <= skip_word(s, i) <= s.len(),
        i <= skip_digits(s, i) <= s.len(),
    decreases s.len() - i,
{
    if i < s.len() {
        lemma_skips_shift(a, s, i + 1);
        assert((a + s)[a.len() + i] == s[i]);
    }
}

proof fn lemma_words_shift(a: Seq<char>, s: Seq<char>, i: int)
    requires
        0 <= i <= s.len(),
    ensures
        words_from(a + s, a.len() + i) == words_from(s, i),
    decreases s.len() - i,
{
    lemma_skips_shift(a, s, i);
    let x = skip_space(s, i);
    lemma_skips_shift(a, s, x);
    let y = skip_word(s, x);
    if i < s.len() && x < s.len() && y > x {
        lemma_words_shift(a, s, y);
        assert((a + s).subrange(a.len() + x, a.len() + y) =~= s.subrange(x, y));
    }
}

/// White space in front of a text makes no word; a text without characters has none.
pub proof fn law_words_skip_space(c: char, s: Seq<char>)
    requires
        is_space(c),
    ensures
        words(seq![c] + s) == words(s),
        words(Seq::<char>::empty()).len() == 0,
{
    let a = seq![c];
    let t = a + s;
    lemma_words_shift(a, s, 0);
    lemma_skips_shift(a, s, 0);
    assert(t[0] == c);
    assert(skip_space(t, 0) == skip_space(t, 1));
    if s.len() == 0 {
        assert(words_from(t, 1) =~= Seq::empty());
        assert(words_from(t, 0) =~= Seq::empty());
        assert(words(s) =~= Seq::empty());
    } else {
        assert(words_from(t, 0) =~= words_from(t, 1));
    }
}

proof fn lemma_word_length(w: Seq<char>, s: Seq<char>, i: int)
    requires
        0 <= i <= w.len(),
        forall|k: int| 0 <= k < w.len() ==> !is_space(#[trigger] w[k]),
        s.len() == 0 || is_space(s[0]),
    ensures
        skip_word(w + s, i) == w.len(),
    decreases w.len() - i,
{
    if i < w.len() {
        assert((w + s)[i] == w[i]);
        lemma_word_length(w, s, i + 1);
    } else if s.len() > 0 {
        assert((w + s)[i] == s[0]);
    }
}

/// A row of other characters up to the next white space is one word, in front of the words of
/// the rest.
pub proof fn law_words_first(w: Seq<char>, s: Seq<char>)
    requires
        w.len() > 0,
        forall|k: int| 0 <= k < w.len() ==> !is_space(#[trigger] w[k]),
        s.len() == 0 || is_space(s[0]),
    ensures
        words(w + s) == seq![w] + words(s),
{
    let t = w + s;
    lemma_word_length(w, s, 0);
    lemma_words_shift(w, s, 0);
    assert(t[0] == w[0]);
    assert(skip_space(t, 0) == 0);
    assert(t.subrange(0, w.len() as int) =~= w);
}

/// Digits are no white space.
pub proof fn lemma_digits_are_no_space(s: Seq<char>)
    requires
        all_digits(s),
    ensures
        forall|k: int| 0 <= k < s.len() ==> !is_space(#[trigger] s[k]),
{
    assert forall|k: int| 0 <= k < s.len() implies !is_space(#[trigger] s[k]) by {
        assert(is_digit(s[k]));
    }
}

proof fn lemma_run_of_digits(a: Seq<char>, d: Seq<char>, r: Seq<char>, i: int)
    requires
        0 <= i <= d.len(),
        all_digits(d),
        r.len() == 0 || !is_digit(r[0]),
    ensures
        skip_digits(a + d + r, a.len() + i) == a.len() + d.len(),
    decreases d.len() - i,
{
    let s = a + d + r;
    if i < d.len() {
        assert(s[a.len() + i] == d[i]);
        lemma_run_of_digits(a, d, r, i + 1);
    } else if r.len() > 0 {
        assert(s[a.len() + i] == r[0]);
    }
}

/// An exponent: the letter, perhaps a sign, and digits.
pub open spec fn exponent(c: char, sign: Seq<char>, d: Seq<char>) -> Seq<char> {
    seq![c] + sign + d
}

/// Whether `s` is a sign or nothing.
pub open spec fn maybe_sign(s: Seq<char>) -> bool {
    s.len() == 0 || s == seq!['+'] || s == seq!['-']
}

proof fn lemma_exponent(a: Seq<char>, c: char, sign: Seq<char>, d: Seq<char>)
    requires
        c == 'e' || c == 'E',
        maybe_sign(sign),
        d.len() > 0,
        all_digits(d),
    ensures
        exponent_at(a + exponent(c, sign, d), a.len() as int),
{
    let s = a + exponent(c, sign, d);
    let i = a.len() as int;
    assert(s[i] == c);
    let k = i + 1 + sign.len();
    assert(is_digit(d[0]));
    if sign.len() > 0 {
        assert(s[i + 1] == sign[0]);
    } else {
        assert(s[i + 1] == d[0]);
    }
    assert(skip_sign(s, i + 1) == k);
    let front = a + seq![c] + sign;
    assert(s =~= front + d + Seq::<char>::empty());
    lemma_run_of_digits(front, d, Seq::empty(), 0);
}

/// Decimal fractions are floating-point numbers: perhaps a sign, digits with perhaps a point
/// among, before or behind them, and perhaps an exponent.
pub proof fn law_fractions(
    sign: Seq<char>,
    a: Seq<char>,
    b: Seq<char>,
    e: Seq<char>,
    c: char,
    esign: Seq<char>,
    d: Seq<char>,
)
    requires
        maybe_sign(sign),
        all_digits(a),
        all_digits(b),
        e.len() == 0 || (c == 'e' || c == 'E') && maybe_sign(esign) && d.len() > 0 && all_digits(d)
            && e == exponent(c, esign, d),
    ensures
        a.len() > 0 ==> is_float(sign + a + e),
        a.len() + b.len() > 0 ==> is_float(sign + a + seq!['.'] + b + e),
{
    if e.len() > 0 {
        assert(e[0] == c);
    }
    if a.len() > 0 {
        let s = sign + a + e;
        assert(is_digit(a[0]));
        assert(s[sign.len() as int] == a[0]);
        if sign.len() > 0 {
            assert(s[0] == sign[0]);
        }
        assert(skip_sign(s, 0) == sign.len());
        lemma_run_of_digits(sign, a, e, 0);
        if e.len() > 0 {
            lemma_exponent(sign + a, c, esign, d);
            assert(s[(sign + a).len() as int] == c);
        }
        assert(fraction_at(s, sign.len() as int));
    }
    if a.len() + b.len() > 0 {
        let s = sign + a + seq!['.'] + b + e;
        let point = seq!['.'];
        let tail = point + b + e;
        assert(s =~= sign + a + tail);
        assert(tail[0] == '.');
        if sign.len() > 0 {
            assert(s[0] == sign[0]);
        } else if a.len() > 0 {
            assert(is_digit(a[0]));
            assert(s[0] == a[0]);
        } else {
            assert(s[0] == '.');
        }
        assert(skip_sign(s, 0) == sign.len());
        lemma_run_of_digits(sign, a, tail, 0);
        let p = (sign.len() + a.len()) as int;
        assert(s[p] == '.');
        let front = sign + a + point;
        assert(s =~= front + b + e);
        lemma_run_of_digits(front, b, e, 0);
        if e.len() > 0 {
            lemma_exponent(front + b, c, esign, d);
        }
        assert(fraction_at(s, sign.len() as int));
    }
}

proof fn lemma_skipped_digits(s: Seq<char>, i: int)
    requires
        0 <= i <= s.len(),
    ensures
        i <= skip_digits(s, i) <= s.len(),
        forall|k: int| i <= k < skip_digits(s, i) ==> is_digit(#[trigger] s[k]),
    decreases s.len() - i,
{
    if i < s.len() && is_digit(s[i]) {
        lemma_skipped_digits(s, i + 1);
    }
}

proof fn lemma_lower_e(c: char)
    requires
        lower(c) == 'e',
    ensures
        c == 'e' || c == 'E',
{
    if 0x41 <= c as u32 <= 0x5a {
        assert(lower(c) as u32 == c as u32 + 32);
        assert(c as u32 == 'E' as u32);
    }
}

/// A floating-point number is one of three words behind perhaps a sign, or it holds a digit and
/// no characters but digits, signs, points and the letter of an exponent.
pub proof fn law_floats_only(s: Seq<char>)
    requires
        is_float(s),
    ensures
        ({
            let word = lowered(
                if s.len() > 0 && (s[0] == '+' || s[0] == '-') {
                    s.skip(1)
                } else {
                    s
                },
            );
            ||| word == "inf"@
            ||| word == "infinity"@
            ||| word == "nan"@
            ||| {
                &&& exists|k: int| 0 <= k < s.len() && is_digit(#[trigger] s[k])
                &&& forall|k: int|
                    0 <= k < s.len() ==> is_digit(#[trigger] s[k]) || s[k] == '+' || s[k] == '-'
                        || s[k] == '.' || s[k] == 'e' || s[k] == 'E'
            }
        }),
{
    let i = skip_sign(s, 0);
    assert(s.skip(0) =~= s);
    if fraction_at(s, i) {
        let p = skip_digits(s, i);
        lemma_skipped_digits(s, i);
        let point = p < s.len() && s[p] == '.';
        if point {
            lemma_skipped_digits(s, p + 1);
        }
        let q = if point {
            skip_digits(s, p + 1)
        } else {
            p
        };
        assert(exists|k: int| 0 <= k < s.len() && is_digit(#[trigger] s[k])) by {
            if p > i {
                assert(is_digit(s[i]));
            } else {
                assert(is_digit(s[p + 1]));
            }
        }
        let x = skip_sign(s, q + 1);
        if q < s.len() {
            assert(exponent_at(s, q));
            lemma_skipped_digits(s, x);
            lemma_lower_e(s[q]);
        }
        assert forall|k: int| 0 <= k < s.len() implies is_digit(#[trigger] s[k]) || s[k] == '+'
            || s[k] == '-' || s[k] == '.' || s[k] == 'e' || s[k] == 'E' by {
            if k < i {
                assert(k == 0);
            } else if k < p {
                assert(is_digit(s[k]));
            } else if k < q {
                if k > p {
                    assert(is_digit(s[k]));
                }
            } else if k > q {
                if k >= x {
                    assert(is_digit(s[k]));
                } else {
                    assert(k == q + 1);
                }
            }
        }
    }
}

/// The words for the numbers without digits are floating-point numbers in any case of their
/// letters, with or without a sign.
pub proof fn law_float_words(sign: Seq<char>, w: Seq<char>)
    requires
        maybe_sign(sign),
        lowered(w) == "inf"@ || lowered(w) == "infinity"@ || lowered(w) == "nan"@,
    ensures
        is_float(sign + w),
{
    reveal_strlit("inf");
    reveal_strlit("infinity");
    reveal_strlit("nan");
    let s = sign + w;
    assert(lowered(w).len() == w.len());
    assert(lower(w[0]) == lowered(w)[0]);
    if sign.len() > 0 {
        assert(s[0] == sign[0]);
        assert(s.skip(1) =~= w);
    } else {
        assert(s[0] == w[0]);
        assert(s.skip(0) =~= w);
    }
}

proof fn lemma_next_shift(a: Seq<char>, s: Seq<char>, sep: char, i: int)
    requires
        0 <= i <= s.len(),
    ensures
        next_of(a + s, sep, a.len() + i) == a.len() + next_of(s, sep, i),
        i <= next_of(s, sep, i) <= s.len(),
    decreases s.len() - i,
{
    if i < s.len() {
        lemma_next_shift(a, s, sep, i + 1);
        assert((a + s)[a.len() + i] == s[i]);
    }
}

proof fn lemma_fields_shift(a: Seq<char>, s: Seq<char>, sep: char, i: int)
    requires
        0 <= i <= s.len(),
    ensures
        fields_from(a + s, sep, a.len() + i) == fields_from(s, sep, i),
    decreases s.len() - i,
{
    lemma_next_shift(a, s, sep, i);
    let j = next_of(s, sep, i);
    if j < s.len() {
        lemma_fields_shift(a, s, sep, j + 1);
        assert((a + s).subrange(a.len() + i, a.len() + j) =~= s.subrange(i, j));
    } else {
        assert((a + s).subrange(a.len() + i, (a + s).len() as int) =~= s.subrange(
            i,
            s.len() as int,
        ));
    }
}

proof fn lemma_first_separator(a: Seq<char>, r: Seq<char>, sep: char, i: int)
    requires
        0 <= i <= a.len(),
        forall|k: int| 0 <= k < a.len() ==> #[trigger] a[k] != sep,
        r.len() == 0 || r[0] == sep,
    ensures
        next_of(a + r, sep, i) == a.len(),
    decreases a.len() - i,
{
    if i < a.len() {
        assert((a + r)[i] == a[i]);
        lemma_first_separator(a, r, sep, i + 1);
    } else if r.len() > 0 {
        assert((a + r)[i] == r[0]);
    }
}

/// A text without separators is one field; what stands in front of the first separator is the
/// first field, and the others are those of the rest.
pub proof fn law_fields_first(a: Seq<char>, s: Seq<char>, sep: char)
    requires
        forall|k: int| 0 <= k < a.len() ==> #[trigger] a[k] != sep,
    ensures
        fields(a, sep) == seq![a],
        fields(a + seq![sep] + s, sep) == seq![a] + fields(s, sep),
{
    lemma_first_separator(a, Seq::empty(), sep, 0);
    assert(a + Seq::<char>::empty() =~= a);
    assert(a.subrange(0, a.len() as int) =~= a);
    let front = a + seq![sep];
    let t = front + s;
    assert(t =~= a + (seq![sep] + s));
    lemma_first_separator(a, seq![sep] + s, sep, 0);
    lemma_fields_shift(front, s, sep, 0);
    assert(t.subrange(0, a.len() as int) =~= a);
}

/// White space on either side of a text is trimmed away, and a text that neither starts nor
/// ends with any stays whole.
pub proof fn law_trim_pads(front: Seq<char>, s: Seq<char>, back: Seq<char>)
    requires
        forall|k: int| 0 <= k < front.len() ==> is_space(#[trigger] front[k]),
        forall|k: int| 0 <= k < back.len() ==> is_space(#[trigger] back[k]),
        s.len() > 0 ==> !is_space(s[0]) && !is_space(s.last()),
    ensures
        trimmed(front + s + back) == s,
{
    let t = front + s + back;
    law_trimmed(t);
    let (a, b) = choose|a: int, b: int|
        {
            &&& 0 <= a <= b <= t.len()
            &&& trimmed(t) == #[trigger] t.subrange(a, b)
            &&& forall|k: int| 0 <= k < a || b <= k < t.len() ==> is_space(#[trigger] t[k])
        };
    let lo = front.len() as int;
    let hi = (front.len() + s.len()) as int;
    if s.len() > 0 {
        assert(t[lo] == s[0]);
        assert(t[hi - 1] == s.last());
        assert(a <= lo && hi <= b);
        assert(trimmed(t)[0] == t[a]);
        assert(trimmed(t).last() == t[b - 1]);
        if a < lo {
            assert(t[a] == front[a]);
        }
        if b > hi {
            assert(t[b - 1] == back[b - 1 - hi]);
        }
        assert(t.subrange(lo, hi) =~= s);
    } else {
        if a < b {
            assert(trimmed(t)[0] == t[a]);
            if a < lo {
                assert(t[a] == front[a]);
            } else {
                assert(t[a] == back[a - lo]);
            }
        }
        assert(trimmed(t) =~= s);
    }
}

/// White space in front of a text makes no word.
pub proof fn lemma_words_skip_spaces(front: Seq<char>, s: Seq<char>)
    requires
        forall|k: int| 0 <= k < front.len() ==> is_space(#[trigger] front[k]),
    ensures
        words(front + s) == words(s),
    decreases front.len(),
{
    if front.len() > 0 {
        let rest = front.skip(1);
        assert(front + s =~= seq![front[0]] + (rest + s));
        law_words_skip_space(front[0], rest + s);
        lemma_words_skip_spaces(rest, s);
    } else {
        assert(front + s =~= s);
    }
}

} // verus!
