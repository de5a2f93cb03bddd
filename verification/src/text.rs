//! Reading small pieces of text: trimming, splitting, decimal numbers.
//!
//! A text is the sequence of its characters. The executable functions take and
//! return `&str`, so that a piece of a line borrows from the line.

use vstd::prelude::*;
use vstd::string::*;

verus! {

/// Unicode white space.
pub open spec fn is_space(c: char) -> bool {
    let u = c as u32;
    ||| 0x09 <= u <= 0x0d
    ||| u == 0x20
    ||| u == 0x85
    ||| u == 0xa0
    ||| u == 0x1680
    ||| 0x2000 <= u <= 0x200a
    ||| u == 0x2028
    ||| u == 0x2029
    ||| u == 0x202f
    ||| u == 0x205f
    ||| u == 0x3000
}

pub open spec fn is_digit(c: char) -> bool {
    0x30 <= c as u32 <= 0x39
}

pub open spec fn digit_value(c: char) -> nat {
    (c as u32 - 0x30) as nat
}

/// ASCII capitals become small letters, every other character stays.
pub open spec fn lower(c: char) -> char {
    if 0x41 <= c as u32 <= 0x5a {
        (c as u32 + 32) as char
    } else {
        c
    }
}

pub open spec fn lowered(s: Seq<char>) -> Seq<char> {
    Seq::new(s.len(), |i: int| lower(s[i]))
}

/// The first position at or after `i` that holds no white space, or the end.
pub open spec fn skip_space(s: Seq<char>, i: int) -> int
    decreases s.len() - i,
{
    if i >= s.len() {
        s.len() as int
    } else if is_space(s[i]) {
        skip_space(s, i + 1)
    } else {
        i
    }
}

/// The first position at or after `i` that holds white space, or the end.
pub open spec fn skip_word(s: Seq<char>, i: int) -> int
    decreases s.len() - i,
{
    if i >= s.len() {
        s.len() as int
    } else if is_space(s[i]) {
        i
    } else {
        skip_word(s, i + 1)
    }
}

/// The last position at or before `j` with no white space just in front of it.
pub open spec fn drop_space(s: Seq<char>, j: int) -> int
    decreases j,
{
    if j <= 0 {
        0
    } else if is_space(s[j - 1]) {
        drop_space(s, j - 1)
    } else {
        j
    }
}

/// `s` without the white space at its two ends.
pub open spec fn trimmed(s: Seq<char>) -> Seq<char> {
    let a = skip_space(s, 0);
    let b = drop_space(s, s.len() as int);
    if a < b {
        s.subrange(a, b)
    } else {
        Seq::empty()
    }
}

/// The first position at or after `i` that holds `c`, or the end.
pub open spec fn next_of(s: Seq<char>, c: char, i: int) -> int
    decreases s.len() - i,
{
    if i >= s.len() {
        s.len() as int
    } else if s[i] == c {
        i
    } else {
        next_of(s, c, i + 1)
    }
}

/// What `sep` separates in `s` from position `i` on.
pub open spec fn fields_from(s: Seq<char>, sep: char, i: int) -> Seq<Seq<char>>
    decreases s.len() - i,
{
    let j = next_of(s, sep, i);
    if i > s.len() || j < i || j >= s.len() {
        seq![s.subrange(i, s.len() as int)]
    } else {
        seq![s.subrange(i, j)] + fields_from(s, sep, j + 1)
    }
}

/// What `sep` separates in `s`: always one piece more than there are separators.
pub open spec fn fields(s: Seq<char>, sep: char) -> Seq<Seq<char>> {
    fields_from(s, sep, 0)
}

/// The runs of characters that are no white space, from position `i` on.
pub open spec fn words_from(s: Seq<char>, i: int) -> Seq<Seq<char>>
    decreases s.len() - i,
{
    let a = skip_space(s, i);
    let b = skip_word(s, a);
    if i >= s.len() || a < i || a >= s.len() || b <= a || b > s.len() {
        Seq::empty()
    } else {
        seq![s.subrange(a, b)] + words_from(s, b)
    }
}

pub open spec fn words(s: Seq<char>) -> Seq<Seq<char>> {
    words_from(s, 0)
}

/// The number that a row of decimal digits writes.
pub open spec fn decimal(s: Seq<char>) -> nat
    decreases s.len(),
{
    if s.len() == 0 {
        0
    } else {
        decimal(s.drop_last()) * 10 + digit_value(s.last())
    }
}

pub open spec fn all_digits(s: Seq<char>) -> bool {
    forall|i: int| 0 <= i < s.len() ==> is_digit(#[trigger] s[i])
}

/// `s` without one plus sign in front.
pub open spec fn without_plus(s: Seq<char>) -> Seq<char> {
    if s.len() > 0 && s[0] == '+' {
        s.skip(1)
    } else {
        s
    }
}

/// The number up to `max` that `s` writes: at least one digit, nothing but
/// digits, except for one plus sign in front.
pub open spec fn number(s: Seq<char>, max: nat) -> Option<nat> {
    let d = without_plus(s);
    if d.len() > 0 && all_digits(d) && decimal(d) <= max {
        Some(decimal(d))
    } else {
        None
    }
}

/// The views of a sequence of texts.
pub open spec fn texts(v: Seq<&str>) -> Seq<Seq<char>> {
    Seq::new(v.len(), |i: int| v[i]@)
}

pub open spec fn strings(v: Seq<String>) -> Seq<Seq<char>> {
    Seq::new(v.len(), |i: int| v[i]@)
}

proof fn lemma_skip_space(s: Seq<char>, i: int)
    requires
        0 <= i <= s.len(),
    ensures
        i <= skip_space(s, i) <= s.len(),
        skip_space(s, i) < s.len() ==> !is_space(s[skip_space(s, i)]),
        forall|k: int| i <= k < skip_space(s, i) ==> is_space(#[trigger] s[k]),
    decreases s.len() - i,
{
    if i < s.len() && is_space(s[i]) {
        lemma_skip_space(s, i + 1);
    }
}

proof fn lemma_skip_word(s: Seq<char>, i: int)
    requires
        0 <= i <= s.len(),
    ensures
        i <= skip_word(s, i) <= s.len(),
        i < s.len() && !is_space(s[i]) ==> i < skip_word(s, i),
    decreases s.len() - i,
{
    if i < s.len() && !is_space(s[i]) {
        lemma_skip_word(s, i + 1);
    }
}

proof fn lemma_drop_space(s: Seq<char>, j: int)
    requires
        0 <= j <= s.len(),
    ensures
        0 <= drop_space(s, j) <= j,
        drop_space(s, j) > 0 ==> !is_space(s[drop_space(s, j) - 1]),
        forall|k: int| drop_space(s, j) <= k < j ==> is_space(#[trigger] s[k]),
    decreases j,
{
    if j > 0 && is_space(s[j - 1]) {
        lemma_drop_space(s, j - 1);
    }
}

proof fn lemma_next_of(s: Seq<char>, c: char, i: int)
    requires
        0 <= i <= s.len(),
    ensures
        i <= next_of(s, c, i) <= s.len(),
        next_of(s, c, i) < s.len() ==> s[next_of(s, c, i)] == c,
        forall|k: int| i <= k < next_of(s, c, i) ==> #[trigger] s[k] != c,
    decreases s.len() - i,
{
    if i < s.len() && s[i] != c {
        lemma_next_of(s, c, i + 1);
    }
}

/// The characters of `text`, in order.
pub fn chars_of(text: &str) -> (v: Vec<char>)
    ensures
        v@ == text@,
{
    let mut v: Vec<char> = Vec::new();
    for c in it: text.chars()
        invariant
            v@ == it.seq().take(it.index()),
            it.seq() == text@,
    {
        proof {
            assert(it.seq().take(it.index() + 1) =~= it.seq().take(it.index()).push(c));
        }
        v.push(c);
    }
    assert(text@.take(text@.len() as int) =~= text@);
    v
}

/// Whether two texts are the same.
pub fn same(a: &str, b: &str) -> (r: bool)
    ensures
        r == (a@ == b@),
{
    a.to_owned() == b.to_owned()
}

/// Whether `chars` spell `text`.
pub fn spells(chars: &Vec<char>, text: &str) -> (r: bool)
    ensures
        r == (chars@ == text@),
{
    let other = chars_of(text);
    if chars.len() != other.len() {
        return false;
    }
    let mut i: usize = 0;
    while i < chars.len()
        invariant
            i <= chars.len(),
            chars.len() == other.len(),
            other@ == text@,
            forall|k: int| 0 <= k < i ==> chars@[k] == other@[k],
        decreases chars.len() - i,
    {
        if chars[i] != other[i] {
            return false;
        }
        i += 1;
    }
    assert(chars@ =~= text@);
    true
}

fn space(c: char) -> (r: bool)
    ensures
        r == is_space(c),
{
    let u: u32 = c as u32;
    (0x09 <= u && u <= 0x0d) || u == 0x20 || u == 0x85 || u == 0xa0 || u == 0x1680 || (0x2000 <= u
        && u <= 0x200a) || u == 0x2028 || u == 0x2029 || u == 0x202f || u == 0x205f || u == 0x3000
}

fn digit(c: char) -> (r: bool)
    ensures
        r == is_digit(c),
{
    let u: u32 = c as u32;
    0x30 <= u && u <= 0x39
}

/// `text` in ASCII small letters.
pub fn lower_chars(text: &str) -> (v: Vec<char>)
    ensures
        v@ == lowered(text@),
{
    let chars = chars_of(text);
    let mut v: Vec<char> = Vec::new();
    let mut i: usize = 0;
    while i < chars.len()
        invariant
            i <= chars.len(),
            chars@ == text@,
            v@ == lowered(text@).take(i as int),
        decreases chars.len() - i,
    {
        let c = chars[i];
        let l = small(c);
        proof {
            assert(lowered(text@).take(i + 1) =~= lowered(text@).take(i as int).push(l));
        }
        v.push(l);
        i += 1;
    }
    assert(lowered(text@).take(i as int) =~= lowered(text@));
    v
}

/// One character in ASCII small letters.
pub fn small(c: char) -> (l: char)
    ensures
        l == lower(c),
{
    let u: u32 = c as u32;
    if 0x41 <= u && u <= 0x5a {
        (u + 32) as u8 as char
    } else {
        c
    }
}

fn find_dark(s: &Vec<char>, from: usize) -> (a: usize)
    requires
        from <= s.len(),
    ensures
        a == skip_space(s@, from as int),
        from <= a <= s.len(),
{
    let mut i: usize = from;
    while i < s.len() && space(s[i])
        invariant
            from <= i <= s.len(),
            skip_space(s@, i as int) == skip_space(s@, from as int),
        decreases s.len() - i,
    {
        i += 1;
    }
    i
}

fn find_space(s: &Vec<char>, from: usize) -> (b: usize)
    requires
        from <= s.len(),
    ensures
        b == skip_word(s@, from as int),
        from <= b <= s.len(),
{
    let mut i: usize = from;
    while i < s.len() && !space(s[i])
        invariant
            from <= i <= s.len(),
            skip_word(s@, i as int) == skip_word(s@, from as int),
        decreases s.len() - i,
    {
        i += 1;
    }
    i
}

fn find_char(s: &Vec<char>, c: char, from: usize) -> (j: usize)
    requires
        from <= s.len(),
    ensures
        j == next_of(s@, c, from as int),
        from <= j <= s.len(),
{
    let mut i: usize = from;
    while i < s.len() && s[i] != c
        invariant
            from <= i <= s.len(),
            next_of(s@, c, i as int) == next_of(s@, c, from as int),
        decreases s.len() - i,
    {
        i += 1;
    }
    i
}

/// `text` without the white space at its two ends.
pub fn trim<'a>(text: &'a str) -> (t: &'a str)
    ensures
        t@ == trimmed(text@),
{
    let s = chars_of(text);
    let a = find_dark(&s, 0);
    let mut b: usize = s.len();
    while b > 0 && space(s[b - 1])
        invariant
            b <= s.len(),
            drop_space(s@, b as int) == drop_space(s@, s.len() as int),
        decreases b,
    {
        b -= 1;
    }
    if a < b {
        text.substring_char(a, b)
    } else {
        let t = text.substring_char(0, 0);
        assert(t@ =~= Seq::<char>::empty());
        t
    }
}

/// The pieces of `text` between the separators.
pub fn split<'a>(text: &'a str, sep: char) -> (v: Vec<&'a str>)
    ensures
        texts(v@) == fields(text@, sep),
{
    let s = chars_of(text);
    let mut v: Vec<&'a str> = Vec::new();
    let mut i: usize = 0;
    loop
        invariant
            s@ == text@,
            i <= s.len(),
            texts(v@) + fields_from(text@, sep, i as int) == fields(text@, sep),
        decreases s.len() - i,
    {
        let j = find_char(&s, sep, i);
        let piece = text.substring_char(i, j);
        let ghost before = texts(v@);
        v.push(piece);
        assert(texts(v@) =~= before + seq![piece@]);
        if j >= s.len() {
            assert(texts(v@) =~= before + fields_from(text@, sep, i as int));
            return v;
        }
        proof {
            let rest = fields_from(text@, sep, j + 1);
            assert(before + (seq![piece@] + rest) =~= (before + seq![piece@]) + rest);
        }
        i = j + 1;
    }
}

/// The second piece of `text` between the separators, where there is one.
pub fn second_field<'a>(text: &'a str, sep: char) -> (r: Option<&'a str>)
    ensures
        match r {
            Some(t) => fields(text@, sep).len() > 1 && t@ == fields(text@, sep)[1],
            None => fields(text@, sep).len() == 1,
        },
{
    let s = chars_of(text);
    let j = find_char(&s, sep, 0);
    if j >= s.len() {
        return None;
    }
    let k = find_char(&s, sep, j + 1);
    proof {
        reveal_with_fuel(fields_from, 3);
    }
    Some(text.substring_char(j + 1, k))
}

/// The first two words of `text`, as far as there are any.
pub fn two_words<'a>(text: &'a str) -> (r: (Option<&'a str>, Option<&'a str>))
    ensures
        r.0 is Some <==> words(text@).len() > 0,
        r.0 matches Some(t) ==> t@ == words(text@)[0],
        r.1 is Some <==> words(text@).len() > 1,
        r.1 matches Some(t) ==> t@ == words(text@)[1],
{
    let s = chars_of(text);
    let a = find_dark(&s, 0);
    if a >= s.len() {
        return (None, None);
    }
    let b = find_space(&s, a);
    proof {
        lemma_skip_space(s@, 0);
        lemma_skip_word(s@, a as int);
        reveal_with_fuel(words_from, 3);
    }
    let first = text.substring_char(a, b);
    let c = find_dark(&s, b);
    if c >= s.len() {
        return (Some(first), None);
    }
    let d = find_space(&s, c);
    proof {
        lemma_skip_space(s@, b as int);
        lemma_skip_word(s@, c as int);
    }
    (Some(first), Some(text.substring_char(c, d)))
}

proof fn lemma_decimal_grows(s: Seq<char>, i: int)
    requires
        0 <= i <= s.len(),
    ensures
        decimal(s.take(i)) <= decimal(s),
    decreases s.len() - i,
{
    if i < s.len() {
        lemma_decimal_grows(s, i + 1);
        assert(s.take(i + 1).drop_last() =~= s.take(i));
    } else {
        assert(s.take(i) =~= s);
    }
}

/// The number up to `max` that `text` writes.
pub fn number_up_to(text: &str, max: u64) -> (r: Option<u64>)
    ensures
        match r {
            Some(n) => number(text@, max as nat) == Some(n as nat),
            None => number(text@, max as nat) is None,
        },
{
    let s = chars_of(text);
    let start: usize = if s.len() > 0 && s[0] == '+' {
        1
    } else {
        0
    };
    let ghost d = without_plus(s@);
    assert(d =~= s@.skip(start as int));
    if start == s.len() {
        return None;
    }
    let mut n: u64 = 0;
    let mut i: usize = start;
    while i < s.len()
        invariant
            start <= i <= s.len(),
            start < s.len(),
            s@ == text@,
            d == without_plus(s@),
            d == s@.skip(start as int),
            all_digits(d.take(i - start)),
            n as nat == decimal(d.take(i - start)),
            n <= max,
        decreases s.len() - i,
    {
        let c = s[i];
        assert(d[i - start] == c);
        if !digit(c) {
            return None;
        }
        let next: u128 = n as u128 * 10 + (c as u32 - 0x30) as u128;
        proof {
            assert(d.take(i - start + 1).drop_last() =~= d.take(i - start));
            assert(next as nat == decimal(d.take(i - start + 1)));
            lemma_decimal_grows(d, i - start + 1);
        }
        if next > max as u128 {
            return None;
        }
        n = next as u64;
        i += 1;
    }
    assert(d.take(i - start) =~= d);
    Some(n)
}

pub fn parse_u64(text: &str) -> (r: Option<u64>)
    ensures
        match r {
            Some(n) => number(text@, u64::MAX as nat) == Some(n as nat),
            None => number(text@, u64::MAX as nat) is None,
        },
{
    number_up_to(text, u64::MAX)
}

pub fn parse_usize(text: &str) -> (r: Option<usize>)
    ensures
        match r {
            Some(n) => number(text@, usize::MAX as nat) == Some(n as nat),
            None => number(text@, usize::MAX as nat) is None,
        },
{
    match number_up_to(text, usize::MAX as u64) {
        Some(n) => Some(n as usize),
        None => None,
    }
}

pub fn parse_u32(text: &str) -> (r: Option<u32>)
    ensures
        match r {
            Some(n) => number(text@, u32::MAX as nat) == Some(n as nat),
            None => number(text@, u32::MAX as nat) is None,
        },
{
    match number_up_to(text, u32::MAX as u64) {
        Some(n) => Some(n as u32),
        None => None,
    }
}

/// The position behind the digits that start at `i`.
pub open spec fn skip_digits(s: Seq<char>, i: int) -> int
    decreases s.len() - i,
{
    if i >= s.len() {
        s.len() as int
    } else if is_digit(s[i]) {
        skip_digits(s, i + 1)
    } else {
        i
    }
}

/// The position behind one sign at `i`.
pub open spec fn skip_sign(s: Seq<char>, i: int) -> int {
    if 0 <= i < s.len() && (s[i] == '+' || s[i] == '-') {
        i + 1
    } else {
        i
    }
}

/// Whether the text from `i` on is an exponent: the letter, perhaps a sign, and
/// digits to the end.
pub open spec fn exponent_at(s: Seq<char>, i: int) -> bool {
    let k = skip_sign(s, i + 1);
    &&& 0 <= i < s.len()
    &&& lower(s[i]) == 'e'
    &&& k < s.len()
    &&& skip_digits(s, k) == s.len()
}

/// Whether the text from `i` on is an unsigned decimal fraction: digits, perhaps
/// a point with digits on at least one side of it, and perhaps an exponent.
pub open spec fn fraction_at(s: Seq<char>, i: int) -> bool {
    let p = skip_digits(s, i);
    let point = p < s.len() && s[p] == '.';
    let q = if point {
        skip_digits(s, p + 1)
    } else {
        p
    };
    let digits = if point {
        q - i - 1
    } else {
        q - i
    };
    digits > 0 && (q == s.len() || exponent_at(s, q))
}

/// Whether `s` writes a floating-point number: perhaps a sign, then a decimal
/// fraction or one of the words for the numbers that have no digits.
pub open spec fn is_float(s: Seq<char>) -> bool {
    let i = skip_sign(s, 0);
    let word = lowered(s.skip(i));
    ||| word == "inf"@
    ||| word == "infinity"@
    ||| word == "nan"@
    ||| fraction_at(s, i)
}

fn find_nondigit(s: &Vec<char>, from: usize) -> (j: usize)
    requires
        from <= s.len(),
    ensures
        j == skip_digits(s@, from as int),
        from <= j <= s.len(),
{
    let mut i: usize = from;
    while i < s.len() && digit(s[i])
        invariant
            from <= i <= s.len(),
            skip_digits(s@, i as int) == skip_digits(s@, from as int),
        decreases s.len() - i,
    {
        i += 1;
    }
    i
}

fn behind_sign(s: &Vec<char>, from: usize) -> (j: usize)
    requires
        from <= s.len(),
    ensures
        j == skip_sign(s@, from as int),
        from <= j <= s.len(),
{
    if from < s.len() && (s[from] == '+' || s[from] == '-') {
        from + 1
    } else {
        from
    }
}

fn has_fraction(s: &Vec<char>, from: usize) -> (r: bool)
    requires
        from <= s.len(),
    ensures
        r == fraction_at(s@, from as int),
{
    let p = find_nondigit(s, from);
    let point = p < s.len() && s[p] == '.';
    let q = if point {
        find_nondigit(s, p + 1)
    } else {
        p
    };
    let digits: usize = if point {
        q - from - 1
    } else {
        q - from
    };
    if digits == 0 {
        return false;
    }
    if q == s.len() {
        return true;
    }
    if small(s[q]) != 'e' {
        return false;
    }
    let k = behind_sign(s, q + 1);
    k < s.len() && find_nondigit(s, k) == s.len()
}

/// Whether `text` writes a floating-point number.
pub fn writes_float(text: &str) -> (r: bool)
    ensures
        r == is_float(text@),
{
    let s = chars_of(text);
    let i = behind_sign(&s, 0);
    let low = lower_chars(text.substring_char(i, s.len()));
    proof {
        assert(text@.subrange(i as int, s.len() as int) =~= s@.skip(i as int));
    }
    spells(&low, "inf") || spells(&low, "infinity") || spells(&low, "nan") || has_fraction(&s, i)
}

/// Trimming takes away white space alone, and all of it at both ends: what is
/// left starts and ends with something else, or is empty.
pub proof fn law_trimmed(s: Seq<char>)
    ensures
        exists|a: int, b: int|
            {
                &&& 0 <= a <= b <= s.len()
                &&& trimmed(s) == #[trigger] s.subrange(a, b)
                &&& forall|k: int| 0 <= k < a || b <= k < s.len() ==> is_space(#[trigger] s[k])
            },
        trimmed(s).len() > 0 ==> !is_space(trimmed(s)[0]) && !is_space(trimmed(s).last()),
{
    let a = skip_space(s, 0);
    let b = drop_space(s, s.len() as int);
    lemma_skip_space(s, 0);
    lemma_drop_space(s, s.len() as int);
    if a < b {
        assert(trimmed(s) == s.subrange(a, b));
    } else {
        assert(trimmed(s) =~= s.subrange(a, a));
        assert forall|k: int| 0 <= k < s.len() implies is_space(#[trigger] s[k]) by {
            assert(k < a || b <= k);
        }
    }
}

/// Trimming twice is trimming once.
pub proof fn law_trim_again(s: Seq<char>)
    ensures
        trimmed(trimmed(s)) == trimmed(s),
{
    law_trimmed(s);
    let t = trimmed(s);
    if t.len() > 0 {
        assert(skip_space(t, 0) == 0);
        assert(drop_space(t, t.len() as int) == t.len());
        assert(t.subrange(0, t.len() as int) =~= t);
    } else {
        assert(t =~= Seq::<char>::empty());
    }
}

/// Splitting loses nothing: there is one piece more than there are separators,
/// no piece holds one, and the pieces joined again are the text.
pub proof fn law_fields(s: Seq<char>, sep: char)
    ensures
        joined(fields(s, sep), sep) == s,
        forall|i: int|
            0 <= i < fields(s, sep).len() ==> !(#[trigger] fields(s, sep)[i]).contains(sep),
        fields(s, sep).len() == s.filter(|c: char| c == sep).len() + 1,
{
    lemma_fields(s, sep, 0);
    assert(s.skip(0) =~= s);
}

/// The pieces with one separator between each two.
pub open spec fn joined(pieces: Seq<Seq<char>>, sep: char) -> Seq<char>
    decreases pieces.len(),
{
    if pieces.len() == 0 {
        Seq::empty()
    } else if pieces.len() == 1 {
        pieces[0]
    } else {
        pieces[0].push(sep) + joined(pieces.skip(1), sep)
    }
}

proof fn lemma_no_match(s: Seq<char>, sep: char)
    requires
        forall|k: int| 0 <= k < s.len() ==> #[trigger] s[k] != sep,
    ensures
        s.filter(|c: char| c == sep).len() == 0,
    decreases s.len(),
{
    reveal(Seq::filter);
    if s.len() > 0 {
        lemma_no_match(s.drop_last(), sep);
    }
}

proof fn lemma_fields(s: Seq<char>, sep: char, i: int)
    requires
        0 <= i <= s.len(),
    ensures
        fields_from(s, sep, i).len() >= 1,
        joined(fields_from(s, sep, i), sep) == s.skip(i),
        forall|k: int|
            0 <= k < fields_from(s, sep, i).len() ==> !(#[trigger] fields_from(s, sep, i)[k]).contains(sep),
        fields_from(s, sep, i).len() == s.skip(i).filter(|c: char| c == sep).len() + 1,
    decreases s.len() - i,
{
    let j = next_of(s, sep, i);
    let f = fields_from(s, sep, i);
    lemma_next_of(s, sep, i);
    if j >= s.len() {
        assert(f =~= seq![s.skip(i)]);
        lemma_no_match(s.skip(i), sep);
    } else {
        let rest = fields_from(s, sep, j + 1);
        lemma_fields(s, sep, j + 1);
        assert(f.skip(1) =~= rest);
        assert(f[0] == s.subrange(i, j));
        assert(s.skip(i) =~= s.subrange(i, j).push(sep) + s.skip(j + 1));
        assert forall|k: int| 0 <= k < f.len() implies !(#[trigger] f[k]).contains(sep) by {
            if k > 0 {
                assert(f[k] == rest[k - 1]);
            }
        }
        let pred = |c: char| c == sep;
        lemma_no_match(s.subrange(i, j), sep);
        Seq::filter_distributes_over_add(s.subrange(i, j).push(sep), s.skip(j + 1), pred);
        reveal(Seq::filter);
        assert(s.subrange(i, j).push(sep).drop_last() =~= s.subrange(i, j));
    }
}

proof fn lemma_lower(c: char)
    ensures
        is_space(lower(c)) == is_space(c),
        lower(lower(c)) == lower(c),
{
}

proof fn lemma_skip_space_lowered(s: Seq<char>, i: int)
    requires
        0 <= i <= s.len(),
    ensures
        skip_space(lowered(s), i) == skip_space(s, i),
    decreases s.len() - i,
{
    if i < s.len() {
        lemma_lower(s[i]);
        lemma_skip_space_lowered(s, i + 1);
    }
}

proof fn lemma_drop_space_lowered(s: Seq<char>, j: int)
    requires
        0 <= j <= s.len(),
    ensures
        drop_space(lowered(s), j) == drop_space(s, j),
    decreases j,
{
    if j > 0 {
        lemma_lower(s[j - 1]);
        lemma_drop_space_lowered(s, j - 1);
    }
}

/// Trimming and changing to small letters can be done in either order, and the
/// latter twice is once.
pub proof fn law_trim_lowered(s: Seq<char>)
    ensures
        trimmed(lowered(s)) == lowered(trimmed(s)),
        lowered(lowered(s)) == lowered(s),
{
    lemma_skip_space_lowered(s, 0);
    lemma_drop_space_lowered(s, s.len() as int);
    lemma_skip_space(s, 0);
    lemma_drop_space(s, s.len() as int);
    assert(trimmed(lowered(s)) =~= lowered(trimmed(s)));
    assert forall|i: int| 0 <= i < s.len() implies lower(lower(#[trigger] s[i])) == lower(s[i]) by {
        lemma_lower(s[i]);
    }
    assert(lowered(lowered(s)) =~= lowered(s));
}

} // verus!
