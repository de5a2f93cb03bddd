//! The values that the benchmarks cache: the key itself, or a text that names it.

use vstd::prelude::*;
use vstd::string::*;

use crate::text::{all_digits, decimal, is_digit, number, without_plus};

verus! {

pub open spec fn digit_char(d: nat) -> char {
    (0x30 + d) as char
}

/// A number in decimal digits, without leading zeros.
pub open spec fn digits(n: nat) -> Seq<char>
    decreases n,
{
    if n < 10 {
        seq![digit_char(n)]
    } else {
        digits(n / 10).push(digit_char(n % 10))
    }
}

pub open spec fn zeros(n: nat) -> Seq<char> {
    Seq::new(n, |i: int| '0')
}

/// Digits with zeros in front, so that there are at least `width`.
pub open spec fn padded(s: Seq<char>, width: nat) -> Seq<char> {
    if s.len() < width {
        zeros((width - s.len()) as nat) + s
    } else {
        s
    }
}

/// The text that is cached under a key: the letter `v` and the key in at least
/// eight digits.
pub open spec fn value_text(k: u64) -> Seq<char> {
    seq!['v'] + padded(digits(k as nat), 8)
}

proof fn lemma_digit_char(d: nat)
    requires
        d < 10,
    ensures
        is_digit(digit_char(d)),
        crate::text::digit_value(digit_char(d)) == d,
{
}

/// A number is written in digits, at least one, that write it.
pub proof fn lemma_digits(n: nat)
    ensures
        digits(n).len() > 0,
        all_digits(digits(n)),
        decimal(digits(n)) == n,
    decreases n,
{
    let s = digits(n);
    if n < 10 {
        lemma_digit_char(n);
        reveal_with_fuel(decimal, 2);
        assert(s.drop_last() =~= Seq::<char>::empty());
    } else {
        lemma_digits(n / 10);
        lemma_digit_char(n % 10);
        assert(s.drop_last() =~= digits(n / 10));
        assert forall|i: int| 0 <= i < s.len() implies is_digit(#[trigger] s[i]) by {
            if i < s.len() - 1 {
                assert(s[i] == digits(n / 10)[i]);
            }
        }
    }
}

proof fn lemma_leading_zeros(n: nat, s: Seq<char>)
    ensures
        decimal(zeros(n) + s) == decimal(s),
    decreases n + s.len(),
{
    let t = zeros(n) + s;
    if s.len() > 0 {
        lemma_leading_zeros(n, s.drop_last());
        assert(t.drop_last() =~= zeros(n) + s.drop_last());
    } else if n > 0 {
        lemma_leading_zeros((n - 1) as nat, s);
        assert(t.drop_last() =~= zeros((n - 1) as nat) + s);
    } else {
        assert(t =~= s);
    }
}

/// A number is read back from its decimal digits.
pub proof fn law_digits_round_trip(n: nat, max: nat)
    requires
        n <= max,
    ensures
        number(digits(n), max) == Some(n),
{
    lemma_digits(n);
    assert(is_digit(digits(n)[0]));
    assert(without_plus(digits(n)) == digits(n));
}

/// The key is read back from the text that is cached under it, so that no two
/// keys have the same text.
pub proof fn law_value_text_names_its_key(k: u64)
    ensures
        number(value_text(k).skip(1), u64::MAX as nat) == Some(k as nat),
{
    let d = digits(k as nat);
    lemma_digits(k as nat);
    let p = padded(d, 8);
    assert(value_text(k).skip(1) =~= p);
    if d.len() < 8 {
        lemma_leading_zeros((8 - d.len()) as nat, d);
    }
    assert forall|i: int| 0 <= i < p.len() implies is_digit(#[trigger] p[i]) by {
        if d.len() < 8 && i >= 8 - d.len() {
            assert(p[i] == d[i - (8 - d.len())]);
        }
    }
    assert(is_digit(p[0]));
    assert(without_plus(p) == p);
}

/// A number is written without zeros in front.
pub proof fn law_no_leading_zeros(n: nat)
    ensures
        digits(n).len() > 1 ==> digits(n)[0] != '0',
        0 < n ==> digits(n)[0] != '0',
    decreases n,
{
    lemma_digits(n);
    if n >= 10 {
        law_no_leading_zeros(n / 10);
        lemma_digits(n / 10);
        assert(digits(n)[0] == digits(n / 10)[0]);
    } else if n > 0 {
        assert(digit_char(n) as u32 == 0x30 + n);
    }
}

/// The text that is cached under a key starts with the letter and has eight digits behind it,
/// or more where the key needs them.
pub proof fn law_value_text_width(k: u64)
    ensures
        value_text(k)[0] == 'v',
        value_text(k).len() >= 9,
        value_text(k).len() > 9 ==> value_text(k)[1] != '0',
{
    let d = digits(k as nat);
    law_no_leading_zeros(k as nat);
    if d.len() > 8 {
        assert(value_text(k)[1] == d[0]);
    }
}

/// The number that is cached under a key is the key.
pub proof fn law_number_value(v: u64, k: u64)
    ensures
        <u64 as MakeValue>::is_for(v, k) <==> v == k,
{
}

fn digit_text(d: u64) -> (t: &'static str)
    requires
        d < 10,
    ensures
        t@ == seq![digit_char(d as nat)],
{
    proof {
        reveal_strlit("0");
        reveal_strlit("1");
        reveal_strlit("2");
        reveal_strlit("3");
        reveal_strlit("4");
        reveal_strlit("5");
        reveal_strlit("6");
        reveal_strlit("7");
        reveal_strlit("8");
        reveal_strlit("9");
    }
    let t = if d == 0 {
        "0"
    } else if d == 1 {
        "1"
    } else if d == 2 {
        "2"
    } else if d == 3 {
        "3"
    } else if d == 4 {
        "4"
    } else if d == 5 {
        "5"
    } else if d == 6 {
        "6"
    } else if d == 7 {
        "7"
    } else if d == 8 {
        "8"
    } else {
        "9"
    };
    assert(t@ =~= seq![digit_char(d as nat)]);
    t
}

/// `n` in decimal digits.
pub fn decimal_text(n: u64) -> (s: String)
    ensures
        s@ == digits(n as nat),
    decreases n,
{
    if n < 10 {
        digit_text(n).to_owned()
    } else {
        let mut s = decimal_text(n / 10);
        let ghost front = s@;
        s.append(digit_text(n % 10));
        assert(s@ =~= front.push(digit_char((n % 10) as nat)));
        s
    }
}

/// A value that can be made from its key.
pub trait MakeValue: Sized {
    /// Whether `v` is the value for `k`.
    spec fn is_for(v: Self, k: u64) -> bool;

    fn make(k: u64) -> (v: Self)
        ensures
            Self::is_for(v, k),
    ;
}

impl MakeValue for u64 {
    open spec fn is_for(v: u64, k: u64) -> bool {
        v == k
    }

    fn make(k: u64) -> (v: u64) {
        k
    }
}

impl MakeValue for String {
    open spec fn is_for(v: String, k: u64) -> bool {
        v@ == value_text(k)
    }

    fn make(k: u64) -> (v: String) {
        let d = decimal_text(k);
        let ghost all = d@;
        let mut s = "v".to_owned();
        proof {
            reveal_strlit("v");
            reveal_strlit("0");
            assert(s@ =~= seq!['v'] + zeros(0));
        }
        let len = d.as_str().unicode_len();
        let mut n: usize = len;
        while n < 8
            invariant
                len == all.len(),
                len <= n,
                n <= 8 || n == len,
                s@ == seq!['v'] + zeros((n - len) as nat),
                "0"@ == seq!['0'],
            decreases 8 - n,
        {
            s.append("0");
            n += 1;
            assert(s@ =~= seq!['v'] + zeros((n - len) as nat));
        }
        s.append(d.as_str());
        assert(s@ =~= value_text(k));
        s
    }
}

} // verus!
