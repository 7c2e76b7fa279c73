//! Which texts stand for a number with decimals.

use vstd::prelude::*;
use crate::seqs::{leading, lemma_leading_run};
use crate::text::{
    all_digits, ascii_fold, ascii_folded, is_digit, is_digit_char, is_text, other_than, slice_of, split_at_first, split_once,
};

verus! {

/// A text without the sign that may start it.
pub open spec fn unsigned_part(s: Seq<char>) -> Seq<char> {
    if s.len() > 0 && (s[0] == '+' || s[0] == '-') {
        s.skip(1)
    } else {
        s
    }
}

/// Digits with at most one point among them, and at least one digit.
pub open spec fn is_mantissa(s: Seq<char>) -> bool {
    match split_once(s, '.') {
        None => s.len() > 0 && all_digits(s),
        Some((whole, fraction)) => all_digits(whole) && all_digits(fraction) && whole.len() + fraction.len() > 0,
    }
}

/// Digits, perhaps with a sign.
pub open spec fn is_exponent(s: Seq<char>) -> bool {
    unsigned_part(s).len() > 0 && all_digits(unsigned_part(s))
}

/// A mantissa, perhaps with an exponent.
pub open spec fn is_magnitude(s: Seq<char>) -> bool {
    match split_once(s, 'e') {
        None => is_mantissa(s),
        Some((mantissa, exponent)) => is_mantissa(mantissa) && is_exponent(exponent),
    }
}

/// Whether a text stands for a number, in capital or small letters: perhaps a
/// sign, then a magnitude, infinity, or no number at all.
pub open spec fn is_numeral(s: Seq<char>) -> bool {
    let t = unsigned_part(ascii_folded(s));
    t == "inf"@ || t == "infinity"@ || t == "nan"@ || is_magnitude(t)
}

fn without_sign(s: &Vec<char>) -> (r: Vec<char>)
    ensures
        r@ == unsigned_part(s@),
{
    let from: usize = if s.len() > 0 && (s[0] == '+' || s[0] == '-') {
        1
    } else {
        0
    };
    let r: Vec<char> = slice_of(s, from, s.len());
    assert(r@ =~= unsigned_part(s@));
    r
}

fn only_digits(s: &Vec<char>) -> (r: bool)
    ensures
        r == all_digits(s@),
{
    let mut i: usize = 0;
    while i < s.len()
        invariant
            i <= s@.len(),
            forall|k: int| 0 <= k < i ==> is_digit(#[trigger] s@[k]),
        decreases s.len() - i,
    {
        if !is_digit_char(s[i]) {
            return false;
        }
        i += 1;
    }
    true
}

fn mantissa(s: &Vec<char>) -> (r: bool)
    ensures
        r == is_mantissa(s@),
{
    match split_at_first(s, '.') {
        None => s.len() > 0 && only_digits(s),
        Some((whole, fraction)) => only_digits(&whole) && only_digits(&fraction) && (whole.len() > 0 || fraction.len()
            > 0),
    }
}

/// Whether a text stands for a number.
pub fn numeral(s: &Vec<char>) -> (r: bool)
    ensures
        r == is_numeral(s@),
{
    let t: Vec<char> = without_sign(&ascii_fold(s));
    if is_text(&t, "inf") || is_text(&t, "infinity") || is_text(&t, "nan") {
        return true;
    }
    match split_at_first(&t, 'e') {
        None => mantissa(&t),
        Some((m, exponent)) => {
            let digits: Vec<char> = without_sign(&exponent);
            mantissa(&m) && digits.len() > 0 && only_digits(&digits)
        },
    }
}

/// What a number is written with: digits, points, signs and letters.
pub open spec fn is_numeral_char(c: char) -> bool {
    is_digit(c) || c == '.' || c == '+' || c == '-' || 'a' <= c <= 'z' || 'A' <= c <= 'Z'
}

spec fn all_numeral_chars(s: Seq<char>) -> bool {
    forall|i: int| 0 <= i < s.len() ==> is_numeral_char(#[trigger] s[i])
}

proof fn lemma_parts(s: Seq<char>, sep: char)
    requires
        is_numeral_char(sep),
        split_once(s, sep) is Some,
        all_numeral_chars((split_once(s, sep)->0).0),
        all_numeral_chars((split_once(s, sep)->0).1),
    ensures
        all_numeral_chars(s),
{
    lemma_leading_run(s, other_than(sep));
    let k: int = leading(s, other_than(sep)) as int;
    let (a, b) = split_once(s, sep)->0;
    assert forall|i: int| 0 <= i < s.len() implies is_numeral_char(#[trigger] s[i]) by {
        if i < k {
            assert(a[i] == s[i]);
        } else if i > k {
            assert(b[i - k - 1] == s[i]);
        }
    }
}

proof fn lemma_unsigned(s: Seq<char>)
    requires
        all_numeral_chars(unsigned_part(s)),
    ensures
        all_numeral_chars(s),
{
    assert forall|i: int| 0 <= i < s.len() implies is_numeral_char(#[trigger] s[i]) by {
        if unsigned_part(s).len() < s.len() {
            if i > 0 {
                assert(unsigned_part(s)[i - 1] == s[i]);
            }
        } else {
            assert(unsigned_part(s)[i] == s[i]);
        }
    }
}

proof fn lemma_mantissa_chars(s: Seq<char>)
    requires
        is_mantissa(s),
    ensures
        all_numeral_chars(s),
{
    if split_once(s, '.') is Some {
        lemma_parts(s, '.');
    }
}

/// A number is written with digits, points, signs and letters only.
pub proof fn lemma_numeral_chars(s: Seq<char>)
    requires
        is_numeral(s),
    ensures
        forall|i: int| 0 <= i < s.len() ==> is_numeral_char(#[trigger] s[i]),
        s.len() > 0,
{
    let f: Seq<char> = ascii_folded(s);
    let t: Seq<char> = unsigned_part(f);
    reveal_strlit("inf");
    reveal_strlit("infinity");
    reveal_strlit("nan");
    if t != "inf"@ && t != "infinity"@ && t != "nan"@ {
        match split_once(t, 'e') {
            None => {
                lemma_mantissa_chars(t);
            },
            Some((m, x)) => {
                lemma_mantissa_chars(m);
                lemma_unsigned(x);
                lemma_parts(t, 'e');
            },
        }
        lemma_leading_run(t, other_than('e'));
        lemma_leading_run(t, other_than('.'));
        assert(t.len() > 0);
    }
    assert(all_numeral_chars(t));
    lemma_unsigned(f);
    assert forall|i: int| 0 <= i < s.len() implies is_numeral_char(#[trigger] s[i]) by {
        assert(is_numeral_char(f[i]));
    }
    assert(f.len() == s.len());
}

} // verus!
