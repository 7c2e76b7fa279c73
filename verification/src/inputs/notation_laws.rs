//! How numbers with decimals are read, digit by digit, and which texts stand
//! for one.

use vstd::prelude::*;
use crate::inputs::intake_laws::lemma_no_white;
use crate::inputs::simulator::{decimal_parts, first_digits, fixed_point, nearest_unit};
use crate::numerals::{is_exponent, is_magnitude, is_mantissa, is_numeral, unsigned_part};
use crate::text::{
    all_digits, ascii_folded, decimal, digit_of, is_digit, lacks, law_decimal_reads_back, lemma_decimal,
    lemma_split_at, lemma_split_none,
};

verus! {

/// A number written out: its whole part, a point, and more digits.
pub open spec fn with_decimals(whole: int, fraction: Seq<char>) -> Seq<char> {
    decimal(whole).push('.') + fraction
}

proof fn lemma_written(whole: int, fraction: Seq<char>)
    requires
        0 <= whole,
        fraction.len() > 0 ==> !crate::text::is_white(fraction.last()),
    ensures
        decimal_parts(with_decimals(whole, fraction)) == (decimal(whole), fraction),
{
    let s: Seq<char> = with_decimals(whole, fraction);
    lemma_decimal(whole);
    assert(is_digit(decimal(whole)[0]));
    assert(s[0] == decimal(whole)[0]);
    assert(lacks(decimal(whole), '.')) by {
        assert forall|i: int| 0 <= i < decimal(whole).len() implies #[trigger] decimal(whole)[i] != '.' by {
            assert(is_digit(decimal(whole)[i]));
        }
    }
    if fraction.len() > 0 {
        assert(s.last() == fraction.last());
    } else {
        assert(s.last() == '.');
    }
    lemma_no_white(s);
    lemma_split_at(decimal(whole), '.', fraction);
}

/// A quantity is rounded to the nearest whole number by its first decimal, five
/// and above up; the decimals behind it change nothing.
pub proof fn law_sizes_are_rounded_by_the_first_decimal(whole: u128, fraction: Seq<char>)
    requires
        fraction.len() > 0,
        !crate::text::is_white(fraction.last()),
    ensures
        nearest_unit(decimal(whole as int)) == Some(whole as int),
        48 <= fraction[0] as int <= 52 ==> nearest_unit(with_decimals(whole as int, fraction)) == Some(whole as int),
        53 <= fraction[0] as int <= 57 && whole < u128::MAX ==> nearest_unit(with_decimals(whole as int, fraction))
            == Some(whole + 1),
        53 <= fraction[0] as int <= 57 && whole == u128::MAX ==> nearest_unit(with_decimals(whole as int, fraction)) is None,
        fraction[0] as int > 57 || (fraction[0] as int) < 48 ==> nearest_unit(
            with_decimals(whole as int, fraction),
        ) is None,
{
    lemma_written(whole as int, fraction);
    law_decimal_reads_back(whole as int, u128::MAX as int);
    let d: Seq<char> = decimal(whole as int);
    lemma_decimal(whole as int);
    assert(is_digit(d[0]) && is_digit(d[d.len() - 1]));
    lemma_no_white(d);
    assert(lacks(d, '.')) by {
        assert forall|i: int| 0 <= i < d.len() implies #[trigger] d[i] != '.' by {
            assert(is_digit(d[i]));
        }
    }
    lemma_split_none(d, '.');
}

/// The digit at a place behind the point; zero where there is none.
spec fn place(s: Seq<char>, i: int) -> int {
    if i < s.len() {
        digit_of(s[i])
    } else {
        0
    }
}

proof fn lemma_six_digits(a: Seq<char>, b: Seq<char>, n: nat)
    requires
        forall|i: int| 0 <= i < n ==> #[trigger] place(a, i) == place(b, i),
    ensures
        first_digits(a, n) == first_digits(b, n),
    decreases n,
{
    if n > 0 {
        lemma_six_digits(a, b, (n - 1) as nat);
        assert(place(a, n - 1) == place(b, n - 1));
    }
}

/// A price keeps six decimals: those behind them change nothing, as long as
/// they are digits, and a zero behind fewer changes nothing either. Anything
/// but a digit behind the point makes no price.
pub proof fn law_prices_keep_six_decimals(whole: int, fraction: Seq<char>)
    requires
        0 <= whole,
        all_digits(fraction),
        fraction.len() > 0,
    ensures
        fraction.len() >= 6 ==> fixed_point(with_decimals(whole, fraction)) == fixed_point(
            with_decimals(whole, fraction.take(6)),
        ),
        fixed_point(with_decimals(whole, fraction.push('0'))) == fixed_point(with_decimals(whole, fraction)),
        forall|c: char|
            !crate::text::is_white(c) && !is_digit(c) ==> fixed_point(
                with_decimals(whole, #[trigger] fraction.push(c)),
            ) is None,
{
    let n: int = fraction.len() as int;
    assert(is_digit(fraction[n - 1]));
    assert(fraction.last() == fraction[n - 1]);
    lemma_written(whole, fraction);
    let longer: Seq<char> = fraction.push('0');
    assert(longer.last() == '0');
    lemma_written(whole, longer);
    assert(all_digits(longer)) by {
        assert forall|i: int| 0 <= i < longer.len() implies is_digit(#[trigger] longer[i]) by {
            if i < n {
                assert(is_digit(fraction[i]));
            }
        }
    }
    assert forall|i: int| 0 <= i < 6 implies #[trigger] place(fraction, i) == place(longer, i) by {}
    lemma_six_digits(fraction, longer, 6);
    if n >= 6 {
        let six: Seq<char> = fraction.take(6);
        assert(is_digit(fraction[5]));
        assert(six.last() == fraction[5]);
        lemma_written(whole, six);
        assert(all_digits(six)) by {
            assert forall|i: int| 0 <= i < six.len() implies is_digit(#[trigger] six[i]) by {
                assert(is_digit(fraction[i]));
            }
        }
        assert forall|i: int| 0 <= i < 6 implies #[trigger] place(fraction, i) == place(six, i) by {}
        lemma_six_digits(fraction, six, 6);
    }
    assert forall|c: char| !crate::text::is_white(c) && !is_digit(c) implies fixed_point(
        with_decimals(whole, #[trigger] fraction.push(c)),
    ) is None by {
        let bad: Seq<char> = fraction.push(c);
        assert(bad.last() == c);
        lemma_written(whole, bad);
        assert(!is_digit(bad[n]));
        assert(!all_digits(bad));
    }
}

proof fn lemma_digits_are_plain(s: Seq<char>)
    requires
        all_digits(s),
    ensures
        ascii_folded(s) == s,
        lacks(s, '.'),
        lacks(s, 'e'),
{
    assert forall|i: int| 0 <= i < s.len() implies ascii_folded(s)[i] == s[i] && s[i] != '.' && s[i] != 'e' by {
        assert(is_digit(s[i]));
    }
    assert(ascii_folded(s) =~= s);
    assert forall|i: int| 0 <= i < s.len() implies #[trigger] s[i] != '.' by {
        assert(is_digit(s[i]));
    }
    assert forall|i: int| 0 <= i < s.len() implies #[trigger] s[i] != 'e' by {
        assert(is_digit(s[i]));
    }
}

/// Digits stand for a number, with a point among them or without one, as long
/// as there is a digit; a sign before them and an exponent behind them, after
/// a letter of either case and perhaps a sign of its own, make no difference.
pub proof fn law_digits_stand_for_a_number(a: Seq<char>, b: Seq<char>, x: Seq<char>, upper: bool)
    requires
        all_digits(a),
        all_digits(b),
        all_digits(x),
        x.len() > 0,
    ensures
        ({
            let m = a.push('.') + b;
            let e = if upper {
                'E'
            } else {
                'e'
            };
            &&& is_numeral(a) <==> a.len() > 0
            &&& is_numeral(m) <==> a.len() + b.len() > 0
            &&& is_numeral(seq!['-'] + m) <==> a.len() + b.len() > 0
            &&& is_numeral(seq!['+'] + m) <==> a.len() + b.len() > 0
            &&& is_numeral(m.push(e) + x) <==> a.len() + b.len() > 0
            &&& is_numeral(m.push(e) + (seq!['-'] + x)) <==> a.len() + b.len() > 0
            &&& is_numeral(m.push(e) + (seq!['+'] + x)) <==> a.len() + b.len() > 0
            &&& !is_numeral(m.push(e))
        }),
{
    let m: Seq<char> = a.push('.') + b;
    let e: char = if upper { 'E' } else { 'e' };
    let none: Seq<char> = Seq::empty();
    lemma_digits_are_plain(a);
    lemma_digits_are_plain(b);
    lemma_digits_are_plain(x);
    lemma_split_at(a, '.', b);
    assert(is_mantissa(m) <==> a.len() + b.len() > 0);
    lemma_split_none(a, '.');
    assert(lacks(m, 'e')) by {
        assert forall|i: int| 0 <= i < m.len() implies #[trigger] m[i] != 'e' by {
            if i < a.len() {
                assert(m[i] == a[i]);
            } else if i > a.len() {
                assert(m[i] == b[i - a.len() - 1]);
            }
        }
    }
    lemma_split_none(m, 'e');
    lemma_split_none(a, 'e');
    assert(ascii_folded(m) =~= m) by {
        assert forall|i: int| 0 <= i < m.len() implies #[trigger] ascii_folded(m)[i] == m[i] by {
            if i < a.len() {
                assert(ascii_folded(a)[i] == a[i]);
                assert(m[i] == a[i]);
            } else if i > a.len() {
                assert(ascii_folded(b)[i - a.len() - 1] == b[i - a.len() - 1]);
                assert(m[i] == b[i - a.len() - 1]);
            }
        }
    }
    let plus: Seq<char> = seq!['+'] + x;
    let minus: Seq<char> = seq!['-'] + x;
    assert(ascii_folded(plus) =~= plus) by {
        assert forall|i: int| 0 <= i < plus.len() implies #[trigger] ascii_folded(plus)[i] == plus[i] by {
            if i > 0 {
                assert(ascii_folded(x)[i - 1] == x[i - 1]);
                assert(plus[i] == x[i - 1]);
            }
        }
    }
    assert(ascii_folded(minus) =~= minus) by {
        assert forall|i: int| 0 <= i < minus.len() implies #[trigger] ascii_folded(minus)[i] == minus[i] by {
            if i > 0 {
                assert(ascii_folded(x)[i - 1] == x[i - 1]);
                assert(minus[i] == x[i - 1]);
            }
        }
    }
    assert(is_digit(x[0]));
    assert(unsigned_part(x) == x);
    assert(unsigned_part(plus) =~= x);
    assert(unsigned_part(minus) =~= x);
    lemma_first_is_plain(a);
    lemma_first_is_plain(m);
    assert(ascii_folded(seq!['-'] + m) =~= seq!['-'] + m) by {
        let s: Seq<char> = seq!['-'] + m;
        assert forall|i: int| 0 <= i < s.len() implies #[trigger] ascii_folded(s)[i] == s[i] by {
            if i > 0 {
                assert(ascii_folded(m)[i - 1] == m[i - 1]);
                assert(s[i] == m[i - 1]);
            }
        }
    }
    assert(ascii_folded(seq!['+'] + m) =~= seq!['+'] + m) by {
        let s: Seq<char> = seq!['+'] + m;
        assert forall|i: int| 0 <= i < s.len() implies #[trigger] ascii_folded(s)[i] == s[i] by {
            if i > 0 {
                assert(ascii_folded(m)[i - 1] == m[i - 1]);
                assert(s[i] == m[i - 1]);
            }
        }
    }
    assert(unsigned_part(seq!['-'] + m) =~= m);
    assert(unsigned_part(seq!['+'] + m) =~= m);
    lemma_with_exponent(m, e, x);
    lemma_with_exponent(m, e, plus);
    lemma_with_exponent(m, e, minus);
    assert(ascii_folded(none) =~= none);
    lemma_with_exponent(m, e, none);
    assert(m.push(e) + none =~= m.push(e));
    assert(unsigned_part(none) =~= none);
}

/// What starts with a digit or a point has no sign and is none of the words.
proof fn lemma_first_is_plain(s: Seq<char>)
    requires
        s.len() > 0 ==> is_digit(s[0]) || s[0] == '.',
    ensures
        unsigned_part(s) == s,
        s != "inf"@,
        s != "infinity"@,
        s != "nan"@,
{
    reveal_strlit("inf");
    reveal_strlit("infinity");
    reveal_strlit("nan");
    assert("inf"@[0] == 'i' && "infinity"@[0] == 'i' && "nan"@[0] == 'n');
}

proof fn lemma_with_exponent(m: Seq<char>, e: char, x: Seq<char>)
    requires
        e == 'e' || e == 'E',
        m.len() > 0,
        is_digit(m[0]) || m[0] == '.',
        lacks(m, 'e'),
        ascii_folded(m) == m,
        ascii_folded(x) == x,
    ensures
        is_numeral(m.push(e) + x) <==> is_mantissa(m) && is_exponent(x),
{
    let s: Seq<char> = m.push(e) + x;
    let t: Seq<char> = m.push('e') + x;
    assert forall|i: int| 0 <= i < s.len() implies #[trigger] ascii_folded(s)[i] == t[i] by {
        if i < m.len() {
            assert(ascii_folded(m)[i] == m[i]);
            assert(s[i] == m[i]);
        } else if i > m.len() {
            assert(ascii_folded(x)[i - m.len() - 1] == x[i - m.len() - 1]);
            assert(s[i] == x[i - m.len() - 1]);
        }
    }
    assert(ascii_folded(s) =~= t);
    assert(t[0] == m[0]);
    lemma_first_is_plain(t);
    lemma_split_at(m, 'e', x);
    assert(is_magnitude(t) <==> is_mantissa(m) && is_exponent(x));
}

/// The three words for what is no finite number stand for one too, in any case,
/// with a sign or without.
pub proof fn law_words_stand_for_a_number(s: Seq<char>)
    requires
        ascii_folded(s) == "inf"@ || ascii_folded(s) == "infinity"@ || ascii_folded(s) == "nan"@,
    ensures
        is_numeral(s),
        is_numeral(seq!['-'] + s),
        is_numeral(seq!['+'] + s),
{
    reveal_strlit("inf");
    reveal_strlit("infinity");
    reveal_strlit("nan");
    assert("inf"@[0] == 'i' && "infinity"@[0] == 'i' && "nan"@[0] == 'n');
    let t: Seq<char> = ascii_folded(s);
    assert(t.len() > 0);
    assert(ascii_folded(seq!['-'] + s) =~= seq!['-'] + t) by {
        let u: Seq<char> = seq!['-'] + s;
        assert forall|i: int| 0 <= i < u.len() implies #[trigger] ascii_folded(u)[i] == (seq!['-'] + t)[i] by {
            if i > 0 {
                assert(u[i] == s[i - 1]);
                assert(t[i - 1] == ascii_folded(s)[i - 1]);
            }
        }
    }
    assert(ascii_folded(seq!['+'] + s) =~= seq!['+'] + t) by {
        let u: Seq<char> = seq!['+'] + s;
        assert forall|i: int| 0 <= i < u.len() implies #[trigger] ascii_folded(u)[i] == (seq!['+'] + t)[i] by {
            if i > 0 {
                assert(u[i] == s[i - 1]);
                assert(t[i - 1] == ascii_folded(s)[i - 1]);
            }
        }
    }
    assert(unsigned_part(t) == t);
    assert(unsigned_part(seq!['-'] + t) =~= t);
    assert(unsigned_part(seq!['+'] + t) =~= t);
}

} // verus!
