//! Laws of the readers: a number means the same whichever way it was stored.

use vstd::arithmetic::power::pow;
use vstd::prelude::*;
use crate::inputs::binary_format::{price_in, scaled, whole_units};
use crate::inputs::simulator::{decimal_parts, first_digits, fixed_point, nearest_unit};
use crate::seqs::lemma_leading;
use crate::text::{
    decimal, digit_char, digit_of, digits_value, is_digit, is_white, law_decimal_reads_back, lemma_decimal,
    lemma_padded, other_than, padded, trim,
};

verus! {

/// A number of `decimals` decimal places in the usual notation.
pub open spec fn notation(value: int, decimals: nat) -> Seq<char> {
    let unit = pow(10, decimals);
    if decimals == 0 {
        decimal(value)
    } else {
        decimal(value / unit) + seq!['.'] + padded(value % unit, decimals)
    }
}

pub proof fn lemma_first_digits(s: Seq<char>, n: nat)
    ensures
        n <= s.len() ==> first_digits(s, n) == digits_value(s.take(n as int)),
        n > s.len() ==> first_digits(s, n) == digits_value(s) * pow(10, (n - s.len()) as nat),
    decreases n,
{
    vstd::arithmetic::power::lemma_pow0(10);
    if n == 0 {
        assert(s.take(0) =~= Seq::<char>::empty());
    } else {
        lemma_first_digits(s, (n - 1) as nat);
        if n <= s.len() {
            assert(s.take(n as int).drop_last() =~= s.take(n - 1));
        } else {
            assert(s.take(s.len() as int) =~= s);
            let k: nat = (n - s.len()) as nat;
            reveal(pow);
            assert(pow(10, k) == 10 * pow(10, (k - 1) as nat));
            let v: int = digits_value(s);
            let p: int = pow(10, (k - 1) as nat);
            assert(v * p * 10 == v * (10 * p)) by (nonlinear_arith);
        }
    }
}

pub proof fn lemma_no_white(s: Seq<char>)
    requires
        s.len() > 0,
        !is_white(s[0]),
        !is_white(s.last()),
    ensures
        trim(s) == s,
{
    lemma_leading(s, |c: char| is_white(c), 0);
    assert(s.skip(0) =~= s);
}

/// The parts of a number in the usual notation.
pub proof fn lemma_parts(value: int, decimals: nat)
    requires
        0 <= value,
    ensures
        decimals == 0 ==> decimal_parts(notation(value, decimals)) == (decimal(value), Seq::<char>::empty()),
        decimals > 0 ==> decimal_parts(notation(value, decimals)) == (
            decimal(value / pow(10, decimals)),
            padded(value % pow(10, decimals), decimals),
        ),
{
    vstd::arithmetic::power::lemma_pow_positive(10, decimals);
    let unit: int = pow(10, decimals);
    vstd::arithmetic::div_mod::lemma_div_pos_is_pos(value, unit);
    vstd::arithmetic::div_mod::lemma_mod_bound(value, unit);
    let s: Seq<char> = notation(value, decimals);
    let p = other_than('.');
    if decimals == 0 {
        lemma_decimal(value);
        assert(is_digit(s[0]));
        assert(is_digit(s[s.len() - 1]));
        lemma_no_white(s);
        assert forall|k: int| 0 <= k < s.len() implies p(#[trigger] s[k]) by {
            assert(is_digit(s[k]));
        }
        lemma_leading(s, p, s.len() as int);
    } else {
        let a: Seq<char> = decimal(value / unit);
        let b: Seq<char> = padded(value % unit, decimals);
        lemma_decimal(value / unit);
        lemma_padded(value % unit, decimals);
        assert(is_digit(a[0]));
        assert(is_digit(b[b.len() - 1]));
        assert(s[0] == a[0]);
        assert(s.last() == b[b.len() - 1]);
        lemma_no_white(s);
        assert forall|k: int| 0 <= k < a.len() implies p(#[trigger] s[k]) by {
            assert(is_digit(a[k]));
            assert(s[k] == a[k]);
        }
        assert(s[a.len() as int] == '.');
        lemma_leading(s, p, a.len() as int);
        assert(s.take(a.len() as int) =~= a);
        assert(s.skip(a.len() as int + 1) =~= b);
    }
}

proof fn lemma_small_powers()
    ensures
        pow(10, 0) == 1,
        pow(10, 1) == 10,
        pow(10, 2) == 100,
        pow(10, 3) == 1_000,
        pow(10, 4) == 10_000,
        pow(10, 5) == 100_000,
        pow(10, 6) == 1_000_000,
{
    reveal_with_fuel(pow, 7);
}

/// A number split at the point and put together again in fixed point.
proof fn lemma_whole_and_fraction(value: int, decimals: nat)
    requires
        0 <= value,
        decimals <= 6,
    ensures
        ({
            let unit = pow(10, decimals);
            let low = pow(10, (6 - decimals) as nat);
            &&& 0 <= value % unit < unit
            &&& 0 <= value / unit <= value
            &&& value / unit * 1_000_000 + value % unit * low == value * low
            &&& 0 <= value % unit * low < 1_000_000
            &&& decimals > 0 ==> (value % unit / pow(10, (decimals - 1) as nat) >= 5) == (value % unit * low >= 500_000)
        }),
{
    lemma_small_powers();
    let unit: int = pow(10, decimals);
    let low: int = pow(10, (6 - decimals) as nat);
    if decimals == 0 {
        assert(unit == 1 && low == 1_000_000);
    } else if decimals == 1 {
        assert(unit == 10 && low == 100_000);
    } else if decimals == 2 {
        assert(unit == 100 && low == 10_000);
    } else if decimals == 3 {
        assert(unit == 1_000 && low == 1_000);
    } else if decimals == 4 {
        assert(unit == 10_000 && low == 100);
    } else if decimals == 5 {
        assert(unit == 100_000 && low == 10);
    } else {
        assert(unit == 1_000_000 && low == 1);
    }
}

/// A price in the usual notation, with at most six decimals, reads as that
/// price in fixed point.
pub proof fn law_notation_reads_as_price(value: int, decimals: nat)
    requires
        0 <= value,
        decimals <= 6,
        scaled(value, decimals) <= u128::MAX,
    ensures
        fixed_point(notation(value, decimals)) == Some(scaled(value, decimals)),
{
    lemma_small_powers();
    lemma_parts(value, decimals);
    lemma_whole_and_fraction(value, decimals);
    let unit: int = pow(10, decimals);
    let w: int = value / unit;
    let f: int = value % unit;
    let low: int = pow(10, (6 - decimals) as nat);
    vstd::arithmetic::power::lemma_pow_positive(10, (6 - decimals) as nat);
    assert(value <= value * low) by (nonlinear_arith)
        requires
            value >= 0,
            low >= 1,
    ;
    assert(w <= u128::MAX);
    law_decimal_reads_back(w, u128::MAX as int);
    if decimals == 0 {
        lemma_first_digits(Seq::<char>::empty(), 6);
    } else {
        let b: Seq<char> = padded(f, decimals);
        lemma_padded(f, decimals);
        lemma_first_digits(b, 6);
        if decimals == 6 {
            assert(b.take(6) =~= b);
        }
    }
}

proof fn lemma_first_of_padded(n: int, width: nat)
    requires
        0 <= n < pow(10, width),
        width > 0,
    ensures
        digit_of(padded(n, width)[0]) == n / pow(10, (width - 1) as nat),
    decreases width,
{
    assert(pow(10, width) == 10 * pow(10, (width - 1) as nat)) by {
        reveal(pow);
    }
    if width == 1 {
        vstd::arithmetic::power::lemma_pow0(10);
        reveal_with_fuel(padded, 2);
        assert(padded(n, 1) =~= seq![digit_char(n)]);
    } else {
        let p: int = pow(10, (width - 2) as nat);
        assert(pow(10, (width - 1) as nat) == 10 * p) by {
            reveal(pow);
        }
        vstd::arithmetic::power::lemma_pow_positive(10, (width - 2) as nat);
        lemma_first_of_padded(n / 10, (width - 1) as nat);
        lemma_padded(n / 10, (width - 1) as nat);
        vstd::arithmetic::div_mod::lemma_div_denominator(n, 10, p);
        assert(padded(n, width)[0] == padded(n / 10, (width - 1) as nat)[0]);
    }
}

/// What `nearest_unit` makes of a number in the usual notation.
proof fn lemma_nearest_unit(value: int, decimals: nat)
    requires
        0 <= value < 0x2000_0000,
        decimals > 0,
        0 <= value / pow(10, decimals) <= value,
        0 <= value % pow(10, decimals) < pow(10, decimals),
    ensures
        nearest_unit(notation(value, decimals)) == Some(
            value / pow(10, decimals) + if value % pow(10, decimals) / pow(10, (decimals - 1) as nat) < 5 {
                0int
            } else {
                1
            },
        ),
{
    lemma_parts(value, decimals);
    let f: int = value % pow(10, decimals);
    law_decimal_reads_back(value / pow(10, decimals), u128::MAX as int);
    lemma_padded(f, decimals);
    lemma_first_of_padded(f, decimals);
    assert(is_digit(padded(f, decimals)[0]));
}

/// A quantity means the same in a binary record as written out in a row: the
/// two readers round it to the same number of units. This holds for up to six
/// decimals.
pub proof fn law_sizes_agree(encoded: u32)
    requires
        encoded / 0x2000_0000 <= 6,
    ensures
        nearest_unit(notation(encoded as int % 0x2000_0000, (encoded / 0x2000_0000) as nat)) == Some(
            whole_units(price_in(encoded as int)),
        ),
{
    let decimals: nat = (encoded / 0x2000_0000) as nat;
    let value: int = encoded as int % 0x2000_0000;
    lemma_whole_and_fraction(value, decimals);
    if decimals == 0 {
        lemma_parts(value, 0);
        vstd::arithmetic::power::lemma_pow0(10);
        law_decimal_reads_back(value, u128::MAX as int);
        assert(pow(10, 6) == 1_000_000) by {
            lemma_small_powers();
        }
    } else {
        lemma_nearest_unit(value, decimals);
    }
}

/// A price means the same in a binary record as written out in a row or typed
/// in a command. This holds for up to six decimals.
pub proof fn law_prices_agree(encoded: u32)
    requires
        encoded / 0x2000_0000 <= 6,
    ensures
        fixed_point(notation(encoded as int % 0x2000_0000, (encoded / 0x2000_0000) as nat)) == Some(
            price_in(encoded as int),
        ),
{
    let decimals: nat = (encoded / 0x2000_0000) as nat;
    let value: int = encoded as int % 0x2000_0000;
    lemma_small_powers();
    assert(decimals == 0 || decimals == 1 || decimals == 2 || decimals == 3 || decimals == 4 || decimals == 5 || decimals
        == 6);
    law_notation_reads_as_price(value, decimals);
}

} // verus!
