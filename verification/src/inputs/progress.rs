//! Byte counts for people to read.

use vstd::prelude::*;
use crate::text::{decimal, decimal_of, padded, padded_of, push_chars, push_str, string_of};

verus! {

/// The whole number nearest to `a / b`; halfway goes to the even one.
pub open spec fn nearest_even(a: int, b: int) -> int {
    let q = a / b;
    let r = a % b;
    if 2 * r < b || (2 * r == b && q % 2 == 0) {
        q
    } else {
        q + 1
    }
}

fn divide_to_nearest(a: u128, b: u128) -> (r: u128)
    requires
        0 < b <= 0x1_0000_0000_0000_0000,
    ensures
        r == nearest_even(a as int, b as int),
        r <= a / b + 1,
{
    let q: u128 = a / b;
    let rest: u128 = a % b;
    if 2 * rest < b || (2 * rest == b && q % 2 == 0) {
        q
    } else {
        assert(q < u128::MAX) by {
            if b == 1 {
                assert(rest == 0);
            } else if a > 0 {
                vstd::arithmetic::div_mod::lemma_div_decreases(a as int, b as int);
            }
        }
        q + 1
    }
}

/// The spacing of the numbers with 53 significant bits around `n`: the
/// smallest power of two that leaves at most 53 bits.
pub open spec fn spacing(n: int, step: int) -> int
    decreases n / step,
    when step > 0 && n >= 0
    via spacing_decreases
{
    if n / step < 0x20_0000_0000_0000 {
        step
    } else {
        spacing(n, 2 * step)
    }
}

#[via_fn]
proof fn spacing_decreases(n: int, step: int) {
    if n / step >= 0x20_0000_0000_0000 {
        vstd::arithmetic::div_mod::lemma_div_denominator(n, step, 2);
        assert(2 * step == step * 2);
    }
}

/// `n` rounded to 53 significant bits.
pub open spec fn in_double(n: int) -> int {
    let step = spacing(n, 1);
    nearest_even(n, step) * step
}

fn to_double(n: u64) -> (r: u128)
    ensures
        r == in_double(n as int),
        r <= 0x1_0000_0000_0000_0000,
{
    let mut step: u64 = 1;
    while n / step >= 0x20_0000_0000_0000
        invariant
            1 <= step <= 2048,
            spacing(n as int, 1) == spacing(n as int, step as int),
            step == 1 || step == 2 || step == 4 || step == 8 || step == 16 || step == 32 || step == 64 || step == 128 || step
                == 256 || step == 512 || step == 1024 || step == 2048,
        decreases 4096 - step,
    {
        assert(step < 2048) by {
            if step == 2048 {
                assert(n / 2048 < 0x20_0000_0000_0000);
            }
        }
        step = step * 2;
    }
    let q: u128 = divide_to_nearest(n as u128, step as u128);
    proof {
        assert(q * step <= 0x1_0000_0000_0000_0000) by {
            assert(q <= n / step + 1);
            assert(n / step < 0x20_0000_0000_0000);
            if step == 2048 {
                assert(q <= 0x20_0000_0000_0000);
            } else if step == 1 {
            } else if step == 2 {
            } else if step == 4 {
            } else if step == 8 {
            } else if step == 16 {
            } else if step == 32 {
            } else if step == 64 {
            } else if step == 128 {
            } else if step == 256 {
            } else if step == 512 {
            } else {
            }
        }
    }
    q * (step as u128)
}

pub open spec fn unit_name(unit: int) -> Seq<char> {
    if unit == 0 {
        " B"@
    } else if unit == 1 {
        " KiB"@
    } else if unit == 2 {
        " MiB"@
    } else if unit == 3 {
        " GiB"@
    } else {
        " TiB"@
    }
}

/// The largest unit, of five, that leaves at least one of it.
pub open spec fn best_unit(n: int) -> int {
    if n < 0x400 {
        0
    } else if n < 0x10_0000 {
        1
    } else if n < 0x4000_0000 {
        2
    } else if n < 0x100_0000_0000 {
        3
    } else {
        4
    }
}

/// The bytes in a unit.
pub open spec fn unit_size(unit: int) -> int {
    if unit == 0 {
        1
    } else if unit == 1 {
        0x400
    } else if unit == 2 {
        0x10_0000
    } else if unit == 3 {
        0x4000_0000
    } else {
        0x100_0000_0000
    }
}

/// A byte count in the largest unit that leaves at least one of it, with two
/// decimals. The count is first taken to 53 significant bits.
pub open spec fn byte_text(n: int) -> Seq<char> {
    let value = in_double(n);
    let unit = best_unit(value);
    let hundredths = nearest_even(100 * value, unit_size(unit));
    decimal(hundredths / 100) + seq!['.'] + padded(hundredths % 100, 2) + unit_name(unit)
}

/// A byte count for people to read, such as `6.16 GiB`.
pub fn human_bytes(n: u64) -> (r: String)
    ensures
        r@ == byte_text(n as int),
{
    let value: u128 = to_double(n);
    let (size, name): (u128, &str) = if value < 0x400 {
        (1, " B")
    } else if value < 0x10_0000 {
        (0x400, " KiB")
    } else if value < 0x4000_0000 {
        (0x10_0000, " MiB")
    } else if value < 0x100_0000_0000 {
        (0x4000_0000, " GiB")
    } else {
        (0x100_0000_0000, " TiB")
    };
    let hundredths: u128 = divide_to_nearest(100 * value, size);
    let mut text: Vec<char> = decimal_of(hundredths / 100);
    text.push('.');
    push_chars(&mut text, &padded_of(hundredths % 100, 2));
    push_str(&mut text, name);
    assert(text@ =~= byte_text(n as int));
    string_of(&text)
}

} // verus!
