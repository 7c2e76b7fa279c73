//! The proleptic Gregorian calendar as a count of days from 1970-01-01, and
//! clock times written as text.

use vstd::prelude::*;
use crate::text::{decimal, decimal_of, padded, padded_of, push_chars, string_of};

verus! {

/// Days from 1970-01-01 to the first of March of a year.
pub open spec fn march_first(year: int) -> int {
    365 * year + year / 4 - year / 100 + year / 400 - 719468
}

/// Days from the first of March to the first of the month that comes `months`
/// months later, for `months` below twelve.
pub open spec fn after_march(months: int) -> int {
    (153 * months + 2) / 5
}

/// Days from 1970-01-01 to a date. A month number outside 1 to 12 counts
/// round the year: 0 is the December before, and from 13 on the months repeat
/// from January of the next year to December of the same one.
pub open spec fn civil_days(year: int, month: int, day: int) -> int {
    march_first(if month <= 2 { year - 1 } else { year }) + after_march((month + 9) % 12) + day - 1
}

pub open spec fn is_leap(year: int) -> bool {
    year % 4 == 0 && (year % 100 != 0 || year % 400 == 0)
}

pub open spec fn year_length(year: int) -> int {
    if is_leap(year) {
        366
    } else {
        365
    }
}

pub open spec fn month_length(year: int, month: int) -> int {
    if month == 2 {
        if is_leap(year) {
            29
        } else {
            28
        }
    } else if month == 4 || month == 6 || month == 9 || month == 11 {
        30
    } else {
        31
    }
}

/// Whether the calendar has this date.
pub open spec fn is_date(year: int, month: int, day: int) -> bool {
    1 <= month <= 12 && 1 <= day <= month_length(year, month)
}

/// Days from 1970-01-01 to a date.
pub fn days_from_civil(year: i64, month: u32, day: u32) -> (r: i64)
    requires
        i64::MIN <= civil_days(year as int, month as int, day as int) <= i64::MAX,
    ensures
        r == civil_days(year as int, month as int, day as int),
{
    day_count(year, month, day) as i64
}

/// Days from 1970-01-01 to a date, in a type that holds them for every year.
pub fn day_count(year: i64, month: u32, day: u32) -> (r: i128)
    ensures
        r == civil_days(year as int, month as int, day as int),
        -4_000_000_000_000_000_000_000 <= r <= 4_000_000_000_000_000_000_000,
{
    let y: i128 = if month <= 2 {
        year as i128 - 1
    } else {
        year as i128
    };
    let era: i128 = floor_div(y, 400);
    let yoe: i128 = y - era * 400;
    let months: i128 = (month as i128 + 9) % 12;
    let doy: i128 = (153 * months + 2) / 5 + day as i128 - 1;
    proof {
        lemma_march_first_by_era(era as int, yoe as int);
    }
    era * 146097 + (yoe * 365 + yoe / 4 - yoe / 100) + doy - 719468
}

/// Division that rounds down.
fn floor_div(x: i128, d: i128) -> (r: i128)
    requires
        d > 0,
        -100_000_000_000_000_000_000_000 <= x <= 100_000_000_000_000_000_000_000,
        d <= 1_000_000,
    ensures
        r == x as int / d as int,
        d * r <= x < d * r + d,
{
    proof {
        vstd::arithmetic::div_mod::lemma_fundamental_div_mod(x as int, d as int);
        vstd::arithmetic::div_mod::lemma_mod_bound(x as int, d as int);
    }
    if x >= 0 {
        x / d
    } else {
        let y: i128 = -(x + 1);
        let q: i128 = y / d;
        proof {
            let m: int = y as int % d as int;
            vstd::arithmetic::div_mod::lemma_fundamental_div_mod(y as int, d as int);
            vstd::arithmetic::div_mod::lemma_mod_bound(y as int, d as int);
            assert(x == (-q - 1) * d + (d - 1 - m)) by (nonlinear_arith)
                requires
                    y == -(x + 1),
                    y == d * q + m,
            ;
            vstd::arithmetic::div_mod::lemma_fundamental_div_mod_converse(x as int, d as int, -q - 1, d - 1 - m);
        }
        -q - 1
    }
}

/// Four centuries have the same days wherever they start.
proof fn lemma_march_first_by_era(era: int, yoe: int)
    requires
        0 <= yoe < 400,
    ensures
        march_first(era * 400 + yoe) == era * 146097 + (yoe * 365 + yoe / 4 - yoe / 100) - 719468,
{
    let y: int = era * 400 + yoe;
    assert(y / 4 == era * 100 + yoe / 4);
    assert(y / 100 == era * 4 + yoe / 100);
    assert(y / 400 == era);
}

/// A year in March's reckoning lasts as long as the calendar year it ends in.
proof fn lemma_march_year(year: int)
    ensures
        march_first(year + 1) == march_first(year) + year_length(year + 1),
{
    let y: int = year + 1;
    assert(y / 4 - year / 4 == (if y % 4 == 0 { 1int } else { 0int }));
    assert(y / 100 - year / 100 == (if y % 100 == 0 { 1int } else { 0int }));
    assert(y / 400 - year / 400 == (if y % 400 == 0 { 1int } else { 0int }));
    assert(y % 100 == 0 ==> y % 4 == 0);
    assert(y % 400 == 0 ==> y % 100 == 0);
}

/// The date that lies `z` days after 1970-01-01.
pub fn civil_from_days(z: i64) -> (r: (i64, u32, u32))
    ensures
        is_date(r.0 as int, r.1 as int, r.2 as int),
        civil_days(r.0 as int, r.1 as int, r.2 as int) == z,
{
    let n: i128 = z as i128 + 719468;
    let era: i128 = floor_div(n, 146097);
    let doe: i128 = n - era * 146097;
    let century: i128 = if doe / 36524 >= 4 {
        3
    } else {
        doe / 36524
    };
    let doc: i128 = doe - century * 36524;
    let quad: i128 = doc / 1461;
    let doq: i128 = doc - quad * 1461;
    let single: i128 = if doq / 365 >= 4 {
        3
    } else {
        doq / 365
    };
    let doy: i128 = doq - single * 365;
    let yoe: i128 = century * 100 + quad * 4 + single;
    let y: i128 = yoe + era * 400;
    let mp: i128 = (5 * doy + 2) / 153;
    let d: i128 = doy - (153 * mp + 2) / 5 + 1;
    let (m, year): (i128, i128) = if mp < 10 {
        (mp + 3, y)
    } else {
        (mp - 9, y + 1)
    };
    proof {
        assert(0 <= doe < 146097);
        assert(0 <= doc <= 36524);
        assert(doc == 36524 ==> century == 3);
        assert(0 <= quad <= 24);
        assert(0 <= doq < 1461);
        assert(0 <= single <= 3);
        assert(0 <= doy <= 365);
        assert(doy == 365 ==> single == 3 && (quad < 24 || century == 3));
        assert(0 <= yoe < 400);
        assert(yoe / 4 == century * 25 + quad);
        assert(yoe / 100 == century);
        lemma_march_first_by_era(era as int, yoe as int);
        assert(march_first(y as int) + doy == z);
        // The last day of a March year is a leap day.
        let after: int = y + 1;
        assert(doy == 365 ==> after % 4 == 0);
        assert(doy == 365 && after % 100 == 0 ==> quad == 24 && after % 400 == 0);
        lemma_day_of_march_year(y as int, doy as int);
    }
    (year as i64, m as u32, d as u32)
}

/// The month and day that a day of a March year falls on.
proof fn lemma_day_of_march_year(y: int, doy: int)
    requires
        0 <= doy <= 365,
        doy == 365 ==> is_leap(y + 1),
    ensures
        ({
            let mp = (5 * doy + 2) / 153;
            let d = doy - after_march(mp) + 1;
            let m = if mp < 10 { mp + 3 } else { mp - 9 };
            let year = if mp < 10 { y } else { y + 1 };
            &&& 0 <= mp < 12
            &&& is_date(year, m, d)
            &&& civil_days(year, m, d) == march_first(y) + doy
        }),
{
    let mp = (5 * doy + 2) / 153;
    assert(0 <= mp < 12);
    let d = doy - after_march(mp) + 1;
    assert(d >= 1);
    if mp == 11 {
    } else {
        assert(doy < after_march(mp + 1));
        assert(after_march(0) == 0 && after_march(1) == 31 && after_march(2) == 61 && after_march(3) == 92
            && after_march(4) == 122 && after_march(5) == 153 && after_march(6) == 184 && after_march(7) == 214
            && after_march(8) == 245 && after_march(9) == 275 && after_march(10) == 306 && after_march(11) == 337);
        assert(mp == 0 || mp == 1 || mp == 2 || mp == 3 || mp == 4 || mp == 5 || mp == 6 || mp == 7 || mp == 8 || mp == 9
            || mp == 10);
    }
}

/// The date after `z` days is the only one: two dates the same number of days
/// from 1970-01-01 are the same date.
pub proof fn law_dates_are_distinct(y1: int, m1: int, d1: int, y2: int, m2: int, d2: int)
    requires
        is_date(y1, m1, d1),
        is_date(y2, m2, d2),
        civil_days(y1, m1, d1) == civil_days(y2, m2, d2),
    ensures
        y1 == y2,
        m1 == m2,
        d1 == d2,
{
    law_days_count_the_calendar(y1, m1, d1);
    law_days_count_the_calendar(y2, m2, d2);
    lemma_before_month(y1, m1, d1);
    lemma_before_month(y2, m2, d2);
    if y1 < y2 {
        lemma_later_years(y1 + 1, y2);
    } else if y2 < y1 {
        lemma_later_years(y2 + 1, y1);
    }
    if m1 < m2 {
        lemma_later_months(y1, m1 + 1, m2);
    } else if m2 < m1 {
        lemma_later_months(y1, m2 + 1, m1);
    }
}

/// Days from 1970-01-01 to the first of January of a year, counted year by
/// year.
pub open spec fn before_year(year: int) -> int
    decreases
            if year >= 1970 {
                year - 1970
            } else {
                1970 - year
            },
{
    if year == 1970 {
        0
    } else if year > 1970 {
        before_year(year - 1) + year_length(year - 1)
    } else {
        before_year(year + 1) - year_length(year)
    }
}

/// Days in the months of a year before `month`.
pub open spec fn before_month(year: int, month: int) -> int
    decreases month,
{
    if month <= 1 {
        0
    } else {
        before_month(year, month - 1) + month_length(year, month - 1)
    }
}

/// The number of days to a date is the days of the years before it, those of
/// the months before it, and those of its own month.
pub proof fn law_days_count_the_calendar(year: int, month: int, day: int)
    requires
        1 <= month <= 12,
    ensures
        civil_days(year, month, day) == before_year(year) + before_month(year, month) + day - 1,
{
    lemma_before_year(year);
    lemma_march_year(year - 1);
    reveal_with_fuel(before_month, 13);
    assert(after_march(0) == 0 && after_march(1) == 31 && after_march(2) == 61 && after_march(3) == 92
        && after_march(4) == 122 && after_march(5) == 153 && after_march(6) == 184 && after_march(7) == 214
        && after_march(8) == 245 && after_march(9) == 275 && after_march(10) == 306 && after_march(11) == 337);
    assert(month == 1 || month == 2 || month == 3 || month == 4 || month == 5 || month == 6 || month == 7 || month == 8
        || month == 9 || month == 10 || month == 11 || month == 12);
}

proof fn lemma_before_year(year: int)
    ensures
        before_year(year) == march_first(year - 1) + 306,
    decreases
            if year >= 1970 {
                year - 1970
            } else {
                1970 - year
            },
{
    if year > 1970 {
        lemma_before_year(year - 1);
        lemma_march_year(year - 2);
    } else if year < 1970 {
        lemma_before_year(year + 1);
        lemma_march_year(year - 1);
    }
}

proof fn lemma_before_month(year: int, month: int, day: int)
    requires
        is_date(year, month, day),
    ensures
        0 <= before_month(year, month) + day - 1 < year_length(year),
{
    reveal_with_fuel(before_month, 13);
    assert(month == 1 || month == 2 || month == 3 || month == 4 || month == 5 || month == 6 || month == 7 || month == 8
        || month == 9 || month == 10 || month == 11 || month == 12);
}

proof fn lemma_later_years(y1: int, y2: int)
    requires
        y1 <= y2,
    ensures
        before_year(y1) <= before_year(y2),
        before_year(y1) == before_year(y1 - 1) + year_length(y1 - 1),
    decreases y2 - y1,
{
    lemma_before_year(y1);
    lemma_before_year(y1 - 1);
    lemma_march_year(y1 - 2);
    if y1 < y2 {
        lemma_later_years(y1 + 1, y2);
    }
}

proof fn lemma_later_months(year: int, m1: int, m2: int)
    requires
        2 <= m1 <= m2,
    ensures
        before_month(year, m1) <= before_month(year, m2),
        before_month(year, m1) == before_month(year, m1 - 1) + month_length(year, m1 - 1),
    decreases m2 - m1,
{
    if m1 < m2 {
        lemma_later_months(year, m1 + 1, m2);
    }
}

/// `civil_from_days` undoes `days_from_civil` on every date of the calendar.
pub proof fn law_day_count_is_undone(year: int, month: int, day: int, r: (i64, u32, u32))
    requires
        is_date(year, month, day),
        is_date(r.0 as int, r.1 as int, r.2 as int),
        civil_days(r.0 as int, r.1 as int, r.2 as int) == civil_days(year, month, day),
    ensures
        r.0 == year,
        r.1 == month,
        r.2 == day,
{
    law_dates_are_distinct(year, month, day, r.0 as int, r.1 as int, r.2 as int);
}

/// A number in at least `width` digits: with leading zeros where it has
/// fewer, in full where it has more.
pub open spec fn at_least(n: int, width: nat) -> Seq<char> {
    if decimal(n).len() >= width {
        decimal(n)
    } else {
        padded(n, width)
    }
}

/// A moment as `YYYYMMDD_HHMMSS`, where the year may take more than four
/// digits.
pub open spec fn stamp(year: int, month: int, day: int, second_of_day: int) -> Seq<char> {
    at_least(year, 4) + padded(month, 2) + padded(day, 2) + seq!['_'] + padded(second_of_day / 3600, 2) + padded(
        second_of_day % 3600 / 60,
        2,
    ) + padded(second_of_day % 60, 2)
}

/// The date and the time of day, `secs` seconds after the start of
/// 1970-01-01.
pub fn run_timestamp(secs: u64) -> (r: String)
    ensures
        exists|year: int, month: int, day: int|
            #![trigger is_date(year, month, day)]
            is_date(year, month, day) && civil_days(year, month, day) == secs as int / 86400 && r@ == stamp(
                year,
                month,
                day,
                secs as int % 86400,
            ),
{
    let days: u64 = secs / 86400;
    let of_day: u64 = secs % 86400;
    let (year, month, day): (i64, u32, u32) = civil_from_days(days as i64);
    proof {
        law_days_count_the_calendar(year as int, month as int, day as int);
        lemma_before_month(year as int, month as int, day as int);
        if year < 1970 {
            lemma_later_years(year as int + 1, 1970);
        }
    }
    let mut text: Vec<char> = decimal_of(year as u128);
    if text.len() < 4 {
        text = padded_of(year as u128, 4);
    }
    push_chars(&mut text, &padded_of(month as u128, 2));
    push_chars(&mut text, &padded_of(day as u128, 2));
    text.push('_');
    push_chars(&mut text, &padded_of((of_day / 3600) as u128, 2));
    push_chars(&mut text, &padded_of((of_day % 3600 / 60) as u128, 2));
    push_chars(&mut text, &padded_of((of_day % 60) as u128, 2));
    assert(text@ =~= stamp(year as int, month as int, day as int, of_day as int));
    assert(is_date(year as int, month as int, day as int));
    string_of(&text)
}

} // verus!
