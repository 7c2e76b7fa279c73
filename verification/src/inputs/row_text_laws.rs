//! What rows, moments and whole files of recorded orders read as, in terms of
//! what was written.

use vstd::arithmetic::power::pow;
use vstd::prelude::*;
use crate::dates::civil_days;
use crate::inputs::binary_format::record_size;
use crate::inputs::intake_laws::{law_prices_agree, law_sizes_agree, lemma_first_digits, lemma_no_white};
use crate::inputs::record_laws::{
    all_fit, lemma_bytes, lemma_mark_text, lemma_number_text, lemma_places, lemma_price, lemma_widths, spells, word,
    written, Fields,
};
use crate::inputs::simulator::{
    dataset_ts, is_label, is_malformed, is_row_order, malformed_lines, reads_as, record_at, records, trimmed_rows,
    FileError, FileRecords,
};
use crate::text::{
    all_digits, decimal, is_digit, joined, lacks, law_decimal_reads_back, lemma_decimal, lemma_padded, lemma_split_at,
    lemma_split_joined, padded, signed_value, split, trim, unsigned_value,
};
use crate::types::Order;

verus! {

/// A moment written out: the date with dashes, the time with colons, and nine
/// decimals of the second.
pub open spec fn moment_text(year: int, month: int, day: int, hour: int, minute: int, second: int, nanos: int) -> Seq<
    char,
> {
    joined(seq![decimal(year), padded(month, 2), padded(day, 2)], '-').push(' ') + (joined(
        seq![padded(hour, 2), padded(minute, 2), padded(second, 2)],
        ':',
    ).push('.') + padded(nanos, 9))
}

/// Only digits and this character.
spec fn digits_and(s: Seq<char>, c: char) -> bool {
    forall|i: int| 0 <= i < s.len() ==> is_digit(#[trigger] s[i]) || s[i] == c
}

proof fn lemma_three(a: Seq<char>, b: Seq<char>, c: Seq<char>, sep: char)
    requires
        all_digits(a),
        all_digits(b),
        all_digits(c),
        a.len() > 0,
        c.len() > 0,
        !is_digit(sep),
    ensures
        split(joined(seq![a, b, c], sep), sep) == seq![a, b, c],
        digits_and(joined(seq![a, b, c], sep), sep),
        joined(seq![a, b, c], sep).len() > 0,
        is_digit(joined(seq![a, b, c], sep)[0]),
        is_digit(joined(seq![a, b, c], sep).last()),
{
    let parts: Seq<Seq<char>> = seq![a, b, c];
    assert forall|i: int| 0 <= i < parts.len() implies lacks(#[trigger] parts[i], sep) by {
        let p: Seq<char> = parts[i];
        assert(p == a || p == b || p == c);
        assert forall|k: int| 0 <= k < p.len() implies #[trigger] p[k] != sep by {
            assert(is_digit(p[k]));
        }
    }
    lemma_split_joined(parts, sep);
    reveal_with_fuel(joined, 4);
    let two: Seq<Seq<char>> = parts.drop_last();
    assert(two =~= seq![a, b]);
    assert(two.drop_last() =~= seq![a]);
    assert(seq![a][0] == a);
    assert(two.last() == b && parts.last() == c);
    let s: Seq<char> = (a.push(sep) + b).push(sep) + c;
    assert(joined(parts, sep) == s);
    assert(s[0] == a[0]);
    assert(is_digit(a[0]));
    assert(s.last() == c[c.len() - 1]);
    assert(is_digit(c[c.len() - 1]));
    assert forall|i: int| 0 <= i < s.len() implies is_digit(#[trigger] s[i]) || s[i] == sep by {
        if i < a.len() {
            assert(s[i] == a[i]);
        } else if i == a.len() {
            assert(s[i] == sep);
        } else if i < a.len() + 1 + b.len() {
            assert(s[i] == b[i - a.len() - 1]);
        } else if i == a.len() + 1 + b.len() {
            assert(s[i] == sep);
        } else {
            assert(s[i] == c[i - a.len() - b.len() - 2]);
        }
    }
}

proof fn lemma_two_digits(n: int)
    requires
        0 <= n < 100,
    ensures
        padded(n, 2).len() == 2,
        all_digits(padded(n, 2)),
        unsigned_value(padded(n, 2), u32::MAX as int) == Some(n),
        signed_value(padded(n, 2), i64::MIN as int, i64::MAX as int) == Some(n),
{
    lemma_padded(n, 2);
    reveal_with_fuel(pow, 3);
    assert(pow(10, 2) == 100);
    assert(is_digit(padded(n, 2)[0]));
}

/// A moment that is written out reads back as its nanoseconds since 1970: the
/// days of its date, the hours, minutes and seconds of its time, and its
/// decimals.
pub proof fn law_written_moment_reads_back(
    year: int,
    month: int,
    day: int,
    hour: int,
    minute: int,
    second: int,
    nanos: int,
)
    requires
        0 <= year <= i64::MAX,
        0 <= month < 100,
        0 <= day < 100,
        0 <= hour < 100,
        0 <= minute < 100,
        0 <= second < 100,
        0 <= nanos < 1_000_000_000,
    ensures
        ({
            let ns = civil_days(year, month, day) * 86_400_000_000_000 + hour * 3_600_000_000_000 + minute
                * 60_000_000_000 + second * 1_000_000_000 + nanos;
            dataset_ts(moment_text(year, month, day, hour, minute, second, nanos)) == if 0 <= ns <= i64::MAX {
                Some(ns)
            } else {
                None
            }
        }),
{
    lemma_decimal(year);
    law_decimal_reads_back(year, i64::MAX as int);
    assert(is_digit(decimal(year)[0]));
    lemma_two_digits(month);
    lemma_two_digits(day);
    lemma_two_digits(hour);
    lemma_two_digits(minute);
    lemma_two_digits(second);
    lemma_padded(nanos, 9);
    reveal_with_fuel(pow, 10);
    assert(pow(10, 9) == 1_000_000_000);
    let f: Seq<char> = padded(nanos, 9);
    lemma_first_digits(f, 9);
    assert(f.take(9) =~= f);
    let ymd: Seq<Seq<char>> = seq![decimal(year), padded(month, 2), padded(day, 2)];
    let hms: Seq<Seq<char>> = seq![padded(hour, 2), padded(minute, 2), padded(second, 2)];
    lemma_three(decimal(year), padded(month, 2), padded(day, 2), '-');
    lemma_three(padded(hour, 2), padded(minute, 2), padded(second, 2), ':');
    let date: Seq<char> = joined(ymd, '-');
    let clock: Seq<char> = joined(hms, ':');
    let time: Seq<char> = clock.push('.') + f;
    let s: Seq<char> = date.push(' ') + time;
    assert(lacks(date, ' ')) by {
        assert forall|i: int| 0 <= i < date.len() implies #[trigger] date[i] != ' ' by {
            assert(is_digit(date[i]) || date[i] == '-');
        }
    }
    assert(lacks(clock, '.')) by {
        assert forall|i: int| 0 <= i < clock.len() implies #[trigger] clock[i] != '.' by {
            assert(is_digit(clock[i]) || clock[i] == ':');
        }
    }
    lemma_split_at(date, ' ', time);
    lemma_split_at(clock, '.', f);
    assert(s[0] == date[0]);
    assert(s.last() == f[f.len() - 1]);
    assert(is_digit(f[f.len() - 1]));
    lemma_no_white(s);
    assert(ymd[0] == decimal(year) && ymd[1] == padded(month, 2) && ymd[2] == padded(day, 2));
    assert(hms[0] == padded(hour, 2) && hms[1] == padded(minute, 2) && hms[2] == padded(second, 2));
}

/// A row whose columns spell out these fields, with the moment, the user and
/// the labels beside them, reads as that order. A row of another number of
/// columns than it takes, or with a word for a mark, does not read at all.
pub proof fn law_row_reads_as_written(cols: Seq<Seq<char>>, f: Fields, order: Order)
    requires
        all_fit(f),
        f.price.decimals <= 6,
        f.first_size.decimals <= 6,
        spells(cols, f),
        dataset_ts(cols[0]) == Some(f.ts as int),
        forall|i: int| 0 <= i < cols.len() ==> lacks(#[trigger] cols[i], ','),
    ensures
        !is_malformed(joined(cols, ',')),
        is_row_order(order, joined(cols, ',')) ==> {
            &&& order.ts == f.ts
            &&& order.status_id == f.status
            &&& order.is_ask == f.ask
            &&& order.oid == f.oid
            &&& order.is_trigger == f.conditional
            &&& order.order_type_id == f.kind
            &&& order.tif_id == f.tif
            &&& crate::inputs::record_laws::is_price(order.limit_px as int, f.price)
            &&& order.remaining == order.orig_sz
            &&& order.sz == order.orig_sz
            &&& order.user_id@ == trim(cols[1])
            &&& is_label(order.status, cols[19])
            &&& is_label(order.order_type, cols[20])
            &&& is_label(order.tif, cols[21])
            &&& order.closed_ts == 0 && !order.is_builder && !order.triggered && !order.reduce_only
            &&& !order.has_children && !order.is_position_tpsl
            &&& order.timestamp_diff == 0 && order.trigger_px == 0 && order.trigger_condition == 0
        },
{
    lemma_split_joined(cols, ',');
    lemma_price(f.price);
    lemma_price(f.first_size);
    lemma_mark_text(f.ask);
    lemma_mark_text(f.conditional);
    lemma_number_text(f.status as int, u8::MAX as int);
    lemma_number_text(f.oid as int, u64::MAX as int);
    lemma_number_text(f.kind as int, u8::MAX as int);
    lemma_number_text(f.tif as int, u8::MAX as int);
    assert(word(f.price) % 0x2000_0000 == f.price.digits && word(f.price) / 0x2000_0000 == f.price.decimals);
    assert(word(f.first_size) % 0x2000_0000 == f.first_size.digits && word(f.first_size) / 0x2000_0000
        == f.first_size.decimals);
    law_prices_agree(word(f.price) as u32);
    law_sizes_agree(word(f.first_size) as u32);
}

/// A row with too few columns cannot be read, nor one whose side or condition
/// mark is none of the four words for one.
pub proof fn law_bad_rows_are_refused(cols: Seq<Seq<char>>)
    requires
        cols.len() > 0,
        forall|i: int| 0 <= i < cols.len() ==> lacks(#[trigger] cols[i], ','),
    ensures
        cols.len() < 22 ==> is_malformed(joined(cols, ',')),
        cols.len() >= 22 && !(is_mark(cols[4]) && is_mark(cols[11])) ==> is_malformed(joined(cols, ',')),
{
    lemma_split_joined(cols, ',');
}

/// One of the four words for a mark, with white space round it or not.
pub open spec fn is_mark(s: Seq<char>) -> bool {
    trim(s) == "True"@ || trim(s) == "true"@ || trim(s) == "False"@ || trim(s) == "false"@
}

/// The lines that are neither blank nor readable are numbered on from the
/// first, each once.
pub proof fn law_malformed_lines_are_numbered(lines: Seq<Seq<char>>, first: int, n: int)
    ensures
        malformed_lines(lines, first).contains(n) <==> first <= n < first + lines.len() && trim(lines[n - first]).len()
            > 0 && is_malformed(trim(lines[n - first])),
        forall|i: int, j: int|
            0 <= i < j < malformed_lines(lines, first).len() ==> #[trigger] malformed_lines(lines, first)[i]
                < #[trigger] malformed_lines(lines, first)[j],
        forall|i: int|
            0 <= i < malformed_lines(lines, first).len() ==> first <= #[trigger] malformed_lines(lines, first)[i] < first
                + lines.len(),
    decreases lines.len(),
{
    if lines.len() > 0 {
        let short: Seq<Seq<char>> = lines.drop_last();
        law_malformed_lines_are_numbered(short, first, n);
        let e: Seq<int> = malformed_lines(short, first);
        let r: Seq<int> = malformed_lines(lines, first);
        let last: int = first + lines.len() - 1;
        if first <= n < last {
            assert(short[n - first] == lines[n - first]);
        }
        if e.contains(n) {
            let i: int = choose|i: int| 0 <= i < e.len() && e[i] == n;
            assert(r[i] == n);
        }
        if r.contains(n) {
            let i: int = choose|i: int| 0 <= i < r.len() && r[i] == n;
            if i < e.len() {
                assert(e[i] == n);
            }
        }
        if n == last && r.len() > e.len() {
            assert(r[r.len() - 1] == n);
        }
        assert forall|i: int, j: int| 0 <= i < j < r.len() implies #[trigger] r[i] < #[trigger] r[j] by {
            assert(r[i] == e[i]);
            if j < e.len() {
                assert(r[j] == e[j]);
            }
        }
        assert forall|i: int| 0 <= i < r.len() implies first <= #[trigger] r[i] < first + lines.len() by {
            if i < e.len() {
                assert(r[i] == e[i]);
            }
        }
    } else {
        assert(!malformed_lines(lines, first).contains(n));
    }
}

/// The rows are the lines that are not blank, in their order and without white
/// space round them; the places tell which line each one was.
pub proof fn law_rows_are_the_lines(lines: Seq<Seq<char>>) -> (at: Seq<int>)
    ensures
        at.len() == trimmed_rows(lines).len(),
        forall|i: int|
            0 <= i < at.len() ==> 0 <= #[trigger] at[i] < lines.len() && trimmed_rows(lines)[i] == trim(lines[at[i]])
                && trim(lines[at[i]]).len() > 0,
        forall|i: int, j: int| 0 <= i < j < at.len() ==> #[trigger] at[i] < #[trigger] at[j],
        forall|x: int| 0 <= x < lines.len() && trim(#[trigger] lines[x]).len() > 0 ==> at.contains(x),
    decreases lines.len(),
{
    if lines.len() == 0 {
        Seq::empty()
    } else {
        let short: Seq<Seq<char>> = lines.drop_last();
        let before: Seq<int> = law_rows_are_the_lines(short);
        let n: int = lines.len() - 1;
        let at: Seq<int> = if trim(lines.last()).len() == 0 {
            before
        } else {
            before.push(n)
        };
        assert forall|i: int| 0 <= i < at.len() implies 0 <= #[trigger] at[i] < lines.len() && trimmed_rows(lines)[i]
            == trim(lines[at[i]]) && trim(lines[at[i]]).len() > 0 by {
            if i < before.len() {
                assert(at[i] == before[i]);
                assert(short[before[i]] == lines[before[i]]);
            }
        }
        assert forall|i: int, j: int| 0 <= i < j < at.len() implies #[trigger] at[i] < #[trigger] at[j] by {
            assert(at[i] == before[i]);
            if j < before.len() {
                assert(at[j] == before[j]);
            }
        }
        assert forall|x: int| 0 <= x < lines.len() && trim(#[trigger] lines[x]).len() > 0 implies at.contains(x) by {
            if x < n {
                assert(short[x] == lines[x]);
                assert(before.contains(x));
                let i: int = choose|i: int| 0 <= i < before.len() && before[i] == x;
                assert(at[i] == x);
            } else {
                assert(at[at.len() - 1] == n);
            }
        }
        at
    }
}

/// Records one after the other.
pub open spec fn file_of(fs: Seq<Fields>) -> Seq<u8>
    decreases fs.len(),
{
    if fs.len() == 0 {
        Seq::empty()
    } else {
        file_of(fs.drop_last()) + written(fs.last())
    }
}

proof fn lemma_file(fs: Seq<Fields>)
    ensures
        file_of(fs).len() == 54 * fs.len(),
        forall|i: int|
            0 <= i < fs.len() ==> file_of(fs).subrange(54 * i, 54 * i + 54) == written(#[trigger] fs[i]),
    decreases fs.len(),
{
    if fs.len() > 0 {
        let short: Seq<Fields> = fs.drop_last();
        lemma_file(short);
        lemma_places(fs.last());
        let s: Seq<u8> = file_of(fs);
        assert forall|i: int| 0 <= i < fs.len() implies s.subrange(54 * i, 54 * i + 54) == written(#[trigger] fs[i]) by {
            if i < short.len() {
                assert(short[i] == fs[i]);
                assert(s.subrange(54 * i, 54 * i + 54) =~= file_of(short).subrange(54 * i, 54 * i + 54));
            } else {
                assert(s.subrange(54 * i, 54 * i + 54) =~= written(fs.last()));
            }
        }
    }
}

/// A file of records, with fewer bytes behind them than one more record takes,
/// is read as these records: all of them are seen, and the file begins at the
/// moment of the first. Bytes left over are an error; an implausible first
/// record drops the file as a whole.
pub proof fn law_file_reads_as_its_records(
    fs: Seq<Fields>,
    rest: Seq<u8>,
    sound: bool,
    plausible: bool,
    r: FileRecords,
)
    requires
        rest.len() < 54,
        reads_as(file_of(fs) + rest, sound, plausible, r),
    ensures
        records(file_of(fs) + rest).len() == fs.len(),
        forall|i: int| 0 <= i < fs.len() ==> records(file_of(fs) + rest)[i] == written(#[trigger] fs[i]),
        fs.len() > 0 && !plausible ==> r.dropped && r.orders@.len() == 0 && r.seen == 0 && r.skipped == 0
            && r.first_ts is None && r.error is None,
        fs.len() == 0 || plausible ==> {
            &&& !r.dropped
            &&& r.seen == fs.len()
            &&& r.orders@.len() + r.skipped == fs.len()
            &&& fs.len() > 0 ==> r.first_ts == Some(fs[0].ts)
            &&& fs.len() == 0 ==> r.first_ts is None
            &&& r.error == (if !sound {
                Some(FileError::Corrupt)
            } else if rest.len() > 0 {
                Some(FileError::Truncated)
            } else {
                None
            })
        },
{
    let s: Seq<u8> = file_of(fs) + rest;
    lemma_file(fs);
    assert(s.len() == 54 * fs.len() + rest.len());
    assert(s.len() / 54 == fs.len());
    assert(s.len() % 54 == rest.len());
    assert forall|i: int| 0 <= i < fs.len() implies records(s)[i] == written(#[trigger] fs[i]) by {
        assert(record_at(s, i) =~= file_of(fs).subrange(54 * i, 54 * i + 54));
    }
    if fs.len() > 0 {
        assert(records(s)[0] == written(fs[0]));
        lemma_places(fs[0]);
        lemma_widths();
        lemma_bytes(fs[0].ts as int, 8);
    }
    let none: Seq<Seq<u8>> = Seq::empty();
    let keeps = |record: Seq<u8>| record_size(record) > 0;
    assert(none.filter(keeps) =~= none) by {
        reveal(Seq::filter);
    }
}

} // verus!
