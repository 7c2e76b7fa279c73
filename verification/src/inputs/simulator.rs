//! Reads recorded order-status data: decimal numbers, timestamps and rows of
//! the CSV files, and the records of the (compressed) binary files.

use flate2::read::MultiGzDecoder;
use std::io::Read;
use vstd::prelude::*;
use crate::dates::{civil_days, day_count};
use crate::inputs::binary_format::{number_at, parse_record, record_order, record_size, timestamp_of};
use crate::seqs::min_of;
use crate::text::{
    all_digits, chars_of, digit_of, is_digit, is_digit_char, is_text, lines, lines_of, parse_i64, parse_u128,
    parse_u32, parse_u64, parse_u8, signed_value, split, split_at_each, split_at_first, split_once, string_of, trim,
    trimmed, unsigned_value, value_of_digit, views,
};
use crate::types::{Amount, Order, Price};

verus! {

/// Columns of an order-status row: ts, userId, isBuilder, statusId, isAsk,
/// limitPx, sz, oid, timestampDiff, triggerCondition, triggered, isTrigger,
/// hasChildren, isPositionTpsl, reduceOnly, orderTypeId, tifId, triggerPx,
/// origSz, status, orderType, tif.
pub const MIN_COLUMNS: usize = 22;

/// A decimal number's text before and after its first point.
pub open spec fn decimal_parts(s: Seq<char>) -> (Seq<char>, Seq<char>) {
    match split_once(trim(s), '.') {
        Some(parts) => parts,
        None => (trim(s), Seq::empty()),
    }
}

/// The number in the first `n` digits, with zeros where there are fewer.
pub open spec fn first_digits(s: Seq<char>, n: nat) -> int
    decreases n,
{
    if n == 0 {
        0
    } else {
        first_digits(s, (n - 1) as nat) * 10 + (if n <= s.len() {
            digit_of(s[n - 1])
        } else {
            0
        })
    }
}

/// The fixed-point value of a decimal number: its whole part times
/// `PRICE_SCALE` plus its first six decimals. None for a text that is not a
/// decimal number, or whose value is too large.
pub open spec fn fixed_point(s: Seq<char>) -> Option<int> {
    let (whole, fraction) = decimal_parts(s);
    match unsigned_value(whole, u128::MAX as int) {
        Some(n) => {
            let value = n * 1_000_000 + first_digits(fraction, 6);
            if all_digits(fraction) && value <= u128::MAX {
                Some(value)
            } else {
                None
            }
        },
        None => None,
    }
}

/// The whole number nearest to a decimal number, halves up. Only the first
/// decimal is read. None for a text that does not start as a decimal number,
/// or whose value is too large.
pub open spec fn nearest_unit(s: Seq<char>) -> Option<int> {
    let (whole, fraction) = decimal_parts(s);
    match unsigned_value(whole, u128::MAX as int) {
        Some(n) => if fraction.len() == 0 {
            Some(n)
        } else if !is_digit(fraction[0]) {
            None
        } else if digit_of(fraction[0]) < 5 {
            Some(n)
        } else if n < u128::MAX {
            Some(n + 1)
        } else {
            None
        },
        None => None,
    }
}

fn parts_of_decimal(s: &Vec<char>) -> (r: (Vec<char>, Vec<char>))
    ensures
        (r.0@, r.1@) == decimal_parts(s@),
{
    let t: Vec<char> = trimmed(s);
    match split_at_first(&t, '.') {
        Some(parts) => parts,
        None => {
            let none: Vec<char> = Vec::new();
            assert(none@ =~= Seq::<char>::empty());
            (t, none)
        },
    }
}

fn only_digits(s: &Vec<char>) -> (r: bool)
    ensures
        r == all_digits(s@),
{
    let mut i: usize = 0;
    while i < s.len()
        invariant
            i <= s.len(),
            forall|k: int| 0 <= k < i ==> is_digit(#[trigger] s@[k]),
        decreases s.len() - i,
    {
        if !is_digit_char(s[i]) {
            assert(!is_digit(s@[i as int]));
            return false;
        }
        i += 1;
    }
    true
}

/// The number in the first `n` digits, with zeros where there are fewer.
fn number_in_first(s: &Vec<char>, n: usize) -> (r: u64)
    requires
        all_digits(s@),
        n <= 18,
    ensures
        r == first_digits(s@, n as nat),
        r < 1_000_000_000_000_000_000,
        n <= 9 ==> r < 1_000_000_000,
{
    let mut v: u64 = 0;
    let mut i: usize = 0;
    let mut bound: Ghost<int> = Ghost(1);
    proof {
        lemma_powers_of_ten();
    }
    while i < n
        invariant
            i <= n <= 18,
            all_digits(s@),
            v == first_digits(s@, i as nat),
            0 <= v < bound@,
            bound@ == vstd::arithmetic::power::pow(10, i as nat),
        decreases n - i,
    {
        let d: u64 = if i < s.len() {
            assert(is_digit(s@[i as int]));
            value_of_digit(s[i]) as u64
        } else {
            0
        };
        proof {
            vstd::arithmetic::power::lemma_pow_increases(10, i as nat, 17);
            lemma_powers_of_ten();
            reveal(vstd::arithmetic::power::pow);
            bound@ = bound@ * 10;
        }
        v = v * 10 + d;
        i += 1;
    }
    proof {
        vstd::arithmetic::power::lemma_pow_increases(10, n as nat, 18);
        if n <= 9 {
            vstd::arithmetic::power::lemma_pow_increases(10, n as nat, 9);
        }
        lemma_powers_of_ten();
    }
    v
}

proof fn lemma_powers_of_ten()
    ensures
        vstd::arithmetic::power::pow(10, 0) == 1,
        vstd::arithmetic::power::pow(10, 9) == 1_000_000_000,
        vstd::arithmetic::power::pow(10, 17) == 100_000_000_000_000_000,
        vstd::arithmetic::power::pow(10, 18) == 1_000_000_000_000_000_000,
{
    reveal_with_fuel(vstd::arithmetic::power::pow, 19);
}

/// A decimal number in `PRICE_SCALE` fixed point.
pub fn parse_fixed_point(s: &str) -> (r: Option<u128>)
    ensures
        match r {
            Some(v) => fixed_point(s@) == Some(v as int),
            None => fixed_point(s@) is None,
        },
{
    fixed_point_of(&chars_of(s))
}

fn fixed_point_of(s: &Vec<char>) -> (r: Option<u128>)
    ensures
        match r {
            Some(v) => fixed_point(s@) == Some(v as int),
            None => fixed_point(s@) is None,
        },
{
    let (whole, fraction): (Vec<char>, Vec<char>) = parts_of_decimal(s);
    let n: u128 = match parse_u128(&whole) {
        Some(n) => n,
        None => {
            return None;
        },
    };
    if !only_digits(&fraction) {
        return None;
    }
    let low: u128 = number_in_first(&fraction, 6) as u128;
    if n > (u128::MAX - low) / 1_000_000 {
        return None;
    }
    Some(n * 1_000_000 + low)
}

/// The whole number nearest to a decimal number, halves up.
pub fn round_to_unit(s: &str) -> (r: Option<u128>)
    ensures
        match r {
            Some(v) => nearest_unit(s@) == Some(v as int),
            None => nearest_unit(s@) is None,
        },
{
    nearest_unit_of(&chars_of(s))
}

fn nearest_unit_of(s: &Vec<char>) -> (r: Option<u128>)
    ensures
        match r {
            Some(v) => nearest_unit(s@) == Some(v as int),
            None => nearest_unit(s@) is None,
        },
{
    let (whole, fraction): (Vec<char>, Vec<char>) = parts_of_decimal(s);
    let n: u128 = match parse_u128(&whole) {
        Some(n) => n,
        None => {
            return None;
        },
    };
    if fraction.len() == 0 {
        return Some(n);
    }
    if !is_digit_char(fraction[0]) {
        return None;
    }
    if value_of_digit(fraction[0]) < 5 {
        Some(n)
    } else {
        n.checked_add(1)
    }
}

/// The truth value in a text: `True` or `true`, `False` or `false`.
pub open spec fn flag(s: Seq<char>) -> Option<bool> {
    if trim(s) == "True"@ || trim(s) == "true"@ {
        Some(true)
    } else if trim(s) == "False"@ || trim(s) == "false"@ {
        Some(false)
    } else {
        None
    }
}

fn parse_bool(s: &Vec<char>) -> (r: Option<bool>)
    ensures
        r == flag(s@),
{
    let t: Vec<char> = trimmed(s);
    if is_text(&t, "True") || is_text(&t, "true") {
        Some(true)
    } else if is_text(&t, "False") || is_text(&t, "false") {
        Some(false)
    } else {
        None
    }
}

/// The label in a column: its text without white space round it, or nothing.
pub open spec fn is_label(label: Option<String>, column: Seq<char>) -> bool {
    match label {
        Some(text) => trim(column).len() > 0 && text@ == trim(column),
        None => trim(column).len() == 0,
    }
}

fn non_empty(s: &Vec<char>) -> (r: Option<String>)
    ensures
        is_label(r, s@),
{
    let t: Vec<char> = trimmed(s);
    if t.len() == 0 {
        None
    } else {
        Some(string_of(&t))
    }
}

/// The number of nanoseconds from 1970-01-01 to a moment written as
/// `YYYY-MM-DD HH:MM:SS.fffffffff`. The decimals may be left out; anything
/// after the third part of the date, the third part of the time and the ninth
/// decimal is passed over. None for any other text, for a moment before 1970
/// and for one past the range of `i64`.
pub open spec fn dataset_ts(s: Seq<char>) -> Option<int> {
    match split_once(trim(s), ' ') {
        None => None,
        Some((date, time)) => {
            let (clock, fraction) = match split_once(time, '.') {
                Some(parts) => parts,
                None => (time, seq!['0']),
            };
            let ymd = split(date, '-');
            let hms = split(clock, ':');
            if ymd.len() < 3 || hms.len() < 3 || !all_digits(fraction) {
                None
            } else {
                match (
                    signed_value(ymd[0], i64::MIN as int, i64::MAX as int),
                    unsigned_value(ymd[1], u32::MAX as int),
                    unsigned_value(ymd[2], u32::MAX as int),
                    signed_value(hms[0], i64::MIN as int, i64::MAX as int),
                    signed_value(hms[1], i64::MIN as int, i64::MAX as int),
                    signed_value(hms[2], i64::MIN as int, i64::MAX as int),
                ) {
                    (Some(year), Some(month), Some(day), Some(hour), Some(minute), Some(second)) => {
                        let ns = (((civil_days(year, month, day) * 24 + hour) * 60 + minute) * 60 + second) * 1_000_000_000
                            + first_digits(fraction, 9);
                        if 0 <= ns <= i64::MAX {
                            Some(ns)
                        } else {
                            None
                        }
                    },
                    _ => None,
                }
            }
        },
    }
}

/// Nanoseconds from 1970-01-01 to a written moment.
pub fn parse_dataset_ts(s: &str) -> (r: Option<u64>)
    ensures
        match r {
            Some(v) => dataset_ts(s@) == Some(v as int),
            None => dataset_ts(s@) is None,
        },
{
    dataset_ts_of(&chars_of(s))
}

fn dataset_ts_of(s: &Vec<char>) -> (r: Option<u64>)
    ensures
        match r {
            Some(v) => dataset_ts(s@) == Some(v as int),
            None => dataset_ts(s@) is None,
        },
{
    let (date, time): (Vec<char>, Vec<char>) = match split_at_first(&trimmed(s), ' ') {
        Some(parts) => parts,
        None => {
            return None;
        },
    };
    let (clock, fraction): (Vec<char>, Vec<char>) = match split_at_first(&time, '.') {
        Some(parts) => parts,
        None => {
            let mut zero: Vec<char> = Vec::new();
            zero.push('0');
            assert(zero@ =~= seq!['0']);
            (time, zero)
        },
    };
    let ymd: Vec<Vec<char>> = split_at_each(&date, '-');
    let hms: Vec<Vec<char>> = split_at_each(&clock, ':');
    proof {
        assert(views(ymd@).len() == ymd@.len());
        assert(views(hms@).len() == hms@.len());
        if ymd@.len() >= 3 && hms@.len() >= 3 {
            assert(views(ymd@)[0] == ymd@[0]@ && views(ymd@)[1] == ymd@[1]@ && views(ymd@)[2] == ymd@[2]@);
            assert(views(hms@)[0] == hms@[0]@ && views(hms@)[1] == hms@[1]@ && views(hms@)[2] == hms@[2]@);
        }
    }
    if ymd.len() < 3 || hms.len() < 3 || !only_digits(&fraction) {
        return None;
    }
    match (
        parse_i64(&ymd[0]),
        parse_u32(&ymd[1]),
        parse_u32(&ymd[2]),
        parse_i64(&hms[0]),
        parse_i64(&hms[1]),
        parse_i64(&hms[2]),
    ) {
        (Some(year), Some(month), Some(day), Some(hour), Some(minute), Some(second)) => {
            let days: i128 = day_count(year, month, day);
            let ns: i128 = (((days * 24 + hour as i128) * 60 + minute as i128) * 60 + second as i128) * 1_000_000_000
                + number_in_first(&fraction, 9) as i128;
            if 0 <= ns && ns <= i64::MAX as i128 {
                Some(ns as u64)
            } else {
                None
            }
        },
        _ => None,
    }
}

/// Whether a file's first line has as many columns as an order-status row.
pub open spec fn is_header(line: Seq<char>) -> bool {
    split(trim(line), ',').len() >= 22
}

/// Whether a file's first line looks like that of an order-status file.
pub fn looks_like_order_status_header(header: &str) -> (r: bool)
    ensures
        r == is_header(header@),
{
    header_like(&chars_of(header))
}

fn header_like(header: &Vec<char>) -> (r: bool)
    ensures
        r == is_header(header@),
{
    let cols: Vec<Vec<char>> = split_at_each(&trimmed(header), ',');
    assert(views(cols@).len() == cols@.len());
    cols.len() >= MIN_COLUMNS
}

/// Whether the columns that an order is made of can all be read.
pub open spec fn is_readable(cols: Seq<Seq<char>>) -> bool {
    &&& cols.len() >= 22
    &&& dataset_ts(cols[0]) is Some
    &&& unsigned_value(trim(cols[3]), u8::MAX as int) is Some
    &&& flag(cols[4]) is Some
    &&& fixed_point(cols[5]) is Some
    &&& unsigned_value(trim(cols[7]), u64::MAX as int) is Some
    &&& flag(cols[11]) is Some
    &&& unsigned_value(trim(cols[15]), u8::MAX as int) is Some
    &&& unsigned_value(trim(cols[16]), u8::MAX as int) is Some
    &&& nearest_unit(cols[18]) is Some
}

/// Whether a row cannot be read.
pub open spec fn is_malformed(line: Seq<char>) -> bool {
    !is_readable(split(line, ','))
}

/// Whether a row can be read and its size is not zero.
pub open spec fn yields_order(line: Seq<char>) -> bool {
    !is_malformed(line) && nearest_unit(split(line, ',')[18])->0 > 0
}

/// The order in a row that can be read, but for its owner and its labels.
pub open spec fn row_order(
    cols: Seq<Seq<char>>,
    user_id: String,
    status: Option<String>,
    order_type: Option<String>,
    tif: Option<String>,
) -> Order {
    let size = nearest_unit(cols[18])->0 as u128;
    Order {
        ts: dataset_ts(cols[0])->0 as u64,
        user_id,
        is_builder: false,
        status_id: unsigned_value(trim(cols[3]), u8::MAX as int)->0 as u8,
        is_ask: flag(cols[4])->0,
        limit_px: fixed_point(cols[5])->0 as u128,
        sz: size,
        oid: unsigned_value(trim(cols[7]), u64::MAX as int)->0 as u64,
        timestamp_diff: 0,
        trigger_condition: 0,
        triggered: false,
        is_trigger: flag(cols[11])->0,
        has_children: false,
        is_position_tpsl: false,
        reduce_only: false,
        order_type_id: unsigned_value(trim(cols[15]), u8::MAX as int)->0 as u8,
        tif_id: unsigned_value(trim(cols[16]), u8::MAX as int)->0 as u8,
        trigger_px: 0,
        orig_sz: size,
        closed_ts: 0,
        status,
        order_type,
        tif,
        remaining: size,
    }
}

/// Whether `order` is the order in a row.
pub open spec fn is_row_order(order: Order, line: Seq<char>) -> bool {
    let cols = split(line, ',');
    &&& order.user_id@ == trim(cols[1])
    &&& is_label(order.status, cols[19])
    &&& is_label(order.order_type, cols[20])
    &&& is_label(order.tif, cols[21])
    &&& order == row_order(cols, order.user_id, order.status, order.order_type, order.tif)
}

/// Reads one row: an error where a column cannot be read, nothing where the
/// size rounds to zero, and otherwise the order.
pub fn parse_row(line: &str) -> (r: Result<Option<Order>, ()>)
    ensures
        match r {
            Err(_) => is_malformed(line@),
            Ok(None) => !is_malformed(line@) && !yields_order(line@),
            Ok(Some(order)) => yields_order(line@) && is_row_order(order, line@),
        },
{
    row_of(&chars_of(line))
}

fn row_of(line: &Vec<char>) -> (r: Result<Option<Order>, ()>)
    ensures
        match r {
            Err(_) => is_malformed(line@),
            Ok(None) => !is_malformed(line@) && !yields_order(line@),
            Ok(Some(order)) => yields_order(line@) && is_row_order(order, line@),
        },
{
    let cols: Vec<Vec<char>> = split_at_each(line, ',');
    let ghost c: Seq<Seq<char>> = split(line@, ',');
    proof {
        assert(views(cols@).len() == cols@.len());
        assert(forall|i: int| 0 <= i < cols@.len() ==> #[trigger] c[i] == cols@[i]@);
    }
    if cols.len() < MIN_COLUMNS {
        return Err(());
    }
    let ts: u64 = match dataset_ts_of(&cols[0]) {
        Some(v) => v,
        None => {
            return Err(());
        },
    };
    let user_id: String = string_of(&trimmed(&cols[1]));
    let status_id: u8 = match parse_u8(&trimmed(&cols[3])) {
        Some(v) => v,
        None => {
            return Err(());
        },
    };
    let is_ask: bool = match parse_bool(&cols[4]) {
        Some(v) => v,
        None => {
            return Err(());
        },
    };
    let limit_px: Price = match fixed_point_of(&cols[5]) {
        Some(v) => v,
        None => {
            return Err(());
        },
    };
    let oid: u64 = match parse_u64(&trimmed(&cols[7])) {
        Some(v) => v,
        None => {
            return Err(());
        },
    };
    let is_trigger: bool = match parse_bool(&cols[11]) {
        Some(v) => v,
        None => {
            return Err(());
        },
    };
    let order_type_id: u8 = match parse_u8(&trimmed(&cols[15])) {
        Some(v) => v,
        None => {
            return Err(());
        },
    };
    let tif_id: u8 = match parse_u8(&trimmed(&cols[16])) {
        Some(v) => v,
        None => {
            return Err(());
        },
    };
    let orig_sz: Amount = match nearest_unit_of(&cols[18]) {
        Some(v) => v,
        None => {
            return Err(());
        },
    };
    if orig_sz == 0 {
        return Ok(None);
    }
    Ok(
        Some(
            Order {
                ts,
                user_id,
                is_builder: false,
                status_id,
                is_ask,
                limit_px,
                sz: orig_sz,
                oid,
                timestamp_diff: 0,
                trigger_condition: 0,
                triggered: false,
                is_trigger,
                has_children: false,
                is_position_tpsl: false,
                reduce_only: false,
                order_type_id,
                tif_id,
                trigger_px: 0,
                orig_sz,
                closed_ts: 0,
                status: non_empty(&cols[19]),
                order_type: non_empty(&cols[20]),
                tif: non_empty(&cols[21]),
                remaining: orig_sz,
            },
        ),
    )
}

/// Why a data file could not be read to its end.
#[derive(Clone, Copy, Debug, PartialEq, Eq, Structural)]
pub enum FileError {
    /// The compressed data is not sound.
    Corrupt,
    /// The last record is cut short.
    Truncated,
    /// A line is not text.
    NotText,
}

/// What one data file holds.
#[derive(Debug)]
pub struct FileRecords {
    /// The orders, in file order; up to the fault, if there is one.
    pub orders: Vec<Order>,
    /// Rows or records read; see the readers for what they count.
    pub seen: usize,
    /// Rows that could not be read, or records without an order.
    pub skipped: usize,
    /// Whether the file was left aside as a whole.
    pub dropped: bool,
    /// The numbers, from 1, of the lines that could not be read.
    pub malformed: Vec<usize>,
    /// The moment of the first row that could be read, or of the first
    /// record, whether or not there is an order in it.
    pub first_ts: Option<u64>,
    /// Why the file was not read to its end.
    pub error: Option<FileError>,
}

/// The rows of a CSV text: its lines but for the first and for blank ones,
/// without white space at their ends.
pub open spec fn rows(text: Seq<char>) -> Seq<Seq<char>> {
    trimmed_rows(lines(text).skip(1))
}

pub open spec fn trimmed_rows(lines: Seq<Seq<char>>) -> Seq<Seq<char>>
    decreases lines.len(),
{
    if lines.len() == 0 {
        Seq::empty()
    } else if trim(lines.last()).len() == 0 {
        trimmed_rows(lines.drop_last())
    } else {
        trimmed_rows(lines.drop_last()).push(trim(lines.last()))
    }
}

/// The numbers of the lines that are neither blank nor readable, where the
/// first of `lines` has number `first`.
pub open spec fn malformed_lines(lines: Seq<Seq<char>>, first: int) -> Seq<int>
    decreases lines.len(),
{
    if lines.len() == 0 {
        Seq::empty()
    } else {
        let earlier = malformed_lines(lines.drop_last(), first);
        if trim(lines.last()).len() > 0 && is_malformed(trim(lines.last())) {
            earlier.push(first + lines.len() - 1)
        } else {
            earlier
        }
    }
}

pub open spec fn line_numbers(numbers: Seq<usize>) -> Seq<int> {
    Seq::new(numbers.len(), |i: int| numbers[i] as int)
}

/// The moment of the first row that can be read.
pub open spec fn first_moment(rows: Seq<Seq<char>>) -> Option<int> {
    let readable = rows.filter(|row: Seq<char>| !is_malformed(row));
    if readable.len() > 0 {
        dataset_ts(split(readable[0], ',')[0])
    } else {
        None
    }
}

/// A moment, as a plain value.
pub open spec fn moment(ts: Option<u64>) -> Option<int> {
    match ts {
        Some(t) => Some(t as int),
        None => None,
    }
}

/// Whether `orders` are the orders in these rows, one after the other.
pub open spec fn are_row_orders(orders: Seq<Order>, rows: Seq<Seq<char>>) -> bool {
    &&& orders.len() == rows.len()
    &&& forall|i: int| 0 <= i < orders.len() ==> is_row_order(#[trigger] orders[i], rows[i])
}

/// What the text of a CSV file reads as. A file whose first line does not look
/// like an order-status header is dropped; an empty one is not. Of the other
/// files, every row counts as seen or, if it cannot be read, as skipped.
pub open spec fn csv_reads_as(contents: Seq<char>, r: FileRecords) -> bool {
    let file = lines(contents);
    let read = if file.len() > 0 && is_header(file[0]) {
        rows(contents)
    } else {
        Seq::empty()
    };
    &&& r.dropped == (file.len() > 0 && !is_header(file[0]))
    &&& are_row_orders(r.orders@, read.filter(|row: Seq<char>| yields_order(row)))
    &&& r.skipped == read.filter(|row: Seq<char>| is_malformed(row)).len()
    &&& r.seen == read.len() - r.skipped
    &&& line_numbers(r.malformed@) == if file.len() > 0 && is_header(file[0]) {
        malformed_lines(file.skip(1), 2)
    } else {
        Seq::empty()
    }
    &&& moment(r.first_ts) == first_moment(read)
}

/// The moment of a row that can be read.
fn moment_of_row(line: &Vec<char>) -> (r: Option<u64>)
    requires
        !is_malformed(line@),
    ensures
        r is Some,
        moment(r) == dataset_ts(split(line@, ',')[0]),
{
    let cols: Vec<Vec<char>> = split_at_each(line, ',');
    assert(views(cols@)[0] == cols@[0]@);
    dataset_ts_of(&cols[0])
}

/// Reads the text of a CSV file.
pub fn load_order_status_csv(contents: &str) -> (r: FileRecords)
    ensures
        csv_reads_as(contents@, r),
        r.error is None,
{
    let file: Vec<Vec<char>> = lines_of(&chars_of(contents));
    let ghost all: Seq<Seq<char>> = lines(contents@);
    let ghost yields = |row: Seq<char>| yields_order(row);
    let ghost bad = |row: Seq<char>| is_malformed(row);
    let ghost good = |row: Seq<char>| !is_malformed(row);
    let mut r: FileRecords = FileRecords {
        orders: Vec::new(),
        seen: 0,
        skipped: 0,
        dropped: false,
        malformed: Vec::new(),
        first_ts: None,
        error: None,
    };
    proof {
        reveal(Seq::filter);
        assert(views(file@).len() == file@.len());
        assert(forall|i: int| 0 <= i < file@.len() ==> #[trigger] all[i] == file@[i]@);
        assert(line_numbers(r.malformed@) =~= Seq::<int>::empty());
        assert(all.skip(1).take(0) =~= Seq::<Seq<char>>::empty());
        assert(Seq::<Seq<char>>::empty().filter(yields) =~= Seq::empty());
        assert(Seq::<Seq<char>>::empty().filter(bad) =~= Seq::empty());
        assert(Seq::<Seq<char>>::empty().filter(good) =~= Seq::empty());
    }
    if file.len() == 0 {
        return r;
    }
    if !header_like(&file[0]) {
        r.dropped = true;
        return r;
    }
    let mut i: usize = 1;
    while i < file.len()
        invariant
            1 <= i <= file.len(),
            all == views(file@),
            yields == (|row: Seq<char>| yields_order(row)),
            bad == (|row: Seq<char>| is_malformed(row)),
            good == (|row: Seq<char>| !is_malformed(row)),
            ({
                let so_far = trimmed_rows(all.skip(1).take(i - 1));
                &&& !r.dropped
                &&& r.error is None
                &&& r.first_ts is Some <==> so_far.filter(good).len() > 0
                &&& moment(r.first_ts) == first_moment(so_far)
                &&& are_row_orders(r.orders@, so_far.filter(yields))
                &&& r.skipped == so_far.filter(bad).len()
                &&& r.seen + r.skipped == so_far.len()
                &&& so_far.len() < i
                &&& line_numbers(r.malformed@) == malformed_lines(all.skip(1).take(i - 1), 2)
            }),
        decreases file.len() - i,
    {
        let line: Vec<char> = trimmed(&file[i]);
        let ghost before: Seq<Seq<char>> = all.skip(1).take(i - 1);
        let ghost now: Seq<Seq<char>> = all.skip(1).take(i as int);
        let ghost so_far: Seq<Seq<char>> = trimmed_rows(before);
        let ghost orders: Seq<Order> = r.orders@;
        let ghost numbers: Seq<usize> = r.malformed@;
        proof {
            assert(now.drop_last() =~= before);
            assert(now.last() == file@[i as int]@);
            assert(so_far.push(line@).drop_last() =~= so_far);
            reveal(Seq::filter);
        }
        if line.len() > 0 {
            let row: Result<Option<Order>, ()> = row_of(&line);
            if row.is_ok() && r.first_ts.is_none() {
                r.first_ts = moment_of_row(&line);
            }
            match row {
                Ok(Some(order)) => {
                    r.seen += 1;
                    r.orders.push(order);
                    assert(are_row_orders(r.orders@, so_far.filter(yields).push(line@)));
                },
                Ok(None) => {
                    r.seen += 1;
                },
                Err(_) => {
                    r.skipped += 1;
                    r.malformed.push(i + 1);
                    assert(line_numbers(r.malformed@) =~= line_numbers(numbers).push(i + 1));
                },
            }
        }
        i += 1;
    }
    assert(all.skip(1).take(i - 1) =~= all.skip(1));
    r
}

/// Reads the lines of a CSV file up to the first that is not text; `whole`
/// says that there is no such line. That line is a fault, unless the file is
/// dropped before it is reached.
pub fn stream_csv(text: &str, whole: bool) -> (r: FileRecords)
    ensures
        csv_reads_as(text@, r),
        r.error == if whole || r.dropped {
            None::<FileError>
        } else {
            Some(FileError::NotText)
        },
{
    let mut r: FileRecords = load_order_status_csv(text);
    if !whole && !r.dropped {
        r.error = Some(FileError::NotText);
    }
    r
}

/// What a run over many files has read so far.
#[derive(Clone, Copy, Debug, PartialEq, Eq, Structural)]
pub struct RunStats {
    pub files_processed: usize,
    /// Of `files_processed`, those that were dropped as a whole.
    pub files_skipped: usize,
    pub records_seen: usize,
    pub records_skipped: usize,
}

/// Addition that stops at the largest `usize`.
pub open spec fn capped(x: int) -> int {
    min_of(x, usize::MAX as int)
}

impl RunStats {
    /// The counts after one more file.
    pub open spec fn with_file(self, seen: int, skipped: int, dropped: bool) -> RunStats {
        RunStats {
            files_processed: capped(self.files_processed + 1) as usize,
            files_skipped: capped(self.files_skipped + if dropped { 1int } else { 0 }) as usize,
            records_seen: capped(self.records_seen + seen) as usize,
            records_skipped: capped(self.records_skipped + skipped) as usize,
        }
    }

    /// The counts of two runs together.
    pub open spec fn together(self, other: RunStats) -> RunStats {
        RunStats {
            files_processed: capped(self.files_processed + other.files_processed) as usize,
            files_skipped: capped(self.files_skipped + other.files_skipped) as usize,
            records_seen: capped(self.records_seen + other.records_seen) as usize,
            records_skipped: capped(self.records_skipped + other.records_skipped) as usize,
        }
    }

    /// Counts one more file.
    pub fn count_file(&mut self, seen: usize, skipped: usize, dropped: bool)
        ensures
            *final(self) == old(self).with_file(seen as int, skipped as int, dropped),
    {
        self.files_processed = self.files_processed.saturating_add(1);
        if dropped {
            self.files_skipped = self.files_skipped.saturating_add(1);
        }
        self.records_seen = self.records_seen.saturating_add(seen);
        self.records_skipped = self.records_skipped.saturating_add(skipped);
    }

    /// Adds the counts of another run over other files.
    pub fn absorb(&mut self, other: RunStats)
        ensures
            *final(self) == old(self).together(other),
    {
        self.files_processed = self.files_processed.saturating_add(other.files_processed);
        self.files_skipped = self.files_skipped.saturating_add(other.files_skipped);
        self.records_seen = self.records_seen.saturating_add(other.records_seen);
        self.records_skipped = self.records_skipped.saturating_add(other.records_skipped);
    }
}

impl Default for RunStats {
    fn default() -> (r: Self)
        ensures
            r == (RunStats { files_processed: 0, files_skipped: 0, records_seen: 0, records_skipped: 0 }),
    {
        RunStats { files_processed: 0, files_skipped: 0, records_seen: 0, records_skipped: 0 }
    }
}

/// What the gzip members in `bytes` decompress to, or nothing if they are not
/// sound.
pub uninterp spec fn gunzipped(bytes: Seq<u8>) -> Option<Seq<u8>>;

/// `flate2::read::MultiGzDecoder`, read to its end: the data of all gzip
/// members, one after the other, and whether they are sound. The contract
/// claims only that whether they are, and the data of sound ones, follow from
/// the bytes. Of unsound or incomplete members the data up to a fault is
/// returned; how much of it comes before the fault is noticed rests on the
/// sizes of the single reads, and nothing is claimed of it.
#[verifier::external_body]
fn gunzip(raw: &Vec<u8>) -> (r: (Vec<u8>, bool))
    ensures
        match gunzipped(raw@) {
            Some(data) => r.1 && r.0@ == data,
            None => !r.1,
        },
{
    let mut data: Vec<u8> = Vec::new();
    let end = MultiGzDecoder::new(raw.as_slice()).read_to_end(&mut data);
    (data, end.is_ok())
}

/// Record number `i` of a binary file.
pub open spec fn record_at(bytes: Seq<u8>, i: int) -> Seq<u8> {
    bytes.subrange(54 * i, 54 * i + 54)
}

/// The records of a binary file.
pub open spec fn records(bytes: Seq<u8>) -> Seq<Seq<u8>> {
    Seq::new((bytes.len() / 54) as nat, |i: int| record_at(bytes, i))
}

/// Whether `order` is the order in a record.
pub open spec fn is_record_order(order: Order, record: Seq<u8>) -> bool {
    &&& order.user_id@ == crate::text::decimal(number_at(record, 8, 4))
    &&& order == record_order(record, order.user_id)
}

pub open spec fn are_record_orders(orders: Seq<Order>, records: Seq<Seq<u8>>) -> bool {
    &&& orders.len() == records.len()
    &&& forall|i: int| 0 <= i < orders.len() ==> is_record_order(#[trigger] orders[i], records[i])
}

/// The bytes of a binary file, unpacked.
#[derive(Debug)]
pub struct Reader {
    pub bytes: Vec<u8>,
    /// Whether the file ends where the bytes do, and not in a fault.
    pub sound: bool,
}

/// What the bytes of a binary file read as, where `plausible` says whether its
/// first record looks like one. A file with an implausible first record is
/// dropped, whatever follows. Of another file, every whole record counts as
/// seen, and one without an order also as skipped; bytes that are left over,
/// or a fault behind them, are an error after these records.
pub open spec fn reads_as(bytes: Seq<u8>, sound: bool, plausible: bool, r: FileRecords) -> bool {
    let dropped = records(bytes).len() > 0 && !plausible;
    let read = if dropped {
        Seq::empty()
    } else {
        records(bytes)
    };
    let kept = read.filter(|record: Seq<u8>| record_size(record) > 0);
    &&& r.dropped == dropped
    &&& are_record_orders(r.orders@, kept)
    &&& r.seen == read.len()
    &&& r.skipped == read.len() - kept.len()
    &&& r.malformed@.len() == 0
    &&& moment(r.first_ts) == if read.len() > 0 {
        Some(number_at(read[0], 0, 8))
    } else {
        None
    }
    &&& r.error == if dropped {
        None::<FileError>
    } else if !sound {
        Some(FileError::Corrupt)
    } else if bytes.len() % 54 != 0 {
        Some(FileError::Truncated)
    } else {
        None
    }
}

/// Copies a record out of a file.
fn copy_record(bytes: &Vec<u8>, at: usize) -> (r: [u8; 54])
    requires
        at + 54 <= bytes@.len(),
    ensures
        r@ == bytes@.subrange(at as int, at + 54),
{
    let mut r: [u8; 54] = [0u8; 54];
    let mut k: usize = 0;
    while k < 54
        invariant
            k <= 54,
            at + 54 <= bytes.len(),
            forall|j: int| 0 <= j < k ==> r@[j] == bytes@[at + j],
        decreases 54 - k,
    {
        r[k] = bytes[at + k];
        k += 1;
    }
    assert(r@ =~= bytes@.subrange(at as int, at + 54));
    r
}

/// Unpacks a binary file, if it is compressed. Of one that is not sound, a
/// part of the data is read.
pub fn open_reader(raw: Vec<u8>, compressed: bool) -> (r: Reader)
    ensures
        !compressed ==> r.sound && r.bytes == raw,
        compressed ==> match gunzipped(raw@) {
            Some(data) => r.sound && r.bytes@ == data,
            None => !r.sound,
        },
{
    if compressed {
        let (bytes, sound): (Vec<u8>, bool) = gunzip(&raw);
        Reader { bytes, sound }
    } else {
        Reader { bytes: raw, sound: true }
    }
}

/// The first record, to judge the file by; none in a file that is too short.
pub fn first_record(reader: &Reader) -> (r: Option<[u8; 54]>)
    ensures
        match r {
            Some(record) => records(reader.bytes@).len() > 0 && record@ == records(reader.bytes@)[0],
            None => records(reader.bytes@).len() == 0,
        },
{
    if reader.bytes.len() < 54 {
        return None;
    }
    Some(copy_record(&reader.bytes, 0))
}

/// Reads the records of a binary file; `plausible` says whether the first
/// looks like one.
pub fn stream_binary(reader: &Reader, plausible: bool) -> (r: FileRecords)
    ensures
        reads_as(reader.bytes@, reader.sound, plausible, r),
{
    let bytes: &Vec<u8> = &reader.bytes;
    let ghost keeps = |record: Seq<u8>| record_size(record) > 0;
    let ghost all: Seq<Seq<u8>> = records(bytes@);
    let mut r: FileRecords = FileRecords {
        orders: Vec::new(),
        seen: 0,
        skipped: 0,
        dropped: false,
        malformed: Vec::new(),
        first_ts: None,
        error: None,
    };
    proof {
        reveal(Seq::filter);
        assert(all.take(0) =~= Seq::<Seq<u8>>::empty());
    }
    if let Some(record) = first_record(reader) {
        if !plausible {
            r.dropped = true;
            return r;
        }
        r.first_ts = Some(timestamp_of(&record));
    }
    let n: usize = bytes.len() / 54;
    let mut i: usize = 0;
    while i < n
        invariant
            i <= n,
            n == bytes@.len() / 54,
            54 * n <= bytes.len(),
            all == records(bytes@),
            keeps == (|record: Seq<u8>| record_size(record) > 0),
            are_record_orders(r.orders@, all.take(i as int).filter(keeps)),
            r.seen == i,
            r.skipped + r.orders@.len() == i,
            !r.dropped,
            r.malformed@.len() == 0,
            moment(r.first_ts) == if all.len() > 0 {
                Some(number_at(all[0], 0, 8))
            } else {
                None
            },
        decreases n - i,
    {
        let record: [u8; 54] = copy_record(bytes, 54 * i);
        proof {
            assert(all.take(i + 1).drop_last() =~= all.take(i as int));
            assert(all.take(i + 1).last() == record@);
            reveal(Seq::filter);
        }
        r.seen += 1;
        match parse_record(&record) {
            Some(order) => {
                r.orders.push(order);
            },
            None => {
                r.skipped += 1;
            },
        }
        i += 1;
    }
    assert(all.take(n as int) =~= all);
    r.error = if !reader.sound {
        Some(FileError::Corrupt)
    } else if bytes.len() % 54 != 0 {
        Some(FileError::Truncated)
    } else {
        None
    };
    r
}

/// A file that is dropped gives no order, and a run counts it among its files
/// but none of its rows or records.
pub proof fn law_dropped_file_counts_no_records(
    stats: RunStats,
    r: FileRecords,
    text: Seq<char>,
    bytes: Seq<u8>,
    sound: bool,
    plausible: bool,
)
    requires
        r.dropped,
        csv_reads_as(text, r) || reads_as(bytes, sound, plausible, r),
    ensures
        r.orders@.len() == 0,
        stats.with_file(r.seen as int, r.skipped as int, r.dropped) == (RunStats {
            files_processed: capped(stats.files_processed + 1) as usize,
            files_skipped: capped(stats.files_skipped + 1) as usize,
            ..stats
        }),
{
    reveal(Seq::filter);
}

/// Every record of a binary file that is seen is an order or skipped.
pub proof fn law_records_are_orders_or_skipped(bytes: Seq<u8>, sound: bool, plausible: bool, r: FileRecords)
    requires
        reads_as(bytes, sound, plausible, r),
    ensures
        r.seen == r.orders@.len() + r.skipped,
{
}

} // verus!
