//! The state of a replay between runs: what is kept of it, how it is written,
//! and where.

use vstd::prelude::*;
use crate::inputs::summary_text::{is_writable, law_summary_reads_back, lemma_decimal_is_plain, no_summary, read_summary, summary_text, SummaryRecord, SummaryView};
use crate::numerals::{is_numeral, is_numeral_char, lemma_numeral_chars, numeral, unsigned_part};
use crate::text::{
    ascii_folded, chars_of, decimal, decimal_of, is_digit, is_text, lacks, law_decimal_reads_back, lemma_decimal, lemma_split_at, lemma_split_none,
    lines, lines_of, parse_u32, parse_u64, parse_unsigned, push_chars, push_str, split, split_at_each, split_at_first,
    split_once, string_of, unsigned_value, views, without_return,
};

verus! {

/// What the state of a replay is written as: one line for each of these.
#[derive(Debug)]
pub struct Checkpoint {
    pub version: u32,
    /// Where the data of the run is.
    pub source: String,
    /// The width of an interval.
    pub interval_ns: u64,
    /// How long an interval stays open for look-ups.
    pub settle_ns: u64,
    pub files_total: usize,
    pub files_done: usize,
    pub last_file: String,
    /// Where the interval grid starts.
    pub anchor: Option<u64>,
    /// Up to where rows have been written.
    pub emitted_upto: u64,
    pub records_seen: usize,
    pub records_skipped: usize,
    pub files_processed: usize,
    pub files_skipped: usize,
    pub fba_rows_written: u64,
    pub cda_rows_written: u64,
    /// The last reference price, as written.
    pub fba_prev_close: Option<String>,
    pub cda_prev_close: Option<String>,
    /// The last clearing price, as written.
    pub fba_prev_clearing: Option<String>,
    pub cda_prev_clearing: Option<String>,
    pub fba_late_dropped: u64,
    pub cda_late_dropped: u64,
    /// Seconds of all runs together, as written.
    pub elapsed_secs: String,
    pub fba_summary: SummaryRecord,
    pub cda_summary: SummaryRecord,
    /// Whether all files are done.
    pub complete: bool,
}

/// A field of the state as a plain value.
pub enum Value {
    Number(int),
    Text(Seq<char>),
    Moment(Option<int>),
    Maybe(Option<Seq<char>>),
    Summary(SummaryView),
    Flag(bool),
}

/// How a field is written.
pub enum FieldKind {
    Version,
    Text,
    Long,
    Count,
    Moment,
    Decimals,
    Maybe,
    Summary,
    Flag,
}

pub open spec fn maybe_int(x: Option<u64>) -> Option<int> {
    match x {
        Some(n) => Some(n as int),
        None => None,
    }
}

pub open spec fn maybe_text(x: Option<String>) -> Option<Seq<char>> {
    match x {
        Some(s) => Some(s@),
        None => None,
    }
}

impl View for Checkpoint {
    type V = Seq<Value>;

    /// The fields in the order in which they are written.
    open spec fn view(&self) -> Seq<Value> {
        seq![
            Value::Number(self.version as int),
            Value::Text(self.source@),
            Value::Number(self.interval_ns as int),
            Value::Number(self.settle_ns as int),
            Value::Number(self.files_total as int),
            Value::Number(self.files_done as int),
            Value::Text(self.last_file@),
            Value::Moment(maybe_int(self.anchor)),
            Value::Number(self.emitted_upto as int),
            Value::Number(self.records_seen as int),
            Value::Number(self.records_skipped as int),
            Value::Number(self.files_processed as int),
            Value::Number(self.files_skipped as int),
            Value::Number(self.fba_rows_written as int),
            Value::Number(self.cda_rows_written as int),
            Value::Maybe(maybe_text(self.fba_prev_close)),
            Value::Maybe(maybe_text(self.cda_prev_close)),
            Value::Maybe(maybe_text(self.fba_prev_clearing)),
            Value::Maybe(maybe_text(self.cda_prev_clearing)),
            Value::Number(self.fba_late_dropped as int),
            Value::Number(self.cda_late_dropped as int),
            Value::Text(self.elapsed_secs@),
            Value::Summary(self.fba_summary@),
            Value::Summary(self.cda_summary@),
            Value::Flag(self.complete),
        ]
    }
}

/// The name of field number `i`.
pub open spec fn field_name(i: int) -> Seq<char> {
    if i == 0 {
        "version"@
    } else if i == 1 {
        "source"@
    } else if i == 2 {
        "interval_ns"@
    } else if i == 3 {
        "settle_ns"@
    } else if i == 4 {
        "files_total"@
    } else if i == 5 {
        "files_done"@
    } else if i == 6 {
        "last_file"@
    } else if i == 7 {
        "anchor"@
    } else if i == 8 {
        "emitted_upto"@
    } else if i == 9 {
        "records_seen"@
    } else if i == 10 {
        "records_skipped"@
    } else if i == 11 {
        "files_processed"@
    } else if i == 12 {
        "files_skipped"@
    } else if i == 13 {
        "fba_rows_written"@
    } else if i == 14 {
        "cda_rows_written"@
    } else if i == 15 {
        "fba_prev_close"@
    } else if i == 16 {
        "cda_prev_close"@
    } else if i == 17 {
        "fba_prev_clearing"@
    } else if i == 18 {
        "cda_prev_clearing"@
    } else if i == 19 {
        "fba_late_dropped"@
    } else if i == 20 {
        "cda_late_dropped"@
    } else if i == 21 {
        "elapsed_secs"@
    } else if i == 22 {
        "fba_summary"@
    } else if i == 23 {
        "cda_summary"@
    } else if i == 24 {
        "complete"@
    } else {
        Seq::empty()
    }
}

fn field_text(i: usize) -> (r: &'static str)
    requires
        i < 25,
    ensures
        r@ == field_name(i as int),
{
    match i {
        0 => "version",
        1 => "source",
        2 => "interval_ns",
        3 => "settle_ns",
        4 => "files_total",
        5 => "files_done",
        6 => "last_file",
        7 => "anchor",
        8 => "emitted_upto",
        9 => "records_seen",
        10 => "records_skipped",
        11 => "files_processed",
        12 => "files_skipped",
        13 => "fba_rows_written",
        14 => "cda_rows_written",
        15 => "fba_prev_close",
        16 => "cda_prev_close",
        17 => "fba_prev_clearing",
        18 => "cda_prev_clearing",
        19 => "fba_late_dropped",
        20 => "cda_late_dropped",
        21 => "elapsed_secs",
        22 => "fba_summary",
        23 => "cda_summary",
        _ => "complete",
    }
}

/// How field number `i` is written.
pub open spec fn field_kind(i: int) -> FieldKind {
    if i == 0 {
        FieldKind::Version
    } else if i == 1 || i == 6 {
        FieldKind::Text
    } else if i == 21 {
        FieldKind::Decimals
    } else if i == 4 || i == 5 || i == 9 || i == 10 || i == 11 || i == 12 {
        FieldKind::Count
    } else if i == 7 {
        FieldKind::Moment
    } else if i == 15 || i == 16 || i == 17 || i == 18 {
        FieldKind::Maybe
    } else if i == 22 || i == 23 {
        FieldKind::Summary
    } else if i == 24 {
        FieldKind::Flag
    } else {
        FieldKind::Long
    }
}

/// The state before a run.
pub open spec fn fresh_fields(source: Seq<char>, interval_ns: int, settle_ns: int, files_total: int) -> Seq<Value> {
    seq![
        Value::Number(2),
        Value::Text(source),
        Value::Number(interval_ns),
        Value::Number(settle_ns),
        Value::Number(files_total),
        Value::Number(0),
        Value::Text(Seq::empty()),
        Value::Moment(None),
        Value::Number(0),
        Value::Number(0),
        Value::Number(0),
        Value::Number(0),
        Value::Number(0),
        Value::Number(0),
        Value::Number(0),
        Value::Maybe(None),
        Value::Maybe(None),
        Value::Maybe(None),
        Value::Maybe(None),
        Value::Number(0),
        Value::Number(0),
        Value::Text("0"@),
        Value::Summary(no_summary()),
        Value::Summary(no_summary()),
        Value::Flag(false),
    ]
}

/// A field as text.
pub open spec fn value_text(v: Value) -> Seq<char> {
    match v {
        Value::Number(n) => decimal(n),
        Value::Text(s) => s,
        Value::Moment(Some(n)) => decimal(n),
        Value::Moment(None) => "NONE"@,
        Value::Maybe(Some(s)) => s,
        Value::Maybe(None) => "NONE"@,
        Value::Summary(v) => summary_text(v),
        Value::Flag(true) => "true"@,
        Value::Flag(false) => "false"@,
    }
}

/// A line for a field: its name, a space, its value, and the end of the line.
pub open spec fn field_line(i: int, v: Value) -> Seq<char> {
    field_name(i).push(' ') + value_text(v)
}

/// The first `n` fields as text.
pub open spec fn rendered(fields: Seq<Value>, n: int) -> Seq<char>
    decreases n,
{
    if n <= 0 {
        Seq::empty()
    } else {
        rendered(fields, n - 1) + field_line(n - 1, fields[n - 1]).push('\n')
    }
}

/// The value of field number `i` in a text, or what is wrong with it.
pub open spec fn read_value(i: int, s: Seq<char>) -> Result<Value, Seq<char>> {
    let bad = Err("bad "@ + field_name(i));
    match field_kind(i) {
        FieldKind::Version => match unsigned_value(s, u32::MAX as int) {
            Some(v) => if v == 2 {
                Ok(Value::Number(v))
            } else {
                Err("unsupported checkpoint version "@ + decimal(v) + " (this build writes 2)"@)
            },
            None => bad,
        },
        FieldKind::Text => Ok(Value::Text(s)),
        FieldKind::Long => match unsigned_value(s, u64::MAX as int) {
            Some(v) => Ok(Value::Number(v)),
            None => bad,
        },
        FieldKind::Count => match unsigned_value(s, usize::MAX as int) {
            Some(v) => Ok(Value::Number(v)),
            None => bad,
        },
        FieldKind::Moment => if s == "NONE"@ {
            Ok(Value::Moment(None))
        } else {
            match unsigned_value(s, u64::MAX as int) {
                Some(v) => Ok(Value::Moment(Some(v))),
                None => bad,
            }
        },
        FieldKind::Decimals => if is_numeral(s) {
            Ok(Value::Text(s))
        } else {
            bad
        },
        FieldKind::Maybe => if s == "NONE"@ {
            Ok(Value::Maybe(None))
        } else if is_numeral(s) {
            Ok(Value::Maybe(Some(s)))
        } else {
            Err("bad f64 '"@ + s + "'"@)
        },
        FieldKind::Summary => match read_summary(s) {
            Ok(v) => Ok(Value::Summary(v)),
            Err(e) => Err(e),
        },
        FieldKind::Flag => Ok(Value::Flag(s == "true"@)),
    }
}

/// A text without the line ends that may end it.
pub open spec fn without_ends(s: Seq<char>) -> Seq<char>
    decreases s.len(),
{
    if s.len() > 0 && (s.last() == '\r' || s.last() == '\n') {
        without_ends(s.drop_last())
    } else {
        s
    }
}

/// The field with this name.
pub open spec fn field_named(name: Seq<char>, from: int) -> Option<int>
    decreases 25 - from,
{
    if from >= 25 {
        None
    } else if field_name(from) == name {
        Some(from)
    } else {
        field_named(name, from + 1)
    }
}

/// The name and the value on a line.
pub open spec fn key_and_value(line: Seq<char>) -> (Seq<char>, Seq<char>) {
    match split_once(without_ends(line), ' ') {
        Some(parts) => parts,
        None => (without_ends(line), Seq::empty()),
    }
}

/// The fields after one more line, and whether the version has been seen.
/// Blank lines and unknown names are passed over.
pub open spec fn with_line(fields: Seq<Value>, seen: bool, line: Seq<char>) -> Result<(Seq<Value>, bool), Seq<char>> {
    if without_ends(line).len() == 0 {
        Ok((fields, seen))
    } else {
        let (key, val) = key_and_value(line);
        match field_named(key, 0) {
            None => Ok((fields, seen)),
            Some(i) => match read_value(i, val) {
                Ok(v) => Ok((fields.update(i, v), seen || i == 0)),
                Err(e) => Err(e),
            },
        }
    }
}

/// The fields after some lines; the first error decides.
pub open spec fn with_lines(ls: Seq<Seq<char>>) -> Result<(Seq<Value>, bool), Seq<char>>
    decreases ls.len(),
{
    if ls.len() == 0 {
        Ok((fresh_fields(Seq::empty(), 0, 0, 0), false))
    } else {
        match with_lines(ls.drop_last()) {
            Err(e) => Err(e),
            Ok((fields, seen)) => with_line(fields, seen, ls.last()),
        }
    }
}

/// The state in a text, or what is wrong with it.
pub open spec fn parsed(text: Seq<char>) -> Result<Seq<Value>, Seq<char>> {
    match with_lines(lines(text)) {
        Err(e) => Err(e),
        Ok((fields, seen)) => if seen {
            Ok(fields)
        } else {
            Err("missing version line"@)
        },
    }
}

fn bad_field(i: usize) -> (r: String)
    requires
        i < 25,
    ensures
        r@ == "bad "@ + field_name(i as int),
{
    let mut text: Vec<char> = chars_of("bad ");
    push_str(&mut text, field_text(i));
    string_of(&text)
}

fn maybe_of(val: &Vec<char>) -> (r: Result<Option<String>, String>)
    ensures
        match r {
            Ok(x) => if val@ == "NONE"@ {
                x is None
            } else {
                is_numeral(val@) && maybe_text(x) == Some(val@)
            },
            Err(e) => val@ != "NONE"@ && !is_numeral(val@) && e@ == "bad f64 '"@ + val@ + "'"@,
        },
{
    if is_text(val, "NONE") {
        Ok(None)
    } else if numeral(val) {
        Ok(Some(string_of(val)))
    } else {
        let mut text: Vec<char> = chars_of("bad f64 '");
        push_chars(&mut text, val);
        push_str(&mut text, "'");
        Err(string_of(&text))
    }
}

fn maybe_chars(x: &Option<String>) -> (r: Vec<char>)
    ensures
        r@ == value_text(Value::Maybe(maybe_text(*x))),
{
    match x {
        Some(s) => chars_of(s.as_str()),
        None => chars_of("NONE"),
    }
}

fn moment_text(x: Option<u64>) -> (r: Vec<char>)
    ensures
        r@ == value_text(Value::Moment(maybe_int(x))),
{
    match x {
        Some(n) => decimal_of(n as u128),
        None => chars_of("NONE"),
    }
}

fn find_field(name: &Vec<char>) -> (r: Option<usize>)
    ensures
        match r {
            Some(i) => i < 25 && field_named(name@, 0) == Some(i as int),
            None => field_named(name@, 0) is None,
        },
{
    let mut i: usize = 0;
    while i < 25
        invariant
            i <= 25,
            field_named(name@, 0) == field_named(name@, i as int),
        decreases 25 - i,
    {
        if is_text(name, field_text(i)) {
            return Some(i);
        }
        i += 1;
    }
    None
}

fn strip_ends(line: &Vec<char>) -> (r: Vec<char>)
    ensures
        r@ == without_ends(line@),
{
    let mut n: usize = line.len();
    assert(line@.take(n as int) =~= line@);
    while n > 0 && (line[n - 1] == '\r' || line[n - 1] == '\n')
        invariant
            n <= line@.len(),
            without_ends(line@) == without_ends(line@.take(n as int)),
        decreases n,
    {
        assert(line@.take(n as int).drop_last() =~= line@.take(n - 1));
        n -= 1;
    }
    let r: Vec<char> = crate::text::slice_of(line, 0, n);
    assert(r@ =~= line@.take(n as int));
    r
}

impl Checkpoint {
    /// Whether both totals have an entry for each metric.
    pub open spec fn wf(&self) -> bool {
        self.fba_summary.aggs@.len() == 31 && self.cda_summary.aggs@.len() == 31
    }

    /// The state before a run.
    pub fn fresh(source: &str, interval_ns: u64, settle_ns: u64, files_total: usize) -> (r: Self)
        ensures
            r.wf(),
            r@ == fresh_fields(source@, interval_ns as int, settle_ns as int, files_total as int),
    {
        let r: Checkpoint = Checkpoint {
            version: 2,
            source: source.to_owned(),
            interval_ns,
            settle_ns,
            files_total,
            files_done: 0,
            last_file: String::new(),
            anchor: None,
            emitted_upto: 0,
            records_seen: 0,
            records_skipped: 0,
            files_processed: 0,
            files_skipped: 0,
            fba_rows_written: 0,
            cda_rows_written: 0,
            fba_prev_close: None,
            cda_prev_close: None,
            fba_prev_clearing: None,
            cda_prev_clearing: None,
            fba_late_dropped: 0,
            cda_late_dropped: 0,
            elapsed_secs: "0".to_owned(),
            fba_summary: SummaryRecord::new(),
            cda_summary: SummaryRecord::new(),
            complete: false,
        };
        proof {
            assert(r.fba_summary@.aggs.len() == 31 && r.cda_summary@.aggs.len() == 31);
            assert(r@ =~= fresh_fields(source@, interval_ns as int, settle_ns as int, files_total as int));
        }
        r
    }

    /// Sets field number `i` to the value in a text.
    fn set(&mut self, i: usize, val: &Vec<char>) -> (r: Result<(), String>)
        requires
            i < 25,
            old(self).wf(),
        ensures
            final(self).wf(),
            match r {
                Ok(_) => read_value(i as int, val@) is Ok && final(self)@ == old(self)@.update(
                    i as int,
                    read_value(i as int, val@)->Ok_0,
                ),
                Err(e) => read_value(i as int, val@) == Err::<Value, Seq<char>>(e@),
            },
    {
        let ghost before: Seq<Value> = self@;
        match i {
            0 => {
                match parse_u32(val) {
                    Some(v) => if v == 2 {
                        self.version = v;
                    } else {
                        let mut text: Vec<char> = chars_of("unsupported checkpoint version ");
                        push_chars(&mut text, &decimal_of(v as u128));
                        push_str(&mut text, " (this build writes 2)");
                        return Err(string_of(&text));
                    },
                    None => {
                        return Err(bad_field(i));
                    },
                }
            },
            1 => {
                self.source = string_of(val);
            },
            2 => {
                match parse_u64(val) {
                    Some(v) => {
                        self.interval_ns = v;
                    },
                    None => {
                        return Err(bad_field(i));
                    },
                }
            },
            3 => {
                match parse_u64(val) {
                    Some(v) => {
                        self.settle_ns = v;
                    },
                    None => {
                        return Err(bad_field(i));
                    },
                }
            },
            4 => {
                match parse_unsigned(val, usize::MAX as u128) {
                    Some(v) => {
                        self.files_total = v as usize;
                    },
                    None => {
                        return Err(bad_field(i));
                    },
                }
            },
            5 => {
                match parse_unsigned(val, usize::MAX as u128) {
                    Some(v) => {
                        self.files_done = v as usize;
                    },
                    None => {
                        return Err(bad_field(i));
                    },
                }
            },
            6 => {
                self.last_file = string_of(val);
            },
            7 => {
                if is_text(val, "NONE") {
                    self.anchor = None;
                } else {
                    match parse_u64(val) {
                        Some(v) => {
                            self.anchor = Some(v);
                        },
                        None => {
                            return Err(bad_field(i));
                        },
                    }
                }
            },
            8 => {
                match parse_u64(val) {
                    Some(v) => {
                        self.emitted_upto = v;
                    },
                    None => {
                        return Err(bad_field(i));
                    },
                }
            },
            9 => {
                match parse_unsigned(val, usize::MAX as u128) {
                    Some(v) => {
                        self.records_seen = v as usize;
                    },
                    None => {
                        return Err(bad_field(i));
                    },
                }
            },
            10 => {
                match parse_unsigned(val, usize::MAX as u128) {
                    Some(v) => {
                        self.records_skipped = v as usize;
                    },
                    None => {
                        return Err(bad_field(i));
                    },
                }
            },
            11 => {
                match parse_unsigned(val, usize::MAX as u128) {
                    Some(v) => {
                        self.files_processed = v as usize;
                    },
                    None => {
                        return Err(bad_field(i));
                    },
                }
            },
            12 => {
                match parse_unsigned(val, usize::MAX as u128) {
                    Some(v) => {
                        self.files_skipped = v as usize;
                    },
                    None => {
                        return Err(bad_field(i));
                    },
                }
            },
            13 => {
                match parse_u64(val) {
                    Some(v) => {
                        self.fba_rows_written = v;
                    },
                    None => {
                        return Err(bad_field(i));
                    },
                }
            },
            14 => {
                match parse_u64(val) {
                    Some(v) => {
                        self.cda_rows_written = v;
                    },
                    None => {
                        return Err(bad_field(i));
                    },
                }
            },
            15 => {
                match maybe_of(val) {
                    Ok(x) => {
                        self.fba_prev_close = x;
                    },
                    Err(e) => {
                        return Err(e);
                    },
                }
            },
            16 => {
                match maybe_of(val) {
                    Ok(x) => {
                        self.cda_prev_close = x;
                    },
                    Err(e) => {
                        return Err(e);
                    },
                }
            },
            17 => {
                match maybe_of(val) {
                    Ok(x) => {
                        self.fba_prev_clearing = x;
                    },
                    Err(e) => {
                        return Err(e);
                    },
                }
            },
            18 => {
                match maybe_of(val) {
                    Ok(x) => {
                        self.cda_prev_clearing = x;
                    },
                    Err(e) => {
                        return Err(e);
                    },
                }
            },
            19 => {
                match parse_u64(val) {
                    Some(v) => {
                        self.fba_late_dropped = v;
                    },
                    None => {
                        return Err(bad_field(i));
                    },
                }
            },
            20 => {
                match parse_u64(val) {
                    Some(v) => {
                        self.cda_late_dropped = v;
                    },
                    None => {
                        return Err(bad_field(i));
                    },
                }
            },
            21 => {
                if !numeral(val) {
                    return Err(bad_field(i));
                }
                self.elapsed_secs = string_of(val);
            },
            22 => {
                match SummaryRecord::deserialize(string_of(val).as_str()) {
                    Ok(v) => {
                        self.fba_summary = v;
                    },
                    Err(e) => {
                        return Err(e);
                    },
                }
            },
            23 => {
                match SummaryRecord::deserialize(string_of(val).as_str()) {
                    Ok(v) => {
                        self.cda_summary = v;
                    },
                    Err(e) => {
                        return Err(e);
                    },
                }
            },
            _ => {
                self.complete = is_text(val, "true");
            },
        }
        proof {
            assert(self@ =~= before.update(i as int, read_value(i as int, val@)->Ok_0));
        }
        Ok(())
    }

    /// Field number `i` as text.
    fn field(&self, i: usize) -> (r: Vec<char>)
        requires
            i < 25,
            self.wf(),
        ensures
            r@ == value_text(self@[i as int]),
    {
        match i {
            0 => decimal_of(self.version as u128),
            1 => chars_of(self.source.as_str()),
            2 => decimal_of(self.interval_ns as u128),
            3 => decimal_of(self.settle_ns as u128),
            4 => decimal_of(self.files_total as u128),
            5 => decimal_of(self.files_done as u128),
            6 => chars_of(self.last_file.as_str()),
            7 => moment_text(self.anchor),
            8 => decimal_of(self.emitted_upto as u128),
            9 => decimal_of(self.records_seen as u128),
            10 => decimal_of(self.records_skipped as u128),
            11 => decimal_of(self.files_processed as u128),
            12 => decimal_of(self.files_skipped as u128),
            13 => decimal_of(self.fba_rows_written as u128),
            14 => decimal_of(self.cda_rows_written as u128),
            15 => maybe_chars(&self.fba_prev_close),
            16 => maybe_chars(&self.cda_prev_close),
            17 => maybe_chars(&self.fba_prev_clearing),
            18 => maybe_chars(&self.cda_prev_clearing),
            19 => decimal_of(self.fba_late_dropped as u128),
            20 => decimal_of(self.cda_late_dropped as u128),
            21 => chars_of(self.elapsed_secs.as_str()),
            22 => chars_of(self.fba_summary.serialize().as_str()),
            23 => chars_of(self.cda_summary.serialize().as_str()),
            _ => if self.complete {
                chars_of("true")
            } else {
                chars_of("false")
            },
        }
    }

    /// The state as text.
    pub fn render(&self) -> (r: String)
        requires
            self.wf(),
        ensures
            r@ == rendered(self@, 25),
    {
        let mut text: Vec<char> = Vec::new();
        let mut i: usize = 0;
        assert(text@ =~= rendered(self@, 0));
        while i < 25
            invariant
                i <= 25,
                self.wf(),
                text@ == rendered(self@, i as int),
            decreases 25 - i,
        {
            let ghost before: Seq<char> = text@;
            let value: Vec<char> = self.field(i);
            push_str(&mut text, field_text(i));
            text.push(' ');
            push_chars(&mut text, &value);
            text.push('\n');
            assert(text@ =~= before + field_line(i as int, self@[i as int]).push('\n'));
            i += 1;
        }
        string_of(&text)
    }

    /// The state in a text, or what is wrong with it.
    pub fn parse(text: &str) -> (r: Result<Self, String>)
        ensures
            match r {
                Ok(c) => parsed(text@) == Ok::<Seq<Value>, Seq<char>>(c@) && c.wf(),
                Err(e) => parsed(text@) == Err::<Seq<Value>, Seq<char>>(e@),
            },
    {
        let ls: Vec<Vec<char>> = lines_of(&chars_of(text));
        let ghost all: Seq<Seq<char>> = lines(text@);
        let mut c: Checkpoint = Checkpoint::fresh("", 0, 0, 0);
        let mut seen: bool = false;
        let mut k: usize = 0;
        proof {
            reveal_strlit("");
            assert(""@ =~= Seq::<char>::empty());
            assert(all.take(0) =~= Seq::<Seq<char>>::empty());
        }
        while k < ls.len()
            invariant
                k <= ls.len(),
                c.wf(),
                all == lines(text@),
                all == views(ls@),
                with_lines(all.take(k as int)) == Ok::<(Seq<Value>, bool), Seq<char>>((c@, seen)),
            decreases ls.len() - k,
        {
            proof {
                assert(all.take(k + 1).drop_last() =~= all.take(k as int));
                assert(all.take(k + 1).last() == ls@[k as int]@);
            }
            let line: Vec<char> = strip_ends(&ls[k]);
            if line.len() > 0 {
                let (key, val): (Vec<char>, Vec<char>) = match split_at_first(&line, ' ') {
                    Some(parts) => parts,
                    None => {
                        let none: Vec<char> = Vec::new();
                        assert(none@ =~= Seq::<char>::empty());
                        (line, none)
                    },
                };
                if let Some(i) = find_field(&key) {
                    match c.set(i, &val) {
                        Ok(_) => {
                            if i == 0 {
                                seen = true;
                            }
                        },
                        Err(e) => {
                            proof {
                                lemma_first_error(all, k + 1);
                            }
                            return Err(e);
                        },
                    }
                }
            }
            k += 1;
        }
        assert(all.take(k as int) =~= all);
        if seen {
            Ok(c)
        } else {
            Err("missing version line".to_owned())
        }
    }
}

proof fn lemma_first_error(ls: Seq<Seq<char>>, k: int)
    requires
        0 <= k <= ls.len(),
        with_lines(ls.take(k)) is Err,
    ensures
        with_lines(ls) == with_lines(ls.take(k)),
    decreases ls.len(),
{
    if k == ls.len() {
        assert(ls.take(k) =~= ls);
    } else {
        assert(ls.drop_last().take(k) =~= ls.take(k));
        lemma_first_error(ls.drop_last(), k);
    }
}

/// How long each name is.
spec fn field_name_length(i: int) -> int {
    if i == 0 {
        7
    } else if i == 1 {
        6
    } else if i == 2 {
        11
    } else if i == 3 {
        9
    } else if i == 4 {
        11
    } else if i == 5 {
        10
    } else if i == 6 {
        9
    } else if i == 7 {
        6
    } else if i == 8 {
        12
    } else if i == 9 {
        12
    } else if i == 10 {
        15
    } else if i == 11 {
        15
    } else if i == 12 {
        13
    } else if i == 13 {
        16
    } else if i == 14 {
        16
    } else if i == 15 {
        14
    } else if i == 16 {
        14
    } else if i == 17 {
        17
    } else if i == 18 {
        17
    } else if i == 19 {
        16
    } else if i == 20 {
        16
    } else if i == 21 {
        12
    } else if i == 22 {
        11
    } else if i == 23 {
        11
    } else if i == 24 {
        8
    } else {
        0
    }
}

proof fn lemma_field_name_length(i: int)
    requires
        0 <= i < 25,
    ensures
        field_name(i).len() == field_name_length(i),
{
    reveal_strlit("version");
    reveal_strlit("source");
    reveal_strlit("interval_ns");
    reveal_strlit("settle_ns");
    reveal_strlit("files_total");
    reveal_strlit("files_done");
    reveal_strlit("last_file");
    reveal_strlit("anchor");
    reveal_strlit("emitted_upto");
    reveal_strlit("records_seen");
    reveal_strlit("records_skipped");
    reveal_strlit("files_processed");
    reveal_strlit("files_skipped");
    reveal_strlit("fba_rows_written");
    reveal_strlit("cda_rows_written");
    reveal_strlit("fba_prev_close");
    reveal_strlit("cda_prev_close");
    reveal_strlit("fba_prev_clearing");
    reveal_strlit("cda_prev_clearing");
    reveal_strlit("fba_late_dropped");
    reveal_strlit("cda_late_dropped");
    reveal_strlit("elapsed_secs");
    reveal_strlit("fba_summary");
    reveal_strlit("cda_summary");
    reveal_strlit("complete");
}

proof fn lemma_field_name_distinct(i: int, j: int)
    requires
        0 <= j < i < 25,
    ensures
        field_name(i) != field_name(j),
{
    lemma_field_name_length(i);
    lemma_field_name_length(j);
    if field_name_length(i) == field_name_length(j) {
        reveal_strlit("source");
        reveal_strlit("interval_ns");
        reveal_strlit("settle_ns");
        reveal_strlit("files_total");
        reveal_strlit("last_file");
        reveal_strlit("anchor");
        reveal_strlit("emitted_upto");
        reveal_strlit("records_seen");
        reveal_strlit("records_skipped");
        reveal_strlit("files_processed");
        reveal_strlit("fba_rows_written");
        reveal_strlit("cda_rows_written");
        reveal_strlit("fba_prev_close");
        reveal_strlit("cda_prev_close");
        reveal_strlit("fba_prev_clearing");
        reveal_strlit("cda_prev_clearing");
        reveal_strlit("fba_late_dropped");
        reveal_strlit("cda_late_dropped");
        reveal_strlit("elapsed_secs");
        reveal_strlit("fba_summary");
        reveal_strlit("cda_summary");
        if i == 4 && j == 2 {
            assert(field_name(i)[0] != field_name(j)[0]);
        } else if i == 6 && j == 3 {
            assert(field_name(i)[0] != field_name(j)[0]);
        } else if i == 7 && j == 1 {
            assert(field_name(i)[0] != field_name(j)[0]);
        } else if i == 9 && j == 8 {
            assert(field_name(i)[0] != field_name(j)[0]);
        } else if i == 11 && j == 10 {
            assert(field_name(i)[0] != field_name(j)[0]);
        } else if i == 14 && j == 13 {
            assert(field_name(i)[0] != field_name(j)[0]);
        } else if i == 16 && j == 15 {
            assert(field_name(i)[0] != field_name(j)[0]);
        } else if i == 18 && j == 17 {
            assert(field_name(i)[0] != field_name(j)[0]);
        } else if i == 19 && j == 13 {
            assert(field_name(i)[4] != field_name(j)[4]);
        } else if i == 19 && j == 14 {
            assert(field_name(i)[0] != field_name(j)[0]);
        } else if i == 20 && j == 13 {
            assert(field_name(i)[0] != field_name(j)[0]);
        } else if i == 20 && j == 14 {
            assert(field_name(i)[4] != field_name(j)[4]);
        } else if i == 20 && j == 19 {
            assert(field_name(i)[0] != field_name(j)[0]);
        } else if i == 21 && j == 8 {
            assert(field_name(i)[1] != field_name(j)[1]);
        } else if i == 21 && j == 9 {
            assert(field_name(i)[0] != field_name(j)[0]);
        } else if i == 22 && j == 2 {
            assert(field_name(i)[0] != field_name(j)[0]);
        } else if i == 22 && j == 4 {
            assert(field_name(i)[1] != field_name(j)[1]);
        } else if i == 23 && j == 2 {
            assert(field_name(i)[0] != field_name(j)[0]);
        } else if i == 23 && j == 4 {
            assert(field_name(i)[0] != field_name(j)[0]);
        } else if i == 23 && j == 22 {
            assert(field_name(i)[0] != field_name(j)[0]);
        }
    }
}

proof fn lemma_field_named(i: int, from: int)
    requires
        0 <= from <= i < 25,
    ensures
        field_named(field_name(i), from) == Some(i),
    decreases i - from,
{
    if from < i {
        lemma_field_name_distinct(i, from);
        lemma_field_named(i, from + 1);
    }
}

proof fn lemma_field_name_plain(i: int)
    requires
        0 <= i < 25,
    ensures
        lacks(field_name(i), ' '),
        lacks(field_name(i), '\n'),
{
    reveal_strlit("version");
    reveal_strlit("source");
    reveal_strlit("interval_ns");
    reveal_strlit("settle_ns");
    reveal_strlit("files_total");
    reveal_strlit("files_done");
    reveal_strlit("last_file");
    reveal_strlit("anchor");
    reveal_strlit("emitted_upto");
    reveal_strlit("records_seen");
    reveal_strlit("records_skipped");
    reveal_strlit("files_processed");
    reveal_strlit("files_skipped");
    reveal_strlit("fba_rows_written");
    reveal_strlit("cda_rows_written");
    reveal_strlit("fba_prev_close");
    reveal_strlit("cda_prev_close");
    reveal_strlit("fba_prev_clearing");
    reveal_strlit("cda_prev_clearing");
    reveal_strlit("fba_late_dropped");
    reveal_strlit("cda_late_dropped");
    reveal_strlit("elapsed_secs");
    reveal_strlit("fba_summary");
    reveal_strlit("cda_summary");
    reveal_strlit("complete");
}

/// Whether a text can stand at the end of a line.
pub open spec fn fits_line(s: Seq<char>) -> bool {
    lacks(s, '\n') && (s.len() > 0 ==> s.last() != '\r')
}

/// Whether a value is one of this kind, and can be written.
pub open spec fn fits_field(v: Value, kind: FieldKind) -> bool {
    match (kind, v) {
        (FieldKind::Version, Value::Number(n)) => n == 2,
        (FieldKind::Text, Value::Text(s)) => fits_line(s),
        (FieldKind::Long, Value::Number(n)) => 0 <= n <= u64::MAX,
        (FieldKind::Count, Value::Number(n)) => 0 <= n <= usize::MAX,
        (FieldKind::Moment, Value::Moment(m)) => m is Some ==> 0 <= m->0 <= u64::MAX,
        (FieldKind::Decimals, Value::Text(s)) => is_numeral(s),
        (FieldKind::Maybe, Value::Maybe(m)) => m is Some ==> is_numeral(m->0),
        (FieldKind::Summary, Value::Summary(v)) => is_writable(v),
        (FieldKind::Flag, Value::Flag(_)) => true,
        _ => false,
    }
}

/// Whether these are the fields of a state that can be written.
pub open spec fn is_state(fields: Seq<Value>) -> bool {
    &&& fields.len() == 25
    &&& forall|i: int| 0 <= i < 25 ==> fits_field(#[trigger] fields[i], field_kind(i))
}

proof fn lemma_value_reads_back(i: int, v: Value)
    requires
        0 <= i < 25,
        fits_field(v, field_kind(i)),
    ensures
        read_value(i, value_text(v)) == Ok::<Value, Seq<char>>(v),
        fits_line(value_text(v)),
{
    reveal_strlit("NONE");
    reveal_strlit("true");
    reveal_strlit("false");
    match v {
        Value::Number(n) => {
            lemma_number_reads_back(n);
            match field_kind(i) {
                FieldKind::Version => {
                    law_decimal_reads_back(n, u32::MAX as int);
                },
                FieldKind::Long => {
                    law_decimal_reads_back(n, u64::MAX as int);
                },
                _ => {
                    law_decimal_reads_back(n, usize::MAX as int);
                },
            }
        },
        Value::Moment(Some(n)) => {
            lemma_number_reads_back(n);
            law_decimal_reads_back(n, u64::MAX as int);
            assert(is_digit(decimal(n)[0]));
        },
        Value::Summary(t) => {
            law_summary_reads_back(t);
        },
        Value::Flag(b) => {
            assert("true"@[0] != "false"@[0]);
        },
        Value::Maybe(Some(s)) => {
            lemma_numeral_line(s);
        },
        Value::Text(s) => {
            if field_kind(i) == FieldKind::Decimals {
                lemma_numeral_line(s);
            }
        },
        _ => {},
    }
}

proof fn lemma_numeral_line(s: Seq<char>)
    requires
        is_numeral(s),
    ensures
        fits_line(s),
        s != "NONE"@,
{
    lemma_numeral_chars(s);
    assert forall|k: int| 0 <= k < s.len() implies #[trigger] s[k] != '\n' && s[k] != '\r' by {
        assert(is_numeral_char(s[k]));
    }
    if s == "NONE"@ {
        lemma_none_is_no_numeral();
    }
}

proof fn lemma_none_is_no_numeral()
    ensures
        !is_numeral("NONE"@),
{
    reveal_strlit("NONE");
    reveal_strlit("inf");
    reveal_strlit("infinity");
    reveal_strlit("nan");
    let t: Seq<char> = unsigned_part(ascii_folded("NONE"@));
    assert(t =~= seq!['n', 'o', 'n', 'e']);
    lemma_split_at(seq!['n', 'o', 'n'], 'e', Seq::empty());
    assert(seq!['n', 'o', 'n'].push('e') + Seq::<char>::empty() =~= t);
    lemma_split_none(seq!['n', 'o', 'n'], '.');
    assert(!is_digit(seq!['n', 'o', 'n'][0]));
}

proof fn lemma_number_reads_back(n: int)
    requires
        0 <= n,
    ensures
        fits_line(decimal(n)),
        decimal(n).len() > 0,
        is_digit(decimal(n)[0]),
{
    lemma_decimal(n);
    lemma_decimal_is_plain(n, '\n');
    assert(is_digit(decimal(n)[decimal(n).len() - 1]));
}

/// The lines of a state.
pub open spec fn state_lines(fields: Seq<Value>, n: int) -> Seq<Seq<char>> {
    Seq::new(n as nat, |i: int| field_line(i, fields[i]))
}

proof fn lemma_line(fields: Seq<Value>, i: int)
    requires
        is_state(fields),
        0 <= i < 25,
    ensures
        fits_line(field_line(i, fields[i])),
        field_line(i, fields[i]).len() > 0,
        without_ends(field_line(i, fields[i])) == field_line(i, fields[i]),
        key_and_value(field_line(i, fields[i])) == (field_name(i), value_text(fields[i])),
        field_named(field_name(i), 0) == Some(i),
        read_value(i, value_text(fields[i])) == Ok::<Value, Seq<char>>(fields[i]),
{
    let v: Value = fields[i];
    let line: Seq<char> = field_line(i, v);
    assert(fits_field(fields[i], field_kind(i)));
    lemma_value_reads_back(i, v);
    lemma_field_name_plain(i);
    lemma_field_named(i, 0);
    lemma_split_at(field_name(i), ' ', value_text(v));
    let head: Seq<char> = field_name(i).push(' ');
    assert forall|k: int| 0 <= k < line.len() implies #[trigger] line[k] != '\n' by {
        if k < field_name(i).len() {
            assert(line[k] == field_name(i)[k]);
        } else if k >= head.len() {
            assert(line[k] == value_text(v)[k - head.len()]);
        }
    }
    if value_text(v).len() > 0 {
        assert(line.last() == value_text(v).last());
    } else {
        assert(line =~= head);
    }
    assert(line[line.len() - 1] != '\n');
}

proof fn lemma_rendered_lines(fields: Seq<Value>, n: int)
    requires
        is_state(fields),
        0 < n <= 25,
    ensures
        rendered(fields, n) == crate::text::joined(state_lines(fields, n), '\n').push('\n'),
    decreases n,
{
    let ls: Seq<Seq<char>> = state_lines(fields, n);
    let last: Seq<char> = field_line(n - 1, fields[n - 1]);
    if n == 1 {
        assert(rendered(fields, 0) =~= Seq::<char>::empty());
        assert(rendered(fields, 1) =~= last.push('\n'));
        assert(ls.len() == 1);
    } else {
        lemma_rendered_lines(fields, n - 1);
        assert(ls.drop_last() =~= state_lines(fields, n - 1));
        assert(ls.last() == last);
        let before: Seq<char> = rendered(fields, n - 1);
        assert(before + last.push('\n') =~= (before + last).push('\n'));
    }
}

proof fn lemma_lines_read_back(fields: Seq<Value>, n: int)
    requires
        is_state(fields),
        0 <= n <= 25,
    ensures
        with_lines(state_lines(fields, n)) == Ok::<(Seq<Value>, bool), Seq<char>>(
            (fields.take(n) + fresh_fields(Seq::empty(), 0, 0, 0).skip(n), n > 0),
        ),
    decreases n,
{
    let start: Seq<Value> = fresh_fields(Seq::empty(), 0, 0, 0);
    let ls: Seq<Seq<char>> = state_lines(fields, n);
    if n == 0 {
        assert(fields.take(0) + start.skip(0) =~= start);
    } else {
        lemma_lines_read_back(fields, n - 1);
        assert(ls.drop_last() =~= state_lines(fields, n - 1));
        lemma_line(fields, n - 1);
        let before: Seq<Value> = fields.take(n - 1) + start.skip(n - 1);
        assert(before.update(n - 1, fields[n - 1]) =~= fields.take(n) + start.skip(n));
    }
}

/// A state that was written reads back as the same state.
pub proof fn law_state_reads_back(fields: Seq<Value>)
    requires
        is_state(fields),
    ensures
        parsed(rendered(fields, 25)) == Ok::<Seq<Value>, Seq<char>>(fields),
{
    let ls: Seq<Seq<char>> = state_lines(fields, 25);
    let pieces: Seq<Seq<char>> = ls.push(Seq::empty());
    let text: Seq<char> = rendered(fields, 25);
    lemma_rendered_lines(fields, 25);
    assert(pieces.drop_last() =~= ls);
    assert(crate::text::joined(pieces, '\n') =~= text);
    assert forall|i: int| 0 <= i < pieces.len() implies lacks(#[trigger] pieces[i], '\n') by {
        if i < 25 {
            lemma_line(fields, i);
        }
    }
    crate::text::lemma_split_joined(pieces, '\n');
    assert forall|i: int| 0 <= i < 25 implies without_return(#[trigger] pieces[i]) == ls[i] by {
        lemma_line(fields, i);
    }
    assert(lines(text) =~= ls);
    lemma_lines_read_back(fields, 25);
    assert(fields.take(25) + fresh_fields(Seq::empty(), 0, 0, 0).skip(25) =~= fields);
}

/// The last part of a path that is a name: neither empty nor a point. None
/// if there is none, or if it is two points.
pub open spec fn last_name(parts: Seq<Seq<char>>) -> Option<Seq<char>>
    decreases parts.len(),
{
    if parts.len() == 0 {
        None
    } else if parts.last().len() == 0 || parts.last() == seq!['.'] {
        last_name(parts.drop_last())
    } else if parts.last() == seq!['.', '.'] {
        None
    } else {
        Some(parts.last())
    }
}

pub open spec fn is_slug_char(c: char) -> bool {
    ||| 'a' <= c <= 'z'
    ||| 'A' <= c <= 'Z'
    ||| is_digit(c)
    ||| c == '.'
    ||| c == '_'
    ||| c == '-'
}

pub open spec fn slugged(s: Seq<char>) -> Seq<char> {
    Seq::new(
        s.len(),
        |i: int|
            if is_slug_char(s[i]) {
                s[i]
            } else {
                '_'
            },
    )
}

/// The directory name for a source: its last name, with an underscore for
/// everything but letters, digits, points, underscores and hyphens.
pub open spec fn slug(source: Seq<char>) -> Seq<char> {
    match last_name(split(source, '/')) {
        Some(name) => slugged(name),
        None => "run"@,
    }
}

fn slug_char(c: char) -> (r: bool)
    ensures
        r == is_slug_char(c),
{
    ('a' <= c && c <= 'z') || ('A' <= c && c <= 'Z') || ('0' <= c && c <= '9') || c == '.' || c == '_' || c == '-'
}

fn slug_of(source: &str) -> (r: Vec<char>)
    ensures
        r@ == slug(source@),
{
    let parts: Vec<Vec<char>> = split_at_each(&chars_of(source), '/');
    let ghost all: Seq<Seq<char>> = split(source@, '/');
    let mut n: usize = parts.len();
    proof {
        assert(views(parts@).len() == n);
        assert(all.take(n as int) =~= all);
    }
    while n > 0
        invariant
            n <= parts@.len(),
            all == views(parts@),
            all == split(source@, '/'),
            last_name(all) == last_name(all.take(n as int)),
        decreases n,
    {
        let part: &Vec<char> = &parts[n - 1];
        let len: usize = part.len();
        proof {
            assert(all.take(n as int).last() == part@);
            assert(all.take(n as int).drop_last() =~= all.take(n - 1));
            if len == 1 && part@[0] == '.' {
                assert(part@ =~= seq!['.']);
            }
            if len == 2 && part@[0] == '.' && part@[1] == '.' {
                assert(part@ =~= seq!['.', '.']);
            }
        }
        if len == 0 || (len == 1 && part[0] == '.') {
            n -= 1;
        } else if len == 2 && part[0] == '.' && part[1] == '.' {
            return chars_of("run");
        } else {
            let mut r: Vec<char> = Vec::new();
            let mut i: usize = 0;
            while i < part.len()
                invariant
                    i <= part@.len(),
                    r@ =~= slugged(part@).take(i as int),
                decreases part.len() - i,
            {
                if slug_char(part[i]) {
                    r.push(part[i]);
                } else {
                    r.push('_');
                }
                i += 1;
            }
            assert(r@ =~= slugged(part@));
            return r;
        }
    }
    chars_of("run")
}

/// The directory name for a source.
pub fn slugify(source: &str) -> (r: String)
    ensures
        r@ == slug(source@),
{
    string_of(&slug_of(source))
}

/// The directory that the results for a source are written to.
pub fn output_dir(source: &str) -> (r: String)
    ensures
        r@ == "output/"@ + slug(source@),
{
    let mut text: Vec<char> = chars_of("output/");
    push_chars(&mut text, &slug_of(source));
    string_of(&text)
}

/// A directory name has only letters, digits, points, underscores and
/// hyphens, and at least one of them.
pub proof fn law_slug_is_plain(source: Seq<char>)
    ensures
        slug(source).len() > 0,
        forall|i: int| 0 <= i < slug(source).len() ==> is_slug_char(#[trigger] slug(source)[i]),
{
    reveal_strlit("run");
    lemma_last_name(split(source, '/'));
}

proof fn lemma_last_name(parts: Seq<Seq<char>>)
    ensures
        last_name(parts) is Some ==> last_name(parts)->0.len() > 0,
    decreases parts.len(),
{
    if parts.len() > 0 {
        lemma_last_name(parts.drop_last());
    }
}

/// A header and the first `n` of the other lines, each with a line feed.
pub open spec fn first_rows(header: Seq<char>, rows: Seq<Seq<char>>, n: int) -> Seq<char>
    decreases n,
{
    if n <= 0 {
        header.push('\n')
    } else {
        first_rows(header, rows, n - 1) + rows[n - 1].push('\n')
    }
}

/// What a time series file has to hold instead, so that it has `keep` rows
/// after its header at most. None if it may stay as it is: it is empty, or
/// has that many.
pub open spec fn cut_to(content: Seq<char>, keep: int) -> Option<Seq<char>> {
    let ls = lines(content);
    if ls.len() == 0 || ls.len() - 1 == keep {
        None
    } else {
        Some(first_rows(ls[0], ls.skip(1), crate::seqs::min_of(keep, ls.len() - 1)))
    }
}

/// What a time series file has to hold instead, so that it has `keep` rows at
/// most.
pub fn truncate_data_rows(content: &str, keep: u64) -> (r: Option<String>)
    ensures
        match r {
            Some(text) => cut_to(content@, keep as int) == Some(text@),
            None => cut_to(content@, keep as int) is None,
        },
{
    let ls: Vec<Vec<char>> = lines_of(&chars_of(content));
    let ghost all: Seq<Seq<char>> = lines(content@);
    if ls.len() == 0 || (ls.len() - 1) as u64 == keep {
        return None;
    }
    let rows: usize = ls.len() - 1;
    let n: usize = if keep < rows as u64 {
        keep as usize
    } else {
        rows
    };
    let mut text: Vec<char> = Vec::new();
    push_chars(&mut text, &ls[0]);
    text.push('\n');
    assert(text@ =~= first_rows(all[0], all.skip(1), 0));
    let mut i: usize = 0;
    while i < n
        invariant
            i <= n,
            n < ls@.len(),
            all.len() == ls@.len(),
            forall|k: int| 0 <= k < ls@.len() ==> (#[trigger] ls@[k])@ == all[k],
            text@ == first_rows(all[0], all.skip(1), i as int),
        decreases n - i,
    {
        let ghost before: Seq<char> = text@;
        push_chars(&mut text, &ls[i + 1]);
        text.push('\n');
        proof {
            assert(all.skip(1)[i as int] == ls@[i + 1]@);
            assert(text@ =~= before + ls@[i + 1]@.push('\n'));
        }
        i += 1;
    }
    Some(string_of(&text))
}

/// A file that had more rows than it should has as many as it should after
/// the cut, and another cut leaves it alone.
pub proof fn law_cut_is_exact(content: Seq<char>, keep: int)
    requires
        0 <= keep < lines(content).len() - 1,
    ensures
        lines(cut_to(content, keep)->0).len() == keep + 1,
        cut_to(cut_to(content, keep)->0, keep) is None,
{
    let ls: Seq<Seq<char>> = lines(content);
    let text: Seq<char> = cut_to(content, keep)->0;
    let kept: Seq<Seq<char>> = ls.take(keep + 1);
    let pieces: Seq<Seq<char>> = kept.push(Seq::empty());
    crate::text::lemma_split_lacks(content, '\n');
    let all: Seq<Seq<char>> = split(content, '\n');
    assert forall|i: int| 0 <= i < pieces.len() implies lacks(#[trigger] pieces[i], '\n') by {
        if i < keep + 1 {
            assert(lacks(all[i], '\n'));
            assert(pieces[i] == ls[i]);
            assert(ls[i] == without_return(all[i]));
        }
    }
    lemma_first_rows(ls, keep);
    assert(pieces.drop_last() =~= kept);
    assert(crate::text::joined(pieces, '\n') =~= text);
    crate::text::lemma_split_joined(pieces, '\n');
}

pub proof fn lemma_first_rows(ls: Seq<Seq<char>>, n: int)
    requires
        0 <= n < ls.len(),
    ensures
        first_rows(ls[0], ls.skip(1), n) == crate::text::joined(ls.take(n + 1), '\n').push('\n'),
    decreases n,
{
    if n > 0 {
        lemma_first_rows(ls, n - 1);
        let now: Seq<Seq<char>> = ls.take(n + 1);
        assert(now.drop_last() =~= ls.take(n));
        assert(now.last() == ls[n]);
        assert(ls.skip(1)[n - 1] == ls[n]);
        let before: Seq<char> = first_rows(ls[0], ls.skip(1), n - 1);
        assert(before + ls[n].push('\n') =~= (before + ls[n]).push('\n'));
    } else {
        assert(ls.take(1).len() == 1);
    }
}

/// The files of a run.
pub const CHECKPOINT_FILE: &'static str = "checkpoint.txt";

pub const FBA_CSV: &'static str = "fba_timeseries.csv";

pub const CDA_CSV: &'static str = "cda_timeseries.csv";

pub const SUMMARY_FILE: &'static str = "summary.txt";

} // verus!
