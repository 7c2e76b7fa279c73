//! The running totals of a replay as text: one number or list of numbers for
//! every reported metric. Numbers with decimals are kept as they were written.

use vstd::prelude::*;
use crate::text::{
    chars_of, decimal, decimal_of, is_digit, is_text, join, joined, lacks, law_decimal_reads_back, lemma_decimal,
    lemma_split_at, lemma_split_joined, parse_u64, split, split_at_each, split_at_first, split_once, string_of,
    unsigned_value, views,
};
use crate::numerals::{is_numeral, is_numeral_char, lemma_numeral_chars, numeral};
use crate::types::EngineKind;

verus! {

/// The name of metric number `i`.
pub open spec fn metric_name(i: int) -> Seq<char> {
    if i == 0 {
        "quoted_spread_bps"@
    } else if i == 1 {
        "depth_at_best"@
    } else if i == 2 {
        "depth_within_10bps"@
    } else if i == 3 {
        "depth_within_50bps"@
    } else if i == 4 {
        "depth_within_100bps"@
    } else if i == 5 {
        "book_imbalance"@
    } else if i == 6 {
        "total_book_depth"@
    } else if i == 7 {
        "effective_spread_bps"@
    } else if i == 8 {
        "realized_spread_bps_1s"@
    } else if i == 9 {
        "realized_spread_bps_5s"@
    } else if i == 10 {
        "realized_spread_bps_30s"@
    } else if i == 11 {
        "price_impact_bps_1s"@
    } else if i == 12 {
        "price_impact_bps_5s"@
    } else if i == 13 {
        "price_impact_bps_30s"@
    } else if i == 14 {
        "amihud_illiquidity"@
    } else if i == 15 {
        "kyle_lambda"@
    } else if i == 16 {
        "realized_volatility"@
    } else if i == 17 {
        "intra_interval_price_dispersion"@
    } else if i == 18 {
        "pricing_error_bps"@
    } else if i == 19 {
        "executed_volume"@
    } else if i == 20 {
        "executed_notional"@
    } else if i == 21 {
        "vwap"@
    } else if i == 22 {
        "trader_surplus"@
    } else if i == 23 {
        "fill_rate"@
    } else if i == 24 {
        "avg_time_to_execution_secs"@
    } else if i == 25 {
        "order_size_inflation"@
    } else if i == 26 {
        "order_to_trade_ratio"@
    } else if i == 27 {
        "boundary_concentration"@
    } else if i == 28 {
        "throughput_orders_per_sec"@
    } else if i == 29 {
        "avg_clearing_latency_micros"@
    } else if i == 30 {
        "unexecuted_residual_share"@
    } else {
        Seq::empty()
    }
}

fn metric_text(i: usize) -> (r: &'static str)
    requires
        i < 31,
    ensures
        r@ == metric_name(i as int),
{
    match i {
        0 => "quoted_spread_bps",
        1 => "depth_at_best",
        2 => "depth_within_10bps",
        3 => "depth_within_50bps",
        4 => "depth_within_100bps",
        5 => "book_imbalance",
        6 => "total_book_depth",
        7 => "effective_spread_bps",
        8 => "realized_spread_bps_1s",
        9 => "realized_spread_bps_5s",
        10 => "realized_spread_bps_30s",
        11 => "price_impact_bps_1s",
        12 => "price_impact_bps_5s",
        13 => "price_impact_bps_30s",
        14 => "amihud_illiquidity",
        15 => "kyle_lambda",
        16 => "realized_volatility",
        17 => "intra_interval_price_dispersion",
        18 => "pricing_error_bps",
        19 => "executed_volume",
        20 => "executed_notional",
        21 => "vwap",
        22 => "trader_surplus",
        23 => "fill_rate",
        24 => "avg_time_to_execution_secs",
        25 => "order_size_inflation",
        26 => "order_to_trade_ratio",
        27 => "boundary_concentration",
        28 => "throughput_orders_per_sec",
        29 => "avg_clearing_latency_micros",
        _ => "unexecuted_residual_share",
    }
}

/// The count, sum, minimum and maximum of one metric.
#[derive(Debug)]
pub struct MetricAgg {
    pub n: u64,
    pub sum: String,
    pub min: String,
    pub max: String,
}

/// The running totals of one engine.
#[derive(Debug)]
pub struct SummaryRecord {
    pub intervals_total: u64,
    pub trade_count_sum: u64,
    pub executed_volume_sum: String,
    pub executed_notional_sum: String,
    /// One for each metric.
    pub aggs: Vec<MetricAgg>,
}

/// The count, sum, minimum and maximum of one metric, as plain values.
pub struct AggView {
    pub n: int,
    pub sum: Seq<char>,
    pub min: Seq<char>,
    pub max: Seq<char>,
}

/// The running totals of one engine, as plain values.
#[verifier::ext_equal]
pub struct SummaryView {
    pub intervals: int,
    pub trades: int,
    pub volume: Seq<char>,
    pub notional: Seq<char>,
    pub aggs: Seq<AggView>,
}

impl View for MetricAgg {
    type V = AggView;

    open spec fn view(&self) -> AggView {
        AggView { n: self.n as int, sum: self.sum@, min: self.min@, max: self.max@ }
    }
}

pub open spec fn agg_views(aggs: Seq<MetricAgg>) -> Seq<AggView> {
    Seq::new(aggs.len(), |i: int| aggs[i]@)
}

impl View for SummaryRecord {
    type V = SummaryView;

    open spec fn view(&self) -> SummaryView {
        SummaryView {
            intervals: self.intervals_total as int,
            trades: self.trade_count_sum as int,
            volume: self.executed_volume_sum@,
            notional: self.executed_notional_sum@,
            aggs: agg_views(self.aggs@),
        }
    }
}

/// A metric without any value yet.
pub open spec fn no_agg() -> AggView {
    AggView { n: 0, sum: "0"@, min: "inf"@, max: "-inf"@ }
}

/// The totals before any interval.
pub open spec fn no_summary() -> SummaryView {
    SummaryView { intervals: 0, trades: 0, volume: "0"@, notional: "0"@, aggs: Seq::new(31, |i: int| no_agg()) }
}

/// One metric as text.
pub open spec fn agg_text(i: int, a: AggView) -> Seq<char> {
    metric_name(i).push('=') + joined(seq![decimal(a.n), a.sum, a.min, a.max], ':')
}

/// The parts of the totals as text.
pub open spec fn summary_parts(v: SummaryView) -> Seq<Seq<char>> {
    seq![decimal(v.intervals), decimal(v.trades), v.volume, v.notional] + Seq::new(
        v.aggs.len(),
        |i: int| agg_text(i, v.aggs[i]),
    )
}

/// The totals as text.
pub open spec fn summary_text(v: SummaryView) -> Seq<char> {
    joined(summary_parts(v), ';')
}

/// The metric with this name.
pub open spec fn metric_named(name: Seq<char>, from: int) -> Option<int>
    decreases 31 - from,
{
    if from >= 31 {
        None
    } else if metric_name(from) == name {
        Some(from)
    } else {
        metric_named(name, from + 1)
    }
}

/// The name and the numbers in the text of one metric.
pub open spec fn read_agg(chunk: Seq<char>) -> Result<(Seq<char>, AggView), Seq<char>> {
    match split_once(chunk, '=') {
        None => Err("summary chunk missing '='"@),
        Some((name, rest)) => {
            let f = split(rest, ':');
            match unsigned_value(f[0], u64::MAX as int) {
                None => Err("bad agg n"@),
                Some(n) => if f.len() < 2 {
                    Err("summary chunk missing sum"@)
                } else if !is_numeral(f[1]) {
                    Err("bad agg sum"@)
                } else if f.len() < 3 {
                    Err("summary chunk missing min"@)
                } else if !is_numeral(f[2]) {
                    Err("bad agg min"@)
                } else if f.len() < 4 {
                    Err("summary chunk missing max"@)
                } else if !is_numeral(f[3]) {
                    Err("bad agg max"@)
                } else {
                    Ok((name, AggView { n, sum: f[1], min: f[2], max: f[3] }))
                },
            }
        },
    }
}

/// The metrics in a list of texts. Of several with the same name the last
/// counts; unknown names and empty texts are passed over.
pub open spec fn read_aggs(chunks: Seq<Seq<char>>) -> Result<Seq<AggView>, Seq<char>>
    decreases chunks.len(),
{
    if chunks.len() == 0 {
        Ok(Seq::new(31, |i: int| no_agg()))
    } else {
        match read_aggs(chunks.drop_last()) {
            Err(e) => Err(e),
            Ok(aggs) => if chunks.last().len() == 0 {
                Ok(aggs)
            } else {
                match read_agg(chunks.last()) {
                    Err(e) => Err(e),
                    Ok((name, a)) => match metric_named(name, 0) {
                        Some(i) => Ok(aggs.update(i, a)),
                        None => Ok(aggs),
                    },
                }
            },
        }
    }
}

/// The totals in a text, or what is wrong with it.
pub open spec fn read_summary(s: Seq<char>) -> Result<SummaryView, Seq<char>> {
    let parts = split(s, ';');
    match unsigned_value(parts[0], u64::MAX as int) {
        None => Err("bad intervals_total"@),
        Some(intervals) => if parts.len() < 2 {
            Err("truncated summary blob"@)
        } else {
            match unsigned_value(parts[1], u64::MAX as int) {
                None => Err("bad trade_count_sum"@),
                Some(trades) => if parts.len() < 3 {
                    Err("truncated summary blob"@)
                } else if !is_numeral(parts[2]) {
                    Err("bad executed_volume_sum"@)
                } else if parts.len() < 4 {
                    Err("truncated summary blob"@)
                } else if !is_numeral(parts[3]) {
                    Err("bad executed_notional_sum"@)
                } else {
                    match read_aggs(parts.skip(4)) {
                        Err(e) => Err(e),
                        Ok(aggs) => Ok(
                            SummaryView { intervals, trades, volume: parts[2], notional: parts[3], aggs },
                        ),
                    }
                },
            }
        },
    }
}

impl MetricAgg {
    fn none() -> (r: Self)
        ensures
            r@ == no_agg(),
    {
        MetricAgg { n: 0, sum: "0".to_owned(), min: "inf".to_owned(), max: "-inf".to_owned() }
    }

    fn to_text(&self, i: usize) -> (r: Vec<char>)
        requires
            i < 31,
        ensures
            r@ == agg_text(i as int, self@),
    {
        let mut numbers: Vec<Vec<char>> = Vec::new();
        numbers.push(decimal_of(self.n as u128));
        numbers.push(chars_of(self.sum.as_str()));
        numbers.push(chars_of(self.min.as_str()));
        numbers.push(chars_of(self.max.as_str()));
        assert(views(numbers@) =~= seq![decimal(self.n as int), self.sum@, self.min@, self.max@]);
        let mut r: Vec<char> = chars_of(metric_text(i));
        r.push('=');
        crate::text::push_chars(&mut r, &join(&numbers, ':'));
        r
    }
}

fn find_metric(name: &Vec<char>) -> (r: Option<usize>)
    ensures
        match r {
            Some(i) => i < 31 && metric_named(name@, 0) == Some(i as int),
            None => metric_named(name@, 0) is None,
        },
{
    let mut i: usize = 0;
    while i < 31
        invariant
            i <= 31,
            metric_named(name@, 0) == metric_named(name@, i as int),
        decreases 31 - i,
    {
        if is_text(name, metric_text(i)) {
            return Some(i);
        }
        i += 1;
    }
    None
}

fn parse_agg(chunk: &Vec<char>) -> (r: Result<(Vec<char>, MetricAgg), String>)
    ensures
        match r {
            Ok((name, a)) => read_agg(chunk@) == Ok::<(Seq<char>, AggView), Seq<char>>((name@, a@)),
            Err(e) => read_agg(chunk@) == Err::<(Seq<char>, AggView), Seq<char>>(e@),
        },
{
    let (name, rest): (Vec<char>, Vec<char>) = match split_at_first(chunk, '=') {
        Some(parts) => parts,
        None => {
            return Err("summary chunk missing '='".to_owned());
        },
    };
    let f: Vec<Vec<char>> = split_at_each(&rest, ':');
    proof {
        assert(views(f@).len() == f@.len());
        assert(forall|i: int| 0 <= i < f@.len() ==> #[trigger] views(f@)[i] == f@[i]@);
    }
    let n: u64 = match parse_u64(&f[0]) {
        Some(n) => n,
        None => {
            assert(views(f@)[0] == f@[0]@);
            return Err("bad agg n".to_owned());
        },
    };
    assert(views(f@)[0] == f@[0]@);
    if f.len() < 2 {
        return Err("summary chunk missing sum".to_owned());
    }
    assert(views(f@)[1] == f@[1]@);
    if !numeral(&f[1]) {
        return Err("bad agg sum".to_owned());
    }
    if f.len() < 3 {
        return Err("summary chunk missing min".to_owned());
    }
    assert(views(f@)[2] == f@[2]@);
    if !numeral(&f[2]) {
        return Err("bad agg min".to_owned());
    }
    if f.len() < 4 {
        return Err("summary chunk missing max".to_owned());
    }
    assert(views(f@)[3] == f@[3]@);
    if !numeral(&f[3]) {
        return Err("bad agg max".to_owned());
    }
    let a: MetricAgg = MetricAgg { n, sum: string_of(&f[1]), min: string_of(&f[2]), max: string_of(&f[3]) };
    Ok((name, a))
}

impl SummaryRecord {
    /// The totals before any interval.
    pub fn new() -> (r: Self)
        ensures
            r@ == no_summary(),
    {
        let mut aggs: Vec<MetricAgg> = Vec::new();
        let mut i: usize = 0;
        while i < 31
            invariant
                i <= 31,
                agg_views(aggs@) =~= Seq::new(i as nat, |k: int| no_agg()),
            decreases 31 - i,
        {
            let ghost before: Seq<MetricAgg> = aggs@;
            aggs.push(MetricAgg::none());
            assert(agg_views(aggs@) =~= agg_views(before).push(no_agg()));
            i += 1;
        }
        let r: SummaryRecord = SummaryRecord {
            intervals_total: 0,
            trade_count_sum: 0,
            executed_volume_sum: "0".to_owned(),
            executed_notional_sum: "0".to_owned(),
            aggs,
        };
        assert(r@.aggs =~= no_summary().aggs);
        r
    }

    /// The totals as text.
    pub fn serialize(&self) -> (r: String)
        requires
            self.aggs@.len() == 31,
        ensures
            r@ == summary_text(self@),
    {
        let mut parts: Vec<Vec<char>> = Vec::new();
        parts.push(decimal_of(self.intervals_total as u128));
        parts.push(decimal_of(self.trade_count_sum as u128));
        parts.push(chars_of(self.executed_volume_sum.as_str()));
        parts.push(chars_of(self.executed_notional_sum.as_str()));
        let ghost goal: Seq<Seq<char>> = summary_parts(self@);
        assert(views(parts@) =~= goal.take(4));
        let mut i: usize = 0;
        while i < self.aggs.len()
            invariant
                i <= self.aggs@.len(),
                self.aggs@.len() == 31,
                goal == summary_parts(self@),
                views(parts@) == goal.take(4 + i),
            decreases self.aggs.len() - i,
        {
            let ghost before: Seq<Vec<char>> = parts@;
            let part: Vec<char> = self.aggs[i].to_text(i);
            parts.push(part);
            proof {
                assert(self@.aggs[i as int] == self.aggs@[i as int]@);
                assert(goal[4 + i] == part@);
                assert(views(parts@) =~= views(before).push(part@));
                assert(goal.take(4 + i + 1) =~= goal.take(4 + i).push(goal[4 + i]));
            }
            i += 1;
        }
        assert(goal.take(35) =~= goal);
        string_of(&join(&parts, ';'))
    }

    /// The totals in a text, or what is wrong with it.
    pub fn deserialize(s: &str) -> (r: Result<Self, String>)
        ensures
            match r {
                Ok(v) => read_summary(s@) == Ok::<SummaryView, Seq<char>>(v@) && v.aggs@.len() == 31,
                Err(e) => read_summary(s@) == Err::<SummaryView, Seq<char>>(e@),
            },
    {
        let parts: Vec<Vec<char>> = split_at_each(&chars_of(s), ';');
        let ghost all: Seq<Seq<char>> = split(s@, ';');
        proof {
            assert(views(parts@).len() == parts@.len());
            assert(forall|i: int| 0 <= i < parts@.len() ==> #[trigger] all[i] == parts@[i]@);
        }
        let mut r: SummaryRecord = SummaryRecord::new();
        r.intervals_total = match parse_u64(&parts[0]) {
            Some(n) => n,
            None => {
                return Err("bad intervals_total".to_owned());
            },
        };
        if parts.len() < 2 {
            return Err("truncated summary blob".to_owned());
        }
        r.trade_count_sum = match parse_u64(&parts[1]) {
            Some(n) => n,
            None => {
                return Err("bad trade_count_sum".to_owned());
            },
        };
        if parts.len() < 3 {
            return Err("truncated summary blob".to_owned());
        }
        if !numeral(&parts[2]) {
            return Err("bad executed_volume_sum".to_owned());
        }
        if parts.len() < 4 {
            return Err("truncated summary blob".to_owned());
        }
        if !numeral(&parts[3]) {
            return Err("bad executed_notional_sum".to_owned());
        }
        r.executed_volume_sum = string_of(&parts[2]);
        r.executed_notional_sum = string_of(&parts[3]);
        let ghost chunks: Seq<Seq<char>> = all.skip(4);
        let mut i: usize = 4;
        proof {
            assert(chunks.take(0) =~= Seq::<Seq<char>>::empty());
            assert(r@.aggs == no_summary().aggs);
            assert(r.aggs@.len() == r@.aggs.len());
        }
        while i < parts.len()
            invariant
                4 <= i <= parts@.len(),
                all == views(parts@),
                chunks == all.skip(4),
                r.aggs@.len() == 31,
                read_aggs(chunks.take(i - 4)) == Ok::<Seq<AggView>, Seq<char>>(r@.aggs),
                read_summary(s@) == match read_aggs(chunks) {
                    Err(e) => Err(e),
                    Ok(aggs) => Ok(
                        SummaryView {
                            intervals: r.intervals_total as int,
                            trades: r.trade_count_sum as int,
                            volume: r.executed_volume_sum@,
                            notional: r.executed_notional_sum@,
                            aggs,
                        },
                    ),
                },
            decreases parts.len() - i,
        {
            proof {
                assert(chunks.take(i - 3).drop_last() =~= chunks.take(i - 4));
                assert(chunks.take(i - 3).last() == parts@[i as int]@);
            }
            if parts[i].len() > 0 {
                match parse_agg(&parts[i]) {
                    Ok((name, a)) => {
                        if let Some(k) = find_metric(&name) {
                            let ghost before: Seq<MetricAgg> = r.aggs@;
                            let ghost av: AggView = a@;
                            r.aggs.set(k, a);
                            assert(r@.aggs =~= agg_views(before).update(k as int, av));
                        }
                    },
                    Err(e) => {
                        proof {
                            lemma_first_error(chunks, i - 3);
                        }
                        return Err(e);
                    },
                }
            }
            i += 1;
        }
        assert(chunks.take(i - 4) =~= chunks);
        Ok(r)
    }
}

/// The first error decides.
proof fn lemma_first_error(chunks: Seq<Seq<char>>, k: int)
    requires
        0 <= k <= chunks.len(),
        read_aggs(chunks.take(k)) is Err,
    ensures
        read_aggs(chunks) == read_aggs(chunks.take(k)),
    decreases chunks.len(),
{
    if k == chunks.len() {
        assert(chunks.take(k) =~= chunks);
    } else {
        assert(chunks.drop_last().take(k) =~= chunks.take(k));
        lemma_first_error(chunks.drop_last(), k);
    }
}

/// Whether a text can stand in the text of the totals, and that on a line.
spec fn is_plain(s: Seq<char>) -> bool {
    lacks(s, ';') && lacks(s, ':') && lacks(s, '=') && lacks(s, '\n') && lacks(s, '\r')
}

proof fn lemma_numeral_is_plain(s: Seq<char>)
    requires
        is_numeral(s),
    ensures
        is_plain(s),
{
    lemma_numeral_chars(s);
    assert forall|c: char| !is_numeral_char(c) implies lacks(s, c) by {
        assert forall|i: int| 0 <= i < s.len() implies #[trigger] s[i] != c by {
            assert(is_numeral_char(s[i]));
        }
    }
}

/// Whether these are totals: counts within range, one entry for each metric,
/// and numbers where numbers belong.
pub open spec fn is_writable(v: SummaryView) -> bool {
    &&& 0 <= v.intervals <= u64::MAX
    &&& 0 <= v.trades <= u64::MAX
    &&& is_numeral(v.volume)
    &&& is_numeral(v.notional)
    &&& v.aggs.len() == 31
    &&& forall|i: int|
        0 <= i < 31 ==> 0 <= (#[trigger] v.aggs[i]).n <= u64::MAX && is_numeral(v.aggs[i].sum) && is_numeral(v.aggs[i].min)
            && is_numeral(v.aggs[i].max)
}

/// How long each name is.
spec fn metric_name_length(i: int) -> int {
    if i == 0 {
        17
    } else if i == 1 {
        13
    } else if i == 2 {
        18
    } else if i == 3 {
        18
    } else if i == 4 {
        19
    } else if i == 5 {
        14
    } else if i == 6 {
        16
    } else if i == 7 {
        20
    } else if i == 8 {
        22
    } else if i == 9 {
        22
    } else if i == 10 {
        23
    } else if i == 11 {
        19
    } else if i == 12 {
        19
    } else if i == 13 {
        20
    } else if i == 14 {
        18
    } else if i == 15 {
        11
    } else if i == 16 {
        19
    } else if i == 17 {
        31
    } else if i == 18 {
        17
    } else if i == 19 {
        15
    } else if i == 20 {
        17
    } else if i == 21 {
        4
    } else if i == 22 {
        14
    } else if i == 23 {
        9
    } else if i == 24 {
        26
    } else if i == 25 {
        20
    } else if i == 26 {
        20
    } else if i == 27 {
        22
    } else if i == 28 {
        25
    } else if i == 29 {
        27
    } else if i == 30 {
        25
    } else {
        0
    }
}

proof fn lemma_metric_name_length(i: int)
    requires
        0 <= i < 31,
    ensures
        metric_name(i).len() == metric_name_length(i),
{
    reveal_strlit("quoted_spread_bps");
    reveal_strlit("depth_at_best");
    reveal_strlit("depth_within_10bps");
    reveal_strlit("depth_within_50bps");
    reveal_strlit("depth_within_100bps");
    reveal_strlit("book_imbalance");
    reveal_strlit("total_book_depth");
    reveal_strlit("effective_spread_bps");
    reveal_strlit("realized_spread_bps_1s");
    reveal_strlit("realized_spread_bps_5s");
    reveal_strlit("realized_spread_bps_30s");
    reveal_strlit("price_impact_bps_1s");
    reveal_strlit("price_impact_bps_5s");
    reveal_strlit("price_impact_bps_30s");
    reveal_strlit("amihud_illiquidity");
    reveal_strlit("kyle_lambda");
    reveal_strlit("realized_volatility");
    reveal_strlit("intra_interval_price_dispersion");
    reveal_strlit("pricing_error_bps");
    reveal_strlit("executed_volume");
    reveal_strlit("executed_notional");
    reveal_strlit("vwap");
    reveal_strlit("trader_surplus");
    reveal_strlit("fill_rate");
    reveal_strlit("avg_time_to_execution_secs");
    reveal_strlit("order_size_inflation");
    reveal_strlit("order_to_trade_ratio");
    reveal_strlit("boundary_concentration");
    reveal_strlit("throughput_orders_per_sec");
    reveal_strlit("avg_clearing_latency_micros");
    reveal_strlit("unexecuted_residual_share");
}

proof fn lemma_metric_name_distinct(i: int, j: int)
    requires
        0 <= j < i < 31,
    ensures
        metric_name(i) != metric_name(j),
{
    lemma_metric_name_length(i);
    lemma_metric_name_length(j);
    if metric_name_length(i) == metric_name_length(j) {
        reveal_strlit("quoted_spread_bps");
        reveal_strlit("depth_within_10bps");
        reveal_strlit("depth_within_50bps");
        reveal_strlit("depth_within_100bps");
        reveal_strlit("book_imbalance");
        reveal_strlit("effective_spread_bps");
        reveal_strlit("realized_spread_bps_1s");
        reveal_strlit("realized_spread_bps_5s");
        reveal_strlit("price_impact_bps_1s");
        reveal_strlit("price_impact_bps_5s");
        reveal_strlit("price_impact_bps_30s");
        reveal_strlit("amihud_illiquidity");
        reveal_strlit("realized_volatility");
        reveal_strlit("pricing_error_bps");
        reveal_strlit("executed_notional");
        reveal_strlit("trader_surplus");
        reveal_strlit("order_size_inflation");
        reveal_strlit("order_to_trade_ratio");
        reveal_strlit("boundary_concentration");
        reveal_strlit("throughput_orders_per_sec");
        reveal_strlit("unexecuted_residual_share");
        if i == 3 && j == 2 {
            assert(metric_name(i)[13] != metric_name(j)[13]);
        } else if i == 9 && j == 8 {
            assert(metric_name(i)[20] != metric_name(j)[20]);
        } else if i == 11 && j == 4 {
            assert(metric_name(i)[0] != metric_name(j)[0]);
        } else if i == 12 && j == 4 {
            assert(metric_name(i)[0] != metric_name(j)[0]);
        } else if i == 12 && j == 11 {
            assert(metric_name(i)[17] != metric_name(j)[17]);
        } else if i == 13 && j == 7 {
            assert(metric_name(i)[0] != metric_name(j)[0]);
        } else if i == 14 && j == 2 {
            assert(metric_name(i)[0] != metric_name(j)[0]);
        } else if i == 14 && j == 3 {
            assert(metric_name(i)[0] != metric_name(j)[0]);
        } else if i == 16 && j == 4 {
            assert(metric_name(i)[0] != metric_name(j)[0]);
        } else if i == 16 && j == 11 {
            assert(metric_name(i)[0] != metric_name(j)[0]);
        } else if i == 16 && j == 12 {
            assert(metric_name(i)[0] != metric_name(j)[0]);
        } else if i == 18 && j == 0 {
            assert(metric_name(i)[0] != metric_name(j)[0]);
        } else if i == 20 && j == 0 {
            assert(metric_name(i)[0] != metric_name(j)[0]);
        } else if i == 20 && j == 18 {
            assert(metric_name(i)[0] != metric_name(j)[0]);
        } else if i == 22 && j == 5 {
            assert(metric_name(i)[0] != metric_name(j)[0]);
        } else if i == 25 && j == 7 {
            assert(metric_name(i)[0] != metric_name(j)[0]);
        } else if i == 25 && j == 13 {
            assert(metric_name(i)[0] != metric_name(j)[0]);
        } else if i == 26 && j == 7 {
            assert(metric_name(i)[0] != metric_name(j)[0]);
        } else if i == 26 && j == 13 {
            assert(metric_name(i)[0] != metric_name(j)[0]);
        } else if i == 26 && j == 25 {
            assert(metric_name(i)[6] != metric_name(j)[6]);
        } else if i == 27 && j == 8 {
            assert(metric_name(i)[0] != metric_name(j)[0]);
        } else if i == 27 && j == 9 {
            assert(metric_name(i)[0] != metric_name(j)[0]);
        } else if i == 30 && j == 28 {
            assert(metric_name(i)[0] != metric_name(j)[0]);
        }
    }
}

proof fn lemma_metric_named(i: int, from: int)
    requires
        0 <= from <= i < 31,
    ensures
        metric_named(metric_name(i), from) == Some(i),
    decreases i - from,
{
    if from < i {
        lemma_metric_name_distinct(i, from);
        lemma_metric_named(i, from + 1);
    }
}

proof fn lemma_metric_names(i: int)
    requires
        0 <= i < 31,
    ensures
        metric_named(metric_name(i), 0) == Some(i),
        is_plain(metric_name(i)),
        metric_name(i).len() > 0,
{
    lemma_metric_named(i, 0);
    lemma_metric_name_length(i);
    assert(is_plain(metric_name(i))) by {
        reveal_strlit("quoted_spread_bps");
        reveal_strlit("depth_at_best");
        reveal_strlit("depth_within_10bps");
        reveal_strlit("depth_within_50bps");
        reveal_strlit("depth_within_100bps");
        reveal_strlit("book_imbalance");
        reveal_strlit("total_book_depth");
        reveal_strlit("effective_spread_bps");
        reveal_strlit("realized_spread_bps_1s");
        reveal_strlit("realized_spread_bps_5s");
        reveal_strlit("realized_spread_bps_30s");
        reveal_strlit("price_impact_bps_1s");
        reveal_strlit("price_impact_bps_5s");
        reveal_strlit("price_impact_bps_30s");
        reveal_strlit("amihud_illiquidity");
        reveal_strlit("kyle_lambda");
        reveal_strlit("realized_volatility");
        reveal_strlit("intra_interval_price_dispersion");
        reveal_strlit("pricing_error_bps");
        reveal_strlit("executed_volume");
        reveal_strlit("executed_notional");
        reveal_strlit("vwap");
        reveal_strlit("trader_surplus");
        reveal_strlit("fill_rate");
        reveal_strlit("avg_time_to_execution_secs");
        reveal_strlit("order_size_inflation");
        reveal_strlit("order_to_trade_ratio");
        reveal_strlit("boundary_concentration");
        reveal_strlit("throughput_orders_per_sec");
        reveal_strlit("avg_clearing_latency_micros");
        reveal_strlit("unexecuted_residual_share");
    }
}

pub proof fn lemma_decimal_is_plain(n: int, c: char)
    requires
        0 <= n,
        !is_digit(c),
    ensures
        lacks(decimal(n), c),
{
    lemma_decimal(n);
    assert forall|i: int| 0 <= i < decimal(n).len() implies #[trigger] decimal(n)[i] != c by {
        assert(is_digit(decimal(n)[i]));
    }
}

/// One metric that was written reads back.
proof fn lemma_agg_reads_back(i: int, a: AggView)
    requires
        0 <= i < 31,
        0 <= a.n <= u64::MAX,
        is_numeral(a.sum),
        is_numeral(a.min),
        is_numeral(a.max),
    ensures
        read_agg(agg_text(i, a)) == Ok::<(Seq<char>, AggView), Seq<char>>((metric_name(i), a)),
        agg_text(i, a).len() > 0,
        lacks(agg_text(i, a), ';'),
        lacks(agg_text(i, a), '\n'),
        lacks(agg_text(i, a), '\r'),
{
    lemma_metric_names(i);
    lemma_numeral_is_plain(a.sum);
    lemma_numeral_is_plain(a.min);
    lemma_numeral_is_plain(a.max);
    let numbers: Seq<Seq<char>> = seq![decimal(a.n), a.sum, a.min, a.max];
    lemma_decimal_is_plain(a.n, ':');
    assert forall|k: int| 0 <= k < numbers.len() implies lacks(#[trigger] numbers[k], ':') by {
    }
    lemma_split_joined(numbers, ':');
    lemma_split_at(metric_name(i), '=', joined(numbers, ':'));
    law_decimal_reads_back(a.n, u64::MAX as int);
    lemma_agg_text_lacks(i, a, ';');
    lemma_agg_text_lacks(i, a, '\n');
    lemma_agg_text_lacks(i, a, '\r');
}

proof fn lemma_agg_text_lacks(i: int, a: AggView, c: char)
    requires
        0 <= a.n,
        !is_digit(c),
        c != ':',
        c != '=',
        lacks(metric_name(i), c),
        lacks(a.sum, c),
        lacks(a.min, c),
        lacks(a.max, c),
    ensures
        lacks(agg_text(i, a), c),
{
    let numbers: Seq<Seq<char>> = seq![decimal(a.n), a.sum, a.min, a.max];
    lemma_decimal_is_plain(a.n, c);
    assert forall|k: int| 0 <= k < numbers.len() implies lacks(#[trigger] numbers[k], c) by {
    }
    lemma_joined_lacks(numbers, ':', c);
    let head: Seq<char> = metric_name(i).push('=');
    let tail: Seq<char> = joined(numbers, ':');
    assert forall|k: int| 0 <= k < agg_text(i, a).len() implies #[trigger] agg_text(i, a)[k] != c by {
        if k < metric_name(i).len() {
            assert(agg_text(i, a)[k] == metric_name(i)[k]);
        } else if k > metric_name(i).len() {
            assert(agg_text(i, a)[k] == tail[k - head.len()]);
        }
    }
}

proof fn lemma_joined_lacks(parts: Seq<Seq<char>>, sep: char, c: char)
    requires
        sep != c,
        forall|i: int| 0 <= i < parts.len() ==> lacks(#[trigger] parts[i], c),
    ensures
        lacks(joined(parts, sep), c),
    decreases parts.len(),
{
    if parts.len() == 1 {
        assert(lacks(parts[0], c));
    } else if parts.len() > 1 {
        let short: Seq<Seq<char>> = parts.drop_last();
        assert forall|i: int| 0 <= i < short.len() implies lacks(#[trigger] short[i], c) by {
            assert(lacks(parts[i], c));
        }
        lemma_joined_lacks(short, sep, c);
        assert(lacks(parts[parts.len() - 1], c));
        let head: Seq<char> = joined(short, sep).push(sep);
        let s: Seq<char> = joined(parts, sep);
        assert forall|k: int| 0 <= k < s.len() implies #[trigger] s[k] != c by {
            if k < head.len() - 1 {
                assert(s[k] == joined(short, sep)[k]);
            } else if k >= head.len() {
                assert(s[k] == parts.last()[k - head.len()]);
            }
        }
    }
}

proof fn lemma_aggs_read_back(v: SummaryView, k: int)
    requires
        is_writable(v),
        0 <= k <= 31,
    ensures
        read_aggs(Seq::new(k as nat, |i: int| agg_text(i, v.aggs[i]))) == Ok::<Seq<AggView>, Seq<char>>(
            Seq::new(
                31,
                |i: int|
                    if i < k {
                        v.aggs[i]
                    } else {
                        no_agg()
                    },
            ),
        ),
    decreases k,
{
    let chunks: Seq<Seq<char>> = Seq::new(k as nat, |i: int| agg_text(i, v.aggs[i]));
    let now: Seq<AggView> = Seq::new(
        31,
        |i: int|
            if i < k {
                v.aggs[i]
            } else {
                no_agg()
            },
    );
    if k == 0 {
        assert(now =~= Seq::new(31, |i: int| no_agg()));
    } else {
        lemma_aggs_read_back(v, k - 1);
        let before: Seq<AggView> = Seq::new(
            31,
            |i: int|
                if i < k - 1 {
                    v.aggs[i]
                } else {
                    no_agg()
                },
        );
        assert(chunks.drop_last() =~= Seq::new((k - 1) as nat, |i: int| agg_text(i, v.aggs[i])));
        assert(0 <= v.aggs[k - 1].n <= u64::MAX);
        lemma_agg_reads_back(k - 1, v.aggs[k - 1]);
        lemma_metric_names(k - 1);
        assert(before.update(k - 1, v.aggs[k - 1]) =~= now);
    }
}

proof fn lemma_parts_lack(v: SummaryView, c: char)
    requires
        is_writable(v),
        c == '\n' || c == '\r',
    ensures
        lacks(summary_text(v), c),
{
    let parts: Seq<Seq<char>> = summary_parts(v);
    lemma_decimal_is_plain(v.intervals, c);
    lemma_decimal_is_plain(v.trades, c);
    lemma_numeral_is_plain(v.volume);
    lemma_numeral_is_plain(v.notional);
    assert forall|i: int| 0 <= i < parts.len() implies lacks(#[trigger] parts[i], c) by {
        if i >= 4 {
            assert(0 <= v.aggs[i - 4].n <= u64::MAX);
            lemma_agg_reads_back(i - 4, v.aggs[i - 4]);
        }
    }
    lemma_joined_lacks(parts, ';', c);
}

/// Totals that were written read back as the same totals, and they are written
/// on one line.
pub proof fn law_summary_reads_back(v: SummaryView)
    requires
        is_writable(v),
    ensures
        read_summary(summary_text(v)) == Ok::<SummaryView, Seq<char>>(v),
        lacks(summary_text(v), '\n'),
        lacks(summary_text(v), '\r'),
{
    let parts: Seq<Seq<char>> = summary_parts(v);
    lemma_numeral_is_plain(v.volume);
    lemma_numeral_is_plain(v.notional);
    lemma_parts_lack(v, '\n');
    lemma_parts_lack(v, '\r');
    lemma_decimal_is_plain(v.intervals, ';');
    lemma_decimal_is_plain(v.trades, ';');
    assert forall|i: int| 0 <= i < parts.len() implies lacks(#[trigger] parts[i], ';') by {
        if i >= 4 {
            assert(0 <= v.aggs[i - 4].n <= u64::MAX);
            lemma_agg_reads_back(i - 4, v.aggs[i - 4]);
        }
    }
    lemma_split_joined(parts, ';');
    law_decimal_reads_back(v.intervals, u64::MAX as int);
    law_decimal_reads_back(v.trades, u64::MAX as int);
    assert(parts.skip(4) =~= Seq::new(31, |i: int| agg_text(i, v.aggs[i])));
    lemma_aggs_read_back(v, 31);
    assert(Seq::new(
        31,
        |i: int|
            if i < 31 {
                v.aggs[i]
            } else {
                no_agg()
            },
    ) =~= v.aggs);
}

/// Which engines a metric says something about.
#[derive(Clone, Copy, Debug, PartialEq, Eq, Structural)]
pub enum Scope {
    Universal,
    FbaOnly,
    CdaOnly,
    NeedsExternalData,
}

pub open spec fn metric_scope(i: int) -> Scope {
    if metric_name(i) == "book_imbalance"@ || metric_name(i) == "total_book_depth"@ {
        Scope::CdaOnly
    } else if metric_name(i) == "boundary_concentration"@ || metric_name(i) == "unexecuted_residual_share"@ {
        Scope::FbaOnly
    } else if metric_name(i) == "pricing_error_bps"@ {
        Scope::NeedsExternalData
    } else {
        Scope::Universal
    }
}

/// Which engines metric number `i` says something about.
pub fn scope_of(i: usize) -> (r: Scope)
    requires
        i < 31,
    ensures
        r == metric_scope(i as int),
{
    let name: Vec<char> = chars_of(metric_text(i));
    if is_text(&name, "book_imbalance") || is_text(&name, "total_book_depth") {
        Scope::CdaOnly
    } else if is_text(&name, "boundary_concentration") || is_text(&name, "unexecuted_residual_share") {
        Scope::FbaOnly
    } else if is_text(&name, "pricing_error_bps") {
        Scope::NeedsExternalData
    } else {
        Scope::Universal
    }
}

/// Whether a metric is never there for an engine, whatever happened.
pub open spec fn never_there(scope: Scope, engine: EngineKind) -> bool {
    match scope {
        Scope::Universal => false,
        Scope::FbaOnly => engine != EngineKind::Fba,
        Scope::CdaOnly => engine != EngineKind::Cda,
        Scope::NeedsExternalData => true,
    }
}

/// Whether metric number `i` is never there for an engine.
pub fn is_never_there(i: usize, engine: EngineKind) -> (r: bool)
    requires
        i < 31,
    ensures
        r == never_there(metric_scope(i as int), engine),
{
    match scope_of(i) {
        Scope::Universal => false,
        Scope::FbaOnly => engine != EngineKind::Fba,
        Scope::CdaOnly => engine != EngineKind::Cda,
        Scope::NeedsExternalData => true,
    }
}

/// The name of metric number `i`.
pub fn name_of(i: usize) -> (r: &'static str)
    requires
        i < 31,
    ensures
        r@ == metric_name(i as int),
{
    metric_text(i)
}

} // verus!
