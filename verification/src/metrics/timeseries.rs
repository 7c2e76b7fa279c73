//! Records the events of one engine and hands out the rows of the time
//! series as their intervals are settled.

use vstd::prelude::*;
use crate::metrics::events::{BatchClearedEvent, BookSnapshot, OrderMessage, TradeEvent};
use crate::metrics::facts::{
    batch_times, book_times, clearing_before, close_before, interval_facts, message_times, row_holds, times_of_batches,
    times_of_books, times_of_messages, times_of_trades, trade_times, Carry, EventLog, IntervalFacts,
};
use crate::metrics::grid::{
    bucket, bucket_of, law_bucket_holds_the_moment, lemma_on_grid_later, lemma_rows_between, on_grid, row_start,
    rows_between,
};
use crate::metrics::series::series;
use crate::types::EngineKind;

verus! {

/// What a recorder holds.
pub struct RecorderState {
    pub engine: EngineKind,
    pub width: int,
    /// Where the grid starts, once that is known.
    pub anchor: Option<int>,
    /// Every interval before this moment has been handed out.
    pub emitted: int,
    pub carry: Carry,
    pub trades: Seq<TradeEvent>,
    pub batches: Seq<BatchClearedEvent>,
    pub books: Seq<BookSnapshot>,
    /// Events that came too late for their interval.
    pub late: int,
}

/// The earliest of these messages; none if there are none, or only such at
/// the end of time.
pub open spec fn earliest(messages: Seq<OrderMessage>) -> Option<int>
    decreases messages.len(),
{
    if messages.len() == 0 {
        None
    } else {
        let ts = messages.last().ts as int;
        match earliest(messages.drop_last()) {
            Some(t) if t <= ts => Some(t),
            other => if ts < u64::MAX {
                Some(ts)
            } else {
                other
            },
        }
    }
}

impl RecorderState {
    pub open spec fn new(engine: EngineKind, width: int) -> RecorderState {
        RecorderState {
            engine,
            width,
            anchor: None,
            emitted: 0,
            carry: Carry { prev_close: None, prev_clearing: None },
            trades: Seq::empty(),
            batches: Seq::empty(),
            books: Seq::empty(),
            late: 0,
        }
    }

    /// After the first moment seen: the grid starts there.
    pub open spec fn observed(self, ts: int) -> RecorderState {
        if self.anchor is Some {
            self
        } else {
            RecorderState { anchor: Some(ts), emitted: ts, ..self }
        }
    }

    /// Whether the interval of a moment has already been handed out.
    pub open spec fn is_late(self, ts: int) -> bool {
        match self.anchor {
            Some(a) => bucket(ts, a, self.width) < self.emitted,
            None => false,
        }
    }

    pub open spec fn missed(self) -> RecorderState {
        RecorderState {
            late: if self.late < u64::MAX {
                self.late + 1
            } else {
                self.late
            },
            ..self
        }
    }

    pub open spec fn with_trade(self, t: TradeEvent) -> RecorderState {
        let s = self.observed(t.trade.ts as int);
        if s.is_late(t.trade.ts as int) {
            s.missed()
        } else {
            RecorderState { trades: s.trades.push(t), ..s }
        }
    }

    pub open spec fn with_batch(self, b: BatchClearedEvent) -> RecorderState {
        let s = self.observed(b.ts as int);
        if s.is_late(b.ts as int) {
            s.missed()
        } else {
            RecorderState { batches: s.batches.push(b), ..s }
        }
    }

    pub open spec fn with_book(self, b: BookSnapshot) -> RecorderState {
        let s = self.observed(b.ts as int);
        if s.is_late(b.ts as int) {
            s.missed()
        } else {
            RecorderState { books: s.books.push(b), ..s }
        }
    }

    /// With a grid, if there is anything to start it at.
    pub open spec fn anchored(self, messages: Seq<OrderMessage>) -> RecorderState {
        match (self.anchor, earliest(messages)) {
            (None, Some(ts)) => self.observed(ts),
            _ => self,
        }
    }

    /// How many rows there are to hand out up to `hi`.
    pub open spec fn due(self, hi: int) -> int {
        if self.anchor is Some && self.width > 0 {
            rows_between(self.emitted, hi, self.width)
        } else {
            0
        }
    }

    /// After the rows up to `hi` have been handed out.
    pub open spec fn emitted_to(self, hi: int) -> RecorderState {
        let n = self.due(hi);
        if n == 0 {
            self
        } else {
            let a = self.anchor->0;
            let end = row_start(self.emitted, n, self.width);
            RecorderState {
                emitted: if end <= u64::MAX {
                    end
                } else {
                    u64::MAX as int
                },
                carry: Carry {
                    prev_close: close_before(
                        series(self.books, self.batches),
                        a,
                        self.width,
                        self.emitted,
                        n,
                        self.carry.prev_close,
                    ),
                    prev_clearing: clearing_before(self.batches, a, self.width, end, self.carry.prev_clearing),
                },
                ..self
            }
        }
    }

    /// The latest moment on record, or 0.
    pub open spec fn latest(self, messages: Seq<OrderMessage>) -> int {
        max_of(
            max_of(latest_in(message_times(messages)), latest_in(trade_times(self.trades))),
            max_of(latest_in(batch_times(self.batches)), latest_in(book_times(self.books))),
        )
    }

    /// Whether these are the rows to hand out up to `hi`.
    pub open spec fn are_rows(self, messages: Seq<OrderMessage>, hi: int, rows: Seq<IntervalFacts>) -> bool {
        &&& rows.len() == self.due(hi)
        &&& forall|k: int|
            0 <= k < rows.len() ==> row_holds(
                #[trigger] rows[k],
                messages,
                self.trades,
                self.batches,
                self.books,
                self.anchor->0,
                self.width,
                self.emitted,
                self.due(hi),
                self.carry,
                k,
            )
    }

    /// Without the events whose intervals have been handed out.
    pub open spec fn pruned(self) -> RecorderState {
        match self.anchor {
            Some(a) => RecorderState {
                trades: self.trades.filter(trade_kept(a, self.width, self.emitted)),
                batches: self.batches.filter(batch_kept(a, self.width, self.emitted)),
                books: self.books.filter(book_kept(a, self.width, self.emitted)),
                ..self
            },
            None => self,
        }
    }
}

pub open spec fn trade_kept(anchor: int, width: int, cutoff: int) -> spec_fn(TradeEvent) -> bool {
    |t: TradeEvent| bucket(t.trade.ts as int, anchor, width) >= cutoff
}

pub open spec fn batch_kept(anchor: int, width: int, cutoff: int) -> spec_fn(BatchClearedEvent) -> bool {
    |b: BatchClearedEvent| bucket(b.ts as int, anchor, width) >= cutoff
}

pub open spec fn book_kept(anchor: int, width: int, cutoff: int) -> spec_fn(BookSnapshot) -> bool {
    |s: BookSnapshot| bucket(s.ts as int, anchor, width) >= cutoff
}

pub open spec fn message_kept(anchor: int, width: int, cutoff: int) -> spec_fn(OrderMessage) -> bool {
    |m: OrderMessage| bucket(m.ts as int, anchor, width) >= cutoff
}

pub open spec fn max_of(x: int, y: int) -> int {
    if x >= y {
        x
    } else {
        y
    }
}

/// The latest of these moments, or 0.
pub open spec fn latest_in(times: Seq<u64>) -> int
    decreases times.len(),
{
    if times.len() == 0 {
        0
    } else {
        max_of(latest_in(times.drop_last()), times.last() as int)
    }
}

/// The latest moment among messages and events, or 0.
pub fn latest_moment(messages: &Vec<OrderMessage>, log: &EventLog) -> (r: u64)
    ensures
        r == max_of(
            max_of(latest_in(message_times(messages@)), latest_in(trade_times(log.trades@))),
            max_of(latest_in(batch_times(log.batches@)), latest_in(book_times(log.books@))),
        ),
{
    let mut last: u64 = latest_time(&times_of_messages(messages));
    let t: u64 = latest_time(&times_of_trades(&log.trades));
    let b: u64 = latest_time(&times_of_batches(&log.batches));
    let s: u64 = latest_time(&times_of_books(&log.books));
    if t > last {
        last = t;
    }
    if b > last {
        last = b;
    }
    if s > last {
        last = s;
    }
    last
}

fn latest_time(times: &Vec<u64>) -> (r: u64)
    ensures
        r == latest_in(times@),
{
    let mut r: u64 = 0;
    let mut i: usize = 0;
    assert(times@.take(0) =~= Seq::<u64>::empty());
    while i < times.len()
        invariant
            i <= times.len(),
            r == latest_in(times@.take(i as int)),
        decreases times.len() - i,
    {
        assert(times@.take(i + 1).drop_last() =~= times@.take(i as int));
        if times[i] > r {
            r = times[i];
        }
        i += 1;
    }
    assert(times@.take(i as int) =~= times@);
    r
}

/// Records the events of one engine.
pub struct MetricsRecorder {
    engine: EngineKind,
    interval_width: u64,
    anchor: Option<u64>,
    emitted_upto: u64,
    carry: Carry,
    log: EventLog,
    late_events_dropped: u64,
}

impl View for MetricsRecorder {
    type V = RecorderState;

    closed spec fn view(&self) -> RecorderState {
        RecorderState {
            engine: self.engine,
            width: self.interval_width as int,
            anchor: match self.anchor {
                Some(a) => Some(a as int),
                None => None,
            },
            emitted: self.emitted_upto as int,
            carry: self.carry,
            trades: self.log.trades@,
            batches: self.log.batches@,
            books: self.log.books@,
            late: self.late_events_dropped as int,
        }
    }
}

impl MetricsRecorder {
    /// The next row to hand out starts on the grid, unless time is at its end.
    pub closed spec fn wf(&self) -> bool {
        match self.anchor {
            Some(a) => self.interval_width > 0 ==> on_grid(self.emitted_upto as int, a as int, self.interval_width as int)
                || self.emitted_upto == u64::MAX,
            None => self.log.trades@.len() == 0 && self.log.batches@.len() == 0 && self.log.books@.len() == 0,
        }
    }

    /// A recorder for intervals of this width.
    pub fn new(engine: EngineKind, interval_width_ns: u64) -> (r: Self)
        ensures
            r.wf(),
            r@ == RecorderState::new(engine, interval_width_ns as int),
    {
        let r: MetricsRecorder = MetricsRecorder {
            engine,
            interval_width: interval_width_ns,
            anchor: None,
            emitted_upto: 0,
            carry: Carry { prev_close: None, prev_clearing: None },
            log: EventLog { trades: Vec::new(), batches: Vec::new(), books: Vec::new() },
            late_events_dropped: 0,
        };
        proof {
            assert(r.log.trades@ =~= Seq::<TradeEvent>::empty());
            assert(r.log.batches@ =~= Seq::<BatchClearedEvent>::empty());
            assert(r.log.books@ =~= Seq::<BookSnapshot>::empty());
        }
        r
    }

    /// A recorder that goes on from where another one stopped: with the same
    /// grid, the rows handed out and what was carried on from them, but
    /// without any events.
    pub fn resume(
        engine: EngineKind,
        interval_width_ns: u64,
        anchor: u64,
        emitted_upto: u64,
        carry: Carry,
        late_events_dropped: u64,
    ) -> (r: Self)
        requires
            interval_width_ns > 0 ==> on_grid(emitted_upto as int, anchor as int, interval_width_ns as int) || emitted_upto
                == u64::MAX,
        ensures
            r.wf(),
            r@ == (RecorderState {
                anchor: Some(anchor as int),
                emitted: emitted_upto as int,
                carry,
                late: late_events_dropped as int,
                ..RecorderState::new(engine, interval_width_ns as int)
            }),
    {
        let r: MetricsRecorder = MetricsRecorder {
            engine,
            interval_width: interval_width_ns,
            anchor: Some(anchor),
            emitted_upto,
            carry,
            log: EventLog { trades: Vec::new(), batches: Vec::new(), books: Vec::new() },
            late_events_dropped,
        };
        proof {
            assert(r.log.trades@ =~= Seq::<TradeEvent>::empty());
            assert(r.log.batches@ =~= Seq::<BatchClearedEvent>::empty());
            assert(r.log.books@ =~= Seq::<BookSnapshot>::empty());
        }
        r
    }

    /// Where the grid starts.
    pub fn anchor(&self) -> (r: Option<u64>)
        ensures
            match r {
                Some(a) => self@.anchor == Some(a as int),
                None => self@.anchor is None,
            },
    {
        self.anchor
    }

    /// Up to where rows have been handed out.
    pub fn emitted_upto(&self) -> (r: u64)
        ensures
            r == self@.emitted,
    {
        self.emitted_upto
    }

    /// What the next row needs to know of the ones handed out.
    pub fn carry(&self) -> (r: Carry)
        ensures
            r == self@.carry,
    {
        self.carry
    }

    /// How many events came too late.
    pub fn late_events_dropped(&self) -> (r: u64)
        ensures
            r == self@.late,
    {
        self.late_events_dropped
    }

    /// The events on record, for the positions in the rows.
    pub fn events(&self) -> (r: &EventLog)
        ensures
            r.trades@ == self@.trades,
            r.batches@ == self@.batches,
            r.books@ == self@.books,
    {
        &self.log
    }

    fn observe_ts(&mut self, ts: u64)
        requires
            old(self).wf(),
        ensures
            final(self).wf(),
            final(self)@ == old(self)@.observed(ts as int),
            final(self)@.anchor is Some,
            final(self).log == old(self).log,
    {
        if self.anchor.is_none() {
            self.anchor = Some(ts);
            self.emitted_upto = ts;
            proof {
                if self.interval_width > 0 {
                    law_bucket_holds_the_moment(ts as int, ts as int, self.interval_width as int);
                }
            }
        }
    }

    /// Starts the grid here, unless it has started.
    pub fn set_anchor(&mut self, ts: u64)
        requires
            old(self).wf(),
        ensures
            final(self).wf(),
            final(self)@ == old(self)@.observed(ts as int),
    {
        self.observe_ts(ts);
    }

    fn is_late(&self, ts: u64) -> (r: bool)
        requires
            self@.width > 0,
        ensures
            r == self@.is_late(ts as int),
    {
        match self.anchor {
            Some(a) => bucket_of(ts, a, self.interval_width) < self.emitted_upto,
            None => false,
        }
    }

    /// Records a trade, unless it comes too late.
    pub fn record_trade(&mut self, trade: TradeEvent)
        requires
            old(self).wf(),
            old(self)@.width > 0,
        ensures
            final(self).wf(),
            final(self)@ == old(self)@.with_trade(trade),
    {
        self.observe_ts(trade.trade.ts);
        if self.is_late(trade.trade.ts) {
            self.late_events_dropped = self.late_events_dropped.saturating_add(1);
        } else {
            self.log.trades.push(trade);
        }
    }

    /// Records a batch, unless it comes too late.
    pub fn record_batch(&mut self, batch: BatchClearedEvent)
        requires
            old(self).wf(),
            old(self)@.width > 0,
        ensures
            final(self).wf(),
            final(self)@ == old(self)@.with_batch(batch),
    {
        self.observe_ts(batch.ts);
        if self.is_late(batch.ts) {
            self.late_events_dropped = self.late_events_dropped.saturating_add(1);
        } else {
            self.log.batches.push(batch);
        }
    }

    /// Records a book, unless it comes too late.
    pub fn record_book_snapshot(&mut self, snapshot: BookSnapshot)
        requires
            old(self).wf(),
            old(self)@.width > 0,
        ensures
            final(self).wf(),
            final(self)@ == old(self)@.with_book(snapshot),
    {
        self.observe_ts(snapshot.ts);
        if self.is_late(snapshot.ts) {
            self.late_events_dropped = self.late_events_dropped.saturating_add(1);
        } else {
            self.log.books.push(snapshot);
        }
    }

    /// How many rows there are to hand out up to `hi`.
    pub fn rows_due(&self, messages: &Vec<OrderMessage>, hi: u64) -> (r: u64)
        requires
            self.wf(),
        ensures
            r == self@.anchored(messages@).due(hi as int),
    {
        let lo: u64 = match self.anchor {
            Some(_) => self.emitted_upto,
            None => match earliest_of(messages) {
                Some(ts) => ts,
                None => {
                    return 0;
                },
            },
        };
        if self.interval_width == 0 || hi <= lo {
            return 0;
        }
        proof {
            let w: int = self.interval_width as int;
            vstd::arithmetic::div_mod::lemma_div_pos_is_pos(hi - lo - 1, w);
            vstd::arithmetic::div_mod::lemma_div_nonincreasing(hi - lo - 1, w);
        }
        (hi - lo - 1) / self.interval_width + 1
    }

    /// Hands out a row for every interval that starts before `hi` and has not
    /// been handed out, whether or not anything happened in it. Look-ups in a
    /// row reach past `hi` into the events on record.
    pub fn emit(&mut self, messages: &Vec<OrderMessage>, hi: u64) -> (r: Vec<IntervalFacts>)
        requires
            old(self).wf(),
            old(self)@.anchored(messages@).due(hi as int) <= usize::MAX,
        ensures
            final(self).wf(),
            old(self)@.anchored(messages@).are_rows(messages@, hi as int, r@),
            final(self)@ == old(self)@.anchored(messages@).emitted_to(hi as int),
    {
        if self.anchor.is_none() {
            match earliest_of(messages) {
                Some(ts) => {
                    self.observe_ts(ts);
                },
                None => {
                    return Vec::new();
                },
            }
        }
        let anchor: u64 = match self.anchor {
            Some(a) => a,
            None => {
                return Vec::new();
            },
        };
        if self.interval_width == 0 || hi <= self.emitted_upto {
            return Vec::new();
        }
        let lo: u64 = self.emitted_upto;
        let w: u64 = self.interval_width;
        proof {
            lemma_rows_between(lo as int, hi as int, w as int);
            vstd::arithmetic::div_mod::lemma_div_pos_is_pos(hi - lo - 1, w as int);
            vstd::arithmetic::div_mod::lemma_div_nonincreasing(hi - lo - 1, w as int);
        }
        let n: u64 = (hi - lo - 1) / w + 1;
        proof {
            assert(n == rows_between(lo as int, hi as int, w as int));
            assert(row_start(lo as int, n - 1, w as int) < hi);
            lemma_on_grid_later(lo as int, n as int, anchor as int, w as int);
            assert(n * w <= 0xffff_ffff_ffff_ffff * 0xffff_ffff_ffff_ffff) by (nonlinear_arith)
                requires
                    n <= 0xffff_ffff_ffff_ffff,
                    w <= 0xffff_ffff_ffff_ffff,
            ;
        }
        let (rows, carry): (Vec<IntervalFacts>, Carry) = interval_facts(
            &self.log,
            messages,
            anchor,
            w,
            lo,
            n as usize,
            self.carry,
        );
        let end: u128 = lo as u128 + n as u128 * w as u128;
        self.carry = carry;
        self.emitted_upto = if end <= u64::MAX as u128 {
            end as u64
        } else {
            u64::MAX
        };
        rows
    }

    /// Hands out all rows up to the one that holds `max_seen_ts`.
    pub fn finish(&mut self, messages: &Vec<OrderMessage>, max_seen_ts: u64) -> (r: Vec<IntervalFacts>)
        requires
            old(self).wf(),
            old(self)@.anchored(messages@).due(after(max_seen_ts as int)) <= usize::MAX,
        ensures
            final(self).wf(),
            old(self)@.anchored(messages@).are_rows(messages@, after(max_seen_ts as int), r@),
            final(self)@ == old(self)@.anchored(messages@).emitted_to(after(max_seen_ts as int)),
    {
        self.emit(messages, max_seen_ts.saturating_add(1))
    }

    /// Hands out the rows of everything on record.
    pub fn finalize(&mut self, messages: &Vec<OrderMessage>) -> (r: Vec<IntervalFacts>)
        requires
            old(self).wf(),
            old(self)@.anchored(messages@).due(after(old(self)@.latest(messages@))) <= usize::MAX,
        ensures
            final(self).wf(),
            old(self)@.anchored(messages@).are_rows(messages@, after(old(self)@.latest(messages@)), r@),
            final(self)@ == old(self)@.anchored(messages@).emitted_to(after(old(self)@.latest(messages@))),
    {
        let last: u64 = latest_moment(messages, &self.log);
        self.finish(messages, last)
    }

    /// Drops the events whose intervals have been handed out.
    pub fn prune(&mut self)
        requires
            old(self).wf(),
            old(self)@.width > 0,
        ensures
            final(self).wf(),
            final(self)@ == old(self)@.pruned(),
    {
        if let Some(anchor) = self.anchor {
            let w: u64 = self.interval_width;
            let cutoff: u64 = self.emitted_upto;
            let mut trades: Vec<TradeEvent> = Vec::new();
            let mut batches: Vec<BatchClearedEvent> = Vec::new();
            let mut books: Vec<BookSnapshot> = Vec::new();
            std::mem::swap(&mut trades, &mut self.log.trades);
            std::mem::swap(&mut batches, &mut self.log.batches);
            std::mem::swap(&mut books, &mut self.log.books);
            self.log.trades = kept_trades(trades, anchor, w, cutoff);
            self.log.batches = kept_batches(batches, anchor, w, cutoff);
            self.log.books = kept_books(books, anchor, w, cutoff);
        }
    }
}

/// The columns of the time series.
pub fn csv_header() -> (r: String)
    ensures
        r@ == "engine,interval_start_ns,interval_width_ns,quoted_spread_bps,depth_at_best,depth_within_10bps,depth_within_50bps,depth_within_100bps,book_imbalance,total_book_depth,effective_spread_bps,realized_spread_bps_1s,realized_spread_bps_5s,realized_spread_bps_30s,price_impact_bps_1s,price_impact_bps_5s,price_impact_bps_30s,amihud_illiquidity,kyle_lambda,realized_volatility,intra_interval_price_dispersion,pricing_error_bps,executed_volume,executed_notional,vwap,trade_count,fill_rate,avg_time_to_execution_secs,trader_surplus,order_size_inflation,order_to_trade_ratio,boundary_concentration,throughput_orders_per_sec,avg_clearing_latency_micros,unexecuted_residual_share"@,
{
    "engine,interval_start_ns,interval_width_ns,quoted_spread_bps,depth_at_best,depth_within_10bps,depth_within_50bps,depth_within_100bps,book_imbalance,total_book_depth,effective_spread_bps,realized_spread_bps_1s,realized_spread_bps_5s,realized_spread_bps_30s,price_impact_bps_1s,price_impact_bps_5s,price_impact_bps_30s,amihud_illiquidity,kyle_lambda,realized_volatility,intra_interval_price_dispersion,pricing_error_bps,executed_volume,executed_notional,vwap,trade_count,fill_rate,avg_time_to_execution_secs,trader_surplus,order_size_inflation,order_to_trade_ratio,boundary_concentration,throughput_orders_per_sec,avg_clearing_latency_micros,unexecuted_residual_share".to_owned()
}

/// The moment after another, unless that is the last one.
pub open spec fn after(ts: int) -> int {
    if ts < u64::MAX {
        ts + 1
    } else {
        ts
    }
}

fn earliest_of(messages: &Vec<OrderMessage>) -> (r: Option<u64>)
    ensures
        match r {
            Some(ts) => earliest(messages@) == Some(ts as int),
            None => earliest(messages@) is None,
        },
{
    let mut best: u64 = u64::MAX;
    let mut i: usize = 0;
    assert(messages@.take(0) =~= Seq::<OrderMessage>::empty());
    while i < messages.len()
        invariant
            i <= messages.len(),
            match earliest(messages@.take(i as int)) {
                Some(t) => t == best && best < u64::MAX,
                None => best == u64::MAX,
            },
        decreases messages.len() - i,
    {
        assert(messages@.take(i + 1).drop_last() =~= messages@.take(i as int));
        if messages[i].ts < best {
            best = messages[i].ts;
        }
        i += 1;
    }
    assert(messages@.take(i as int) =~= messages@);
    if best == u64::MAX {
        None
    } else {
        Some(best)
    }
}

fn kept_trades(trades: Vec<TradeEvent>, anchor: u64, width: u64, cutoff: u64) -> (r: Vec<TradeEvent>)
    requires
        width > 0,
    ensures
        r@ == trades@.filter(trade_kept(anchor as int, width as int, cutoff as int)),
{
    let ghost keep = trade_kept(anchor as int, width as int, cutoff as int);
    let ghost all: Seq<TradeEvent> = trades@;
    let mut r: Vec<TradeEvent> = Vec::new();
    proof {
        reveal(Seq::filter);
        assert(all.take(0) =~= Seq::<TradeEvent>::empty());
    }
    for t in iter: trades
        invariant
            width > 0,
            iter.seq() == all,
            keep == trade_kept(anchor as int, width as int, cutoff as int),
            r@ == all.take(iter.index() as int).filter(keep),
    {
        proof {
            reveal(Seq::filter);
            assert(all.take(iter.index() + 1).drop_last() =~= all.take(iter.index() as int));
            assert(all.take(iter.index() + 1).last() == t);
        }
        if bucket_of(t.trade.ts, anchor, width) >= cutoff {
            r.push(t);
        }
    }
    assert(all.take(all.len() as int) =~= all);
    r
}

fn kept_batches(batches: Vec<BatchClearedEvent>, anchor: u64, width: u64, cutoff: u64) -> (r: Vec<BatchClearedEvent>)
    requires
        width > 0,
    ensures
        r@ == batches@.filter(batch_kept(anchor as int, width as int, cutoff as int)),
{
    let ghost keep = batch_kept(anchor as int, width as int, cutoff as int);
    let ghost all: Seq<BatchClearedEvent> = batches@;
    let mut r: Vec<BatchClearedEvent> = Vec::new();
    proof {
        reveal(Seq::filter);
        assert(all.take(0) =~= Seq::<BatchClearedEvent>::empty());
    }
    for b in iter: batches
        invariant
            width > 0,
            iter.seq() == all,
            keep == batch_kept(anchor as int, width as int, cutoff as int),
            r@ == all.take(iter.index() as int).filter(keep),
    {
        proof {
            reveal(Seq::filter);
            assert(all.take(iter.index() + 1).drop_last() =~= all.take(iter.index() as int));
            assert(all.take(iter.index() + 1).last() == b);
        }
        if bucket_of(b.ts, anchor, width) >= cutoff {
            r.push(b);
        }
    }
    assert(all.take(all.len() as int) =~= all);
    r
}

fn kept_books(books: Vec<BookSnapshot>, anchor: u64, width: u64, cutoff: u64) -> (r: Vec<BookSnapshot>)
    requires
        width > 0,
    ensures
        r@ == books@.filter(book_kept(anchor as int, width as int, cutoff as int)),
{
    let ghost keep = book_kept(anchor as int, width as int, cutoff as int);
    let ghost all: Seq<BookSnapshot> = books@;
    let mut r: Vec<BookSnapshot> = Vec::new();
    proof {
        reveal(Seq::filter);
        assert(all.take(0) =~= Seq::<BookSnapshot>::empty());
    }
    for s in iter: books
        invariant
            width > 0,
            iter.seq() == all,
            keep == book_kept(anchor as int, width as int, cutoff as int),
            r@ == all.take(iter.index() as int).filter(keep),
    {
        proof {
            reveal(Seq::filter);
            assert(all.take(iter.index() + 1).drop_last() =~= all.take(iter.index() as int));
            assert(all.take(iter.index() + 1).last() == s);
        }
        if bucket_of(s.ts, anchor, width) >= cutoff {
            r.push(s);
        }
    }
    assert(all.take(all.len() as int) =~= all);
    r
}

} // verus!
