//! Collects everything first and computes all rows at the end.

use vstd::prelude::*;
use crate::metrics::events::{BatchClearedEvent, BookSnapshot, OrderMessage, TradeEvent};
use crate::metrics::facts::{
    batch_times, book_times, interval_facts, message_times, row_holds, times_of_batches, times_of_books,
    times_of_messages, times_of_trades, trade_times, Carry, EventLog, IntervalFacts,
};
use crate::metrics::grid::{lemma_rows_between, row_start, rows_between};
use crate::metrics::timeseries::{latest_in, latest_moment, max_of};
use crate::seqs::min_of;
use crate::types::EngineKind;

verus! {

/// What a collector holds.
pub struct CollectorState {
    pub engine: EngineKind,
    pub width: int,
    pub messages: Seq<OrderMessage>,
    pub trades: Seq<TradeEvent>,
    pub batches: Seq<BatchClearedEvent>,
    pub books: Seq<BookSnapshot>,
}

/// The earliest of these moments, or the end of time.
pub open spec fn earliest_in(times: Seq<u64>) -> int
    decreases times.len(),
{
    if times.len() == 0 {
        u64::MAX as int
    } else {
        min_of(earliest_in(times.drop_last()), times.last() as int)
    }
}

impl CollectorState {
    pub open spec fn new(engine: EngineKind, width: int) -> CollectorState {
        CollectorState {
            engine,
            width,
            messages: Seq::empty(),
            trades: Seq::empty(),
            batches: Seq::empty(),
            books: Seq::empty(),
        }
    }

    /// The first moment on record.
    pub open spec fn first(self) -> int {
        min_of(
            min_of(earliest_in(message_times(self.messages)), earliest_in(trade_times(self.trades))),
            min_of(earliest_in(batch_times(self.batches)), earliest_in(book_times(self.books))),
        )
    }

    /// The last moment on record.
    pub open spec fn last(self) -> int {
        max_of(
            max_of(latest_in(message_times(self.messages)), latest_in(trade_times(self.trades))),
            max_of(latest_in(batch_times(self.batches)), latest_in(book_times(self.books))),
        )
    }

    /// How many intervals there are from the first moment to the last.
    pub open spec fn row_count(self) -> int {
        if self.width == 0 || self.first() == u64::MAX {
            0
        } else {
            (self.last() - self.first()) / self.width + 1
        }
    }
}

/// Collects the events of one engine.
pub struct MetricsCollector {
    engine: EngineKind,
    interval_width: u64,
    messages: Vec<OrderMessage>,
    log: EventLog,
}

impl View for MetricsCollector {
    type V = CollectorState;

    closed spec fn view(&self) -> CollectorState {
        CollectorState {
            engine: self.engine,
            width: self.interval_width as int,
            messages: self.messages@,
            trades: self.log.trades@,
            batches: self.log.batches@,
            books: self.log.books@,
        }
    }
}

fn earliest_time(times: &Vec<u64>) -> (r: u64)
    ensures
        r == earliest_in(times@),
{
    let mut r: u64 = u64::MAX;
    let mut i: usize = 0;
    assert(times@.take(0) =~= Seq::<u64>::empty());
    while i < times.len()
        invariant
            i <= times.len(),
            r == earliest_in(times@.take(i as int)),
        decreases times.len() - i,
    {
        assert(times@.take(i + 1).drop_last() =~= times@.take(i as int));
        if times[i] < r {
            r = times[i];
        }
        i += 1;
    }
    assert(times@.take(i as int) =~= times@);
    r
}

proof fn lemma_first_before_last(times: Seq<u64>)
    ensures
        earliest_in(times) < u64::MAX ==> 0 <= earliest_in(times) <= latest_in(times),
        0 <= latest_in(times) <= u64::MAX,
    decreases times.len(),
{
    if times.len() > 0 {
        lemma_first_before_last(times.drop_last());
    }
}

impl MetricsCollector {
    /// A collector for intervals of this width.
    pub fn new(engine: EngineKind, interval_width_ns: u64) -> (r: Self)
        ensures
            r@ == CollectorState::new(engine, interval_width_ns as int),
    {
        let r: MetricsCollector = MetricsCollector {
            engine,
            interval_width: interval_width_ns,
            messages: Vec::new(),
            log: EventLog { trades: Vec::new(), batches: Vec::new(), books: Vec::new() },
        };
        proof {
            assert(r.messages@ =~= Seq::<OrderMessage>::empty());
            assert(r.log.trades@ =~= Seq::<TradeEvent>::empty());
            assert(r.log.batches@ =~= Seq::<BatchClearedEvent>::empty());
            assert(r.log.books@ =~= Seq::<BookSnapshot>::empty());
        }
        r
    }

    pub fn record_message(&mut self, msg: OrderMessage)
        ensures
            final(self)@ == (CollectorState { messages: old(self)@.messages.push(msg), ..old(self)@ }),
    {
        self.messages.push(msg);
    }

    pub fn record_trade(&mut self, trade: TradeEvent)
        ensures
            final(self)@ == (CollectorState { trades: old(self)@.trades.push(trade), ..old(self)@ }),
    {
        self.log.trades.push(trade);
    }

    pub fn record_batch(&mut self, batch: BatchClearedEvent)
        ensures
            final(self)@ == (CollectorState { batches: old(self)@.batches.push(batch), ..old(self)@ }),
    {
        self.log.batches.push(batch);
    }

    pub fn record_book_snapshot(&mut self, snapshot: BookSnapshot)
        ensures
            final(self)@ == (CollectorState { books: old(self)@.books.push(snapshot), ..old(self)@ }),
    {
        self.log.books.push(snapshot);
    }

    /// The messages collected.
    pub fn messages(&self) -> (r: &Vec<OrderMessage>)
        ensures
            r@ == self@.messages,
    {
        &self.messages
    }

    /// The events collected, for the positions in the rows.
    pub fn events(&self) -> (r: &EventLog)
        ensures
            r.trades@ == self@.trades,
            r.batches@ == self@.batches,
            r.books@ == self@.books,
    {
        &self.log
    }

    fn first_moment(&self) -> (r: u64)
        ensures
            r == self@.first(),
    {
        let mut first: u64 = earliest_time(&times_of_messages(&self.messages));
        let t: u64 = earliest_time(&times_of_trades(&self.log.trades));
        let b: u64 = earliest_time(&times_of_batches(&self.log.batches));
        let s: u64 = earliest_time(&times_of_books(&self.log.books));
        if t < first {
            first = t;
        }
        if b < first {
            first = b;
        }
        if s < first {
            first = s;
        }
        first
    }

    /// How many rows `finalize` has to compute.
    pub fn row_count(&self) -> (r: u128)
        ensures
            r == self@.row_count(),
    {
        let first: u64 = self.first_moment();
        if self.interval_width == 0 || first == u64::MAX {
            return 0;
        }
        let last: u64 = latest_moment(&self.messages, &self.log);
        proof {
            lemma_first_before_last(message_times(self.messages@));
            lemma_first_before_last(trade_times(self.log.trades@));
            lemma_first_before_last(batch_times(self.log.batches@));
            lemma_first_before_last(book_times(self.log.books@));
        }
        ((last - first) / self.interval_width) as u128 + 1
    }

    /// One row for every interval from the first moment on record to the last.
    pub fn finalize(&self) -> (r: Vec<IntervalFacts>)
        requires
            self@.row_count() <= usize::MAX,
        ensures
            r@.len() == self@.row_count(),
            forall|k: int|
                0 <= k < r@.len() ==> row_holds(
                    #[trigger] r@[k],
                    self@.messages,
                    self@.trades,
                    self@.batches,
                    self@.books,
                    self@.first(),
                    self@.width,
                    self@.first(),
                    self@.row_count(),
                    Carry { prev_close: None, prev_clearing: None },
                    k,
                ),
    {
        let n: u128 = self.row_count();
        let first: u64 = self.first_moment();
        if self.interval_width == 0 || first == u64::MAX {
            return Vec::new();
        }
        let w: u64 = self.interval_width;
        proof {
            lemma_first_before_last(message_times(self.messages@));
            lemma_first_before_last(trade_times(self.log.trades@));
            lemma_first_before_last(batch_times(self.log.batches@));
            lemma_first_before_last(book_times(self.log.books@));
            vstd::arithmetic::div_mod::lemma_mod_multiples_basic(0, w as int);
            lemma_rows_between(first as int, self@.last() + 1, w as int);
            assert(n == rows_between(first as int, self@.last() + 1, w as int));
            assert(row_start(first as int, n - 1, w as int) < self@.last() + 1);
        }
        let (rows, _carry): (Vec<IntervalFacts>, Carry) = interval_facts(
            &self.log,
            &self.messages,
            first,
            w,
            first,
            n as usize,
            Carry { prev_close: None, prev_clearing: None },
        );
        rows
    }
}

} // verus!
