//! A run of recorded orders through both engines: what each record leads to,
//! and which rows of the time series are settled when.

use vstd::prelude::*;
use crate::engines::auction::{side_total, Interest};
use crate::engines::cda::{BookState, CdaOrderBook};
use crate::engines::fba::{best_limit, interests, interests_of, BatchState, ClearingResult, FbaOrderBook};
use crate::inputs::replay_checkpoint::Checkpoint;
use crate::inputs::simulate_cmd::{flush_hi, maybe, middle, midpoint, settled_upto, BatchClock, ClockState, Window};
use crate::metrics::events::{depth_schedule, depth_within, BatchClearedEvent, BookSnapshot, Level, OrderMessage, TradeEvent};
use crate::metrics::facts::{Carry, EventLog, IntervalFacts};
use crate::metrics::grid::{bucket_of, on_grid};
use crate::metrics::timeseries::{after, max_of, message_kept, MetricsRecorder, RecorderState};
use crate::seqs::{distance, saturated};
use crate::types::{Amount, EngineKind, Order, Price, Side, Trade};

verus! {

/// What a recorded order says before any engine has seen it.
pub open spec fn message_of(o: Order) -> OrderMessage {
    OrderMessage {
        ts: o.ts,
        oid: o.oid,
        user_id: o.user_id,
        side: o.side(),
        limit_price: o.limit_price(),
        quantity: o.orig_sz,
        accepted: o.is_new_live_order(),
    }
}

/// Whether a record can change a book: a new order or a cancellation.
pub open spec fn actionable(o: Order) -> bool {
    o.is_new_live_order() || o.is_cancellation()
}

/// The bid and ask quantity within each of the reported distances; nothing
/// without a reference price.
pub open spec fn schedule(reference: Option<Price>, levels: Seq<Level>) -> Seq<(u128, u128)> {
    match reference {
        Some(p) => seq![
            (depth_within(p, levels, Side::Buy, 10) as u128, depth_within(p, levels, Side::Sell, 10) as u128),
            (depth_within(p, levels, Side::Buy, 50) as u128, depth_within(p, levels, Side::Sell, 50) as u128),
            (depth_within(p, levels, Side::Buy, 100) as u128, depth_within(p, levels, Side::Sell, 100) as u128),
        ],
        None => seq![(0u128, 0u128), (0u128, 0u128), (0u128, 0u128)],
    }
}

pub(crate) fn schedule_of(reference: Option<Price>, levels: &Vec<Level>) -> (r: [(u128, u128); 3])
    ensures
        r@ == schedule(reference, levels@),
{
    match reference {
        Some(p) => {
            let r: [(u128, u128); 3] = depth_schedule(p, levels);
            assert(r@ =~= schedule(reference, levels@));
            r
        },
        None => {
            let r: [(u128, u128); 3] = [(0, 0), (0, 0), (0, 0)];
            assert(r@ =~= schedule(reference, levels@));
            r
        },
    }
}

/// An order as a level of depth; a market order stands at the price given.
pub open spec fn level_of(it: Interest, price: Price) -> Level {
    Level {
        price: match it.limit {
            Some(p) => p,
            None => price,
        },
        side: it.side,
        quantity: it.remaining,
    }
}

pub open spec fn levels_of(book: Seq<Interest>, price: Price) -> Seq<Level> {
    Seq::new(book.len(), |i: int| level_of(book[i], price))
}

pub(crate) fn levels_at(book: &Vec<Interest>, price: Price) -> (r: Vec<Level>)
    ensures
        r@ == levels_of(book@, price),
{
    let mut r: Vec<Level> = Vec::new();
    let mut i: usize = 0;
    while i < book.len()
        invariant
            i <= book.len(),
            r@ =~= levels_of(book@, price).take(i as int),
        decreases book.len() - i,
    {
        let it: Interest = book[i];
        let at: Price = match it.limit {
            Some(p) => p,
            None => price,
        };
        r.push(Level { price: at, side: it.side, quantity: it.remaining });
        i += 1;
    }
    assert(levels_of(book@, price).take(i as int) =~= levels_of(book@, price));
    r
}

/// The quantity of all orders on one side.
fn flow(book: &Vec<Interest>, side: Side) -> (r: Amount)
    ensures
        r == saturated(side_total(book@, side)),
{
    let mut sum: Amount = 0;
    let mut i: usize = 0;
    assert(book@.take(0) =~= Seq::<Interest>::empty());
    while i < book.len()
        invariant
            i <= book.len(),
            sum == saturated(side_total(book@.take(i as int), side)),
        decreases book.len() - i,
    {
        let it: Interest = book[i];
        assert(book@.take(i + 1).drop_last() =~= book@.take(i as int));
        assert(book@.take(i + 1).last() == it);
        if it.side == side {
            sum = sum.saturating_add(it.remaining);
        }
        i += 1;
    }
    assert(book@.take(i as int) =~= book@);
    sum
}

/// A batch as it stands before it is cleared.
#[derive(Debug)]
pub struct Batch {
    pub orders: Vec<Interest>,
    /// The price of the last batch that traded.
    pub reference: Option<Price>,
    pub open_ts: u64,
    pub close_ts: u64,
}

/// Whether this event records that a batch was cleared with this result,
/// which left these orders.
pub open spec fn is_batch_event(
    e: BatchClearedEvent,
    batch: Batch,
    result: Option<ClearingResult>,
    left: Seq<Order>,
    nanos: u128,
) -> bool {
    &&& e.ts == batch.close_ts
    &&& e.batch_open_ts == batch.open_ts
    &&& e.buy_flow == saturated(side_total(batch.orders@, Side::Buy))
    &&& e.sell_flow == saturated(side_total(batch.orders@, Side::Sell))
    &&& e.best_unfilled_buy == best_limit(left, Side::Buy)
    &&& e.best_unfilled_sell == best_limit(left, Side::Sell)
    &&& e.compute_nanos == nanos
    &&& match result {
        Some(c) => {
            &&& e.clearing_price == Some(c.clearing_price)
            &&& e.demand_at_price == c.demand_at_price
            &&& e.supply_at_price == c.supply_at_price
            &&& e.traded_quantity == c.traded_quantity
            &&& e.unexecuted_quantity == distance(c.demand_at_price as int, c.supply_at_price as int)
            &&& e.depth_schedule@ == schedule(
                Some(c.clearing_price),
                levels_of(batch.orders@, c.clearing_price),
            )
        },
        None => {
            &&& e.clearing_price is None
            &&& e.demand_at_price == 0
            &&& e.supply_at_price == 0
            &&& e.traded_quantity == 0
            &&& e.unexecuted_quantity == 0
            &&& e.depth_schedule@ == schedule(None, Seq::empty())
        },
    }
}

/// The recorder after these trades.
pub open spec fn with_trades(
    log: RecorderState,
    trades: Seq<Trade>,
    reference: Option<Price>,
    aggressor: Option<Side>,
) -> RecorderState
    decreases trades.len(),
{
    if trades.len() == 0 {
        log
    } else {
        with_trades(log, trades.drop_last(), reference, aggressor).with_trade(
            TradeEvent { trade: trades.last(), reference_price: reference, aggressor_side: aggressor },
        )
    }
}

/// The trades that a clearing with this result records.
pub open spec fn cleared_trades(result: Option<ClearingResult>) -> Seq<Trade> {
    match result {
        Some(c) => c.trades@,
        None => Seq::empty(),
    }
}

/// The recorder keeps what trades leave alone.
proof fn lemma_with_trades(
    log: RecorderState,
    trades: Seq<Trade>,
    reference: Option<Price>,
    aggressor: Option<Side>,
)
    ensures
        with_trades(log, trades, reference, aggressor).width == log.width,
        log.anchor is Some ==> {
            &&& with_trades(log, trades, reference, aggressor).anchor == log.anchor
            &&& with_trades(log, trades, reference, aggressor).emitted == log.emitted
        },
    decreases trades.len(),
{
    if trades.len() > 0 {
        lemma_with_trades(log, trades.drop_last(), reference, aggressor);
    }
}

fn record_trades(log: &mut MetricsRecorder, trades: &Vec<Trade>, reference: Option<Price>, aggressor: Option<Side>)
    requires
        old(log).wf(),
        old(log)@.width > 0,
    ensures
        final(log).wf(),
        final(log)@ == with_trades(old(log)@, trades@, reference, aggressor),
{
    let ghost start: RecorderState = log@;
    let mut i: usize = 0;
    assert(trades@.take(0) =~= Seq::<Trade>::empty());
    while i < trades.len()
        invariant
            i <= trades.len(),
            log.wf(),
            start.width > 0,
            log@ == with_trades(start, trades@.take(i as int), reference, aggressor),
        decreases trades.len() - i,
    {
        proof {
            lemma_with_trades(start, trades@.take(i as int), reference, aggressor);
            assert(trades@.take(i + 1).drop_last() =~= trades@.take(i as int));
        }
        log.record_trade(TradeEvent { trade: trades[i].clone(), reference_price: reference, aggressor_side: aggressor });
        i += 1;
    }
    assert(trades@.take(i as int) =~= trades@);
}

/// Whether this event records the continuous book after one record.
pub open spec fn is_book_event(
    e: BookSnapshot,
    book: BookState,
    ts: u64,
    depth: Seq<(u128, u128)>,
    nanos: u128,
) -> bool {
    &&& e.ts == ts
    &&& e.best_bid == best_price(book.bids)
    &&& e.best_ask == best_price(book.asks)
    &&& e.best_bid_qty == best_quantity(book.bids)
    &&& e.best_ask_qty == best_quantity(book.asks)
    &&& e.bid_depth == book.bid_depth
    &&& e.ask_depth == book.ask_depth
    &&& e.depth_schedule@ == depth
    &&& e.compute_nanos == nanos
}

/// The price of the best resting order.
pub open spec fn best_price(orders: Seq<Order>) -> Option<Price> {
    if orders.len() > 0 {
        Some(orders[0].limit_px)
    } else {
        None
    }
}

/// The quantity of the best resting order.
pub open spec fn best_quantity(orders: Seq<Order>) -> int {
    if orders.len() > 0 {
        orders[0].remaining as int
    } else {
        0
    }
}

/// The price halfway between the best orders of a book.
pub open spec fn book_middle(book: BookState) -> Option<Price> {
    middle(best_price(book.bids), best_price(book.asks))
}

/// All resting orders as levels of depth around the middle of the book.
pub open spec fn book_levels(book: BookState) -> Seq<Level> {
    match book_middle(book) {
        Some(mid) => levels_of(interests(book.bids + book.asks), mid),
        None => Seq::empty(),
    }
}

/// What is known of a record before the continuous book has seen it.
#[derive(Clone, Copy, Debug)]
pub struct Step {
    pub ts: u64,
    pub side: Side,
    pub actionable: bool,
    /// The middle of the continuous book before the record.
    pub reference: Option<Price>,
}

/// The state of a run.
pub struct ReplayState {
    pub fba: BatchState,
    pub cda: BookState,
    pub fba_log: RecorderState,
    pub cda_log: RecorderState,
    /// The records of the intervals that are not settled.
    pub messages: Seq<OrderMessage>,
    pub clock: ClockState,
    pub last_seen: Option<int>,
    /// The depth of the continuous book when it could last have changed.
    pub depth: Seq<(u128, u128)>,
}

impl ReplayState {
    /// A record has come in: it is logged, and the grid and the first window
    /// start with the first one.
    pub open spec fn observed(self, o: Order) -> ReplayState {
        ReplayState {
            fba_log: self.fba_log.observed(o.ts as int),
            cda_log: self.cda_log.observed(o.ts as int),
            messages: self.messages.push(message_of(o)),
            clock: self.clock.started(o.ts as int),
            last_seen: Some(o.ts as int),
            ..self
        }
    }

    /// The window still open when the data ends, from its open to the last
    /// record.
    pub open spec fn last_window(self) -> Window {
        let open = match self.clock.window {
            Some(w) => w.open,
            None => 0,
        };
        let seen = match self.last_seen {
            Some(ts) => ts,
            None => open,
        };
        Window { open, close: max_of(seen, open) }
    }

    /// Up to where rows are settled, given where the data goes on.
    pub open spec fn settled(self, next_first: Option<int>, guard: int) -> int {
        settled_upto(
            self.fba_log.anchor,
            next_first,
            match self.last_seen {
                Some(ts) => ts,
                None => 0,
            },
            guard,
            self.fba_log.width,
        )
    }

    /// Whether the rows up to `hi` can be counted, for either engine.
    pub open spec fn can_emit(self, hi: int) -> bool {
        &&& self.fba_log.anchored(self.messages).due(hi) <= usize::MAX
        &&& self.cda_log.anchored(self.messages).due(hi) <= usize::MAX
    }

    /// The rows up to `hi` have been handed out.
    pub open spec fn emitted(self, hi: int) -> ReplayState {
        ReplayState {
            fba_log: self.fba_log.anchored(self.messages).emitted_to(hi),
            cda_log: self.cda_log.anchored(self.messages).emitted_to(hi),
            ..self
        }
    }

    /// The depth of the continuous book around its middle, counted anew if
    /// the book can have changed.
    pub open spec fn depth_now(self, changed: bool) -> Seq<(u128, u128)> {
        if changed {
            schedule(book_middle(self.cda), book_levels(self.cda))
        } else {
            self.depth
        }
    }

    /// What belongs to settled intervals has been dropped.
    pub open spec fn pruned(self) -> ReplayState {
        ReplayState {
            fba_log: self.fba_log.pruned(),
            cda_log: self.cda_log.pruned(),
            messages: match self.fba_log.anchor {
                Some(a) => self.messages.filter(message_kept(a, self.fba_log.width, self.fba_log.emitted)),
                None => self.messages,
            },
            ..self
        }
    }
}

/// A run of recorded orders through both engines.
pub struct Replay {
    fba: FbaOrderBook,
    cda: CdaOrderBook,
    fba_log: MetricsRecorder,
    cda_log: MetricsRecorder,
    messages: Vec<OrderMessage>,
    clock: BatchClock,
    last_seen: Option<u64>,
    depth: [(u128, u128); 3],
}

impl View for Replay {
    type V = ReplayState;

    closed spec fn view(&self) -> ReplayState {
        ReplayState {
            fba: self.fba@,
            cda: self.cda@,
            fba_log: self.fba_log@,
            cda_log: self.cda_log@,
            messages: self.messages@,
            clock: self.clock@,
            last_seen: maybe(self.last_seen),
            depth: self.depth@,
        }
    }
}

impl Replay {
    /// Both recorders run on one grid and have handed out the same intervals.
    pub closed spec fn wf(&self) -> bool {
        &&& self.cda.wf()
        &&& self.fba_log.wf()
        &&& self.cda_log.wf()
        &&& self.clock.wf()
        &&& self.clock@.width > 0
        &&& self.fba_log@.width == self.clock@.width
        &&& self.cda_log@.width == self.clock@.width
        &&& self.fba_log@.anchor == self.cda_log@.anchor
        &&& self.fba_log@.emitted == self.cda_log@.emitted
        &&& self.clock@.window is Some ==> self.fba_log@.anchor is Some && self.last_seen is Some
    }

    /// What well-formedness says of the state.
    pub proof fn lemma_wf(&self)
        requires
            self.wf(),
        ensures
            self@.clock.width > 0,
            self@.fba_log.width == self@.clock.width,
            self@.cda_log.width == self@.clock.width,
            self@.fba_log.anchor == self@.cda_log.anchor,
            self@.fba_log.emitted == self@.cda_log.emitted,
    {
    }

    /// A run from the start.
    pub fn new(width: u64) -> (r: Self)
        requires
            width > 0,
        ensures
            r.wf(),
            r@ == (ReplayState {
                fba: BatchState::empty(),
                cda: BookState::empty(),
                fba_log: RecorderState::new(EngineKind::Fba, width as int),
                cda_log: RecorderState::new(EngineKind::Cda, width as int),
                messages: Seq::empty(),
                clock: ClockState { width: width as int, window: None },
                last_seen: None,
                depth: schedule(None, Seq::empty()),
            }),
    {
        Replay::with_logs(
            width,
            MetricsRecorder::new(EngineKind::Fba, width),
            MetricsRecorder::new(EngineKind::Cda, width),
        )
    }

    fn with_logs(width: u64, fba_log: MetricsRecorder, cda_log: MetricsRecorder) -> (r: Self)
        requires
            width > 0,
            fba_log.wf(),
            cda_log.wf(),
            fba_log@.width == width,
            cda_log@.width == width,
            fba_log@.anchor == cda_log@.anchor,
            fba_log@.emitted == cda_log@.emitted,
        ensures
            r.wf(),
            r@ == (ReplayState {
                fba: BatchState::empty(),
                cda: BookState::empty(),
                fba_log: fba_log@,
                cda_log: cda_log@,
                messages: Seq::empty(),
                clock: ClockState { width: width as int, window: None },
                last_seen: None,
                depth: schedule(None, Seq::empty()),
            }),
    {
        let none: Vec<Level> = Vec::new();
        Replay {
            fba: FbaOrderBook::new(),
            cda: CdaOrderBook::new(),
            fba_log,
            cda_log,
            messages: Vec::new(),
            clock: BatchClock::new(width),
            last_seen: None,
            depth: schedule_of(None, &none),
        }
    }

    /// A run that goes on after rows have been handed out: the books and the
    /// records start empty, the grid and what is carried on stay.
    pub fn resume(
        width: u64,
        anchor: u64,
        emitted_upto: u64,
        fba_carry: Carry,
        cda_carry: Carry,
        fba_late: u64,
        cda_late: u64,
    ) -> (r: Self)
        requires
            width > 0,
            on_grid(emitted_upto as int, anchor as int, width as int) || emitted_upto == u64::MAX,
        ensures
            r.wf(),
            r@ == (ReplayState {
                fba: BatchState::empty(),
                cda: BookState::empty(),
                fba_log: RecorderState {
                    anchor: Some(anchor as int),
                    emitted: emitted_upto as int,
                    carry: fba_carry,
                    late: fba_late as int,
                    ..RecorderState::new(EngineKind::Fba, width as int)
                },
                cda_log: RecorderState {
                    anchor: Some(anchor as int),
                    emitted: emitted_upto as int,
                    carry: cda_carry,
                    late: cda_late as int,
                    ..RecorderState::new(EngineKind::Cda, width as int)
                },
                messages: Seq::empty(),
                clock: ClockState { width: width as int, window: None },
                last_seen: None,
                depth: schedule(None, Seq::empty()),
            }),
    {
        Replay::with_logs(
            width,
            MetricsRecorder::resume(EngineKind::Fba, width, anchor, emitted_upto, fba_carry, fba_late),
            MetricsRecorder::resume(EngineKind::Cda, width, anchor, emitted_upto, cda_carry, cda_late),
        )
    }

    /// Takes note of a record. Everything it leads to follows in further
    /// calls: first the batches that are over, then the record itself.
    pub fn observe(&mut self, order: &Order)
        requires
            old(self).wf(),
        ensures
            final(self).wf(),
            final(self)@ == old(self)@.observed(*order),
    {
        self.last_seen = Some(order.ts);
        self.fba_log.set_anchor(order.ts);
        self.cda_log.set_anchor(order.ts);
        self.messages.push(
            OrderMessage {
                ts: order.ts,
                oid: order.oid,
                user_id: order.user_id.clone(),
                side: order.side(),
                limit_price: order.limit_price(),
                quantity: order.orig_sz,
                accepted: order.is_new_live_order(),
            },
        );
        self.clock.start(order.ts);
        assert(self@.messages =~= old(self)@.messages.push(message_of(*order)));
    }

    /// The window that the last record shows to be over.
    pub fn window_over(&self) -> (r: Option<(u64, u64)>)
        ensures
            match (self@.last_seen, r) {
                (Some(ts), Some((open, close))) => self@.clock.over(ts) == Some(
                    Window { open: open as int, close: close as int },
                ),
                (Some(ts), None) => self@.clock.over(ts) is None,
                (None, r) => r is None,
            },
    {
        match self.last_seen {
            Some(ts) => self.clock.over_at(ts),
            None => None,
        }
    }

    /// Opens the next window, after the one that is over.
    pub fn next_window(&mut self)
        requires
            old(self).wf(),
            old(self)@.last_seen is Some,
            old(self)@.clock.over(old(self)@.last_seen->0) is Some,
        ensures
            final(self).wf(),
            final(self)@ == (ReplayState { clock: old(self)@.clock.turned(), ..old(self)@ }),
    {
        self.clock.turn();
    }

    /// The window still open when the data ends.
    pub fn last_window(&self) -> (r: (u64, u64))
        ensures
            self@.last_window() == (Window { open: r.0 as int, close: r.1 as int }),
    {
        let open: u64 = match self.clock.open_ts() {
            Some(open) => open,
            None => 0,
        };
        let seen: u64 = match self.last_seen {
            Some(ts) => ts,
            None => open,
        };
        if seen >= open {
            (open, seen)
        } else {
            (open, open)
        }
    }

    /// The batch as it stands, if there is any.
    pub fn batch(&self, open_ts: u64, close_ts: u64) -> (r: Option<Batch>)
        ensures
            match r {
                Some(b) => {
                    &&& self@.fba.pending.len() > 0
                    &&& b.orders@ == interests(self@.fba.pending)
                    &&& b.reference == self@.fba.last_price
                    &&& b.open_ts == open_ts
                    &&& b.close_ts == close_ts
                },
                None => self@.fba.pending.len() == 0,
            },
    {
        let pending: &Vec<Order> = self.fba.pending();
        if pending.len() == 0 {
            None
        } else {
            Some(Batch { orders: interests_of(pending), reference: self.fba.last_price(), open_ts, close_ts })
        }
    }

    /// Whether the batch can be cleared within the limits of the integer
    /// types.
    pub fn can_clear(&self) -> (r: bool)
        ensures
            r == self@.fba.can_clear(),
    {
        self.fba.can_clear()
    }

    /// Clears the batch.
    pub fn clear(&mut self) -> (r: Option<ClearingResult>)
        requires
            old(self).wf(),
            old(self)@.fba.can_clear(),
        ensures
            final(self).wf(),
            final(self)@ == (ReplayState { fba: old(self)@.fba.cleared(), ..old(self)@ }),
            match r {
                Some(c) => {
                    &&& old(self)@.fba.price() == Some(c.clearing_price)
                    &&& c.trades@ == old(self)@.fba.batch()
                    &&& c.traded_quantity == crate::trades::volume_of(old(self)@.fba.batch())
                    &&& c.demand_at_price == final(self)@.fba.last_demand
                    &&& c.supply_at_price == final(self)@.fba.last_supply
                },
                None => old(self)@.fba.price() is None,
            },
    {
        self.fba.clear()
    }

    /// Records that a batch was cleared: its trades, and the clearing itself,
    /// also where it found no price.
    pub fn record_clearing(&mut self, batch: &Batch, result: &Option<ClearingResult>, nanos: u128)
        requires
            old(self).wf(),
            old(self)@.fba_log.anchor is Some,
        ensures
            final(self).wf(),
            exists|e: BatchClearedEvent| #[trigger]
                is_batch_event(e, *batch, *result, old(self)@.fba.pending, nanos) && final(self)@ == (ReplayState {
                    fba_log: with_trades(
                        old(self)@.fba_log,
                        cleared_trades(*result),
                        batch.reference,
                        None,
                    ).with_batch(e),
                    ..old(self)@
                }),
    {
        let ghost before: ReplayState = self@;
        let buy_flow: Amount = flow(&batch.orders, Side::Buy);
        let sell_flow: Amount = flow(&batch.orders, Side::Sell);
        let best_unfilled_buy: Option<Price> = self.fba.best_unfilled_buy();
        let best_unfilled_sell: Option<Price> = self.fba.best_unfilled_sell();
        let event: BatchClearedEvent = match result {
            Some(c) => BatchClearedEvent {
                ts: batch.close_ts,
                batch_open_ts: batch.open_ts,
                clearing_price: Some(c.clearing_price),
                demand_at_price: c.demand_at_price,
                supply_at_price: c.supply_at_price,
                buy_flow,
                sell_flow,
                traded_quantity: c.traded_quantity,
                unexecuted_quantity: if c.demand_at_price >= c.supply_at_price {
                    c.demand_at_price - c.supply_at_price
                } else {
                    c.supply_at_price - c.demand_at_price
                },
                best_unfilled_buy,
                best_unfilled_sell,
                depth_schedule: schedule_of(Some(c.clearing_price), &levels_at(&batch.orders, c.clearing_price)),
                compute_nanos: nanos,
            },
            None => {
                let none: Vec<Level> = Vec::new();
                BatchClearedEvent {
                    ts: batch.close_ts,
                    batch_open_ts: batch.open_ts,
                    clearing_price: None,
                    demand_at_price: 0,
                    supply_at_price: 0,
                    buy_flow,
                    sell_flow,
                    traded_quantity: 0,
                    unexecuted_quantity: 0,
                    best_unfilled_buy,
                    best_unfilled_sell,
                    depth_schedule: schedule_of(None, &none),
                    compute_nanos: nanos,
                }
            },
        };
        assert(is_batch_event(event, *batch, *result, before.fba.pending, nanos));
        if let Some(c) = result {
            record_trades(&mut self.fba_log, &c.trades, batch.reference, None);
        }
        proof {
            lemma_with_trades(before.fba_log, cleared_trades(*result), batch.reference, None);
        }
        self.fba_log.record_batch(event);
    }

    /// Hands a record to the batch book, unless it can change nothing, and
    /// tells what is known before the continuous book sees it.
    pub fn queue(&mut self, order: &Order) -> (r: Step)
        requires
            old(self).wf(),
        ensures
            final(self).wf(),
            final(self)@ == (ReplayState { fba: old(self)@.fba.submitted(*order), ..old(self)@ }),
            r.ts == order.ts,
            r.side == order.side(),
            r.actionable == actionable(*order),
            r.reference == book_middle(old(self)@.cda),
    {
        let actionable: bool = order.is_new_live_order() || order.is_cancellation();
        if actionable {
            self.fba.submit(order.clone());
        }
        let reference: Option<Price> = midpoint(self.cda.best_bid(), self.cda.best_ask());
        Step { ts: order.ts, side: order.side(), actionable, reference }
    }

    /// Whether the continuous book has room for a record.
    pub fn has_room(&self, order: &Order) -> (r: bool)
        requires
            self.wf(),
        ensures
            r == self@.cda.has_room_for(*order),
    {
        self.cda.has_room(order)
    }

    /// Hands a record to the continuous book, unless it can change nothing.
    pub fn match_order(&mut self, order: Order) -> (r: Vec<Trade>)
        requires
            old(self).wf(),
            old(self)@.cda.has_room_for(order),
        ensures
            final(self).wf(),
            final(self)@ == (ReplayState { cda: old(self)@.cda.submitted(order), ..old(self)@ }),
            r@ == old(self)@.cda.trades_on(order),
    {
        if order.is_new_live_order() || order.is_cancellation() {
            self.cda.submit(order)
        } else {
            Vec::new()
        }
    }

    fn book_depth(&self) -> (r: [(u128, u128); 3])
        requires
            self.wf(),
        ensures
            r@ == schedule(book_middle(self@.cda), book_levels(self@.cda)),
    {
        match midpoint(self.cda.best_bid(), self.cda.best_ask()) {
            None => {
                let none: Vec<Level> = Vec::new();
                schedule_of(None, &none)
            },
            Some(mid) => {
                let mut levels: Vec<Level> = Vec::new();
                let ghost all: Seq<Level> = levels_of(interests(self.cda@.bids + self.cda@.asks), mid);
                let bids: Vec<&Order> = self.cda.bids_iter();
                let mut i: usize = 0;
                while i < bids.len()
                    invariant
                        i <= bids.len(),
                        bids@.len() == self.cda@.bids.len(),
                        forall|k: int| 0 <= k < bids@.len() ==> *(#[trigger] bids@[k]) == self.cda@.bids[k],
                        all == levels_of(interests(self.cda@.bids + self.cda@.asks), mid),
                        levels@ =~= all.take(i as int),
                    decreases bids.len() - i,
                {
                    levels.push(level(bids[i], mid));
                    i += 1;
                }
                let asks: Vec<&Order> = self.cda.asks_iter();
                let mut j: usize = 0;
                while j < asks.len()
                    invariant
                        j <= asks.len(),
                        asks@.len() == self.cda@.asks.len(),
                        forall|k: int| 0 <= k < asks@.len() ==> *(#[trigger] asks@[k]) == self.cda@.asks[k],
                        all == levels_of(interests(self.cda@.bids + self.cda@.asks), mid),
                        levels@ =~= all.take(self.cda@.bids.len() + j),
                    decreases asks.len() - j,
                {
                    levels.push(level(asks[j], mid));
                    j += 1;
                }
                assert(levels@ =~= all);
                schedule_of(Some(mid), &levels)
            },
        }
    }

    /// Records what the continuous book did with a record: the trades, and
    /// the book after it. The depth around the middle is counted anew where
    /// the book can have changed.
    pub fn record_match(&mut self, step: Step, trades: &Vec<Trade>, nanos: u128)
        requires
            old(self).wf(),
            old(self)@.cda_log.anchor is Some,
        ensures
            final(self).wf(),
            exists|e: BookSnapshot| #[trigger]
                is_book_event(e, old(self)@.cda, step.ts, old(self)@.depth_now(step.actionable), nanos) && final(self)@
                    == (ReplayState {
                    cda_log: with_trades(
                        old(self)@.cda_log,
                        trades@,
                        step.reference,
                        Some(step.side),
                    ).with_book(e),
                    depth: old(self)@.depth_now(step.actionable),
                    ..old(self)@
                }),
    {
        let ghost before: ReplayState = self@;
        record_trades(&mut self.cda_log, trades, step.reference, Some(step.side));
        proof {
            lemma_with_trades(before.cda_log, trades@, step.reference, Some(step.side));
        }
        if step.actionable {
            self.depth = self.book_depth();
        }
        let best_bid_qty: Amount = match self.cda.best_bid_order() {
            Some(o) => o.remaining,
            None => 0,
        };
        let best_ask_qty: Amount = match self.cda.best_ask_order() {
            Some(o) => o.remaining,
            None => 0,
        };
        let event: BookSnapshot = BookSnapshot {
            ts: step.ts,
            best_bid: self.cda.best_bid(),
            best_ask: self.cda.best_ask(),
            best_bid_qty,
            best_ask_qty,
            bid_depth: self.cda.bid_depth(),
            ask_depth: self.cda.ask_depth(),
            depth_schedule: self.depth,
            compute_nanos: nanos,
        };
        assert(is_book_event(event, before.cda, step.ts, before.depth_now(step.actionable), nanos));
        self.cda_log.record_book_snapshot(event);
    }

    /// Up to where rows are settled, given where the data goes on.
    pub fn settled(&self, next_first_ts: Option<u64>, guard_ns: u64) -> (r: u64)
        requires
            self.wf(),
        ensures
            r == self@.settled(maybe(next_first_ts), guard_ns as int),
    {
        let last: u64 = match self.last_seen {
            Some(ts) => ts,
            None => 0,
        };
        flush_hi(self.fba_log.anchor(), next_first_ts, last, guard_ns, self.clock.width())
    }

    /// Hands out the rows of both engines up to `hi`; nothing if there are
    /// more than can be counted.
    pub fn emit(&mut self, hi: u64) -> (r: Option<(Vec<IntervalFacts>, Vec<IntervalFacts>)>)
        requires
            old(self).wf(),
        ensures
            final(self).wf(),
            match r {
                Some(rows) => {
                    &&& old(self)@.can_emit(hi as int)
                    &&& old(self)@.fba_log.anchored(old(self)@.messages).are_rows(
                        old(self)@.messages,
                        hi as int,
                        rows.0@,
                    )
                    &&& old(self)@.cda_log.anchored(old(self)@.messages).are_rows(
                        old(self)@.messages,
                        hi as int,
                        rows.1@,
                    )
                    &&& final(self)@ == old(self)@.emitted(hi as int)
                },
                None => !old(self)@.can_emit(hi as int) && final(self)@ == old(self)@,
            },
    {
        if self.fba_log.rows_due(&self.messages, hi) > usize::MAX as u64 || self.cda_log.rows_due(&self.messages, hi)
            > usize::MAX as u64 {
            return None;
        }
        let fba_rows: Vec<IntervalFacts> = self.fba_log.emit(&self.messages, hi);
        let cda_rows: Vec<IntervalFacts> = self.cda_log.emit(&self.messages, hi);
        Some((fba_rows, cda_rows))
    }

    /// Hands out all rows that are left, up to the one that holds
    /// `max_seen_ts`; nothing if there are more than can be counted.
    pub fn finish(&mut self, max_seen_ts: u64) -> (r: Option<(Vec<IntervalFacts>, Vec<IntervalFacts>)>)
        requires
            old(self).wf(),
        ensures
            final(self).wf(),
            match r {
                Some(rows) => {
                    &&& old(self)@.can_emit(after(max_seen_ts as int))
                    &&& old(self)@.fba_log.anchored(old(self)@.messages).are_rows(
                        old(self)@.messages,
                        after(max_seen_ts as int),
                        rows.0@,
                    )
                    &&& old(self)@.cda_log.anchored(old(self)@.messages).are_rows(
                        old(self)@.messages,
                        after(max_seen_ts as int),
                        rows.1@,
                    )
                    &&& final(self)@ == old(self)@.emitted(after(max_seen_ts as int))
                },
                None => !old(self)@.can_emit(after(max_seen_ts as int)) && final(self)@ == old(self)@,
            },
    {
        self.emit(max_seen_ts.saturating_add(1))
    }

    /// Drops what belongs to intervals that have been handed out.
    pub fn prune(&mut self)
        requires
            old(self).wf(),
        ensures
            final(self).wf(),
            final(self)@ == old(self)@.pruned(),
    {
        self.fba_log.prune();
        self.cda_log.prune();
        if let Some(anchor) = self.fba_log.anchor() {
            let cutoff: u64 = self.fba_log.emitted_upto();
            let width: u64 = self.clock.width();
            let mut messages: Vec<OrderMessage> = Vec::new();
            std::mem::swap(&mut messages, &mut self.messages);
            self.messages = kept_messages(messages, anchor, width, cutoff);
        }
    }

    /// The records of the intervals that are not settled.
    pub fn messages(&self) -> (r: &Vec<OrderMessage>)
        ensures
            r@ == self@.messages,
    {
        &self.messages
    }

    /// What was recorded of the batch book.
    pub fn fba_events(&self) -> (r: &EventLog)
        ensures
            r.trades@ == self@.fba_log.trades,
            r.batches@ == self@.fba_log.batches,
            r.books@ == self@.fba_log.books,
    {
        self.fba_log.events()
    }

    /// What was recorded of the continuous book.
    pub fn cda_events(&self) -> (r: &EventLog)
        ensures
            r.trades@ == self@.cda_log.trades,
            r.batches@ == self@.cda_log.batches,
            r.books@ == self@.cda_log.books,
    {
        self.cda_log.events()
    }

    /// Where the grid starts.
    pub fn anchor(&self) -> (r: Option<u64>)
        ensures
            maybe(r) == self@.fba_log.anchor,
    {
        self.fba_log.anchor()
    }

    /// Up to where rows have been handed out.
    pub fn emitted_upto(&self) -> (r: u64)
        ensures
            r == self@.fba_log.emitted,
    {
        self.fba_log.emitted_upto()
    }

    /// What the next rows need to know of the ones handed out.
    pub fn carries(&self) -> (r: (Carry, Carry))
        ensures
            r.0 == self@.fba_log.carry,
            r.1 == self@.cda_log.carry,
    {
        (self.fba_log.carry(), self.cda_log.carry())
    }

    /// How many events came too late, for either engine.
    pub fn late(&self) -> (r: (u64, u64))
        ensures
            r.0 == self@.fba_log.late,
            r.1 == self@.cda_log.late,
    {
        (self.fba_log.late_events_dropped(), self.cda_log.late_events_dropped())
    }

    /// The moment of the last record.
    pub fn last_seen(&self) -> (r: Option<u64>)
        ensures
            maybe(r) == self@.last_seen,
    {
        self.last_seen
    }
}

/// A record that is neither a new order nor a cancellation leaves both books
/// alone and causes no trade, so the depth counted before it still holds.
pub proof fn law_quiet_records_change_nothing(state: ReplayState, o: Order)
    requires
        !actionable(o),
    ensures
        state.fba.submitted(o) == state.fba,
        state.cda.submitted(o) == state.cda,
        state.cda.trades_on(o) == Seq::<Trade>::empty(),
        (ReplayState { cda: state.cda.submitted(o), ..state }).depth_now(true) == state.depth_now(true),
{
}

/// One grid for both engines: whatever is observed, handed out or dropped,
/// both recorders start their intervals at the same moments and have handed
/// out the same ones.
pub proof fn law_engines_share_the_grid(state: ReplayState, o: Order, hi: int)
    requires
        state.fba_log.width == state.cda_log.width,
        state.fba_log.anchor == state.cda_log.anchor,
        state.fba_log.emitted == state.cda_log.emitted,
    ensures
        state.observed(o).fba_log.anchor == state.observed(o).cda_log.anchor,
        state.observed(o).fba_log.emitted == state.observed(o).cda_log.emitted,
        state.emitted(hi).fba_log.anchor == state.emitted(hi).cda_log.anchor,
        state.emitted(hi).fba_log.emitted == state.emitted(hi).cda_log.emitted,
        state.fba_log.anchored(state.messages).due(hi) == state.cda_log.anchored(state.messages).due(hi),
        state.pruned().fba_log.anchor == state.pruned().cda_log.anchor,
        state.pruned().fba_log.emitted == state.pruned().cda_log.emitted,
{
}

fn level(o: &Order, price: Price) -> (r: Level)
    ensures
        r == level_of(crate::engines::fba::interest_of(*o), price),
{
    let at: Price = match o.limit_price() {
        Some(p) => p,
        None => price,
    };
    Level { price: at, side: o.side(), quantity: o.remaining }
}

fn kept_messages(messages: Vec<OrderMessage>, anchor: u64, width: u64, cutoff: u64) -> (r: Vec<OrderMessage>)
    requires
        width > 0,
    ensures
        r@ == messages@.filter(message_kept(anchor as int, width as int, cutoff as int)),
{
    let mut r: Vec<OrderMessage> = Vec::new();
    let ghost keep = message_kept(anchor as int, width as int, cutoff as int);
    let ghost all: Seq<OrderMessage> = messages@;
    proof {
        reveal(Seq::filter);
        assert(all.take(0).filter(keep) =~= Seq::<OrderMessage>::empty());
    }
    for m in iter: messages
        invariant
            iter.seq() == all,
            keep == message_kept(anchor as int, width as int, cutoff as int),
            width > 0,
            r@ == all.take(iter.index() as int).filter(keep),
    {
        proof {
            reveal(Seq::filter);
            assert(all.take(iter.index() + 1).drop_last() =~= all.take(iter.index() as int));
        }
        if bucket_of(m.ts, anchor, width) >= cutoff {
            r.push(m);
        }
    }
    assert(all.take(all.len() as int) =~= all);
    r
}

impl Checkpoint {
    /// Counts a file that has been read: the one at `file_index`.
    pub fn count_file(&mut self, file_index: usize, name: &str, seen: usize, skipped: usize, dropped: bool)
        requires
            file_index < usize::MAX,
            old(self).files_processed < usize::MAX,
            old(self).files_skipped < usize::MAX,
            old(self).records_seen + seen <= usize::MAX,
            old(self).records_skipped + skipped <= usize::MAX,
        ensures
            final(self).last_file@ == name@,
            *final(self) == (Checkpoint {
                files_processed: (old(self).files_processed + 1) as usize,
                files_skipped: if dropped {
                    (old(self).files_skipped + 1) as usize
                } else {
                    old(self).files_skipped
                },
                records_seen: (old(self).records_seen + seen) as usize,
                records_skipped: (old(self).records_skipped + skipped) as usize,
                files_done: (file_index + 1) as usize,
                last_file: final(self).last_file,
                ..*old(self)
            }),
    {
        self.files_processed = self.files_processed + 1;
        if dropped {
            self.files_skipped = self.files_skipped + 1;
        }
        self.records_seen = self.records_seen + seen;
        self.records_skipped = self.records_skipped + skipped;
        self.files_done = file_index + 1;
        self.last_file = name.to_string();
    }

    /// Takes over where a run stands after its rows were written.
    pub fn mark(&mut self, replay: &Replay, fba_rows: u64, cda_rows: u64, complete: bool)
        requires
            old(self).fba_rows_written + fba_rows <= u64::MAX,
            old(self).cda_rows_written + cda_rows <= u64::MAX,
        ensures
            maybe(final(self).anchor) == replay@.fba_log.anchor,
            final(self).emitted_upto == replay@.fba_log.emitted,
            final(self).fba_late_dropped == replay@.fba_log.late,
            final(self).cda_late_dropped == replay@.cda_log.late,
            *final(self) == (Checkpoint {
                fba_rows_written: (old(self).fba_rows_written + fba_rows) as u64,
                cda_rows_written: (old(self).cda_rows_written + cda_rows) as u64,
                complete,
                anchor: final(self).anchor,
                emitted_upto: final(self).emitted_upto,
                fba_late_dropped: final(self).fba_late_dropped,
                cda_late_dropped: final(self).cda_late_dropped,
                ..*old(self)
            }),
    {
        self.fba_rows_written = self.fba_rows_written + fba_rows;
        self.cda_rows_written = self.cda_rows_written + cda_rows;
        self.complete = complete;
        self.anchor = replay.anchor();
        self.emitted_upto = replay.emitted_upto();
        let (fba_late, cda_late): (u64, u64) = replay.late();
        self.fba_late_dropped = fba_late;
        self.cda_late_dropped = cda_late;
    }
}

} // verus!
