//! Drives the continuous engine and collects what it does.

use vstd::prelude::*;
use crate::inputs::replay::{levels_at, levels_of, schedule, schedule_of};
use crate::engines::auction::Interest;
use crate::inputs::simulate_cmd::{middle, midpoint};
use crate::metrics::collector::{CollectorState, MetricsCollector};
use crate::metrics::events::{BookSnapshot, Level, OrderMessage, TradeEvent};
use crate::metrics::facts::{row_holds, Carry, IntervalFacts};
use crate::multi_asset::batches::{interests, interests_of};
use crate::multi_asset::clearing::push_trades;
use crate::multi_asset::engine_traits::MatchingEngine;
use crate::multi_asset::matching::Sides;
use crate::multi_asset::order_book::OrderBookState;
use crate::multi_asset::types::{AssetPair, Order, PairView, Trade};
use crate::seqs::{lemma_total_take, saturated, total};
use crate::single_pair::continuous::ContinuousEngine;
use crate::types::{Amount, EngineKind, Price, Side, Trade as PlainTrade, PRICE_SCALE};

verus! {

/// What a recorded order says before any engine has seen it.
pub open spec fn message_of(o: Order) -> OrderMessage {
    OrderMessage {
        ts: o.ts,
        oid: o.oid,
        user_id: o.user_id,
        side: o.side(),
        limit_price: o.limit_price(),
        quantity: o.orig_sz,
        accepted: o.is_new_live_order(),
    }
}

pub(crate) fn message(o: &Order) -> (r: OrderMessage)
    ensures
        r == message_of(*o),
{
    OrderMessage {
        ts: o.ts,
        oid: o.oid,
        user_id: o.user_id.clone(),
        side: o.side(),
        limit_price: o.limit_price(),
        quantity: o.orig_sz,
        accepted: o.is_new_live_order(),
    }
}

/// A trade of the only pair.
pub open spec fn plain_trade(t: Trade, engine: EngineKind) -> PlainTrade {
    PlainTrade {
        trade_id: t.trade_id,
        price: t.price,
        quantity: t.quantity,
        buyer_id: t.buyer_id,
        seller_id: t.seller_id,
        buy_order_id: t.buy_order_id,
        sell_order_id: t.sell_order_id,
        engine_type: engine,
        ts: t.ts,
        trade_tx_hash: t.trade_tx_hash,
        chain_id: t.chain_id,
    }
}

pub(crate) fn to_plain(t: &Trade, engine: EngineKind) -> (r: PlainTrade)
    ensures
        r == plain_trade(*t, engine),
{
    PlainTrade {
        trade_id: t.trade_id,
        price: t.price,
        quantity: t.quantity,
        buyer_id: t.buyer_id.clone(),
        seller_id: t.seller_id.clone(),
        buy_order_id: t.buy_order_id,
        sell_order_id: t.sell_order_id,
        engine_type: engine,
        ts: t.ts,
        trade_tx_hash: crate::types::clone_label(&t.trade_tx_hash),
        chain_id: t.chain_id,
    }
}

/// The events of a list of trades.
pub open spec fn trade_events(
    trades: Seq<Trade>,
    engine: EngineKind,
    reference: Option<Price>,
    aggressor: Option<Side>,
) -> Seq<TradeEvent> {
    Seq::new(
        trades.len(),
        |i: int|
            TradeEvent {
                trade: plain_trade(trades[i], engine),
                reference_price: reference,
                aggressor_side: aggressor,
            },
    )
}

/// Records trades one by one.
pub(crate) fn record_trades(
    metrics: &mut MetricsCollector,
    trades: &Vec<Trade>,
    engine: EngineKind,
    reference: Option<Price>,
    aggressor: Option<Side>,
)
    ensures
        final(metrics)@ == (CollectorState {
            trades: old(metrics)@.trades + trade_events(trades@, engine, reference, aggressor),
            ..old(metrics)@
        }),
{
    let ghost start: CollectorState = metrics@;
    let ghost all: Seq<TradeEvent> = trade_events(trades@, engine, reference, aggressor);
    let mut i: usize = 0;
    assert(start.trades + all.take(0) =~= start.trades);
    while i < trades.len()
        invariant
            i <= trades.len(),
            all == trade_events(trades@, engine, reference, aggressor),
            metrics@ == (CollectorState { trades: start.trades + all.take(i as int), ..start }),
        decreases trades.len() - i,
    {
        metrics.record_trade(
            TradeEvent {
                trade: to_plain(&trades[i], engine),
                reference_price: reference,
                aggressor_side: aggressor,
            },
        );
        assert((start.trades + all.take(i as int)).push(all[i as int]) =~= start.trades + all.take(i + 1));
        i += 1;
    }
    assert(all.take(i as int) =~= all);
}

/// The limit of the best resting order.
pub open spec fn best_limit(orders: Seq<Order>) -> Option<Price> {
    if orders.len() > 0 {
        orders[0].limit_price()
    } else {
        None
    }
}

/// The quantity of the best resting order.
pub open spec fn best_quantity(orders: Seq<Order>) -> int {
    if orders.len() > 0 {
        orders[0].remaining as int
    } else {
        0
    }
}

/// The price halfway between the best orders of a book.
pub open spec fn book_middle(book: Sides) -> Option<Price> {
    middle(best_limit(book.bids), best_limit(book.asks))
}

pub open spec fn open_part() -> spec_fn(Order) -> int {
    |o: Order| o.remaining as int
}

/// The quantity of all resting orders of a side.
pub open spec fn side_depth(orders: Seq<Order>) -> int {
    saturated(total(orders, open_part()))
}

/// Whether this event records a book.
pub open spec fn is_snapshot(e: BookSnapshot, book: Sides, ts: u64, nanos: u128) -> bool {
    &&& e.ts == ts
    &&& e.best_bid == best_limit(book.bids)
    &&& e.best_ask == best_limit(book.asks)
    &&& e.best_bid_qty == best_quantity(book.bids)
    &&& e.best_ask_qty == best_quantity(book.asks)
    &&& e.bid_depth == side_depth(book.bids)
    &&& e.ask_depth == side_depth(book.asks)
    &&& e.depth_schedule@ == schedule(
        book_middle(book),
        match book_middle(book) {
            Some(mid) => levels_of(interests(book.bids + book.asks), mid),
            None => Seq::empty(),
        },
    )
    &&& e.compute_nanos == nanos
}

fn limit_of_best(orders: &Vec<Order>) -> (r: Option<Price>)
    ensures
        r == best_limit(orders@),
{
    if orders.len() > 0 {
        orders[0].limit_price()
    } else {
        None
    }
}

fn quantity_of_best(orders: &Vec<Order>) -> (r: Amount)
    ensures
        r == best_quantity(orders@),
{
    if orders.len() > 0 {
        orders[0].remaining
    } else {
        0
    }
}

pub(crate) fn depth_of(orders: &Vec<Order>) -> (r: Amount)
    ensures
        r == side_depth(orders@),
{
    let mut sum: Amount = 0;
    let mut i: usize = 0;
    assert(orders@.take(0) =~= Seq::<Order>::empty());
    while i < orders.len()
        invariant
            i <= orders.len(),
            sum == saturated(total(orders@.take(i as int), open_part())),
        decreases orders.len() - i,
    {
        proof {
            lemma_total_take(orders@, i as int, open_part());
        }
        sum = sum.saturating_add(orders[i].remaining);
        i += 1;
    }
    assert(orders@.take(i as int) =~= orders@);
    sum
}

fn snapshot(book: &OrderBookState, ts: u64, nanos: u128) -> (r: BookSnapshot)
    ensures
        is_snapshot(r, book.sides(), ts, nanos),
{
    let best_bid: Option<Price> = limit_of_best(&book.bids);
    let best_ask: Option<Price> = limit_of_best(&book.asks);
    let mid: Option<Price> = midpoint(best_bid, best_ask);
    let levels: Vec<Level> = match mid {
        Some(m) => {
            let mut book_interests: Vec<Interest> = interests_of(&book.bids);
            let mut more: Vec<Interest> = interests_of(&book.asks);
            book_interests.append(&mut more);
            assert(book_interests@ =~= interests(book.bids@ + book.asks@));
            levels_at(&book_interests, m)
        },
        None => Vec::new(),
    };
    BookSnapshot {
        ts,
        best_bid,
        best_ask,
        best_bid_qty: quantity_of_best(&book.bids),
        best_ask_qty: quantity_of_best(&book.asks),
        bid_depth: depth_of(&book.bids),
        ask_depth: depth_of(&book.asks),
        depth_schedule: schedule_of(mid, &levels),
        compute_nanos: nanos,
    }
}

/// A continuous engine, what went through it, and what was measured.
pub struct CdaSimulator {
    pub engine: ContinuousEngine,
    pub order_id_counter: u64,
    pub global_order_history: Vec<Order>,
    pub global_trade_history: Vec<Trade>,
    pub metrics: MetricsCollector,
}

impl CdaSimulator {
    /// A session with intervals of this width.
    pub fn new(interval_width_ns: u64) -> (r: Self)
        ensures
            r.engine.ready(),
            r.engine.book.sides() == Sides::empty(),
            r.engine.next_trade_id == 1,
            r.order_id_counter == 1,
            r.global_order_history@ == Seq::<Order>::empty(),
            r.global_trade_history@ == Seq::<Trade>::empty(),
            r.metrics@ == CollectorState::new(EngineKind::Cda, interval_width_ns as int),
    {
        CdaSimulator {
            engine: ContinuousEngine::new(),
            order_id_counter: 1,
            global_order_history: Vec::new(),
            global_trade_history: Vec::new(),
            metrics: MetricsCollector::new(EngineKind::Cda, interval_width_ns),
        }
    }

    /// The rows of the time series so far; none if there are more than can be
    /// counted.
    pub fn metrics_series(&self) -> (r: Option<Vec<IntervalFacts>>)
        ensures
            match r {
                Some(rows) => {
                    &&& rows@.len() == self.metrics@.row_count()
                    &&& forall|k: int|
                        0 <= k < rows@.len() ==> row_holds(
                            #[trigger] rows@[k],
                            self.metrics@.messages,
                            self.metrics@.trades,
                            self.metrics@.batches,
                            self.metrics@.books,
                            self.metrics@.first(),
                            self.metrics@.width,
                            self.metrics@.first(),
                            self.metrics@.row_count(),
                            Carry { prev_close: None, prev_clearing: None },
                            k,
                        )
                },
                None => self.metrics@.row_count() > usize::MAX,
            },
    {
        if self.metrics.row_count() <= usize::MAX as u128 {
            Some(self.metrics.finalize())
        } else {
            None
        }
    }

    /// Makes a limit order under the next id, at a whole price; nothing where
    /// the id or the price cannot be represented.
    pub fn add_order(&mut self, side: Side, raw_price: u128, qty: u128, user: &str, timestamp: u64) -> (r: Option<Order>)
        ensures
            match r {
                Some(o) => {
                    &&& old(self).order_id_counter < u64::MAX
                    &&& o.user_id@ == user@
                    &&& o.pair@ == PairView::plain("SOL"@, "USD"@)
                    &&& o == Order::plain_limit(
                        (old(self).order_id_counter + 1) as u64,
                        o.user_id,
                        o.pair,
                        side,
                        (raw_price * PRICE_SCALE) as u128,
                        qty,
                        timestamp,
                    )
                    &&& raw_price * PRICE_SCALE <= u128::MAX
                    &&& *final(self) == (CdaSimulator { order_id_counter: o.oid, ..*old(self) })
                },
                None => {
                    &&& old(self).order_id_counter == u64::MAX || raw_price * PRICE_SCALE > u128::MAX
                    &&& *final(self) == *old(self)
                },
            },
    {
        if self.order_id_counter == u64::MAX {
            return None;
        }
        match raw_price.checked_mul(PRICE_SCALE) {
            None => None,
            Some(price) => {
                self.order_id_counter = self.order_id_counter + 1;
                Some(Order::limit(self.order_id_counter, user, AssetPair::default(), side, price, qty, timestamp))
            },
        }
    }

    /// Takes note of an order, and returns the middle of the book before it.
    pub fn note(&mut self, order: &Order) -> (r: Option<Price>)
        ensures
            r == book_middle(old(self).engine.book.sides()),
            final(self).engine == old(self).engine,
            final(self).order_id_counter == old(self).order_id_counter,
            final(self).global_trade_history == old(self).global_trade_history,
            final(self).global_order_history@ == old(self).global_order_history@.push(*order),
            final(self).metrics@ == (CollectorState {
                messages: old(self).metrics@.messages.push(message_of(*order)),
                ..old(self).metrics@
            }),
    {
        self.metrics.record_message(message(order));
        self.global_order_history.push(order.clone());
        midpoint(limit_of_best(&self.engine.book.bids), limit_of_best(&self.engine.book.asks))
    }

    /// Records what the engine did with an order: its trades, and the book
    /// after it.
    pub fn record(&mut self, order: &Order, reference: Option<Price>, trades: &Vec<Trade>, nanos: u128)
        ensures
            final(self).engine == old(self).engine,
            final(self).order_id_counter == old(self).order_id_counter,
            final(self).global_order_history == old(self).global_order_history,
            final(self).global_trade_history@ == old(self).global_trade_history@ + trades@,
            exists|e: BookSnapshot| #[trigger]
                is_snapshot(e, old(self).engine.book.sides(), order.ts, nanos) && final(self).metrics@
                    == (CollectorState {
                    trades: old(self).metrics@.trades + trade_events(
                        trades@,
                        EngineKind::Cda,
                        reference,
                        Some(order.side()),
                    ),
                    books: old(self).metrics@.books.push(e),
                    ..old(self).metrics@
                }),
    {
        record_trades(&mut self.metrics, trades, EngineKind::Cda, reference, Some(order.side()));
        push_trades(&mut self.global_trade_history, trades);
        let event: BookSnapshot = snapshot(&self.engine.book, order.ts, nanos);
        assert(is_snapshot(event, self.engine.book.sides(), order.ts, nanos));
        self.metrics.record_book_snapshot(event);
    }
}

} // verus!
