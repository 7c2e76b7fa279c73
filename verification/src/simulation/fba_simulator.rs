//! Drives the batch engine and collects what it does.

use vstd::prelude::*;
use crate::engines::ladder::better;
use crate::inputs::replay::{levels_at, levels_of, schedule, schedule_of};
use crate::metrics::collector::{CollectorState, MetricsCollector};
use crate::metrics::events::{BatchClearedEvent, Level};
use crate::metrics::facts::{row_holds, Carry, IntervalFacts};
use crate::multi_asset::batches::{
    interests, interests_of, latest, latest_ts, legs, legs_of, residual, residual_orders, ClearingResult,
};
use crate::multi_asset::clearing::push_trades;
use crate::multi_asset::optimizer::{can_settle, netted, routes, transfers, SettlementOptimizer};
use crate::multi_asset::order_book::clone_orders;
use crate::multi_asset::types::{AssetPair, Order, PairView, Trade};
use crate::simulation::cda_simulator::{depth_of, message, message_of, record_trades, side_depth, trade_events};
use crate::single_pair::clearing::BatchAuctionEngine;
use crate::types::{Amount, EngineKind, Price, Side, PRICE_SCALE};

verus! {

/// The earliest timestamp of a batch.
pub open spec fn earliest_ts(orders: Seq<Order>) -> u64
    decreases orders.len(),
{
    if orders.len() <= 1 {
        if orders.len() == 0 {
            0
        } else {
            orders[0].ts
        }
    } else {
        let before = earliest_ts(orders.drop_last());
        if orders.last().ts < before {
            orders.last().ts
        } else {
            before
        }
    }
}

fn earliest(orders: &Vec<Order>) -> (r: u64)
    ensures
        r == earliest_ts(orders@),
{
    if orders.len() == 0 {
        return 0;
    }
    let mut r: u64 = orders[0].ts;
    let mut i: usize = 1;
    assert(orders@.take(1)[0] == orders@[0]);
    while i < orders.len()
        invariant
            1 <= i <= orders.len(),
            r == earliest_ts(orders@.take(i as int)),
        decreases orders.len() - i,
    {
        assert(orders@.take(i + 1).drop_last() =~= orders@.take(i as int));
        if orders[i].ts < r {
            r = orders[i].ts;
        }
        i += 1;
    }
    assert(orders@.take(i as int) =~= orders@);
    r
}

/// The best limit on one side of a list of orders.
pub open spec fn best_limit(orders: Seq<Order>, side: Side) -> Option<Price>
    decreases orders.len(),
{
    if orders.len() == 0 {
        None
    } else {
        let before = best_limit(orders.drop_last(), side);
        let o = orders.last();
        match o.limit_price() {
            Some(p) if o.side() == side && (before is None || better(side, p, before->0)) => Some(p),
            _ => before,
        }
    }
}

fn best(orders: &Vec<Order>, side: Side) -> (r: Option<Price>)
    ensures
        r == best_limit(orders@, side),
{
    let mut r: Option<Price> = None;
    let mut i: usize = 0;
    assert(orders@.take(0) =~= Seq::<Order>::empty());
    while i < orders.len()
        invariant
            i <= orders.len(),
            r == best_limit(orders@.take(i as int), side),
        decreases orders.len() - i,
    {
        assert(orders@.take(i + 1).drop_last() =~= orders@.take(i as int));
        assert(orders@.take(i + 1).last() == orders@[i as int]);
        let o: &Order = &orders[i];
        if let Some(p) = o.limit_price() {
            let wins: bool = match r {
                None => true,
                Some(q) => crate::engines::ladder::is_better(side, p, q),
            };
            if o.side() == side && wins {
                r = Some(p);
            }
        }
        i += 1;
    }
    assert(orders@.take(i as int) =~= orders@);
    r
}

/// The live ones of a list of orders.
pub open spec fn live() -> spec_fn(Order) -> bool {
    |o: Order| o.is_new_live_order()
}

/// A window that has been closed, before it is cleared.
#[derive(Debug)]
pub struct ClosedWindow {
    pub orders: Vec<Order>,
    pub open_ts: u64,
    pub close_ts: u64,
    /// The price of the last batch that traded.
    pub reference: Option<Price>,
}

/// Trades under the ids of the session.
pub open spec fn renumbered(trades: Seq<Trade>, last_id: int) -> Seq<Trade> {
    Seq::new(trades.len(), |i: int| Trade { trade_id: (last_id + 1 + i) as u64, ..trades[i] })
}

/// What is left of a window after these trades.
pub open spec fn left_of(orders: Seq<Order>, result: Option<ClearingResult>) -> Seq<Order> {
    match result {
        Some(c) => residual(orders, legs_of(c.trades@)),
        None => orders,
    }
}

/// Whether this event records that a window was cleared with this result.
pub open spec fn is_window_event(
    e: BatchClearedEvent,
    window: ClosedWindow,
    result: Option<ClearingResult>,
    nanos: u128,
) -> bool {
    let left = left_of(window.orders@, result);
    &&& e.ts == window.close_ts
    &&& e.batch_open_ts == window.open_ts
    &&& e.unexecuted_quantity == side_depth(left)
    &&& e.buy_flow == 0
    &&& e.sell_flow == 0
    &&& e.compute_nanos == nanos
    &&& match result {
        Some(c) => {
            &&& e.clearing_price == Some(c.clearing_price)
            &&& e.demand_at_price == c.demand_at_price
            &&& e.supply_at_price == c.supply_at_price
            &&& e.traded_quantity == c.traded_quantity
            &&& e.best_unfilled_buy == best_limit(left, Side::Buy)
            &&& e.best_unfilled_sell == best_limit(left, Side::Sell)
            &&& e.depth_schedule@ == schedule(
                Some(c.clearing_price),
                levels_of(interests(window.orders@), c.clearing_price),
            )
        },
        None => {
            &&& e.clearing_price is None
            &&& e.demand_at_price == 0
            &&& e.supply_at_price == 0
            &&& e.traded_quantity == 0
            &&& e.best_unfilled_buy is None
            &&& e.best_unfilled_sell is None
            &&& e.depth_schedule@ == schedule(None, Seq::empty())
        },
    }
}

/// What clearing a window came to.
#[derive(Debug)]
pub struct WindowReport {
    /// The trades, under the ids of the session.
    pub trades: Vec<Trade>,
    /// How many transfers settle them, if that can be computed.
    pub transfers: Option<usize>,
    /// How many orders are left for the next window.
    pub rolled_over: usize,
}

/// A batch engine, what went through it, and what was measured.
pub struct FbaSimulator {
    pub batch_engine: BatchAuctionEngine,
    pub optimizer: SettlementOptimizer,
    pub pending_orders: Vec<Order>,
    pub global_order_history: Vec<Order>,
    pub global_trade_history: Vec<Trade>,
    pub order_id_counter: u64,
    pub trade_id_counter: u64,
    pub metrics: MetricsCollector,
}

impl FbaSimulator {
    /// A session with intervals of this width.
    pub fn new(interval_width_ns: u64) -> (r: Self)
        ensures
            r.batch_engine.orders@ == Seq::<Order>::empty(),
            r.batch_engine.next_trade_id == 1,
            r.batch_engine.last_clearing_price is None,
            r.pending_orders@ == Seq::<Order>::empty(),
            r.global_order_history@ == Seq::<Order>::empty(),
            r.global_trade_history@ == Seq::<Trade>::empty(),
            r.order_id_counter == 1,
            r.trade_id_counter == 0,
            r.metrics@ == CollectorState::new(EngineKind::Fba, interval_width_ns as int),
    {
        FbaSimulator {
            batch_engine: BatchAuctionEngine::new(),
            optimizer: SettlementOptimizer::new(),
            pending_orders: Vec::new(),
            global_order_history: Vec::new(),
            global_trade_history: Vec::new(),
            order_id_counter: 1,
            trade_id_counter: 0,
            metrics: MetricsCollector::new(EngineKind::Fba, interval_width_ns),
        }
    }

    /// The rows of the time series so far; none if there are more than can be
    /// counted.
    pub fn metrics_series(&self) -> (r: Option<Vec<IntervalFacts>>)
        ensures
            match r {
                Some(rows) => {
                    &&& rows@.len() == self.metrics@.row_count()
                    &&& forall|k: int|
                        0 <= k < rows@.len() ==> row_holds(
                            #[trigger] rows@[k],
                            self.metrics@.messages,
                            self.metrics@.trades,
                            self.metrics@.batches,
                            self.metrics@.books,
                            self.metrics@.first(),
                            self.metrics@.width,
                            self.metrics@.first(),
                            self.metrics@.row_count(),
                            Carry { prev_close: None, prev_clearing: None },
                            k,
                        )
                },
                None => self.metrics@.row_count() > usize::MAX,
            },
    {
        if self.metrics.row_count() <= usize::MAX as u128 {
            Some(self.metrics.finalize())
        } else {
            None
        }
    }

    /// Adds a limit order at a whole price to the window, and returns its id;
    /// nothing where the id or the price cannot be represented.
    pub fn add_order(&mut self, side: Side, raw_price: u128, qty: u128, user: &str, timestamp: u64) -> (r: Option<u64>)
        ensures
            match r {
                Some(id) => {
                    &&& id == old(self).order_id_counter < u64::MAX
                    &&& raw_price * PRICE_SCALE <= u128::MAX
                    &&& final(self).order_id_counter == id + 1
                    &&& exists|o: Order| #[trigger]
                        is_added(o, id, user@, side, (raw_price * PRICE_SCALE) as u128, qty, timestamp) && {
                            &&& final(self).pending_orders@ == old(self).pending_orders@.push(o)
                            &&& final(self).global_order_history@ == old(self).global_order_history@.push(o)
                            &&& final(self).metrics@ == (CollectorState {
                                messages: old(self).metrics@.messages.push(message_of(o)),
                                ..old(self).metrics@
                            })
                        }
                },
                None => {
                    &&& old(self).order_id_counter == u64::MAX || raw_price * PRICE_SCALE > u128::MAX
                    &&& *final(self) == *old(self)
                },
            },
            final(self).batch_engine == old(self).batch_engine,
            final(self).global_trade_history == old(self).global_trade_history,
            final(self).trade_id_counter == old(self).trade_id_counter,
    {
        if self.order_id_counter == u64::MAX {
            return None;
        }
        let price: u128 = match raw_price.checked_mul(PRICE_SCALE) {
            None => {
                return None;
            },
            Some(price) => price,
        };
        let id: u64 = self.order_id_counter;
        let order: Order = Order::limit(id, user, AssetPair::default(), side, price, qty, timestamp);
        let ghost added: Order = order;
        assert(is_added(added, id, user@, side, (raw_price * PRICE_SCALE) as u128, qty, timestamp));
        self.metrics.record_message(message(&order));
        self.pending_orders.push(order.clone());
        self.global_order_history.push(order);
        self.order_id_counter = id + 1;
        assert(self.pending_orders@ == old(self).pending_orders@.push(added));
        assert(self.global_order_history@ == old(self).global_order_history@.push(added));
        assert(self.metrics@ == (CollectorState {
            messages: old(self).metrics@.messages.push(message_of(added)),
            ..old(self).metrics@
        }));
        Some(id)
    }

    /// Closes the window and hands its live orders to the engine; nothing if
    /// it is empty.
    pub fn close_window(&mut self) -> (r: Option<ClosedWindow>)
        ensures
            match r {
                Some(w) => {
                    &&& old(self).pending_orders@.len() > 0
                    &&& w.orders@ == old(self).pending_orders@
                    &&& w.open_ts == earliest_ts(w.orders@)
                    &&& w.close_ts == latest_ts(w.orders@)
                    &&& w.reference == old(self).batch_engine.last_clearing_price
                    &&& final(self).pending_orders@ == Seq::<Order>::empty()
                    &&& final(self).batch_engine.orders@ == old(self).batch_engine.orders@ + w.orders@.filter(live())
                },
                None => {
                    &&& old(self).pending_orders@.len() == 0
                    &&& final(self).pending_orders == old(self).pending_orders
                    &&& final(self).batch_engine == old(self).batch_engine
                },
            },
            final(self).batch_engine.next_trade_id == old(self).batch_engine.next_trade_id,
            final(self).batch_engine.last_clearing_price == old(self).batch_engine.last_clearing_price,
            final(self).global_order_history == old(self).global_order_history,
            final(self).global_trade_history == old(self).global_trade_history,
            final(self).order_id_counter == old(self).order_id_counter,
            final(self).trade_id_counter == old(self).trade_id_counter,
            final(self).metrics == old(self).metrics,
    {
        if self.pending_orders.len() == 0 {
            return None;
        }
        let mut orders: Vec<Order> = Vec::new();
        std::mem::swap(&mut orders, &mut self.pending_orders);
        let ghost start: Seq<Order> = self.batch_engine.orders@;
        let ghost keep = live();
        let mut i: usize = 0;
        proof {
            reveal(Seq::filter);
            assert(start + orders@.take(0).filter(keep) =~= start);
        }
        while i < orders.len()
            invariant
                i <= orders.len(),
                keep == live(),
                orders@ == old(self).pending_orders@,
                self.pending_orders@ == Seq::<Order>::empty(),
                self.batch_engine.orders@ == start + orders@.take(i as int).filter(keep),
                self.batch_engine.next_trade_id == old(self).batch_engine.next_trade_id,
                self.batch_engine.last_clearing_price == old(self).batch_engine.last_clearing_price,
                self.global_order_history == old(self).global_order_history,
                self.global_trade_history == old(self).global_trade_history,
                self.order_id_counter == old(self).order_id_counter,
                self.trade_id_counter == old(self).trade_id_counter,
                self.metrics == old(self).metrics,
            decreases orders.len() - i,
        {
            proof {
                reveal(Seq::filter);
                assert(orders@.take(i + 1).drop_last() =~= orders@.take(i as int));
                assert(orders@.take(i + 1).last() == orders@[i as int]);
            }
            let ghost before: Seq<Order> = self.batch_engine.orders@;
            self.batch_engine.submit(orders[i].clone());
            assert(self.batch_engine.orders@ =~= start + orders@.take(i + 1).filter(keep));
            i += 1;
        }
        assert(orders@.take(i as int) =~= orders@);
        let open_ts: u64 = earliest(&orders);
        let close_ts: u64 = latest(&orders);
        let reference: Option<Price> = self.batch_engine.last_clearing_price;
        Some(ClosedWindow { orders, open_ts, close_ts, reference })
    }

    /// Records what clearing a window came to: its trades under the ids of the
    /// session, the clearing itself, and what is left for the next window.
    pub fn settle_window(&mut self, window: ClosedWindow, result: Option<ClearingResult>, nanos: u128) -> (r: WindowReport)
        requires
            old(self).pending_orders@.len() == 0,
            result matches Some(c) ==> old(self).trade_id_counter + c.trades@.len() <= u64::MAX,
        ensures
            ({
                let trades = match result {
                    Some(c) => renumbered(c.trades@, old(self).trade_id_counter as int),
                    None => Seq::empty(),
                };
                let left = left_of(window.orders@, result);
                &&& r.trades@ == trades
                &&& final(self).global_trade_history@ == old(self).global_trade_history@ + trades
                &&& final(self).trade_id_counter == old(self).trade_id_counter + trades.len()
                &&& final(self).pending_orders@ == left
                &&& r.rolled_over == left.len()
                &&& match r.transfers {
                    Some(n) => result is Some && can_settle(trades) && n == routes(transfers(netted(trades))).len(),
                    None => result is None || !can_settle(trades),
                }
                &&& exists|e: BatchClearedEvent| #[trigger]
                    is_window_event(e, window, result, nanos) && final(self).metrics@ == (CollectorState {
                        trades: old(self).metrics@.trades + trade_events(
                            trades,
                            EngineKind::Fba,
                            window.reference,
                            None,
                        ),
                        batches: old(self).metrics@.batches.push(e),
                        ..old(self).metrics@
                    })
            }),
            final(self).batch_engine == old(self).batch_engine,
            final(self).global_order_history == old(self).global_order_history,
            final(self).order_id_counter == old(self).order_id_counter,
    {
        let ghost orders: Seq<Order> = window.orders@;
        let ghost before: CollectorState = self.metrics@;
        let mut trades: Vec<Trade> = Vec::new();
        let (event, left, transfers): (BatchClearedEvent, Vec<Order>, Option<usize>) = match &result {
            Some(c) => {
                let ghost first: int = self.trade_id_counter as int;
                let ghost all: Seq<Trade> = renumbered(c.trades@, first);
                let mut i: usize = 0;
                while i < c.trades.len()
                    invariant
                        i <= c.trades.len(),
                        first + c.trades@.len() <= u64::MAX,
                        all == renumbered(c.trades@, first),
                        self.trade_id_counter == first + i,
                        trades@ =~= all.take(i as int),
                        self.metrics == old(self).metrics,
                        self.batch_engine == old(self).batch_engine,
                        self.global_order_history == old(self).global_order_history,
                        self.global_trade_history == old(self).global_trade_history,
                        self.order_id_counter == old(self).order_id_counter,
                        self.pending_orders == old(self).pending_orders,
                    decreases c.trades.len() - i,
                {
                    self.trade_id_counter = self.trade_id_counter + 1;
                    let mut t: Trade = c.trades[i].clone();
                    t.trade_id = self.trade_id_counter;
                    trades.push(t);
                    i += 1;
                }
                assert(trades@ =~= all);
                let transfers: Option<usize> = match self.optimizer.checked_optimize(&trades) {
                    Some(summary) => Some(summary.plan.optimized_transfer_count),
                    None => None,
                };
                let left: Vec<Order> = residual_orders(&window.orders, &legs(&c.trades));
                let event: BatchClearedEvent = BatchClearedEvent {
                    ts: window.close_ts,
                    batch_open_ts: window.open_ts,
                    clearing_price: Some(c.clearing_price),
                    demand_at_price: c.demand_at_price,
                    supply_at_price: c.supply_at_price,
                    buy_flow: 0,
                    sell_flow: 0,
                    traded_quantity: c.traded_quantity,
                    unexecuted_quantity: depth_of(&left),
                    best_unfilled_buy: best(&left, Side::Buy),
                    best_unfilled_sell: best(&left, Side::Sell),
                    depth_schedule: schedule_of(
                        Some(c.clearing_price),
                        &levels_at(&interests_of(&window.orders), c.clearing_price),
                    ),
                    compute_nanos: nanos,
                };
                (event, left, transfers)
            },
            None => {
                let none: Vec<Level> = Vec::new();
                let event: BatchClearedEvent = BatchClearedEvent {
                    ts: window.close_ts,
                    batch_open_ts: window.open_ts,
                    clearing_price: None,
                    demand_at_price: 0,
                    supply_at_price: 0,
                    buy_flow: 0,
                    sell_flow: 0,
                    traded_quantity: 0,
                    unexecuted_quantity: depth_of(&window.orders),
                    best_unfilled_buy: None,
                    best_unfilled_sell: None,
                    depth_schedule: schedule_of(None, &none),
                    compute_nanos: nanos,
                };
                (event, clone_orders(&window.orders), None)
            },
        };
        assert(is_window_event(event, window, result, nanos));
        record_trades(&mut self.metrics, &trades, EngineKind::Fba, window.reference, None);
        self.metrics.record_batch(event);
        push_trades(&mut self.global_trade_history, &trades);
        let rolled_over: usize = left.len();
        self.pending_orders = left;
        assert(trades@ =~= match result {
            Some(c) => renumbered(c.trades@, old(self).trade_id_counter as int),
            None => Seq::empty(),
        });
        WindowReport { trades, transfers, rolled_over }
    }
}

/// Whether `o` is the limit order that is added with this id.
pub open spec fn is_added(
    o: Order,
    id: u64,
    user: Seq<char>,
    side: Side,
    price: Price,
    qty: Amount,
    timestamp: u64,
) -> bool {
    &&& o.user_id@ == user
    &&& o.pair@ == PairView::plain("SOL"@, "USD"@)
    &&& o == Order::plain_limit(id, o.user_id, o.pair, side, price, qty, timestamp)
}

} // verus!
