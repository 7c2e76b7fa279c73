//! Continuous double auction: every order is matched or rested the instant
//! it arrives, against a live book of resting bids and asks.

use std::collections::HashMap;
use vstd::prelude::*;
use crate::engines::ladder::{can_rest, find_resting, rest_index, well_ranked, Ladder};
use crate::seqs::{clamped_sub, min_of, saturated};
use crate::trades::{notional_of, sum_notionals, sum_quantities, volume_of};
use crate::types::{clone_trades, Amount, EngineKind, Order, OrderKind, Price, Side, Trade, PRICE_SCALE};

verus! {

broadcast use vstd::std_specs::hash::group_hash_axioms;

/// The price a resting order of this kind trades at. Only limit orders rest,
/// so the second case never prices a trade.
pub open spec fn price_of(kind: OrderKind) -> Price {
    match kind {
        OrderKind::Limit { price } => price,
        OrderKind::Market => PRICE_SCALE,
    }
}

/// Whether an incoming order crosses a resting one at the resting price.
pub open spec fn crosses(taker: OrderKind, maker: OrderKind, taker_side: Side) -> bool {
    match (taker, maker) {
        (OrderKind::Limit { price: taker_px }, OrderKind::Limit { price: maker_px }) => match taker_side {
            Side::Buy => taker_px >= maker_px,
            Side::Sell => taker_px <= maker_px,
        },
        _ => true,
    }
}

/// What an incoming order does to the resting orders of the other side.
#[verifier::ext_equal]
pub struct Sweep {
    /// The resting orders that were hit, as they stood before, with the
    /// quantity taken from each.
    pub fills: Seq<(Order, int)>,
    /// The resting orders that are left.
    pub makers: Seq<Order>,
    /// What is left of the incoming order.
    pub left: int,
}

/// The incoming order takes from the best resting order as long as it
/// crosses it and has something left.
pub open spec fn sweep(taker: Order, makers: Seq<Order>) -> Sweep
    decreases makers.len(),
{
    if taker.remaining == 0 || makers.len() == 0 || !crosses(taker.kind(), makers[0].kind(), taker.side())
        || makers[0].remaining == 0 {
        Sweep { fills: Seq::empty(), makers, left: taker.remaining as int }
    } else {
        let qty = min_of(taker.remaining as int, makers[0].remaining as int);
        let rest = if qty == makers[0].remaining {
            sweep(taker.filled_by(qty), makers.drop_first())
        } else {
            Sweep { fills: Seq::empty(), makers: makers.update(0, makers[0].filled_by(qty)), left: 0 }
        };
        Sweep { fills: seq![(makers[0], qty)] + rest.fills, ..rest }
    }
}

/// The trade that records one fill: at the resting order's price.
pub open spec fn fill_trade(taker: Order, maker: Order, qty: int, id: int) -> Trade {
    let buy = if taker.side() == Side::Buy { taker } else { maker };
    let sell = if taker.side() == Side::Buy { maker } else { taker };
    Trade {
        trade_id: id as u64,
        price: price_of(maker.kind()),
        quantity: qty as u128,
        buyer_id: buy.user_id,
        seller_id: sell.user_id,
        buy_order_id: buy.oid,
        sell_order_id: sell.oid,
        engine_type: EngineKind::Cda,
        ts: taker.ts,
        trade_tx_hash: None,
        chain_id: None,
    }
}

/// The trades of a list of fills, numbered from `first_id`.
pub open spec fn fill_trades(taker: Order, fills: Seq<(Order, int)>, first_id: int) -> Seq<Trade> {
    Seq::new(fills.len(), |i: int| fill_trade(taker, fills[i].0, fills[i].1, first_id + i))
}

/// The index without the ids of `gone`.
pub open spec fn without_ids(index: Map<u64, (Side, Price)>, gone: Seq<Order>) -> Map<u64, (Side, Price)>
    decreases gone.len(),
{
    if gone.len() == 0 {
        index
    } else {
        without_ids(index, gone.drop_last()).remove(gone.last().oid)
    }
}

/// The state of a continuous book.
#[verifier::ext_equal]
pub struct BookState {
    /// Resting bids, best first.
    pub bids: Seq<Order>,
    /// Resting asks, best first.
    pub asks: Seq<Order>,
    /// Where the order with a given id rests.
    pub index: Map<u64, (Side, Price)>,
    pub trades: Seq<Trade>,
    pub next_trade_id: int,
    /// Quantity of every live order ever submitted.
    pub submitted: int,
    /// Quantity filled, each trade counting once for either side.
    pub filled: int,
    pub bid_depth: int,
    pub ask_depth: int,
}

impl BookState {
    pub open spec fn resting(self, side: Side) -> Seq<Order> {
        match side {
            Side::Buy => self.bids,
            Side::Sell => self.asks,
        }
    }

    pub open spec fn depth(self, side: Side) -> int {
        match side {
            Side::Buy => self.bid_depth,
            Side::Sell => self.ask_depth,
        }
    }

    pub open spec fn with_side(self, side: Side, orders: Seq<Order>, depth: int) -> BookState {
        match side {
            Side::Buy => BookState { bids: orders, bid_depth: depth, ..self },
            Side::Sell => BookState { asks: orders, ask_depth: depth, ..self },
        }
    }

    pub open spec fn empty() -> BookState {
        BookState {
            bids: Seq::empty(),
            asks: Seq::empty(),
            index: Map::empty(),
            trades: Seq::empty(),
            next_trade_id: 1,
            submitted: 0,
            filled: 0,
            bid_depth: 0,
            ask_depth: 0,
        }
    }

    /// The incoming order has been matched, but not rested.
    pub open spec fn matched(self, order: Order) -> BookState {
        let other = order.side().opposite();
        let swept = sweep(order, self.resting(other));
        let done = order.remaining - swept.left;
        let gone = self.resting(other).take(self.resting(other).len() - swept.makers.len());
        BookState {
            index: without_ids(self.index, gone),
            trades: self.trades + fill_trades(order, swept.fills, self.next_trade_id),
            next_trade_id: self.next_trade_id + swept.fills.len(),
            submitted: saturated(self.submitted + order.remaining),
            filled: saturated(self.filled + 2 * done),
            ..self.with_side(other, swept.makers, clamped_sub(self.depth(other), done))
        }
    }

    /// The order rests at its place.
    pub open spec fn rested(self, order: Order) -> BookState {
        let side = order.side();
        BookState {
            index: self.index.insert(order.oid, (side, order.limit_px)),
            ..self.with_side(
                side,
                self.resting(side).insert(rest_index(side, self.resting(side), order), order),
                saturated(self.depth(side) + order.remaining),
            )
        }
    }

    /// The trades that a submitted order causes.
    pub open spec fn trades_on(self, order: Order) -> Seq<Trade> {
        if order.is_cancellation() || !order.is_new_live_order() || order.remaining == 0 {
            Seq::empty()
        } else {
            fill_trades(order, sweep(order, self.resting(order.side().opposite())).fills, self.next_trade_id)
        }
    }

    /// A record has been submitted: a cancellation withdraws its order; a
    /// live order is matched and, if a limit order, its rest stays; anything
    /// else is ignored.
    pub open spec fn submitted(self, order: Order) -> BookState {
        if order.is_cancellation() {
            self.cancelled(order.oid)
        } else if !order.is_new_live_order() || order.remaining == 0 {
            self
        } else {
            let left = sweep(order, self.resting(order.side().opposite())).left;
            let matched = self.matched(order);
            if left > 0 && order.kind() is Limit {
                matched.rested(Order { remaining: left as u128, ..order })
            } else {
                matched
            }
        }
    }

    /// Whether cancelling `oid` takes an order off the book.
    pub open spec fn cancels(self, oid: u64) -> bool {
        self.index.contains_key(oid) && {
            let (side, price) = self.index[oid];
            find_resting(self.resting(side), price, oid) < self.resting(side).len()
        }
    }

    /// The order that the index knows under `oid` has been withdrawn.
    pub open spec fn cancelled(self, oid: u64) -> BookState {
        if !self.index.contains_key(oid) {
            self
        } else {
            let (side, price) = self.index[oid];
            let at = find_resting(self.resting(side), price, oid);
            let unlisted = BookState { index: self.index.remove(oid), ..self };
            if at < self.resting(side).len() {
                let gone = self.resting(side)[at];
                unlisted.with_side(
                    side,
                    self.resting(side).remove(at),
                    clamped_sub(self.depth(side), gone.remaining as int),
                )
            } else {
                unlisted
            }
        }
    }

    /// The machine limits within which the book takes one more order: trade
    /// ids and the number of resting orders must stay representable.
    pub open spec fn has_room_for(self, order: Order) -> bool {
        &&& self.next_trade_id + self.resting(order.side().opposite()).len() <= u64::MAX
        &&& self.resting(order.side()).len() < usize::MAX
    }
}

fn get_price(kind: &OrderKind) -> (r: Price)
    ensures
        r == price_of(*kind),
{
    match kind {
        OrderKind::Limit { price } => *price,
        OrderKind::Market => PRICE_SCALE,
    }
}

fn check_price_match(taker_kind: &OrderKind, maker_kind: &OrderKind, taker_side: Side) -> (r: bool)
    ensures
        r == crosses(*taker_kind, *maker_kind, taker_side),
{
    match (*taker_kind, *maker_kind) {
        (OrderKind::Limit { price: taker_px }, OrderKind::Limit { price: maker_px }) => match taker_side {
            Side::Buy => taker_px >= maker_px,
            Side::Sell => taker_px <= maker_px,
        },
        _ => true,
    }
}

/// The resting book, the trades executed so far, and the running totals that
/// the metrics read.
#[derive(Debug)]
pub struct CdaOrderBook {
    bids: Ladder,
    asks: Ladder,
    /// Side and price of every resting order, by order id.
    oid_index: HashMap<u64, (Side, Price)>,
    pub executed_trades: Vec<Trade>,
    next_trade_id: u64,
    bid_order_count: usize,
    ask_order_count: usize,
    total_submitted_qty: Amount,
    total_filled_qty: Amount,
    bid_depth: Amount,
    ask_depth: Amount,
}

impl View for CdaOrderBook {
    type V = BookState;

    closed spec fn view(&self) -> BookState {
        BookState {
            bids: self.bids@,
            asks: self.asks@,
            index: self.oid_index@,
            trades: self.executed_trades@,
            next_trade_id: self.next_trade_id as int,
            submitted: self.total_submitted_qty as int,
            filled: self.total_filled_qty as int,
            bid_depth: self.bid_depth as int,
            ask_depth: self.ask_depth as int,
        }
    }
}

impl CdaOrderBook {
    /// The counters of a book are representable, and none is negative.
    pub proof fn lemma_counters(&self)
        ensures
            0 <= self@.next_trade_id <= u64::MAX,
            0 <= self@.submitted <= u128::MAX,
            0 <= self@.filled <= u128::MAX,
            0 <= self@.bid_depth <= u128::MAX,
            0 <= self@.ask_depth <= u128::MAX,
    {
    }

    /// Both sides are in price-time order without empty levels, and the
    /// order counts are those of the sides.
    pub closed spec fn wf(&self) -> bool {
        &&& self.bids.wf()
        &&& self.asks.wf()
        &&& self.bids.spec_side() == Side::Buy
        &&& self.asks.spec_side() == Side::Sell
        &&& self.bid_order_count == self.bids@.len()
        &&& self.ask_order_count == self.asks@.len()
    }

    /// What well-formedness says of the state.
    pub proof fn lemma_wf(&self)
        requires
            self.wf(),
        ensures
            well_ranked(Side::Buy, self@.bids),
            well_ranked(Side::Sell, self@.asks),
    {
        self.bids.lemma_ranked();
        self.asks.lemma_ranked();
    }

    pub fn new() -> (r: Self)
        ensures
            r.wf(),
            r@ == BookState::empty(),
    {
        CdaOrderBook {
            bids: Ladder::new(Side::Buy),
            asks: Ladder::new(Side::Sell),
            oid_index: HashMap::new(),
            executed_trades: Vec::new(),
            next_trade_id: 1,
            bid_order_count: 0,
            ask_order_count: 0,
            total_submitted_qty: 0,
            total_filled_qty: 0,
            bid_depth: 0,
            ask_depth: 0,
        }
    }

    /// Takes one fill of `qty` from the best order of `side`.
    fn fill_best_of(&mut self, side: Side, qty: Amount)
        requires
            old(self).wf(),
            old(self)@.resting(side).len() > 0,
            0 < qty <= old(self)@.resting(side)[0].remaining,
        ensures
            final(self).wf(),
            final(self)@ == (BookState {
                filled: saturated(old(self)@.filled + 2 * qty),
                index: if qty == old(self)@.resting(side)[0].remaining {
                    old(self)@.index.remove(old(self)@.resting(side)[0].oid)
                } else {
                    old(self)@.index
                },
                ..old(self)@.with_side(
                    side,
                    if qty == old(self)@.resting(side)[0].remaining {
                        old(self)@.resting(side).drop_first()
                    } else {
                        old(self)@.resting(side).update(0, old(self)@.resting(side)[0].filled_by(qty as int))
                    },
                    clamped_sub(old(self)@.depth(side), qty as int),
                )
            }),
    {
        let (oid, remaining): (u64, Amount) = match side {
            Side::Buy => {
                let best: &Order = self.bids.best().unwrap();
                (best.oid, best.remaining)
            },
            Side::Sell => {
                let best: &Order = self.asks.best().unwrap();
                (best.oid, best.remaining)
            },
        };
        match side {
            Side::Buy => {
                self.bids.fill_best(qty);
                self.bid_depth = self.bid_depth.saturating_sub(qty);
            },
            Side::Sell => {
                self.asks.fill_best(qty);
                self.ask_depth = self.ask_depth.saturating_sub(qty);
            },
        }
        self.total_filled_qty = self.total_filled_qty.saturating_add(qty).saturating_add(qty);
        if qty == remaining {
            self.oid_index.remove(&oid);
            match side {
                Side::Buy => {
                    self.bid_order_count = self.bid_order_count - 1;
                },
                Side::Sell => {
                    self.ask_order_count = self.ask_order_count - 1;
                },
            }
        }
        assert(self@ =~= (BookState {
            filled: saturated(old(self)@.filled + 2 * qty),
            index: if qty == old(self)@.resting(side)[0].remaining {
                old(self)@.index.remove(old(self)@.resting(side)[0].oid)
            } else {
                old(self)@.index
            },
            ..old(self)@.with_side(
                side,
                if qty == old(self)@.resting(side)[0].remaining {
                    old(self)@.resting(side).drop_first()
                } else {
                    old(self)@.resting(side).update(0, old(self)@.resting(side)[0].filled_by(qty as int))
                },
                clamped_sub(old(self)@.depth(side), qty as int),
            )
        }));
    }

    /// The best order of `side`.
    fn best_of(&self, side: Side) -> (r: Option<&Order>)
        requires
            self.wf(),
        ensures
            match r {
                Some(o) => self@.resting(side).len() > 0 && *o == self@.resting(side)[0],
                None => self@.resting(side).len() == 0,
            },
    {
        match side {
            Side::Buy => self.bids.best(),
            Side::Sell => self.asks.best(),
        }
    }

    /// Matches a live order against the other side and returns what is left
    /// of it.
    fn match_incoming(&mut self, order: &Order) -> (left: Amount)
        requires
            old(self).wf(),
            order.remaining > 0,
            old(self)@.next_trade_id + old(self)@.resting(order.side().opposite()).len() <= u64::MAX,
        ensures
            final(self).wf(),
            left == sweep(*order, old(self)@.resting(order.side().opposite())).left,
            final(self)@ == old(self)@.matched(*order),
    {
        let side: Side = order.side();
        let other: Side = side.opposite();
        let mut taker: Order = order.clone();
        self.total_submitted_qty = self.total_submitted_qty.saturating_add(order.remaining);
        let ghost start: BookState = old(self)@;
        let ghost makers: Seq<Order> = start.resting(other);
        let ghost swept: Sweep = sweep(*order, makers);
        let ghost mut fills: Seq<(Order, int)> = Seq::empty();
        let ghost mut hit: int = 0;
        let mut crossing: bool = true;
        proof {
            assert(makers.take(0) =~= Seq::<Order>::empty());
            assert(Seq::<(Order, int)>::empty() + swept.fills =~= swept.fills);
            assert(self@.trades =~= start.trades + fill_trades(*order, fills, start.next_trade_id));
        }
        while crossing
            invariant
                self.wf(),
                side == order.side(),
                other == side.opposite(),
                taker == (Order { remaining: taker.remaining, ..*order }),
                taker.remaining <= order.remaining,
                makers == start.resting(other),
                swept == sweep(*order, makers),
                0 <= hit <= makers.len(),
                taker.remaining > 0 ==> self@.resting(other) == makers.skip(hit),
                taker.remaining > 0 ==> self@.next_trade_id + self@.resting(other).len() <= u64::MAX,
                self@.resting(other).len() == makers.len() - hit,
                ({
                    let rest = sweep(taker, self@.resting(other));
                    &&& swept.fills == fills + rest.fills
                    &&& swept.makers == rest.makers
                    &&& swept.left == rest.left
                    &&& !crossing ==> rest.fills.len() == 0 && rest.makers == self@.resting(other) && rest.left
                        == taker.remaining
                }),
                self@ == (BookState {
                    index: without_ids(start.index, makers.take(hit)),
                    trades: start.trades + fill_trades(*order, fills, start.next_trade_id),
                    next_trade_id: start.next_trade_id + fills.len(),
                    submitted: saturated(start.submitted + order.remaining),
                    filled: saturated(start.filled + 2 * (order.remaining - taker.remaining)),
                    ..start.with_side(
                        other,
                        self@.resting(other),
                        clamped_sub(start.depth(other), order.remaining - taker.remaining),
                    )
                }),
            decreases self@.resting(other).len() + taker.remaining, (if crossing { 1int } else { 0int }),
        {
            let ghost before: BookState = self@;
            let ghost was: Order = taker;
            if taker.remaining == 0 {
                crossing = false;
                continue ;
            }
            let maker: Order = match self.best_of(other) {
                Some(best) => best.clone(),
                None => {
                    crossing = false;
                    continue ;
                },
            };
            proof {
                self.lemma_wf();
                assert(can_rest(other, self@.resting(other)[0]));
            }
            if !check_price_match(&taker.kind(), &maker.kind(), side) {
                crossing = false;
                continue ;
            }
            let qty: Amount = if taker.remaining <= maker.remaining {
                taker.remaining
            } else {
                maker.remaining
            };
            taker.reduce(qty);
            self.fill_best_of(other, qty);
            let trade: Trade = match side {
                Side::Buy => Trade {
                    trade_id: self.next_trade_id,
                    price: get_price(&maker.kind()),
                    quantity: qty,
                    buyer_id: order.user_id.clone(),
                    seller_id: maker.user_id.clone(),
                    buy_order_id: order.oid,
                    sell_order_id: maker.oid,
                    engine_type: EngineKind::Cda,
                    ts: order.ts,
                    trade_tx_hash: None,
                    chain_id: None,
                },
                Side::Sell => Trade {
                    trade_id: self.next_trade_id,
                    price: get_price(&maker.kind()),
                    quantity: qty,
                    buyer_id: maker.user_id.clone(),
                    seller_id: order.user_id.clone(),
                    buy_order_id: maker.oid,
                    sell_order_id: order.oid,
                    engine_type: EngineKind::Cda,
                    ts: order.ts,
                    trade_tx_hash: None,
                    chain_id: None,
                },
            };
            self.executed_trades.push(trade);
            self.next_trade_id = self.next_trade_id + 1;
            proof {
                let done: Seq<(Order, int)> = fills.push((maker, qty as int));
                let rest: Sweep = sweep(was, before.resting(other));
                let next: Sweep = sweep(taker, self@.resting(other));
                assert(rest.fills =~= seq![(maker, qty as int)] + next.fills);
                assert(swept.fills =~= done + next.fills);
                assert(trade == fill_trade(*order, maker, qty as int, start.next_trade_id + fills.len()));
                assert(start.trades + fill_trades(*order, done, start.next_trade_id) =~= (start.trades + fill_trades(
                    *order,
                    fills,
                    start.next_trade_id,
                )).push(trade));
                if qty == maker.remaining {
                    assert(maker == makers[hit]);
                    assert(makers.take(hit + 1).drop_last() =~= makers.take(hit));
                    assert(makers.skip(hit).drop_first() =~= makers.skip(hit + 1));
                    hit = hit + 1;
                }
                fills = done;
            }
        }
        proof {
            assert(fills + Seq::<(Order, int)>::empty() =~= fills);
            assert(swept.fills =~= fills);
            assert(self@ =~= start.matched(*order));
        }
        taker.remaining
    }

    /// Whether the book can take one more order without running out of trade
    /// ids or of countable resting orders.
    pub fn has_room(&self, order: &Order) -> (r: bool)
        requires
            self.wf(),
        ensures
            r == self@.has_room_for(*order),
    {
        let (own, other): (usize, usize) = match order.side() {
            Side::Buy => (self.bid_order_count, self.ask_order_count),
            Side::Sell => (self.ask_order_count, self.bid_order_count),
        };
        own < usize::MAX && other as u128 + self.next_trade_id as u128 <= u64::MAX as u128
    }

    /// Takes one record of the order stream. A cancellation withdraws the
    /// order it names. A live order is matched against the resting book in
    /// price-time priority, and what is left of a limit order rests; a
    /// market order never rests. Everything else leaves the book alone.
    /// Returns the trades that this record caused, which are also appended
    /// to `executed_trades`.
    pub fn submit(&mut self, order: Order) -> (r: Vec<Trade>)
        requires
            old(self).wf(),
            old(self)@.has_room_for(order),
        ensures
            final(self).wf(),
            final(self)@ == old(self)@.submitted(order),
            r@ == old(self)@.trades_on(order),
    {
        if order.is_cancellation() {
            self.cancel(order.oid);
            return Vec::new();
        }
        if !order.is_new_live_order() || order.remaining == 0 {
            return Vec::new();
        }
        let trades_start: usize = self.executed_trades.len();
        let left: Amount = self.match_incoming(&order);
        let ghost matched: BookState = self@;
        if left > 0 {
            if let OrderKind::Limit { price } = order.kind() {
                let side: Side = order.side();
                let oid: u64 = order.oid;
                let mut rest: Order = order;
                rest.remaining = left;
                let ghost resting: Order = rest;
                match side {
                    Side::Buy => {
                        self.bid_depth = self.bid_depth.saturating_add(left);
                        self.bid_order_count = self.bid_order_count + 1;
                        self.bids.insert(rest);
                    },
                    Side::Sell => {
                        self.ask_depth = self.ask_depth.saturating_add(left);
                        self.ask_order_count = self.ask_order_count + 1;
                        self.asks.insert(rest);
                    },
                }
                self.oid_index.insert(oid, (side, price));
                assert(self@ =~= matched.rested(resting));
            }
        }
        let r: Vec<Trade> = clone_trades(&self.executed_trades, trades_start);
        assert(r@ =~= old(self)@.trades_on(order));
        r
    }

    /// Withdraws the resting order that the index knows under `oid`. Returns
    /// whether an order left the book; an unknown id changes nothing.
    pub fn cancel(&mut self, oid: u64) -> (r: bool)
        requires
            old(self).wf(),
        ensures
            final(self).wf(),
            final(self)@ == old(self)@.cancelled(oid),
            r == old(self)@.cancels(oid),
    {
        let found: Option<(Side, Price)> = match self.oid_index.get(&oid) {
            Some(place) => Some(*place),
            None => None,
        };
        match found {
            None => false,
            Some((side, price)) => {
                let removed: Option<Order> = match side {
                    Side::Buy => self.bids.remove(price, oid),
                    Side::Sell => self.asks.remove(price, oid),
                };
                self.oid_index.remove(&oid);
                match removed {
                    Some(gone) => {
                        match side {
                            Side::Buy => {
                                self.bid_depth = self.bid_depth.saturating_sub(gone.remaining);
                                self.bid_order_count = self.bid_order_count - 1;
                            },
                            Side::Sell => {
                                self.ask_depth = self.ask_depth.saturating_sub(gone.remaining);
                                self.ask_order_count = self.ask_order_count - 1;
                            },
                        }
                        assert(self@ =~= old(self)@.cancelled(oid));
                        true
                    },
                    None => {
                        assert(self@ =~= old(self)@.cancelled(oid));
                        false
                    },
                }
            },
        }
    }

    /// The highest price at which a bid rests.
    pub fn best_bid(&self) -> (r: Option<Price>)
        requires
            self.wf(),
        ensures
            r == (if self@.bids.len() > 0 { Some(self@.bids[0].limit_px) } else { None }),
    {
        match self.bids.best() {
            Some(o) => Some(o.limit_px),
            None => None,
        }
    }

    /// The lowest price at which an ask rests.
    pub fn best_ask(&self) -> (r: Option<Price>)
        requires
            self.wf(),
        ensures
            r == (if self@.asks.len() > 0 { Some(self@.asks[0].limit_px) } else { None }),
    {
        match self.asks.best() {
            Some(o) => Some(o.limit_px),
            None => None,
        }
    }

    /// The bid with the highest priority.
    pub fn best_bid_order(&self) -> (r: Option<&Order>)
        requires
            self.wf(),
        ensures
            match r {
                Some(o) => self@.bids.len() > 0 && *o == self@.bids[0],
                None => self@.bids.len() == 0,
            },
    {
        self.bids.best()
    }

    /// The ask with the highest priority.
    pub fn best_ask_order(&self) -> (r: Option<&Order>)
        requires
            self.wf(),
        ensures
            match r {
                Some(o) => self@.asks.len() > 0 && *o == self@.asks[0],
                None => self@.asks.len() == 0,
            },
    {
        self.asks.best()
    }

    /// The number of resting bids.
    pub fn bid_count(&self) -> (r: usize)
        requires
            self.wf(),
        ensures
            r == self@.bids.len(),
    {
        self.bid_order_count
    }

    /// The number of resting asks.
    pub fn ask_count(&self) -> (r: usize)
        requires
            self.wf(),
        ensures
            r == self@.asks.len(),
    {
        self.ask_order_count
    }

    pub fn bids_is_empty(&self) -> (r: bool)
        requires
            self.wf(),
        ensures
            r == (self@.bids.len() == 0),
    {
        self.bids.is_empty()
    }

    pub fn asks_is_empty(&self) -> (r: bool)
        requires
            self.wf(),
        ensures
            r == (self@.asks.len() == 0),
    {
        self.asks.is_empty()
    }

    /// All resting bids, best price first, in order of arrival at a price.
    pub fn bids_iter(&self) -> (r: Vec<&Order>)
        requires
            self.wf(),
        ensures
            r@.len() == self@.bids.len(),
            forall|i: int| 0 <= i < r@.len() ==> *(#[trigger] r@[i]) == self@.bids[i],
    {
        self.bids.to_vec()
    }

    /// All resting asks, best price first, in order of arrival at a price.
    pub fn asks_iter(&self) -> (r: Vec<&Order>)
        requires
            self.wf(),
        ensures
            r@.len() == self@.asks.len(),
            forall|i: int| 0 <= i < r@.len() ==> *(#[trigger] r@[i]) == self@.asks[i],
    {
        self.asks.to_vec()
    }

    /// The bid side, level by level.
    pub fn bid_ladder(&self) -> (r: &Ladder)
        requires
            self.wf(),
        ensures
            r.wf(),
            r@ == self@.bids,
    {
        &self.bids
    }

    /// The ask side, level by level.
    pub fn ask_ladder(&self) -> (r: &Ladder)
        requires
            self.wf(),
        ensures
            r.wf(),
            r@ == self@.asks,
    {
        &self.asks
    }

    /// All trades executed so far: the field `executed_trades`.
    pub fn trades(&self) -> (r: &Vec<Trade>)
        ensures
            r@ == self@.trades,
    {
        &self.executed_trades
    }

    pub fn trade_count(&self) -> (r: usize)
        ensures
            r == self@.trades.len(),
    {
        self.executed_trades.len()
    }

    /// The quantity executed so far.
    pub fn executed_volume(&self) -> (r: Amount)
        requires
            volume_of(self@.trades) <= u128::MAX,
        ensures
            r == volume_of(self@.trades),
    {
        sum_quantities(&self.executed_trades)
    }

    /// The value executed so far, each trade rounded down to a whole unit.
    pub fn executed_notional(&self) -> (r: Amount)
        requires
            notional_of(self@.trades) <= u128::MAX,
        ensures
            r == notional_of(self@.trades),
    {
        sum_notionals(&self.executed_trades)
    }

    /// The quantity resting on the bid side.
    pub fn bid_depth(&self) -> (r: Amount)
        ensures
            r == self@.bid_depth,
    {
        self.bid_depth
    }

    /// The quantity resting on the ask side.
    pub fn ask_depth(&self) -> (r: Amount)
        ensures
            r == self@.ask_depth,
    {
        self.ask_depth
    }

    /// The quantity resting on both sides.
    pub fn depth_at_best(&self) -> (r: Amount)
        requires
            self@.bid_depth + self@.ask_depth <= u128::MAX,
        ensures
            r == self@.bid_depth + self@.ask_depth,
    {
        self.bid_depth() + self.ask_depth()
    }

    /// The quantities behind the fill rate: filled and submitted so far.
    pub fn fill_totals(&self) -> (r: (Amount, Amount))
        ensures
            r.0 == self@.filled,
            r.1 == self@.submitted,
    {
        (self.total_filled_qty, self.total_submitted_qty)
    }
}

impl Default for CdaOrderBook {
    fn default() -> (r: Self)
        ensures
            r.wf(),
            r@ == BookState::empty(),
    {
        CdaOrderBook::new()
    }
}

} // verus!
