//! Frequent batch auction: orders are collected and cleared all at once at a
//! single uniform price, chosen to maximize the matched volume.

use vstd::prelude::*;
use crate::engines::auction::{
    candidate_prices, clearing_price, cross_at, demand, eligible_queue, fill_views, fills_at, is_queue,
    lemma_volume_bounds, limit_prices, matched_at, queue, select_price, sides_fit, supply, volume_curve, Fill, Interest, TieRule, VolumeCurve,
};
use crate::engines::auction_laws::law_auction_trades_all_it_can;
use crate::engines::ladder::{better, is_better};
use crate::engines::legs::{filled_under, FillTotals, Leg};
use crate::seqs::{distance, lemma_total_prefix, lemma_total_same, lemma_total_take, saturated, total};
use crate::sorting::positions;
use crate::trades::{notional_of, sum_notionals, sum_quantities, volume_of};
use crate::types::{clone_trades, Amount, EngineKind, Order, OrderKind, Price, Side, Trade};

verus! {

/// What the auction reads of an order.
pub open spec fn interest_of(o: Order) -> Interest {
    Interest { side: o.side(), limit: o.limit_price(), ts: o.ts, oid: o.oid, remaining: o.remaining }
}

pub open spec fn interests(orders: Seq<Order>) -> Seq<Interest> {
    Seq::new(orders.len(), |i: int| interest_of(orders[i]))
}

/// The latest timestamp of a batch, which dates its trades.
pub open spec fn latest_ts(orders: Seq<Order>) -> u64
    decreases orders.len(),
{
    if orders.len() == 0 {
        0
    } else {
        let before = latest_ts(orders.drop_last());
        if orders.last().ts > before {
            orders.last().ts
        } else {
            before
        }
    }
}

/// The trade that records one fill of a batch.
pub open spec fn batch_trade(orders: Seq<Order>, fill: (int, int, int), price: Price, id: int) -> Trade {
    let buy = orders[fill.0];
    let sell = orders[fill.1];
    Trade {
        trade_id: id as u64,
        price,
        quantity: fill.2 as u128,
        buyer_id: buy.user_id,
        seller_id: sell.user_id,
        buy_order_id: buy.oid,
        sell_order_id: sell.oid,
        engine_type: EngineKind::Fba,
        ts: latest_ts(orders),
        trade_tx_hash: None,
        chain_id: None,
    }
}

/// The trades of a batch at `price`, numbered from `first_id`.
pub open spec fn batch_trades(orders: Seq<Order>, price: Price, first_id: int) -> Seq<Trade> {
    let fills = fills_at(interests(orders), price);
    Seq::new(fills.len(), |i: int| batch_trade(orders, fills[i], price, first_id + i))
}

pub open spec fn leg_of(t: Trade) -> Leg {
    Leg { buy_oid: t.buy_order_id, sell_oid: t.sell_order_id, qty: t.quantity }
}

pub open spec fn legs_of(trades: Seq<Trade>) -> Seq<Leg> {
    Seq::new(trades.len(), |i: int| leg_of(trades[i]))
}

/// What is left of a batch after its trades: every order less what was
/// filled under its id, without those that are used up.
pub open spec fn residual(orders: Seq<Order>, legs: Seq<Leg>) -> Seq<Order>
    decreases orders.len(),
{
    if orders.len() == 0 {
        Seq::empty()
    } else {
        let before = residual(orders.drop_last(), legs);
        let rest = orders.last().filled_by(filled_under(legs, orders.last().oid));
        if rest.remaining > 0 {
            before.push(rest)
        } else {
            before
        }
    }
}

/// Whether `o` is a limit order on `side`.
pub open spec fn bids_at(o: Order, side: Side) -> bool {
    o.side() == side && o.kind() is Limit
}

/// The best limit price on one side of a list of orders.
pub open spec fn best_limit(orders: Seq<Order>, side: Side) -> Option<Price>
    decreases orders.len(),
{
    if orders.len() == 0 {
        None
    } else {
        let earlier = best_limit(orders.drop_last(), side);
        let o = orders.last();
        if bids_at(o, side) && (earlier is None || better(side, o.limit_px, earlier->0)) {
            Some(o.limit_px)
        } else {
            earlier
        }
    }
}

/// The unfilled quantity of a list of orders.
pub open spec fn open_quantity(s: Seq<Order>) -> int {
    total(s, |o: Order| o.remaining as int)
}

/// The orders of a list that do not have the id `oid`.
pub open spec fn without_oid(orders: Seq<Order>, oid: u64) -> Seq<Order> {
    orders.filter(|o: Order| o.oid != oid)
}

/// The state of a batch book.
#[verifier::ext_equal]
pub struct BatchState {
    pub pending: Seq<Order>,
    pub trades: Seq<Trade>,
    /// The price of the last batch that traded.
    pub last_price: Option<Price>,
    pub next_trade_id: int,
    /// Quantity of every live order ever submitted.
    pub submitted: int,
    /// Quantity ever filled, counted on both sides of every trade.
    pub filled: int,
    pub last_demand: int,
    pub last_supply: int,
    pub last_unexecuted: int,
}

impl BatchState {
    pub open spec fn empty() -> BatchState {
        BatchState {
            pending: Seq::empty(),
            trades: Seq::empty(),
            last_price: None,
            next_trade_id: 1,
            submitted: 0,
            filled: 0,
            last_demand: 0,
            last_supply: 0,
            last_unexecuted: 0,
        }
    }

    /// A record has been submitted: a live order joins the batch, a
    /// cancellation withdraws its order, anything else is ignored.
    pub open spec fn submitted(self, order: Order) -> BatchState {
        if order.is_new_live_order() {
            BatchState {
                pending: self.pending.push(order),
                submitted: saturated(self.submitted + order.remaining),
                ..self
            }
        } else if order.is_cancellation() {
            BatchState { pending: without_oid(self.pending, order.oid), ..self }
        } else {
            self
        }
    }

    /// The price at which the pending batch clears. There is none without a
    /// limit order.
    pub open spec fn price(self) -> Option<Price> {
        let book = interests(self.pending);
        clearing_price(book, TieRule::Nearest { reference: self.last_price }, limit_prices(book))
    }

    /// The trades of the pending batch.
    pub open spec fn batch(self) -> Seq<Trade> {
        match self.price() {
            Some(price) => batch_trades(self.pending, price, self.next_trade_id),
            None => Seq::empty(),
        }
    }

    /// The pending batch has been cleared; what it could not fill is pending
    /// again. Without a price nothing happens.
    pub open spec fn cleared(self) -> BatchState {
        match self.price() {
            None => self,
            Some(price) => {
                let book = interests(self.pending);
                BatchState {
                    pending: residual(self.pending, legs_of(self.batch())),
                    trades: self.trades + self.batch(),
                    last_price: if volume_of(self.batch()) > 0 {
                        Some(price)
                    } else {
                        self.last_price
                    },
                    next_trade_id: self.next_trade_id + self.batch().len(),
                    submitted: self.submitted,
                    filled: saturated(self.filled + 2 * volume_of(self.batch())),
                    last_demand: demand(book, price),
                    last_supply: supply(book, price),
                    last_unexecuted: distance(demand(book, price), supply(book, price)),
                }
            },
        }
    }

    /// The machine limits within which the batch can be cleared: the
    /// quantity of either side and the trade ids must stay representable.
    pub open spec fn can_clear(self) -> bool {
        &&& sides_fit(interests(self.pending))
        &&& self.next_trade_id + self.pending.len() <= u64::MAX
    }
}

/// Output of a single batch clearing.
#[derive(Debug)]
pub struct ClearingResult {
    pub clearing_price: Price,
    pub traded_quantity: Amount,
    pub demand_at_price: Amount,
    pub supply_at_price: Amount,
    pub trades: Vec<Trade>,
}

impl Clone for ClearingResult {
    fn clone(&self) -> (r: Self)
        ensures
            r.clearing_price == self.clearing_price,
            r.traded_quantity == self.traded_quantity,
            r.demand_at_price == self.demand_at_price,
            r.supply_at_price == self.supply_at_price,
            r.trades@ == self.trades@,
    {
        let trades: Vec<Trade> = clone_trades(&self.trades, 0);
        assert(trades@ =~= self.trades@);
        ClearingResult {
            clearing_price: self.clearing_price,
            traded_quantity: self.traded_quantity,
            demand_at_price: self.demand_at_price,
            supply_at_price: self.supply_at_price,
            trades,
        }
    }
}

/// The batch waiting for the next clearing, the trades executed so far, and
/// the running totals that the metrics read.
#[derive(Debug)]
pub struct FbaOrderBook {
    pub pending_orders: Vec<Order>,
    pub executed_trades: Vec<Trade>,
    pub last_clearing_price: Option<Price>,
    next_trade_id: u64,
    total_submitted_qty: Amount,
    total_filled_qty: Amount,
    last_demand_at_price: Amount,
    last_supply_at_price: Amount,
    last_unexecuted_quantity: Amount,
}

impl View for FbaOrderBook {
    type V = BatchState;

    closed spec fn view(&self) -> BatchState {
        BatchState {
            pending: self.pending_orders@,
            trades: self.executed_trades@,
            last_price: self.last_clearing_price,
            next_trade_id: self.next_trade_id as int,
            submitted: self.total_submitted_qty as int,
            filled: self.total_filled_qty as int,
            last_demand: self.last_demand_at_price as int,
            last_supply: self.last_supply_at_price as int,
            last_unexecuted: self.last_unexecuted_quantity as int,
        }
    }
}

fn interest(o: &Order) -> (r: Interest)
    ensures
        r == interest_of(*o),
{
    Interest { side: o.side(), limit: o.limit_price(), ts: o.ts, oid: o.oid, remaining: o.remaining }
}

/// What the auction reads of a list of orders.
pub fn interests_of(orders: &Vec<Order>) -> (r: Vec<Interest>)
    ensures
        r@ == interests(orders@),
{
    let mut r: Vec<Interest> = Vec::new();
    let mut i: usize = 0;
    while i < orders.len()
        invariant
            i <= orders.len(),
            r@ == interests(orders@.take(i as int)),
        decreases orders.len() - i,
    {
        r.push(interest(&orders[i]));
        i += 1;
        assert(r@ =~= interests(orders@.take(i as int)));
    }
    assert(orders@.take(i as int) =~= orders@);
    r
}

fn latest(orders: &Vec<Order>) -> (r: u64)
    ensures
        r == latest_ts(orders@),
{
    let mut r: u64 = 0;
    let mut i: usize = 0;
    assert(orders@.take(0) =~= Seq::<Order>::empty());
    while i < orders.len()
        invariant
            i <= orders.len(),
            r == latest_ts(orders@.take(i as int)),
        decreases orders.len() - i,
    {
        if orders[i].ts > r {
            r = orders[i].ts;
        }
        i += 1;
        assert(orders@.take(i as int).drop_last() =~= orders@.take(i - 1));
    }
    assert(orders@.take(i as int) =~= orders@);
    r
}

fn legs(trades: &Vec<Trade>) -> (r: Vec<Leg>)
    ensures
        r@ == legs_of(trades@),
{
    let mut r: Vec<Leg> = Vec::new();
    let mut i: usize = 0;
    while i < trades.len()
        invariant
            i <= trades.len(),
            r@ == legs_of(trades@.take(i as int)),
        decreases trades.len() - i,
    {
        r.push(Leg { buy_oid: trades[i].buy_order_id, sell_oid: trades[i].sell_order_id, qty: trades[i].quantity });
        i += 1;
        assert(r@ =~= legs_of(trades@.take(i as int)));
    }
    assert(trades@.take(i as int) =~= trades@);
    r
}

/// What is left of `orders` after the fills in `legs`.
pub fn residual_orders(orders: &Vec<Order>, legs: &Vec<Leg>) -> (r: Vec<Order>)
    ensures
        r@ == residual(orders@, legs@),
{
    let fills: FillTotals = FillTotals::of(legs);
    let mut r: Vec<Order> = Vec::new();
    let mut i: usize = 0;
    assert(orders@.take(0) =~= Seq::<Order>::empty());
    while i < orders.len()
        invariant
            i <= orders.len(),
            forall|oid: u64| #[trigger] fills.spec_get(oid) == saturated(filled_under(legs@, oid)),
            r@ == residual(orders@.take(i as int), legs@),
        decreases orders.len() - i,
    {
        let mut order: Order = orders[i].clone();
        let filled: Amount = fills.get(order.oid);
        order.reduce(filled);
        proof {
            assert(orders@.take(i + 1).drop_last() =~= orders@.take(i as int));
            assert(order == orders@[i as int].filled_by(filled_under(legs@, orders@[i as int].oid)));
        }
        if order.remaining > 0 {
            r.push(order);
        }
        i += 1;
    }
    assert(orders@.take(i as int) =~= orders@);
    r
}

impl FbaOrderBook {
    /// The counters of a book are representable, and none is negative.
    pub proof fn lemma_counters(&self)
        ensures
            0 <= self@.next_trade_id <= u64::MAX,
            0 <= self@.submitted <= u128::MAX,
            0 <= self@.filled <= u128::MAX,
            0 <= self@.last_demand <= u128::MAX,
            0 <= self@.last_supply <= u128::MAX,
            0 <= self@.last_unexecuted <= u128::MAX,
    {
    }

    pub fn new() -> (r: Self)
        ensures
            r@ == BatchState::empty(),
    {
        FbaOrderBook {
            pending_orders: Vec::new(),
            executed_trades: Vec::new(),
            last_clearing_price: None,
            next_trade_id: 1,
            total_submitted_qty: 0,
            total_filled_qty: 0,
            last_demand_at_price: 0,
            last_supply_at_price: 0,
            last_unexecuted_quantity: 0,
        }
    }

    /// Takes one record of the order stream. A live order joins the pending
    /// batch; a cancellation withdraws its order; everything else leaves the
    /// book alone.
    pub fn submit(&mut self, order: Order)
        ensures
            final(self)@ == old(self)@.submitted(order),
    {
        if order.is_new_live_order() {
            self.total_submitted_qty = self.total_submitted_qty.saturating_add(order.remaining);
            self.pending_orders.push(order);
        } else if order.is_cancellation() {
            self.cancel(order.oid);
        }
    }

    /// Withdraws every pending order with this id. Returns whether there was
    /// one.
    pub fn cancel(&mut self, oid: u64) -> (r: bool)
        ensures
            final(self)@ == (BatchState { pending: without_oid(old(self)@.pending, oid), ..old(self)@ }),
            r == exists|i: int| 0 <= i < old(self)@.pending.len() && (#[trigger] old(self)@.pending[i]).oid == oid,
    {
        let ghost before: Seq<Order> = self.pending_orders@;
        let ghost keep = |o: Order| o.oid != oid;
        let mut kept: Vec<Order> = Vec::new();
        let mut found: bool = false;
        let mut i: usize = 0;
        proof {
            reveal(Seq::filter);
            assert(before.take(0) =~= Seq::<Order>::empty());
            assert(before.take(0).filter(keep) =~= Seq::<Order>::empty());
        }
        while i < self.pending_orders.len()
            invariant
                self.pending_orders@ == before,
                i <= before.len(),
                keep == (|o: Order| o.oid != oid),
                kept@ == before.take(i as int).filter(keep),
                found == exists|k: int| 0 <= k < i && (#[trigger] before[k]).oid == oid,
            decreases before.len() - i,
        {
            proof {
                reveal(Seq::filter);
                assert(before.take(i + 1).drop_last() =~= before.take(i as int));
                assert(before.take(i + 1).last() == before[i as int]);
            }
            if self.pending_orders[i].oid != oid {
                kept.push(self.pending_orders[i].clone());
            } else {
                found = true;
                assert(before[i as int].oid == oid);
            }
            i += 1;
        }
        assert(before.take(i as int) =~= before);
        self.pending_orders = kept;
        found
    }

    /// The price that the pending batch would clear at, and the demand and
    /// supply at it.
    pub fn discover_price(&self) -> (r: Option<(Price, Amount, Amount)>)
        requires
            sides_fit(interests(self@.pending)),
        ensures
            match r {
                Some((price, d, s)) => {
                    &&& self@.price() == Some(price)
                    &&& d == demand(interests(self@.pending), price)
                    &&& s == supply(interests(self@.pending), price)
                },
                None => self@.price() is None && limit_prices(interests(self@.pending)) == Set::<Price>::empty(),
            },
    {
        let book: Vec<Interest> = interests_of(&self.pending_orders);
        let candidates: Vec<Price> = candidate_prices(&book);
        let r: Option<(Price, Amount, Amount)> = select_price(
            &book,
            &candidates,
            TieRule::Nearest { reference: self.last_clearing_price },
        );
        assert(candidates@.len() == 0 ==> candidates@.to_set() =~= Set::<Price>::empty());
        r
    }

    /// The trades of the pending batch at `price`.
    fn batch_at(&self, price: Price) -> (r: Vec<Trade>)
        requires
            self@.next_trade_id + self@.pending.len() <= u64::MAX,
        ensures
            r@ == batch_trades(self@.pending, price, self@.next_trade_id),
            volume_of(r@) == matched_at(interests(self@.pending), price),
            r@.len() <= self@.pending.len(),
    {
        let book: Vec<Interest> = interests_of(&self.pending_orders);
        let fills: Vec<Fill> = cross_at(&book, price);
        let ghost orders: Seq<Order> = self.pending_orders@;
        let ghost views: Seq<(int, int, int)> = fills_at(book@, price);
        proof {
            law_auction_trades_all_it_can(book@, price);
        }
        let ts: u64 = latest(&self.pending_orders);
        let mut r: Vec<Trade> = Vec::new();
        let mut i: usize = 0;
        while i < fills.len()
            invariant
                i <= fills.len(),
                views == fill_views(fills@),
                views == fills_at(interests(orders), price),
                orders == self.pending_orders@,
                ts == latest_ts(orders),
                views.len() <= orders.len(),
                self.next_trade_id + orders.len() <= u64::MAX,
                forall|k: int|
                    0 <= k < views.len() ==> 0 <= (#[trigger] views[k]).0 < orders.len() && 0 <= views[k].1
                        < orders.len(),
                r@.len() == i,
                forall|k: int|
                    0 <= k < i ==> #[trigger] r@[k] == batch_trade(orders, views[k], price, self.next_trade_id + k),
            decreases fills.len() - i,
        {
            let fill: Fill = fills[i];
            assert(views[i as int] == fill@);
            let buy: &Order = &self.pending_orders[fill.buy];
            let sell: &Order = &self.pending_orders[fill.sell];
            r.push(
                Trade {
                    trade_id: self.next_trade_id + i as u64,
                    price,
                    quantity: fill.qty,
                    buyer_id: buy.user_id.clone(),
                    seller_id: sell.user_id.clone(),
                    buy_order_id: buy.oid,
                    sell_order_id: sell.oid,
                    engine_type: EngineKind::Fba,
                    ts,
                    trade_tx_hash: None,
                    chain_id: None,
                },
            );
            i += 1;
        }
        proof {
            assert(r@ =~= batch_trades(orders, price, self.next_trade_id as int));
            assert forall|k: int| 0 <= k < r@.len() implies (#[trigger] r@[k]).quantity as int == views[k].2 by {
                assert(views[k] == fills@[k]@);
            }
            lemma_total_same(r@, views, |t: Trade| t.quantity as int, |f: (int, int, int)| f.2);
        }
        r
    }

    /// Clears the pending batch at a single uniform price, rationing by
    /// price-time priority. Whatever is left unfilled is pending again for
    /// the next batch. A batch without a limit order has no price and stays
    /// as it is.
    pub fn clear(&mut self) -> (r: Option<ClearingResult>)
        requires
            old(self)@.can_clear(),
        ensures
            final(self)@ == old(self)@.cleared(),
            match r {
                Some(result) => {
                    &&& old(self)@.price() == Some(result.clearing_price)
                    &&& result.trades@ == old(self)@.batch()
                    &&& result.traded_quantity == volume_of(old(self)@.batch())
                    &&& result.demand_at_price == final(self)@.last_demand
                    &&& result.supply_at_price == final(self)@.last_supply
                },
                None => old(self)@.price() is None,
            },
    {
        let (price, demand_at_price, supply_at_price): (Price, Amount, Amount) = match self.discover_price() {
            None => {
                return None;
            },
            Some(found) => found,
        };
        let trades: Vec<Trade> = self.batch_at(price);
        proof {
            lemma_volume_bounds(interests(self@.pending), Side::Buy, price);
        }
        let traded_quantity: Amount = sum_quantities(&trades);
        let legs: Vec<Leg> = legs(&trades);
        let left: Vec<Order> = residual_orders(&self.pending_orders, &legs);
        if traded_quantity > 0 {
            self.last_clearing_price = Some(price);
        }
        self.last_demand_at_price = demand_at_price;
        self.last_supply_at_price = supply_at_price;
        self.last_unexecuted_quantity = if demand_at_price >= supply_at_price {
            demand_at_price - supply_at_price
        } else {
            supply_at_price - demand_at_price
        };
        self.total_filled_qty = self.total_filled_qty.saturating_add(traded_quantity.saturating_add(traded_quantity));
        self.next_trade_id = self.next_trade_id + trades.len() as u64;
        self.pending_orders = left;
        let mut copies: Vec<Trade> = clone_trades(&trades, 0);
        self.executed_trades.append(&mut copies);
        proof {
            assert(trades@.skip(0) =~= trades@);
            assert(self@ =~= old(self)@.cleared());
        }
        Some(ClearingResult { clearing_price: price, traded_quantity, demand_at_price, supply_at_price, trades })
    }

    /// Whether the batch can be cleared within the limits of the integer
    /// types.
    pub fn can_clear(&self) -> (r: bool)
        ensures
            r == self@.can_clear(),
    {
        let ghost book: Seq<Interest> = interests(self@.pending);
        let ghost fb = |it: Interest| if it.side == Side::Buy { it.remaining as int } else { 0 };
        let ghost fs = |it: Interest| if it.side == Side::Sell { it.remaining as int } else { 0 };
        let mut buys: Amount = 0;
        let mut sells: Amount = 0;
        let mut i: usize = 0;
        assert(book.take(0) =~= Seq::<Interest>::empty());
        while i < self.pending_orders.len()
            invariant
                i <= self.pending_orders.len(),
                book == interests(self.pending_orders@),
                self@.pending == self.pending_orders@,
                fb == (|it: Interest| if it.side == Side::Buy { it.remaining as int } else { 0 }),
                fs == (|it: Interest| if it.side == Side::Sell { it.remaining as int } else { 0 }),
                buys == total(book.take(i as int), fb),
                sells == total(book.take(i as int), fs),
            decreases self.pending_orders.len() - i,
        {
            let order: &Order = &self.pending_orders[i];
            proof {
                lemma_total_take(book, i as int, fb);
                lemma_total_take(book, i as int, fs);
                lemma_total_prefix(book, i + 1, fb);
                lemma_total_prefix(book, i + 1, fs);
            }
            match order.side() {
                Side::Buy => match buys.checked_add(order.remaining) {
                    Some(sum) => {
                        buys = sum;
                    },
                    None => {
                        return false;
                    },
                },
                Side::Sell => match sells.checked_add(order.remaining) {
                    Some(sum) => {
                        sells = sum;
                    },
                    None => {
                        return false;
                    },
                },
            }
            i += 1;
        }
        assert(book.take(i as int) =~= book);
        self.pending_orders.len() as u128 + self.next_trade_id as u128 <= u64::MAX as u128
    }

    /// The demand and supply curves of a batch, each ready to be evaluated
    /// at any price.
    pub fn demand_supply_evaluators(&self, orders: &Vec<Order>) -> (r: (VolumeCurve, VolumeCurve))
        requires
            sides_fit(interests(orders@)),
        ensures
            r.0.wf(),
            r.0.spec_side() == Side::Buy,
            r.0.spec_book() == interests(orders@),
            r.1.wf(),
            r.1.spec_side() == Side::Sell,
            r.1.spec_book() == interests(orders@),
    {
        let book: Vec<Interest> = interests_of(orders);
        (volume_curve(&book, Side::Buy), volume_curve(&book, Side::Sell))
    }

    /// The orders that would trade on `side` at `price`, most aggressive
    /// first, and earliest first among equals.
    pub fn eligible_orders(&self, orders: &Vec<Order>, side: Side, price: Price) -> (r: Vec<Order>)
        ensures
            r@.len() == queue(interests(orders@), side, price).len(),
            forall|i: int|
                0 <= i < r@.len() ==> #[trigger] r@[i] == orders@[queue(interests(orders@), side, price)[i]],
    {
        let book: Vec<Interest> = interests_of(orders);
        let places: Vec<usize> = eligible_queue(&book, side, price);
        let ghost q: Seq<int> = queue(book@, side, price);
        let mut r: Vec<Order> = Vec::new();
        let mut i: usize = 0;
        while i < places.len()
            invariant
                i <= places.len(),
                q == positions(places@),
                is_queue(interests(orders@), side, price, q),
                r@.len() == i,
                forall|k: int| 0 <= k < i ==> #[trigger] r@[k] == orders@[q[k]],
            decreases places.len() - i,
        {
            assert(q[i as int] == places@[i as int]);
            r.push(orders[places[i]].clone());
            i += 1;
        }
        r
    }

    /// The orders waiting for the next clearing: the field `pending_orders`.
    pub fn pending(&self) -> (r: &Vec<Order>)
        ensures
            r@ == self@.pending,
    {
        &self.pending_orders
    }

    /// The price of the last batch that traded: the field
    /// `last_clearing_price`.
    pub fn last_price(&self) -> (r: Option<Price>)
        ensures
            r == self@.last_price,
    {
        self.last_clearing_price
    }

    /// All trades executed so far: the field `executed_trades`.
    pub fn trades(&self) -> (r: &Vec<Trade>)
        ensures
            r@ == self@.trades,
    {
        &self.executed_trades
    }

    pub fn trade_count(&self) -> (r: usize)
        ensures
            r == self@.trades.len(),
    {
        self.executed_trades.len()
    }

    /// The quantity executed so far.
    pub fn executed_volume(&self) -> (r: Amount)
        requires
            volume_of(self@.trades) <= u128::MAX,
        ensures
            r == volume_of(self@.trades),
    {
        sum_quantities(&self.executed_trades)
    }

    /// The value executed so far, each trade rounded down to a whole unit.
    pub fn executed_notional(&self) -> (r: Amount)
        requires
            notional_of(self@.trades) <= u128::MAX,
        ensures
            r == notional_of(self@.trades),
    {
        sum_notionals(&self.executed_trades)
    }

    /// The highest limit price of a pending buy order.
    pub fn best_unfilled_buy(&self) -> (r: Option<Price>)
        ensures
            r == best_limit(self@.pending, Side::Buy),
            r is None <==> forall|i: int|
                0 <= i < self@.pending.len() ==> !bids_at(#[trigger] self@.pending[i], Side::Buy),
            r matches Some(best) ==> {
                &&& exists|i: int|
                    0 <= i < self@.pending.len() && bids_at(#[trigger] self@.pending[i], Side::Buy)
                        && self@.pending[i].limit_px == best
                &&& forall|i: int|
                    0 <= i < self@.pending.len() && bids_at(#[trigger] self@.pending[i], Side::Buy)
                        ==> self@.pending[i].limit_px <= best
            },
    {
        self.best_unfilled(Side::Buy)
    }

    /// The lowest limit price of a pending sell order.
    pub fn best_unfilled_sell(&self) -> (r: Option<Price>)
        ensures
            r == best_limit(self@.pending, Side::Sell),
            r is None <==> forall|i: int|
                0 <= i < self@.pending.len() ==> !bids_at(#[trigger] self@.pending[i], Side::Sell),
            r matches Some(best) ==> {
                &&& exists|i: int|
                    0 <= i < self@.pending.len() && bids_at(#[trigger] self@.pending[i], Side::Sell)
                        && self@.pending[i].limit_px == best
                &&& forall|i: int|
                    0 <= i < self@.pending.len() && bids_at(#[trigger] self@.pending[i], Side::Sell)
                        ==> self@.pending[i].limit_px >= best
            },
    {
        self.best_unfilled(Side::Sell)
    }

    fn best_unfilled(&self, side: Side) -> (r: Option<Price>)
        ensures
            r == best_limit(self@.pending, side),
            r is None <==> forall|i: int|
                0 <= i < self@.pending.len() ==> !bids_at(#[trigger] self@.pending[i], side),
            r matches Some(best) ==> {
                &&& exists|i: int|
                    0 <= i < self@.pending.len() && bids_at(#[trigger] self@.pending[i], side)
                        && self@.pending[i].limit_px == best
                &&& forall|i: int|
                    0 <= i < self@.pending.len() && bids_at(#[trigger] self@.pending[i], side) ==> !better(
                        side,
                        self@.pending[i].limit_px,
                        best,
                    )
            },
    {
        let mut best: Option<Price> = None;
        let mut i: usize = 0;
        assert(self.pending_orders@.take(0) =~= Seq::<Order>::empty());
        while i < self.pending_orders.len()
            invariant
                i <= self.pending_orders.len(),
                best == best_limit(self.pending_orders@.take(i as int), side),
                best is None <==> forall|k: int|
                    0 <= k < i ==> !bids_at(#[trigger] self.pending_orders@[k], side),
                best matches Some(px) ==> {
                    &&& exists|k: int|
                        0 <= k < i && bids_at(#[trigger] self.pending_orders@[k], side)
                            && self.pending_orders@[k].limit_px == px
                    &&& forall|k: int|
                        0 <= k < i && bids_at(#[trigger] self.pending_orders@[k], side) ==> !better(
                            side,
                            self.pending_orders@[k].limit_px,
                            px,
                        )
                },
            decreases self.pending_orders.len() - i,
        {
            let order: &Order = &self.pending_orders[i];
            assert(self.pending_orders@.take(i + 1).drop_last() =~= self.pending_orders@.take(i as int));
            if order.side() == side {
                if let OrderKind::Limit { price } = order.kind() {
                    assert(bids_at(self.pending_orders@[i as int], side));
                    let replace: bool = match best {
                        None => true,
                        Some(px) => is_better(side, price, px),
                    };
                    if replace {
                        best = Some(price);
                    }
                }
            }
            i += 1;
        }
        assert(self.pending_orders@.take(i as int) =~= self.pending_orders@);
        best
    }

    /// The quantity pending.
    pub fn depth_at_best(&self) -> (r: Amount)
        requires
            open_quantity(self@.pending) <= u128::MAX,
        ensures
            r == open_quantity(self@.pending),
    {
        let ghost f = |o: Order| o.remaining as int;
        let mut sum: Amount = 0;
        let mut i: usize = 0;
        assert(self.pending_orders@.take(0) =~= Seq::<Order>::empty());
        while i < self.pending_orders.len()
            invariant
                i <= self.pending_orders.len(),
                f == (|o: Order| o.remaining as int),
                sum == total(self.pending_orders@.take(i as int), f),
                total(self.pending_orders@, f) <= u128::MAX,
            decreases self.pending_orders.len() - i,
        {
            proof {
                lemma_total_take(self.pending_orders@, i as int, f);
                lemma_total_prefix(self.pending_orders@, i + 1, f);
            }
            sum = sum + self.pending_orders[i].remaining;
            i += 1;
        }
        assert(self.pending_orders@.take(i as int) =~= self.pending_orders@);
        sum
    }

    /// The quantities behind the fill rate: what was filled, on both sides of
    /// every trade, and what was submitted. A cancelled order counts as
    /// submitted only.
    pub fn fill_totals(&self) -> (r: (Amount, Amount))
        ensures
            r.0 == self@.filled,
            r.1 == self@.submitted,
    {
        (self.total_filled_qty, self.total_submitted_qty)
    }

    /// The quantities behind the unexecuted share of the last batch: what
    /// the heavier side could not trade, and the heavier side.
    pub fn residual_totals(&self) -> (r: (Amount, Amount))
        ensures
            r.0 == self@.last_unexecuted,
            r.1 == (if self@.last_demand >= self@.last_supply { self@.last_demand } else { self@.last_supply }),
    {
        let heavier: Amount = if self.last_demand_at_price >= self.last_supply_at_price {
            self.last_demand_at_price
        } else {
            self.last_supply_at_price
        };
        (self.last_unexecuted_quantity, heavier)
    }
}

impl Default for FbaOrderBook {
    fn default() -> (r: Self)
        ensures
            r@ == BatchState::empty(),
    {
        FbaOrderBook::new()
    }
}

} // verus!
