//! A batch of orders of one pair, cleared at a single price.

use vstd::prelude::*;
use crate::engines::auction::{
    clearing_price, cross_at, demand, fill_views, fills_at, matched_at, sides_fit, supply, Fill, Interest,
};
use crate::engines::auction_laws::law_auction_trades_all_it_can;
use crate::engines::legs::{filled_under, FillTotals, Leg};
use crate::multi_asset::types::{AssetPair, Order, Trade};
use crate::seqs::{lemma_total_nonneg, saturated};
use crate::types::{Amount, Price};

verus! {

/// What the auction reads of an order.
pub open spec fn interest_of(o: Order) -> Interest {
    Interest { side: o.side(), limit: o.limit_price(), ts: o.ts, oid: o.oid, remaining: o.remaining }
}

pub open spec fn interests(orders: Seq<Order>) -> Seq<Interest> {
    Seq::new(orders.len(), |i: int| interest_of(orders[i]))
}

/// What the auction reads of a list of orders.
pub fn interests_of(orders: &Vec<Order>) -> (r: Vec<Interest>)
    ensures
        r@ == interests(orders@),
{
    let mut r: Vec<Interest> = Vec::new();
    let mut i: usize = 0;
    while i < orders.len()
        invariant
            i <= orders.len(),
            r@ =~= interests(orders@).take(i as int),
        decreases orders.len() - i,
    {
        let o: &Order = &orders[i];
        r.push(Interest { side: o.side(), limit: o.limit_price(), ts: o.ts, oid: o.oid, remaining: o.remaining });
        i += 1;
    }
    assert(interests(orders@).take(i as int) =~= interests(orders@));
    r
}

/// The latest timestamp of a batch, which dates its trades.
pub open spec fn latest_ts(orders: Seq<Order>) -> u64
    decreases orders.len(),
{
    if orders.len() == 0 {
        0
    } else {
        let before = latest_ts(orders.drop_last());
        if orders.last().ts > before {
            orders.last().ts
        } else {
            before
        }
    }
}

pub fn latest(orders: &Vec<Order>) -> (r: u64)
    ensures
        r == latest_ts(orders@),
{
    let mut r: u64 = 0;
    let mut i: usize = 0;
    assert(orders@.take(0) =~= Seq::<Order>::empty());
    while i < orders.len()
        invariant
            i <= orders.len(),
            r == latest_ts(orders@.take(i as int)),
        decreases orders.len() - i,
    {
        assert(orders@.take(i + 1).drop_last() =~= orders@.take(i as int));
        if orders[i].ts > r {
            r = orders[i].ts;
        }
        i += 1;
    }
    assert(orders@.take(i as int) =~= orders@);
    r
}

/// The trade that records one fill of a batch.
pub open spec fn batch_trade(orders: Seq<Order>, pair: AssetPair, fill: (int, int, int), price: Price, id: int) -> Trade {
    let buy = orders[fill.0];
    let sell = orders[fill.1];
    Trade {
        trade_id: id as u64,
        pair,
        price,
        quantity: fill.2 as u128,
        buyer_id: buy.user_id,
        seller_id: sell.user_id,
        buy_order_id: buy.oid,
        sell_order_id: sell.oid,
        ts: latest_ts(orders),
        trade_tx_hash: None,
        chain_id: None,
    }
}

/// The trades of a batch at `price`, numbered from `first_id`.
pub open spec fn batch_trades(orders: Seq<Order>, pair: AssetPair, price: Price, first_id: int) -> Seq<Trade> {
    let fills = fills_at(interests(orders), price);
    Seq::new(fills.len(), |i: int| batch_trade(orders, pair, fills[i], price, first_id + i))
}

/// Output of a single batch clearing.
#[derive(Debug)]
pub struct ClearingResult {
    pub pair: AssetPair,
    pub clearing_price: Price,
    pub traded_quantity: Amount,
    pub demand_at_price: Amount,
    pub supply_at_price: Amount,
    pub trades: Vec<Trade>,
}

/// Whether this is the result of clearing a batch at a price.
pub open spec fn is_result(r: ClearingResult, orders: Seq<Order>, pair: AssetPair, price: Price, first_id: int) -> bool {
    &&& r.pair == pair
    &&& r.clearing_price == price
    &&& r.traded_quantity == matched_at(interests(orders), price)
    &&& r.demand_at_price == demand(interests(orders), price)
    &&& r.supply_at_price == supply(interests(orders), price)
    &&& r.trades@ == batch_trades(orders, pair, price, first_id)
}

/// The machine limits within which a batch can be cleared: the quantity of
/// either side and the trade ids must stay representable.
pub open spec fn clearable(orders: Seq<Order>, first_id: int) -> bool {
    sides_fit(interests(orders)) && first_id + orders.len() <= u64::MAX
}

/// Clears a batch at a price.
pub fn clear_at(
    orders: &Vec<Order>,
    book: &Vec<Interest>,
    pair: &AssetPair,
    price: Price,
    demand_at_price: Amount,
    supply_at_price: Amount,
    first_id: u64,
) -> (r: ClearingResult)
    requires
        book@ == interests(orders@),
        clearable(orders@, first_id as int),
        demand_at_price == demand(book@, price),
        supply_at_price == supply(book@, price),
    ensures
        is_result(r, orders@, *pair, price, first_id as int),
        r.trades.len() <= orders.len(),
{
    let fills: Vec<Fill> = cross_at(book, price);
    proof {
        law_auction_trades_all_it_can(book@, price);
    }
    let ts: u64 = latest(orders);
    let mut trades: Vec<Trade> = Vec::new();
    let ghost all: Seq<Trade> = batch_trades(orders@, *pair, price, first_id as int);
    let mut i: usize = 0;
    while i < fills.len()
        invariant
            i <= fills.len(),
            fill_views(fills@) == fills_at(interests(orders@), price),
            fills.len() <= orders.len(),
            first_id + orders.len() <= u64::MAX,
            ts == latest_ts(orders@),
            all == batch_trades(orders@, *pair, price, first_id as int),
            forall|k: int|
                0 <= k < fills@.len() ==> {
                    let (b, s, qty) = #[trigger] fill_views(fills@)[k];
                    0 <= b < orders@.len() && 0 <= s < orders@.len()
                },
            trades@ =~= all.take(i as int),
        decreases fills.len() - i,
    {
        let f: Fill = fills[i];
        assert(fill_views(fills@)[i as int] == f@);
        let buy: &Order = &orders[f.buy];
        let sell: &Order = &orders[f.sell];
        trades.push(
            Trade {
                trade_id: first_id + i as u64,
                pair: pair.clone(),
                price,
                quantity: f.qty,
                buyer_id: buy.user_id.clone(),
                seller_id: sell.user_id.clone(),
                buy_order_id: buy.oid,
                sell_order_id: sell.oid,
                ts,
                trade_tx_hash: None,
                chain_id: None,
            },
        );
        i += 1;
    }
    assert(trades@ =~= all);
    let traded_quantity: Amount = if demand_at_price <= supply_at_price {
        demand_at_price
    } else {
        supply_at_price
    };
    ClearingResult { pair: pair.clone(), clearing_price: price, traded_quantity, demand_at_price, supply_at_price, trades }
}

pub open spec fn leg_of(t: Trade) -> Leg {
    Leg { buy_oid: t.buy_order_id, sell_oid: t.sell_order_id, qty: t.quantity }
}

pub open spec fn legs_of(trades: Seq<Trade>) -> Seq<Leg> {
    Seq::new(trades.len(), |i: int| leg_of(trades[i]))
}

pub fn legs(trades: &Vec<Trade>) -> (r: Vec<Leg>)
    ensures
        r@ == legs_of(trades@),
{
    let mut r: Vec<Leg> = Vec::new();
    let mut i: usize = 0;
    while i < trades.len()
        invariant
            i <= trades.len(),
            r@ =~= legs_of(trades@).take(i as int),
        decreases trades.len() - i,
    {
        r.push(Leg { buy_oid: trades[i].buy_order_id, sell_oid: trades[i].sell_order_id, qty: trades[i].quantity });
        i += 1;
    }
    assert(r@ =~= legs_of(trades@));
    r
}

/// What is left of a batch after some trades: every order less what was
/// filled under its id, without those that are used up.
pub open spec fn residual(orders: Seq<Order>, legs: Seq<Leg>) -> Seq<Order>
    decreases orders.len(),
{
    if orders.len() == 0 {
        Seq::empty()
    } else {
        let before = residual(orders.drop_last(), legs);
        let rest = orders.last().filled_by(filled_under(legs, orders.last().oid));
        if rest.remaining > 0 {
            before.push(rest)
        } else {
            before
        }
    }
}

/// What is left of `orders` after the fills in `legs`.
pub fn residual_orders(orders: &Vec<Order>, legs: &Vec<Leg>) -> (r: Vec<Order>)
    ensures
        r@ == residual(orders@, legs@),
{
    let totals: FillTotals = FillTotals::of(legs);
    let mut r: Vec<Order> = Vec::new();
    let mut i: usize = 0;
    assert(orders@.take(0) =~= Seq::<Order>::empty());
    while i < orders.len()
        invariant
            i <= orders.len(),
            forall|oid: u64| #[trigger] totals.spec_get(oid) == saturated(filled_under(legs@, oid)),
            r@ == residual(orders@.take(i as int), legs@),
        decreases orders.len() - i,
    {
        proof {
            assert(orders@.take(i + 1).drop_last() =~= orders@.take(i as int));
            assert(orders@.take(i + 1).last() == orders@[i as int]);
        }
        let mut o: Order = orders[i].clone();
        let filled: Amount = totals.get(o.oid);
        proof {
            lemma_total_nonneg(legs@, crate::engines::legs::leg_part(o.oid));
        }
        o.reduce(filled);
        if o.remaining > 0 {
            r.push(o);
        }
        i += 1;
    }
    assert(orders@.take(i as int) =~= orders@);
    r
}

} // verus!
