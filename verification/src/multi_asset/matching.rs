//! Continuous matching on a book that is kept in price-time order.

use vstd::prelude::*;
use crate::engines::cda::{crosses, price_of};
use crate::engines::ladder::{better, is_better};
use crate::multi_asset::order_book::OrderBookState;
use crate::multi_asset::types::{Order, Trade};
use crate::seqs::{
    leading, lemma_leading_run, lemma_total_add, lemma_total_first, lemma_total_push, lemma_total_update, min_of,
    total,
};
use crate::types::{Amount, OrderKind, Price, Side, PRICE_SCALE};

verus! {

/// The price that an order has in the ranking of its side.
pub open spec fn ranked_price(side: Side, o: Order) -> Price {
    match (o.limit_price(), side) {
        (Some(p), _) => p,
        (None, Side::Buy) => 0,
        (None, Side::Sell) => u128::MAX,
    }
}

/// `a` has price-time priority over `b`, or ties with it.
pub open spec fn no_worse(side: Side, a: Order, b: Order) -> bool {
    let (pa, pb) = (ranked_price(side, a), ranked_price(side, b));
    better(side, pa, pb) || (pa == pb && (a.ts < b.ts || (a.ts == b.ts && a.oid <= b.oid)))
}

/// Best first.
pub open spec fn ranked(side: Side, s: Seq<Order>) -> bool {
    forall|i: int, j: int| 0 <= i < j < s.len() ==> no_worse(side, #[trigger] s[i], #[trigger] s[j])
}

pub open spec fn not_behind(side: Side, o: Order) -> spec_fn(Order) -> bool {
    |x: Order| no_worse(side, x, o)
}

/// Where an order goes in a ranked list: behind all that are no worse.
pub open spec fn rank_index(side: Side, s: Seq<Order>, o: Order) -> int {
    leading(s, not_behind(side, o)) as int
}

/// What an incoming order does to the resting orders of the other side.
#[verifier::ext_equal]
pub struct Sweep {
    /// The resting orders that were hit, as they stood before, with the
    /// quantity taken from each.
    pub fills: Seq<(Order, int)>,
    /// The resting orders that are left.
    pub makers: Seq<Order>,
    /// What is left of the incoming order.
    pub left: int,
}

/// The incoming order takes from the best resting order as long as it crosses
/// it and has something left.
pub open spec fn sweep(taker: Order, makers: Seq<Order>) -> Sweep
    decreases makers.len(),
{
    if taker.remaining == 0 || makers.len() == 0 || !crosses(taker.kind(), makers[0].kind(), taker.side())
        || makers[0].remaining == 0 {
        Sweep { fills: Seq::empty(), makers, left: taker.remaining as int }
    } else {
        let qty = min_of(taker.remaining as int, makers[0].remaining as int);
        let rest = if qty == makers[0].remaining {
            sweep(taker.filled_by(qty), makers.drop_first())
        } else {
            Sweep { fills: Seq::empty(), makers: makers.update(0, makers[0].filled_by(qty)), left: 0 }
        };
        Sweep { fills: seq![(makers[0], qty)] + rest.fills, ..rest }
    }
}

/// The trade that records one fill: at the resting order's price.
pub open spec fn sweep_trade(taker: Order, maker: Order, qty: int, id: int) -> Trade {
    let buy = if taker.side() == Side::Buy {
        taker
    } else {
        maker
    };
    let sell = if taker.side() == Side::Buy {
        maker
    } else {
        taker
    };
    Trade {
        trade_id: id as u64,
        pair: taker.pair,
        price: price_of(maker.kind()),
        quantity: qty as u128,
        buyer_id: buy.user_id,
        seller_id: sell.user_id,
        buy_order_id: buy.oid,
        sell_order_id: sell.oid,
        ts: taker.ts,
        trade_tx_hash: None,
        chain_id: None,
    }
}

/// The trades of a list of fills, numbered from `first_id`.
pub open spec fn sweep_trades(taker: Order, fills: Seq<(Order, int)>, first_id: int) -> Seq<Trade> {
    Seq::new(fills.len(), |i: int| sweep_trade(taker, fills[i].0, fills[i].1, first_id + i))
}

/// The orders that rest on either side.
#[verifier::ext_equal]
pub struct Sides {
    pub bids: Seq<Order>,
    pub asks: Seq<Order>,
}

impl Sides {
    pub open spec fn empty() -> Sides {
        Sides { bids: Seq::empty(), asks: Seq::empty() }
    }

    pub open spec fn resting(self, side: Side) -> Seq<Order> {
        match side {
            Side::Buy => self.bids,
            Side::Sell => self.asks,
        }
    }

    pub open spec fn with_side(self, side: Side, orders: Seq<Order>) -> Sides {
        match side {
            Side::Buy => Sides { bids: orders, ..self },
            Side::Sell => Sides { asks: orders, ..self },
        }
    }

    pub open spec fn ranked(self) -> bool {
        ranked(Side::Buy, self.bids) && ranked(Side::Sell, self.asks)
    }

    pub open spec fn swept(self, order: Order) -> Sweep {
        sweep(order, self.resting(order.side().opposite()))
    }

    /// An order has been matched, and what is left of a limit order rests.
    pub open spec fn matched(self, order: Order) -> Sides {
        let side = order.side();
        let s = self.swept(order);
        let traded = self.with_side(side.opposite(), s.makers);
        if s.left > 0 && order.kind() is Limit {
            let rest = Order { remaining: s.left as u128, ..order };
            traded.with_side(side, traded.resting(side).insert(rank_index(side, traded.resting(side), rest), rest))
        } else {
            traded
        }
    }

    /// The trades of an order, numbered from `first_id`.
    pub open spec fn trades_on(self, order: Order, first_id: int) -> Seq<Trade> {
        sweep_trades(order, self.swept(order).fills, first_id)
    }
}

impl OrderBookState {
    pub open spec fn sides(&self) -> Sides {
        Sides { bids: self.bids@, asks: self.asks@ }
    }
}

fn does_cross(taker: OrderKind, maker: OrderKind, taker_side: Side) -> (r: bool)
    ensures
        r == crosses(taker, maker, taker_side),
{
    match (taker, maker) {
        (OrderKind::Limit { price: taker_px }, OrderKind::Limit { price: maker_px }) => match taker_side {
            Side::Buy => taker_px >= maker_px,
            Side::Sell => taker_px <= maker_px,
        },
        _ => true,
    }
}

fn maker_price(kind: OrderKind) -> (r: Price)
    ensures
        r == price_of(kind),
{
    match kind {
        OrderKind::Limit { price } => price,
        OrderKind::Market => PRICE_SCALE,
    }
}

fn price_in_rank(side: Side, o: &Order) -> (r: Price)
    ensures
        r == ranked_price(side, *o),
{
    match (o.limit_price(), side) {
        (Some(p), _) => p,
        (None, Side::Buy) => 0,
        (None, Side::Sell) => u128::MAX,
    }
}

fn is_no_worse(side: Side, a: &Order, b: &Order) -> (r: bool)
    ensures
        r == no_worse(side, *a, *b),
{
    let pa: Price = price_in_rank(side, a);
    let pb: Price = price_in_rank(side, b);
    is_better(side, pa, pb) || (pa == pb && (a.ts < b.ts || (a.ts == b.ts && a.oid <= b.oid)))
}

/// Matches an order with the best orders of the other side, and returns what
/// is left of it.
fn sweep_side(order: &Order, makers: &mut Vec<Order>, trades: &mut Vec<Trade>, next_trade_id: &mut u64) -> (left: Amount)
    requires
        old(trades)@.len() == 0,
        *old(next_trade_id) + old(makers).len() <= u64::MAX,
    ensures
        left == sweep(*order, old(makers)@).left,
        final(makers)@ == sweep(*order, old(makers)@).makers,
        final(trades)@ == sweep_trades(*order, sweep(*order, old(makers)@).fills, *old(next_trade_id) as int),
        *final(next_trade_id) == *old(next_trade_id) + sweep(*order, old(makers)@).fills.len(),
{
    let mut taker: Order = order.clone();
    let ghost goal: Sweep = sweep(*order, makers@);
    let ghost mut done: Seq<(Order, int)> = Seq::empty();
    let ghost start: int = *next_trade_id as int;
    assert(done + goal.fills =~= goal.fills);
    assert(trades@ =~= sweep_trades(*order, done, start));
    loop
        invariant
            taker == (Order { remaining: taker.remaining, ..*order }),
            goal.fills == done + sweep(taker, makers@).fills,
            goal.makers == sweep(taker, makers@).makers,
            goal.left == sweep(taker, makers@).left,
            trades@ == sweep_trades(*order, done, start),
            *next_trade_id == start + done.len(),
            taker.remaining > 0 ==> *next_trade_id + makers.len() <= u64::MAX,
        ensures
            sweep(taker, makers@).fills.len() == 0,
            sweep(taker, makers@).makers == makers@,
            sweep(taker, makers@).left == taker.remaining,
        decreases makers.len(), taker.remaining,
    {
        if taker.remaining == 0 || makers.len() == 0 {
            break;
        }
        if !does_cross(taker.kind(), makers[0].kind(), taker.side()) || makers[0].remaining == 0 {
            break;
        }
        let ghost before: Seq<Order> = makers@;
        let ghost was: Order = taker;
        let ghost maker: Order = makers@[0];
        let qty: Amount = if taker.remaining <= makers[0].remaining {
            taker.remaining
        } else {
            makers[0].remaining
        };
        let (buyer_id, seller_id, buy_order_id, sell_order_id): (String, String, u64, u64) = match taker.side() {
            Side::Buy => (taker.user_id.clone(), makers[0].user_id.clone(), taker.oid, makers[0].oid),
            Side::Sell => (makers[0].user_id.clone(), taker.user_id.clone(), makers[0].oid, taker.oid),
        };
        trades.push(
            Trade {
                trade_id: *next_trade_id,
                pair: taker.pair.clone(),
                price: maker_price(makers[0].kind()),
                quantity: qty,
                buyer_id,
                seller_id,
                buy_order_id,
                sell_order_id,
                ts: taker.ts,
                trade_tx_hash: None,
                chain_id: None,
            },
        );
        *next_trade_id = *next_trade_id + 1;
        taker.reduce(qty);
        if qty == makers[0].remaining {
            let _: Order = makers.remove(0);
            assert(makers@ =~= before.drop_first());
        } else {
            let mut rest: Order = makers[0].clone();
            rest.reduce(qty);
            makers.set(0, rest);
            assert(makers@ =~= before.update(0, maker.filled_by(qty as int)));
        }
        proof {
            let rest: Sweep = sweep(taker, makers@);
            assert(sweep(was, before).fills =~= seq![(maker, qty as int)] + rest.fills);
            assert(done + (seq![(maker, qty as int)] + rest.fills) =~= done.push((maker, qty as int)) + rest.fills);
            done = done.push((maker, qty as int));
            assert(trades@ =~= sweep_trades(*order, done, start));
        }
    }
    assert(goal.fills =~= done);
    taker.remaining
}

/// Puts an order at its place in a ranked list.
fn rest_in(side: Side, orders: &mut Vec<Order>, order: Order)
    requires
        ranked(side, old(orders)@),
    ensures
        ranked(side, final(orders)@),
        final(orders)@ == old(orders)@.insert(rank_index(side, old(orders)@, order), order),
{
    let ghost before: Seq<Order> = orders@;
    let mut i: usize = 0;
    while i < orders.len() && is_no_worse(side, &orders[i], &order)
        invariant
            i <= orders.len(),
            orders@ == before,
            forall|k: int| 0 <= k < i ==> no_worse(side, #[trigger] before[k], order),
        decreases orders.len() - i,
    {
        i += 1;
    }
    proof {
        lemma_leading_run(before, not_behind(side, order));
        let after: Seq<Order> = before.insert(i as int, order);
        assert forall|a: int, b: int| 0 <= a < b < after.len() implies no_worse(
            side,
            #[trigger] after[a],
            #[trigger] after[b],
        ) by {
            if a == i {
                assert(b - 1 >= i);
                if b - 1 > i {
                    assert(no_worse(side, before[i as int], before[b - 1]));
                }
            } else if b != i {
                let x: int = if a < i { a } else { a - 1 };
                let y: int = if b < i { b } else { b - 1 };
                assert(no_worse(side, before[x], before[y]));
            }
        }
    }
    orders.insert(i, order);
}

/// Matches an order on a book, and lets what is left of a limit order rest.
pub fn match_on(book: &mut OrderBookState, order: Order, next_trade_id: &mut u64) -> (r: Vec<Trade>)
    requires
        old(book).sides().ranked(),
        *old(next_trade_id) + old(book).sides().resting(order.side().opposite()).len() <= u64::MAX,
    ensures
        final(book).pair == old(book).pair,
        final(book).sides().ranked(),
        final(book).sides() == old(book).sides().matched(order),
        r@ == old(book).sides().trades_on(order, *old(next_trade_id) as int),
        *final(next_trade_id) == *old(next_trade_id) + old(book).sides().swept(order).fills.len(),
{
    let mut trades: Vec<Trade> = Vec::new();
    let side: Side = order.side();
    proof {
        lemma_sweep_ranked(order, side.opposite(), book.sides().resting(side.opposite()));
    }
    let left: Amount = match side {
        Side::Buy => sweep_side(&order, &mut book.asks, &mut trades, next_trade_id),
        Side::Sell => sweep_side(&order, &mut book.bids, &mut trades, next_trade_id),
    };
    if left > 0 {
        if let OrderKind::Limit { .. } = order.kind() {
            let mut rest: Order = order;
            rest.remaining = left;
            match side {
                Side::Buy => rest_in(side, &mut book.bids, rest),
                Side::Sell => rest_in(side, &mut book.asks, rest),
            }
        }
    }
    trades
}

/// Sweeping takes from the front only.
proof fn lemma_sweep_ranked(taker: Order, side: Side, makers: Seq<Order>)
    requires
        ranked(side, makers),
    ensures
        ranked(side, sweep(taker, makers).makers),
    decreases makers.len(),
{
    if !(taker.remaining == 0 || makers.len() == 0 || !crosses(taker.kind(), makers[0].kind(), taker.side())
        || makers[0].remaining == 0) {
        let qty: int = min_of(taker.remaining as int, makers[0].remaining as int);
        if qty == makers[0].remaining {
            let rest: Seq<Order> = makers.drop_first();
            assert forall|i: int, j: int| 0 <= i < j < rest.len() implies no_worse(
                side,
                #[trigger] rest[i],
                #[trigger] rest[j],
            ) by {
                assert(no_worse(side, makers[i + 1], makers[j + 1]));
            }
            lemma_sweep_ranked(taker.filled_by(qty), side, rest);
        } else {
            let rest: Seq<Order> = makers.update(0, makers[0].filled_by(qty));
            assert forall|i: int, j: int| 0 <= i < j < rest.len() implies no_worse(
                side,
                #[trigger] rest[i],
                #[trigger] rest[j],
            ) by {
                assert(no_worse(side, makers[i], makers[j]));
            }
        }
    }
}

/// What is left of these orders.
pub open spec fn open_quantity(s: Seq<Order>) -> int {
    total(s, |o: Order| o.remaining as int)
}

/// The quantity of a list of fills.
pub open spec fn swept_quantity(fills: Seq<(Order, int)>) -> int {
    total(fills, |f: (Order, int)| f.1)
}

/// Matching trades only with orders that cross, neither loses nor makes
/// quantity on either side, and leaves a ranked book ranked.
pub proof fn law_matching_conserves(taker: Order, makers: Seq<Order>)
    ensures
        swept_quantity(sweep(taker, makers).fills) + sweep(taker, makers).left == taker.remaining,
        swept_quantity(sweep(taker, makers).fills) + open_quantity(sweep(taker, makers).makers) == open_quantity(makers),
        sweep(taker, makers).left >= 0,
        forall|k: int|
            0 <= k < sweep(taker, makers).fills.len() ==> {
                let (maker, qty) = #[trigger] sweep(taker, makers).fills[k];
                &&& crosses(taker.kind(), maker.kind(), taker.side())
                &&& 0 < qty <= maker.remaining
            },
        forall|side: Side| #[trigger] ranked(side, makers) ==> ranked(side, sweep(taker, makers).makers),
    decreases makers.len(),
{
    if !(taker.remaining == 0 || makers.len() == 0 || !crosses(taker.kind(), makers[0].kind(), taker.side())
        || makers[0].remaining == 0) {
        let qty: int = min_of(taker.remaining as int, makers[0].remaining as int);
        let rest: Sweep = if qty == makers[0].remaining {
            sweep(taker.filled_by(qty), makers.drop_first())
        } else {
            Sweep { fills: Seq::empty(), makers: makers.update(0, makers[0].filled_by(qty)), left: 0 }
        };
        let left = |o: Order| o.remaining as int;
        if qty == makers[0].remaining {
            law_matching_conserves(taker.filled_by(qty), makers.drop_first());
            lemma_total_first(makers, left);
        } else {
            lemma_total_update(makers, 0, makers[0].filled_by(qty), left);
        }
        let head: Seq<(Order, int)> = seq![(makers[0], qty)];
        let all: Seq<(Order, int)> = sweep(taker, makers).fills;
        assert(all == head + rest.fills);
        lemma_total_add(head, rest.fills, |f: (Order, int)| f.1);
        assert(head =~= Seq::<(Order, int)>::empty().push((makers[0], qty)));
        lemma_total_push(Seq::<(Order, int)>::empty(), (makers[0], qty), |f: (Order, int)| f.1);
        assert forall|k: int| 0 <= k < all.len() implies {
            let (maker, q) = #[trigger] all[k];
            &&& crosses(taker.kind(), maker.kind(), taker.side())
            &&& 0 < q <= maker.remaining
        } by {
            if k > 0 {
                assert(all[k] == rest.fills[k - 1]);
            }
        }
    }
    assert forall|side: Side| #[trigger] ranked(side, makers) implies ranked(side, sweep(taker, makers).makers) by {
        lemma_sweep_ranked(taker, side, makers);
    }
}

} // verus!
