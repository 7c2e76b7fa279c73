//! A book of one pair that never lets a participant trade with themselves.

use vstd::prelude::*;
use crate::multi_asset::types::{AssetPair, Order, PairView, Trade};
use crate::seqs::{lemma_total_add, lemma_total_push, min_of, total};
use crate::text::same_text;
use crate::types::{Amount, OrderKind, Price, Side, PRICE_SCALE};

verus! {

/// Passive state of a book: the orders that rest on either side.
#[derive(Debug)]
pub struct OrderBookState {
    pub pair: AssetPair,
    pub bids: Vec<Order>,
    pub asks: Vec<Order>,
}

impl OrderBookState {
    pub fn new(pair: AssetPair) -> (r: Self)
        ensures
            r.pair == pair,
            r.bids@ == Seq::<Order>::empty(),
            r.asks@ == Seq::<Order>::empty(),
    {
        OrderBookState { pair, bids: Vec::new(), asks: Vec::new() }
    }
}

impl Default for OrderBookState {
    fn default() -> (r: Self)
        ensures
            r.pair@ == PairView::plain("SOL"@, "USD"@),
            r.bids@ == Seq::<Order>::empty(),
            r.asks@ == Seq::<Order>::empty(),
    {
        OrderBookState::new(AssetPair::default())
    }
}

/// Whether an incoming order would trade with a resting one: there is
/// something left of it, it is someone else's, and its price is acceptable.
pub open spec fn acceptable(incoming: Order, resting: Order) -> bool {
    &&& resting.remaining > 0
    &&& resting.user_id@ != incoming.user_id@
    &&& match incoming.kind() {
        OrderKind::Market => true,
        OrderKind::Limit { price } => match (incoming.side(), resting.limit_price()) {
            (Side::Buy, Some(p)) => p <= price,
            (Side::Sell, Some(p)) => p >= price,
            (_, None) => false,
        },
    }
}

/// The price that an order competes at.
pub open spec fn standing_price(o: Order) -> int {
    match (o.limit_price(), o.side()) {
        (Some(p), _) => p as int,
        (None, Side::Sell) => 2 * PRICE_SCALE,
        (None, Side::Buy) => 0,
    }
}

/// Whether `a` is served strictly before `b` of the same side: better price,
/// then earlier, then lower id.
pub open spec fn goes_first(a: Order, b: Order) -> bool {
    let (pa, pb) = (standing_price(a), standing_price(b));
    if pa != pb {
        match a.side() {
            Side::Buy => pa > pb,
            Side::Sell => pa < pb,
        }
    } else {
        a.ts < b.ts || (a.ts == b.ts && a.oid < b.oid)
    }
}

/// The position of the resting order that an incoming one trades with first.
/// Of equal asks it is the one listed first, of equal bids the one listed
/// last.
pub open spec fn best_maker(resting: Seq<Order>, incoming: Order) -> Option<int>
    decreases resting.len(),
{
    if resting.len() == 0 {
        None
    } else {
        let before = best_maker(resting.drop_last(), incoming);
        let o = resting.last();
        if !acceptable(incoming, o) {
            before
        } else {
            match before {
                None => Some(resting.len() - 1),
                Some(i) => if (match incoming.side() {
                    Side::Buy => goes_first(o, resting[i]),
                    Side::Sell => !goes_first(resting[i], o),
                }) {
                    Some(resting.len() - 1)
                } else {
                    Some(i)
                },
            }
        }
    }
}

/// What an incoming order does to the other side of the book.
#[verifier::ext_equal]
pub struct Crossing {
    /// The resting orders that were hit, as they stood before, with the
    /// quantity taken from each.
    pub fills: Seq<(Order, int)>,
    /// The resting orders that are left.
    pub resting: Seq<Order>,
    /// What is left of the incoming order.
    pub left: int,
}

/// The incoming order trades with the best acceptable order as long as there
/// is one and it has something left.
pub open spec fn crossing(incoming: Order, resting: Seq<Order>) -> Crossing
    decreases resting.len(),
{
    match best_maker(resting, incoming) {
        Some(i) if incoming.remaining > 0 && 0 <= i < resting.len() => {
            let qty = min_of(incoming.remaining as int, resting[i].remaining as int);
            let rest = if qty == resting[i].remaining {
                crossing(incoming.filled_by(qty), resting.remove(i))
            } else {
                Crossing { fills: Seq::empty(), resting: resting.update(i, resting[i].filled_by(qty)), left: 0 }
            };
            Crossing { fills: seq![(resting[i], qty)] + rest.fills, ..rest }
        },
        _ => Crossing { fills: Seq::empty(), resting, left: incoming.remaining as int },
    }
}

/// The price of a trade: the seller's limit, or else the buyer's.
pub open spec fn trade_price(buy: Order, sell: Order) -> Price {
    match (buy.limit_price(), sell.limit_price()) {
        (_, Some(p)) => p,
        (Some(p), None) => p,
        (None, None) => PRICE_SCALE,
    }
}

/// The trade that records one fill.
pub open spec fn is_crossing_trade(t: Trade, pair: AssetPair, incoming: Order, maker: Order, qty: int, id: int) -> bool {
    let buy = if incoming.side() == Side::Buy {
        incoming
    } else {
        maker
    };
    let sell = if incoming.side() == Side::Buy {
        maker
    } else {
        incoming
    };
    &&& t.trade_id == id
    &&& t.pair == pair
    &&& t.price == trade_price(buy, sell)
    &&& t.quantity == qty
    &&& t.buyer_id == buy.user_id
    &&& t.seller_id == sell.user_id
    &&& t.buy_order_id == buy.oid
    &&& t.sell_order_id == sell.oid
    &&& t.ts == incoming.ts
    &&& t.trade_tx_hash is None
    &&& t.chain_id is None
}

pub open spec fn are_crossing_trades(
    trades: Seq<Trade>,
    pair: AssetPair,
    incoming: Order,
    fills: Seq<(Order, int)>,
    first_id: int,
) -> bool {
    &&& trades.len() == fills.len()
    &&& forall|i: int|
        0 <= i < trades.len() ==> is_crossing_trade(
            #[trigger] trades[i],
            pair,
            incoming,
            fills[i].0,
            fills[i].1,
            first_id + i,
        )
}

/// The state of a book.
#[verifier::ext_equal]
pub struct BookView {
    pub bids: Seq<Order>,
    pub asks: Seq<Order>,
    pub next_trade_id: int,
}

impl BookView {
    pub open spec fn resting(self, side: Side) -> Seq<Order> {
        match side {
            Side::Buy => self.bids,
            Side::Sell => self.asks,
        }
    }

    pub open spec fn with_side(self, side: Side, orders: Seq<Order>) -> BookView {
        match side {
            Side::Buy => BookView { bids: orders, ..self },
            Side::Sell => BookView { asks: orders, ..self },
        }
    }

    pub open spec fn crossed(self, order: Order) -> Crossing {
        crossing(order, self.resting(order.side().opposite()))
    }

    /// An order has been submitted: it has traded, and what is left of a
    /// limit order rests behind the others.
    pub open spec fn submitted(self, order: Order) -> BookView {
        let c = self.crossed(order);
        let traded = BookView {
            next_trade_id: self.next_trade_id + c.fills.len(),
            ..self.with_side(order.side().opposite(), c.resting)
        };
        if c.left > 0 && order.kind() is Limit {
            traded.with_side(
                order.side(),
                traded.resting(order.side()).push(Order { remaining: c.left as u128, ..order }),
            )
        } else {
            traded
        }
    }
}

fn is_acceptable(incoming: &Order, resting: &Order) -> (r: bool)
    ensures
        r == acceptable(*incoming, *resting),
{
    if resting.remaining == 0 || same_text(resting.user_id.as_str(), incoming.user_id.as_str()) {
        return false;
    }
    match incoming.kind() {
        OrderKind::Market => true,
        OrderKind::Limit { price } => match (incoming.side(), resting.limit_price()) {
            (Side::Buy, Some(p)) => p <= price,
            (Side::Sell, Some(p)) => p >= price,
            (_, None) => false,
        },
    }
}

fn stands_at(o: &Order) -> (r: Price)
    ensures
        r == standing_price(*o),
{
    match (o.limit_price(), o.side()) {
        (Some(p), _) => p,
        (None, Side::Sell) => PRICE_SCALE * 2,
        (None, Side::Buy) => 0,
    }
}

fn is_first(a: &Order, b: &Order) -> (r: bool)
    ensures
        r == goes_first(*a, *b),
{
    let pa: Price = stands_at(a);
    let pb: Price = stands_at(b);
    if pa != pb {
        match a.side() {
            Side::Buy => pa > pb,
            Side::Sell => pa < pb,
        }
    } else {
        a.ts < b.ts || (a.ts == b.ts && a.oid < b.oid)
    }
}

fn best_index(resting: &Vec<Order>, incoming: &Order) -> (r: Option<usize>)
    ensures
        match r {
            Some(i) => {
                &&& best_maker(resting@, *incoming) == Some(i as int)
                &&& i < resting.len()
                &&& acceptable(*incoming, resting@[i as int])
            },
            None => best_maker(resting@, *incoming) is None,
        },
{
    let mut best: Option<usize> = None;
    let mut k: usize = 0;
    assert(resting@.take(0) =~= Seq::<Order>::empty());
    while k < resting.len()
        invariant
            k <= resting.len(),
            match best {
                Some(i) => {
                    &&& best_maker(resting@.take(k as int), *incoming) == Some(i as int)
                    &&& i < k
                    &&& acceptable(*incoming, resting@[i as int])
                },
                None => best_maker(resting@.take(k as int), *incoming) is None,
            },
        decreases resting.len() - k,
    {
        assert(resting@.take(k + 1).drop_last() =~= resting@.take(k as int));
        assert(resting@.take(k + 1).last() == resting@[k as int]);
        let o: &Order = &resting[k];
        if is_acceptable(incoming, o) {
            match best {
                None => {
                    best = Some(k);
                },
                Some(i) => {
                    assert(resting@.take(k + 1)[i as int] == resting@[i as int]);
                    let better: bool = match incoming.side() {
                        Side::Buy => is_first(o, &resting[i]),
                        Side::Sell => !is_first(&resting[i], o),
                    };
                    if better {
                        best = Some(k);
                    }
                },
            }
        }
        k += 1;
    }
    assert(resting@.take(k as int) =~= resting@);
    best
}

/// A book of one pair.
#[derive(Debug)]
pub struct OrderBook {
    pub pair: AssetPair,
    bids: Vec<Order>,
    asks: Vec<Order>,
    next_trade_id: u64,
}

impl View for OrderBook {
    type V = BookView;

    closed spec fn view(&self) -> BookView {
        BookView { bids: self.bids@, asks: self.asks@, next_trade_id: self.next_trade_id as int }
    }
}

impl OrderBook {
    /// The pair that is traded.
    pub closed spec fn spec_pair(&self) -> AssetPair {
        self.pair
    }

    pub fn new(pair: AssetPair) -> (r: Self)
        ensures
            r.spec_pair() == pair,
            r@ == (BookView { bids: Seq::empty(), asks: Seq::empty(), next_trade_id: 1 }),
    {
        OrderBook { pair, bids: Vec::new(), asks: Vec::new(), next_trade_id: 1 }
    }

    /// Takes an order of this book's pair and returns the trades it causes.
    pub fn submit(&mut self, order: Order) -> (r: Vec<Trade>)
        requires
            order.pair@ == old(self).spec_pair()@,
            old(self)@.next_trade_id + old(self)@.resting(order.side().opposite()).len() <= u64::MAX,
        ensures
            final(self).spec_pair() == old(self).spec_pair(),
            final(self)@ == old(self)@.submitted(order),
            are_crossing_trades(
                r@,
                old(self).spec_pair(),
                order,
                old(self)@.crossed(order).fills,
                old(self)@.next_trade_id,
            ),
    {
        let side: Side = order.side();
        let mut trades: Vec<Trade> = Vec::new();
        let mut resting: Vec<Order> = Vec::new();
        match side {
            Side::Buy => std::mem::swap(&mut resting, &mut self.asks),
            Side::Sell => std::mem::swap(&mut resting, &mut self.bids),
        }
        let left: Amount = self.match_incoming(&order, &mut resting, &mut trades);
        match side {
            Side::Buy => std::mem::swap(&mut resting, &mut self.asks),
            Side::Sell => std::mem::swap(&mut resting, &mut self.bids),
        }
        if left > 0 {
            if let OrderKind::Limit { .. } = order.kind() {
                let mut rest: Order = order;
                rest.remaining = left;
                match side {
                    Side::Buy => self.bids.push(rest),
                    Side::Sell => self.asks.push(rest),
                }
            }
        }
        trades
    }

    /// Matches an order with the resting orders of the other side, and returns
    /// what is left of it.
    fn match_incoming(&mut self, order: &Order, resting: &mut Vec<Order>, trades: &mut Vec<Trade>) -> (left: Amount)
        requires
            old(trades)@.len() == 0,
            old(self).next_trade_id + old(resting).len() <= u64::MAX,
        ensures
            final(self).spec_pair() == old(self).spec_pair(),
            final(self).bids == old(self).bids,
            final(self).asks == old(self).asks,
            final(self).next_trade_id == old(self).next_trade_id + crossing(*order, old(resting)@).fills.len(),
            final(resting)@ == crossing(*order, old(resting)@).resting,
            left == crossing(*order, old(resting)@).left,
            are_crossing_trades(
                final(trades)@,
                old(self).spec_pair(),
                *order,
                crossing(*order, old(resting)@).fills,
                old(self).next_trade_id as int,
            ),
    {
        let mut incoming: Order = order.clone();
        let ghost goal: Crossing = crossing(*order, resting@);
        let ghost mut done: Seq<(Order, int)> = Seq::empty();
        let ghost start: u64 = self.next_trade_id;
        let ghost pair: AssetPair = self.pair;
        assert(done + goal.fills =~= goal.fills);
        loop
            invariant
                self.bids == old(self).bids,
                self.asks == old(self).asks,
                self.pair == pair,
                pair == old(self).spec_pair(),
                start == old(self).next_trade_id,
                incoming == (Order { remaining: incoming.remaining, ..*order }),
                goal == crossing(*order, old(resting)@),
                goal.fills == done + crossing(incoming, resting@).fills,
                goal.resting == crossing(incoming, resting@).resting,
                goal.left == crossing(incoming, resting@).left,
                are_crossing_trades(trades@, pair, *order, done, start as int),
                self.next_trade_id == start + done.len(),
                incoming.remaining > 0 ==> self.next_trade_id + resting.len() <= u64::MAX,
            ensures
                crossing(incoming, resting@).fills.len() == 0,
                crossing(incoming, resting@).resting == resting@,
                crossing(incoming, resting@).left == incoming.remaining,
            decreases resting.len(), incoming.remaining,
        {
            if incoming.remaining == 0 {
                break;
            }
            let at: usize = match best_index(resting, &incoming) {
                None => {
                    break;
                },
                Some(at) => at,
            };
            let ghost before: Seq<Order> = resting@;
            let ghost taker: Order = incoming;
            let ghost maker: Order = resting@[at as int];
            let mut resting_order: Order = resting.remove(at);
            let qty: Amount = if incoming.remaining <= resting_order.remaining {
                incoming.remaining
            } else {
                resting_order.remaining
            };
            let trade: Trade = match incoming.side() {
                Side::Buy => self.make_trade(&incoming, &resting_order, qty, incoming.ts),
                Side::Sell => self.make_trade(&resting_order, &incoming, qty, incoming.ts),
            };
            trades.push(trade);
            incoming.reduce(qty);
            resting_order.reduce(qty);
            if resting_order.remaining > 0 {
                resting.insert(at, resting_order);
                assert(resting@ =~= before.update(at as int, maker.filled_by(qty as int)));
            }
            proof {
                let rest: Crossing = crossing(incoming, resting@);
                assert(crossing(taker, before).fills =~= seq![(maker, qty as int)] + rest.fills);
                assert(done + (seq![(maker, qty as int)] + rest.fills) =~= done.push((maker, qty as int)) + rest.fills);
                done = done.push((maker, qty as int));
            }
        }
        assert(goal.fills =~= done);
        incoming.remaining
    }

    /// All resting orders, bids and asks, in the order they were stored.
    pub fn snapshot(&self) -> (r: (Vec<Order>, Vec<Order>))
        ensures
            r.0@ == self@.bids,
            r.1@ == self@.asks,
    {
        (clone_orders(&self.bids), clone_orders(&self.asks))
    }

    fn make_trade(&mut self, buy: &Order, sell: &Order, quantity: Amount, ts: u64) -> (r: Trade)
        requires
            old(self).next_trade_id < u64::MAX,
        ensures
            final(self).next_trade_id == old(self).next_trade_id + 1,
            final(self).pair == old(self).pair,
            final(self).bids == old(self).bids,
            final(self).asks == old(self).asks,
            r.trade_id == old(self).next_trade_id,
            r.pair == old(self).pair,
            r.price == trade_price(*buy, *sell),
            r.quantity == quantity,
            r.buyer_id == buy.user_id,
            r.seller_id == sell.user_id,
            r.buy_order_id == buy.oid,
            r.sell_order_id == sell.oid,
            r.ts == ts,
            r.trade_tx_hash is None,
            r.chain_id is None,
    {
        let price: Price = match (buy.limit_price(), sell.limit_price()) {
            (_, Some(p)) => p,
            (Some(p), None) => p,
            (None, None) => PRICE_SCALE,
        };
        let trade: Trade = Trade {
            trade_id: self.next_trade_id,
            pair: self.pair.clone(),
            price,
            quantity,
            buyer_id: buy.user_id.clone(),
            seller_id: sell.user_id.clone(),
            buy_order_id: buy.oid,
            sell_order_id: sell.oid,
            ts,
            trade_tx_hash: None,
            chain_id: None,
        };
        self.next_trade_id = self.next_trade_id + 1;
        trade
    }
}

/// The quantity of a list of fills.
pub open spec fn filled_quantity(fills: Seq<(Order, int)>) -> int {
    total(fills, |f: (Order, int)| f.1)
}

proof fn lemma_best_maker(resting: Seq<Order>, incoming: Order)
    ensures
        best_maker(resting, incoming) matches Some(i) ==> 0 <= i < resting.len() && acceptable(incoming, resting[i]),
    decreases resting.len(),
{
    if resting.len() > 0 {
        lemma_best_maker(resting.drop_last(), incoming);
    }
}

/// A participant never trades with themselves, every fill is acceptable to
/// the incoming order, and what is filled and what is left are the whole of
/// it.
pub proof fn law_no_self_trades(incoming: Order, resting: Seq<Order>)
    ensures
        forall|k: int|
            0 <= k < crossing(incoming, resting).fills.len() ==> {
                let (maker, qty) = #[trigger] crossing(incoming, resting).fills[k];
                &&& maker.user_id@ != incoming.user_id@
                &&& acceptable(incoming, maker)
                &&& 0 < qty <= maker.remaining
            },
        filled_quantity(crossing(incoming, resting).fills) + crossing(incoming, resting).left == incoming.remaining,
        crossing(incoming, resting).left >= 0,
    decreases resting.len(),
{
    lemma_best_maker(resting, incoming);
    let c: Crossing = crossing(incoming, resting);
    if let Some(i) = best_maker(resting, incoming) {
        if incoming.remaining > 0 {
            let qty: int = min_of(incoming.remaining as int, resting[i].remaining as int);
            let rest: Crossing = if qty == resting[i].remaining {
                crossing(incoming.filled_by(qty), resting.remove(i))
            } else {
                Crossing { fills: Seq::empty(), resting: resting.update(i, resting[i].filled_by(qty)), left: 0 }
            };
            let head: Seq<(Order, int)> = seq![(resting[i], qty)];
            if qty == resting[i].remaining {
                law_no_self_trades(incoming.filled_by(qty), resting.remove(i));
            }
            assert(c.fills == head + rest.fills);
            lemma_total_add(head, rest.fills, |f: (Order, int)| f.1);
            assert(head =~= Seq::<(Order, int)>::empty().push((resting[i], qty)));
            lemma_total_push(Seq::<(Order, int)>::empty(), (resting[i], qty), |f: (Order, int)| f.1);
            assert forall|k: int| 0 <= k < c.fills.len() implies {
                let (maker, q) = #[trigger] c.fills[k];
                &&& maker.user_id@ != incoming.user_id@
                &&& acceptable(incoming, maker)
                &&& 0 < q <= maker.remaining
            } by {
                if k > 0 {
                    assert(c.fills[k] == rest.fills[k - 1]);
                }
            }
        }
    }
}

/// A copy of a list of orders.
pub fn clone_orders(orders: &Vec<Order>) -> (r: Vec<Order>)
    ensures
        r@ == orders@,
{
    let mut r: Vec<Order> = Vec::new();
    let mut i: usize = 0;
    while i < orders.len()
        invariant
            i <= orders.len(),
            r@ =~= orders@.take(i as int),
        decreases orders.len() - i,
    {
        r.push(orders[i].clone());
        i += 1;
    }
    assert(orders@.take(i as int) =~= orders@);
    r
}

} // verus!
