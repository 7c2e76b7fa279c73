//! A batch that is netted before it is settled: per participant, what they
//! want to buy and to sell in all, and the orders that stand for it.

use vstd::prelude::*;
use crate::multi_asset::optimizer::SettlementOptimizer;
use crate::multi_asset::order_book::OrderBookState;
use crate::multi_asset::types::{AssetPair, Order, PairView, Trade};
use crate::seqs::{lemma_total_nonneg, saturated, total};
use crate::tables::{ascending, lemma_table, lookup, put, Table};
use crate::types::{Amount, Price, Side};

verus! {

/// What a participant wants to buy and to sell; nothing on a side without an
/// order.
#[derive(Clone, Copy, Debug)]
pub struct Wants {
    pub buy: Option<Amount>,
    pub sell: Option<Amount>,
}

/// More of a quantity.
pub open spec fn grown(q: Option<Amount>, more: Amount) -> Option<Amount> {
    Some(
        saturated(
            (match q {
                Some(n) => n as int,
                None => 0,
            }) + more,
        ) as u128,
    )
}

pub open spec fn wants_of(t: Seq<(Seq<char>, Wants)>, who: Seq<char>) -> Wants {
    match lookup(t, who) {
        Some(w) => w,
        None => Wants { buy: None, sell: None },
    }
}

/// What all participants want in all.
pub open spec fn netted_orders(orders: Seq<Order>) -> Seq<(Seq<char>, Wants)>
    decreases orders.len(),
{
    if orders.len() == 0 {
        Seq::empty()
    } else {
        let before = netted_orders(orders.drop_last());
        let o = orders.last();
        let w = wants_of(before, o.user_id@);
        put(
            before,
            o.user_id@,
            match o.side() {
                Side::Buy => Wants { buy: grown(w.buy, o.remaining), ..w },
                Side::Sell => Wants { sell: grown(w.sell, o.remaining), ..w },
            },
        )
    }
}

/// A limit order that stands for all that one participant wants on one side.
#[derive(Debug)]
pub struct NetOrder {
    pub id: u64,
    pub participant_id: String,
    pub pair: AssetPair,
    pub side: Side,
    pub remaining: Amount,
    pub timestamp: u64,
    pub limit_price: Option<Price>,
}

/// What is wanted, side by side: who wants it, on which side, and how much.
pub open spec fn net_sides(net: Seq<(Seq<char>, Wants)>) -> Seq<(Seq<char>, Side, Amount)>
    decreases net.len(),
{
    if net.len() == 0 {
        Seq::empty()
    } else {
        let (who, wants) = net.last();
        net_sides(net.drop_last()) + (match wants.buy {
            Some(n) => seq![(who, Side::Buy, n)],
            None => Seq::empty(),
        }) + (match wants.sell {
            Some(n) => seq![(who, Side::Sell, n)],
            None => Seq::empty(),
        })
    }
}

/// Whether an order stands for this side: it has no id, moment or price.
pub open spec fn is_net_order(o: NetOrder, pair: AssetPair, wanted: (Seq<char>, Side, Amount)) -> bool {
    &&& o.id == 0
    &&& o.participant_id@ == wanted.0
    &&& o.pair == pair
    &&& o.side == wanted.1
    &&& o.remaining == wanted.2
    &&& o.timestamp == 0
    &&& o.limit_price is None
}

/// Whether these are the orders of all sides that orders add up to. They are
/// of the pair of the first order.
pub open spec fn are_net_orders(net: Seq<NetOrder>, orders: Seq<Order>) -> bool {
    let sides = net_sides(netted_orders(orders));
    &&& net.len() == sides.len()
    &&& forall|i: int| 0 <= i < net.len() ==> is_net_order(#[trigger] net[i], orders[0].pair, sides[i])
}

fn net_order(who: &String, pair: &AssetPair, side: Side, quantity: Amount) -> (r: NetOrder)
    ensures
        is_net_order(r, *pair, (who@, side, quantity)),
{
    NetOrder {
        id: 0,
        participant_id: who.clone(),
        pair: pair.clone(),
        side,
        remaining: quantity,
        timestamp: 0,
        limit_price: None,
    }
}

fn grow(q: Option<Amount>, more: Amount) -> (r: Option<Amount>)
    ensures
        r == grown(q, more),
{
    let n: Amount = match q {
        Some(n) => n,
        None => 0,
    };
    Some(n.saturating_add(more))
}

/// Collects orders until the epoch ends.
#[derive(Debug)]
pub struct BatchAuctionEngine {
    pub order_buffer: Vec<Order>,
    /// Always empty: nothing rests here.
    pub current_book: OrderBookState,
    pub optimizer: SettlementOptimizer,
}

impl BatchAuctionEngine {
    pub fn new(optimizer: SettlementOptimizer) -> (r: Self)
        ensures
            r.order_buffer@ == Seq::<Order>::empty(),
            r.current_book.pair@ == PairView::plain("SOL"@, "USD"@),
            r.current_book.bids@ == Seq::<Order>::empty(),
            r.current_book.asks@ == Seq::<Order>::empty(),
    {
        BatchAuctionEngine { order_buffer: Vec::new(), current_book: OrderBookState::default(), optimizer }
    }

    /// Collects an order; nothing trades before the epoch ends.
    pub fn process_order(&mut self, order: Order) -> (r: Vec<Trade>)
        ensures
            final(self).order_buffer@ == old(self).order_buffer@.push(order),
            final(self).current_book == old(self).current_book,
            r@ == Seq::<Trade>::empty(),
    {
        self.order_buffer.push(order);
        Vec::new()
    }

    /// What all participants want in all.
    pub fn net_quantities(&self) -> (r: Table<String, Wants>)
        ensures
            r.wf(),
            r.items() == netted_orders(self.order_buffer@),
    {
        let ghost orders: Seq<Order> = self.order_buffer@;
        let mut net: Table<String, Wants> = Table::new();
        let mut i: usize = 0;
        assert(orders.take(0) =~= Seq::<Order>::empty());
        while i < self.order_buffer.len()
            invariant
                i <= self.order_buffer.len(),
                orders == self.order_buffer@,
                net.wf(),
                net.items() == netted_orders(orders.take(i as int)),
            decreases self.order_buffer.len() - i,
        {
            assert(orders.take(i + 1).drop_last() =~= orders.take(i as int));
            assert(orders.take(i + 1).last() == orders[i as int]);
            let o: &Order = &self.order_buffer[i];
            let who: String = o.user_id.clone();
            let mut wants: Wants = match net.get(&who) {
                Some(w) => *w,
                None => Wants { buy: None, sell: None },
            };
            match o.side() {
                Side::Buy => {
                    wants.buy = grow(wants.buy, o.remaining);
                },
                Side::Sell => {
                    wants.sell = grow(wants.sell, o.remaining);
                },
            }
            net.set(who, wants);
            i += 1;
        }
        assert(orders.take(i as int) =~= orders);
        net
    }

    /// The orders that are settled when the epoch ends: one for each
    /// participant and side, with all that is wanted there.
    pub fn net_orders(&self) -> (r: Vec<NetOrder>)
        ensures
            are_net_orders(r@, self.order_buffer@),
    {
        let mut r: Vec<NetOrder> = Vec::new();
        if self.order_buffer.len() == 0 {
            return r;
        }
        let pair: &AssetPair = &self.order_buffer[0].pair;
        let net: Table<String, Wants> = self.net_quantities();
        let ghost items: Seq<(Seq<char>, Wants)> = net.items();
        assert(items.take(0) =~= Seq::empty());
        let mut i: usize = 0;
        while i < net.len()
            invariant
                i <= items.len(),
                items == net.items(),
                r@.len() == net_sides(items.take(i as int)).len(),
                forall|k: int|
                    0 <= k < r@.len() ==> is_net_order(#[trigger] r@[k], *pair, net_sides(items.take(i as int))[k]),
            decreases items.len() - i,
        {
            assert(items.take(i + 1).drop_last() =~= items.take(i as int));
            let entry: &(String, Wants) = net.at(i);
            if let Some(n) = entry.1.buy {
                r.push(net_order(&entry.0, pair, Side::Buy, n));
            }
            if let Some(n) = entry.1.sell {
                r.push(net_order(&entry.0, pair, Side::Sell, n));
            }
            i += 1;
        }
        assert(items.take(i as int) =~= items);
        r
    }

    /// Ends the epoch with the trades that settled the net orders, and hands
    /// them out. The buffer is empty then. An epoch without orders has no
    /// trades.
    pub fn on_epoch_end(&mut self, settled: Vec<Trade>) -> (r: Vec<Trade>)
        ensures
            final(self).order_buffer@ == Seq::<Order>::empty(),
            final(self).current_book == old(self).current_book,
            old(self).order_buffer@.len() == 0 ==> r@ == Seq::<Trade>::empty(),
            old(self).order_buffer@.len() > 0 ==> r == settled,
    {
        if self.order_buffer.len() == 0 {
            return Vec::new();
        }
        self.order_buffer = Vec::new();
        settled
    }

    pub fn book_state(&self) -> (r: &OrderBookState)
        ensures
            *r == self.current_book,
    {
        &self.current_book
    }
}

/// What is left of an order, if a participant has placed it on a side.
pub open spec fn left_of(who: Seq<char>, side: Side) -> spec_fn(Order) -> int {
    |o: Order|
        if o.user_id@ == who && o.side() == side {
            o.remaining as int
        } else {
            0
        }
}

/// What a participant wants on a side.
pub open spec fn wanted(w: Wants, side: Side) -> Option<Amount> {
    match side {
        Side::Buy => w.buy,
        Side::Sell => w.sell,
    }
}

/// Netting loses nothing: a participant wants on a side what their orders
/// there leave in all, as far as it can be represented, and nothing where they
/// have no order.
pub proof fn law_wants_add_up(orders: Seq<Order>, who: Seq<char>, side: Side)
    ensures
        ascending(netted_orders(orders)),
        wanted(wants_of(netted_orders(orders), who), side) is Some <==> exists|i: int|
            0 <= i < orders.len() && (#[trigger] orders[i]).user_id@ == who && orders[i].side() == side,
        wanted(wants_of(netted_orders(orders), who), side) matches Some(n) ==> n == saturated(
            total(orders, left_of(who, side)),
        ),
    decreases orders.len(),
{
    if orders.len() > 0 {
        let before: Seq<Order> = orders.drop_last();
        let o: Order = orders.last();
        let net: Seq<(Seq<char>, Wants)> = netted_orders(before);
        law_wants_add_up(before, who, side);
        let w: Wants = wants_of(net, o.user_id@);
        let now: Wants = match o.side() {
            Side::Buy => Wants { buy: grown(w.buy, o.remaining), ..w },
            Side::Sell => Wants { sell: grown(w.sell, o.remaining), ..w },
        };
        lemma_table(net, o.user_id@, now);
        lemma_total_nonneg(before, left_of(who, side));
        if o.user_id@ == who && o.side() == side {
            assert(orders[orders.len() - 1] == o);
            if wanted(wants_of(net, who), side) is None {
                lemma_nothing_placed(before, who, side);
            }
        } else {
            if exists|i: int| 0 <= i < before.len() && (#[trigger] before[i]).user_id@ == who && before[i].side() == side {
                let i: int = choose|i: int|
                    0 <= i < before.len() && (#[trigger] before[i]).user_id@ == who && before[i].side() == side;
                assert(orders[i] == before[i]);
            }
            if exists|i: int| 0 <= i < orders.len() && (#[trigger] orders[i]).user_id@ == who && orders[i].side() == side {
                let i: int = choose|i: int|
                    0 <= i < orders.len() && (#[trigger] orders[i]).user_id@ == who && orders[i].side() == side;
                assert(before[i] == orders[i]);
            }
        }
    }
}

/// Who has no order on a side leaves nothing there.
proof fn lemma_nothing_placed(orders: Seq<Order>, who: Seq<char>, side: Side)
    requires
        forall|i: int|
            0 <= i < orders.len() ==> !((#[trigger] orders[i]).user_id@ == who && orders[i].side() == side),
    ensures
        total(orders, left_of(who, side)) == 0,
    decreases orders.len(),
{
    if orders.len() > 0 {
        let before: Seq<Order> = orders.drop_last();
        assert forall|i: int| 0 <= i < before.len() implies !((#[trigger] before[i]).user_id@ == who && before[i].side()
            == side) by {
            assert(before[i] == orders[i]);
        }
        lemma_nothing_placed(before, who, side);
        assert(orders.last() == orders[orders.len() - 1]);
    }
}

} // verus!
