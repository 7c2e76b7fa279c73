//! Batch clearing in one pair.

use vstd::prelude::*;
use crate::engines::auction::{candidate_prices, clearing_price, limit_prices, matched_at, select_price, Interest, TieRule};
use crate::multi_asset::batches::{batch_trades, clear_at, clearable, interests, interests_of, is_result, ClearingResult};
use crate::multi_asset::engine_traits::MatchingEngine;
use crate::multi_asset::order_book::OrderBookState;
use crate::multi_asset::types::{Order, PairView, Trade};
use crate::types::Price;

verus! {

/// The prices that a batch can clear at: its limit prices, or without any the
/// last one that traded.
pub open spec fn candidates(orders: Seq<Order>, last: Option<Price>) -> Set<Price> {
    let limits = limit_prices(interests(orders));
    if limits == Set::<Price>::empty() && last is Some {
        Set::empty().insert(last->0)
    } else {
        limits
    }
}

/// The price that a batch clears at.
pub open spec fn batch_price(orders: Seq<Order>, last: Option<Price>) -> Option<Price> {
    if orders.len() == 0 {
        None
    } else {
        clearing_price(interests(orders), TieRule::Nearest { reference: last }, candidates(orders, last))
    }
}

/// A batch engine for one pair.
#[derive(Debug)]
pub struct BatchAuctionEngine {
    /// The orders of the current epoch.
    pub orders: Vec<Order>,
    /// Always empty: nothing rests here.
    pub book_viewer: OrderBookState,
    pub next_trade_id: u64,
    /// The price of the last batch that traded.
    pub last_clearing_price: Option<Price>,
}

impl BatchAuctionEngine {
    pub fn new() -> (r: Self)
        ensures
            r.orders@ == Seq::<Order>::empty(),
            r.book_viewer.pair@ == PairView::plain("SOL"@, "USD"@),
            r.book_viewer.bids@ == Seq::<Order>::empty(),
            r.book_viewer.asks@ == Seq::<Order>::empty(),
            r.next_trade_id == 1,
            r.last_clearing_price is None,
    {
        BatchAuctionEngine {
            orders: Vec::new(),
            book_viewer: OrderBookState::default(),
            next_trade_id: 1,
            last_clearing_price: None,
        }
    }

    /// Adds a live order to the batch. Every other record is dropped.
    pub fn submit(&mut self, order: Order)
        ensures
            final(self).orders@ == if order.is_new_live_order() {
                old(self).orders@.push(order)
            } else {
                old(self).orders@
            },
            final(self).book_viewer == old(self).book_viewer,
            final(self).next_trade_id == old(self).next_trade_id,
            final(self).last_clearing_price == old(self).last_clearing_price,
    {
        if order.is_new_live_order() {
            self.orders.push(order);
        }
    }

    /// Clears the batch, which is then empty.
    pub fn clear(&mut self) -> (r: Option<ClearingResult>)
        requires
            clearable(old(self).orders@, old(self).next_trade_id as int),
        ensures
            final(self).orders@ == Seq::<Order>::empty(),
            final(self).book_viewer == old(self).book_viewer,
            match batch_price(old(self).orders@, old(self).last_clearing_price) {
                Some(price) => {
                    &&& r matches Some(c) && is_result(
                        c,
                        old(self).orders@,
                        old(self).orders@[0].pair,
                        price,
                        old(self).next_trade_id as int,
                    )
                    &&& final(self).next_trade_id == old(self).next_trade_id + r->0.trades@.len()
                    &&& final(self).last_clearing_price == if matched_at(interests(old(self).orders@), price) > 0 {
                        Some(price)
                    } else {
                        old(self).last_clearing_price
                    }
                },
                None => {
                    &&& r is None
                    &&& final(self).next_trade_id == old(self).next_trade_id
                    &&& final(self).last_clearing_price == old(self).last_clearing_price
                },
            },
    {
        let mut orders: Vec<Order> = Vec::new();
        std::mem::swap(&mut orders, &mut self.orders);
        self.clear_orders(&orders)
    }

    /// Clears these orders at the price that trades the most.
    pub fn clear_orders(&mut self, orders: &Vec<Order>) -> (r: Option<ClearingResult>)
        requires
            clearable(orders@, old(self).next_trade_id as int),
        ensures
            final(self).orders == old(self).orders,
            final(self).book_viewer == old(self).book_viewer,
            match batch_price(orders@, old(self).last_clearing_price) {
                Some(price) => {
                    &&& r matches Some(c) && is_result(c, orders@, orders@[0].pair, price, old(self).next_trade_id as int)
                    &&& final(self).next_trade_id == old(self).next_trade_id + r->0.trades@.len()
                    &&& final(self).last_clearing_price == if matched_at(interests(orders@), price) > 0 {
                        Some(price)
                    } else {
                        old(self).last_clearing_price
                    }
                },
                None => {
                    &&& r is None
                    &&& final(self).next_trade_id == old(self).next_trade_id
                    &&& final(self).last_clearing_price == old(self).last_clearing_price
                },
            },
    {
        if orders.len() == 0 {
            return None;
        }
        let book: Vec<Interest> = interests_of(orders);
        let mut prices: Vec<Price> = candidate_prices(&book);
        if prices.len() == 0 {
            assert(limit_prices(book@) =~= Set::<Price>::empty()) by {
                assert(prices@.to_set() =~= Set::<Price>::empty());
            }
            if let Some(last) = self.last_clearing_price {
                prices.push(last);
                assert(prices@.to_set() =~= Set::empty().insert(last)) by {
                    assert(prices@[0] == last);
                }
            }
        } else {
            assert(limit_prices(book@).contains(prices@[0])) by {
                assert(prices@.to_set().contains(prices@[0]));
            }
        }
        assert(prices@.to_set() == candidates(orders@, self.last_clearing_price));
        match select_price(&book, &prices, TieRule::Nearest { reference: self.last_clearing_price }) {
            None => None,
            Some((price, demand, supply)) => {
                let result: ClearingResult = clear_at(
                    orders,
                    &book,
                    &orders[0].pair,
                    price,
                    demand,
                    supply,
                    self.next_trade_id,
                );
                self.next_trade_id = self.next_trade_id + result.trades.len() as u64;
                if result.traded_quantity > 0 {
                    self.last_clearing_price = Some(price);
                }
                Some(result)
            },
        }
    }
}

impl MatchingEngine for BatchAuctionEngine {
    open spec fn ready(&self) -> bool {
        true
    }

    open spec fn takes(&self, order: Order) -> bool {
        true
    }

    open spec fn can_end(&self) -> bool {
        clearable(self.orders@, self.next_trade_id as int)
    }

    /// Collects the order; nothing trades before the epoch ends.
    fn process_order(&mut self, order: Order) -> (r: Vec<Trade>)
        ensures
            r@ == Seq::<Trade>::empty(),
            final(self).orders@ == if order.is_new_live_order() {
                old(self).orders@.push(order)
            } else {
                old(self).orders@
            },
            final(self).next_trade_id == old(self).next_trade_id,
            final(self).last_clearing_price == old(self).last_clearing_price,
    {
        self.submit(order);
        Vec::new()
    }

    /// Clears the batch and returns its trades.
    fn on_epoch_end(&mut self) -> (r: Vec<Trade>)
        ensures
            final(self).orders@ == Seq::<Order>::empty(),
            r@ == match batch_price(old(self).orders@, old(self).last_clearing_price) {
                Some(price) => batch_trades(
                    old(self).orders@,
                    old(self).orders@[0].pair,
                    price,
                    old(self).next_trade_id as int,
                ),
                None => Seq::empty(),
            },
            final(self).next_trade_id == old(self).next_trade_id + r@.len(),
    {
        match self.clear() {
            Some(result) => result.trades,
            None => Vec::new(),
        }
    }

    fn book_state(&self) -> (r: &OrderBookState)
        ensures
            *r == self.book_viewer,
    {
        &self.book_viewer
    }
}

} // verus!
