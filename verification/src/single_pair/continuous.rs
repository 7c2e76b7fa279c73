//! Continuous matching in one pair.

use vstd::prelude::*;
use crate::multi_asset::engine_traits::MatchingEngine;
use crate::multi_asset::matching::{match_on, Sides};
use crate::multi_asset::order_book::OrderBookState;
use crate::multi_asset::types::{Order, PairView, Trade};

verus! {

/// A continuous engine with one book.
#[derive(Debug)]
pub struct ContinuousEngine {
    pub book: OrderBookState,
    pub next_trade_id: u64,
}

impl ContinuousEngine {
    pub fn new() -> (r: Self)
        ensures
            r.ready(),
            r.book.pair@ == PairView::plain("SOL"@, "USD"@),
            r.book.sides() == Sides::empty(),
            r.next_trade_id == 1,
    {
        let r: ContinuousEngine = ContinuousEngine { book: OrderBookState::default(), next_trade_id: 1 };
        assert(r.book.sides() =~= Sides::empty());
        r
    }
}

/// Whether an order does anything: it must be live and of some quantity.
pub open spec fn counts(o: Order) -> bool {
    o.is_new_live_order() && o.remaining > 0
}

impl MatchingEngine for ContinuousEngine {
    /// The book is in price-time order.
    open spec fn ready(&self) -> bool {
        self.book.sides().ranked()
    }

    open spec fn takes(&self, order: Order) -> bool {
        self.next_trade_id + self.book.sides().resting(order.side().opposite()).len() <= u64::MAX
    }

    open spec fn can_end(&self) -> bool {
        true
    }

    /// Matches a live order at once, and lets what is left of a limit order
    /// rest. Every other record is dropped.
    fn process_order(&mut self, order: Order) -> (r: Vec<Trade>)
        ensures
            final(self).book.pair == old(self).book.pair,
            counts(order) ==> {
                &&& final(self).book.sides() == old(self).book.sides().matched(order)
                &&& r@ == old(self).book.sides().trades_on(order, old(self).next_trade_id as int)
                &&& final(self).next_trade_id == old(self).next_trade_id + old(self).book.sides().swept(
                    order,
                ).fills.len()
            },
            !counts(order) ==> *final(self) == *old(self) && r@ == Seq::<Trade>::empty(),
    {
        if !order.is_new_live_order() || order.remaining == 0 {
            return Vec::new();
        }
        match_on(&mut self.book, order, &mut self.next_trade_id)
    }

    /// Nothing happens when an epoch ends.
    fn on_epoch_end(&mut self) -> (r: Vec<Trade>)
        ensures
            *final(self) == *old(self),
            r@ == Seq::<Trade>::empty(),
    {
        Vec::new()
    }

    fn book_state(&self) -> (r: &OrderBookState)
        ensures
            *r == self.book,
    {
        &self.book
    }
}

} // verus!
