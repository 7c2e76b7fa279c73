//! What every matching engine can do.

use vstd::prelude::*;
use crate::multi_asset::order_book::OrderBookState;
use crate::multi_asset::types::{Order, Trade};

verus! {

/// An engine that takes orders one by one, and may trade at once or when an
/// epoch ends.
pub trait MatchingEngine: Sized {
    /// Whether the engine is in a state that it can go on from.
    spec fn ready(&self) -> bool;

    /// The machine limits within which the engine takes an order.
    spec fn takes(&self, order: Order) -> bool;

    /// The machine limits within which an epoch can end.
    spec fn can_end(&self) -> bool;

    /// Takes an order and returns the trades it causes at once.
    fn process_order(&mut self, order: Order) -> (r: Vec<Trade>)
        requires
            old(self).ready(),
            old(self).takes(order),
        ensures
            final(self).ready(),
    ;

    /// Ends an epoch and returns the trades that this causes.
    fn on_epoch_end(&mut self) -> (r: Vec<Trade>)
        requires
            old(self).ready(),
            old(self).can_end(),
        ensures
            final(self).ready(),
    ;

    /// The orders that rest.
    fn book_state(&self) -> &OrderBookState;
}

} // verus!
