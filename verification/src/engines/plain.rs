//! What orders and trades say, read off their fields alone. The laws of the
//! books are stated in these terms.

use vstd::prelude::*;
use crate::seqs::total;
use crate::types::{Order, Trade};

verus! {

/// The order executes at any price: market, stop market, take-profit market
/// or vault close.
pub open spec fn at_market(o: Order) -> bool {
    o.order_type_id == 1 || o.order_type_id == 2 || o.order_type_id == 3 || o.order_type_id == 6
}

/// The record opens an order: an unconditional one, or one whose condition
/// has come true.
pub open spec fn opens(o: Order) -> bool {
    if o.status_id == 1 {
        !o.is_trigger
    } else {
        o.status_id == 9
    }
}

/// The record withdraws an order.
pub open spec fn withdraws(o: Order) -> bool {
    seq![2u8, 7u8, 10u8, 11u8, 12u8, 13u8, 14u8, 16u8].contains(o.status_id)
}

/// The order asks (sells), or bids, and would trade at `price`.
pub open spec fn takes(o: Order, ask: bool, price: int) -> bool {
    &&& o.is_ask == ask
    &&& at_market(o) || (if ask {
        o.limit_px <= price
    } else {
        price <= o.limit_px
    })
}

/// What the order would trade on that side at `price`.
pub open spec fn taken(ask: bool, price: int) -> spec_fn(Order) -> int {
    |o: Order|
        if takes(o, ask, price) {
            o.remaining as int
        } else {
            0
        }
}

/// The quantity asked, or bid, at `price`.
pub open spec fn offered(orders: Seq<Order>, ask: bool, price: int) -> int {
    total(orders, taken(ask, price))
}

/// The quantity left of a list of orders.
pub open spec fn left_in(orders: Seq<Order>) -> int {
    total(orders, |o: Order| o.remaining as int)
}

/// The quantity of a list of trades.
pub open spec fn sold_in(trades: Seq<Trade>) -> int {
    total(trades, |t: Trade| t.quantity as int)
}

/// What a trade fills of the order with this id.
pub open spec fn fill_part(oid: u64) -> spec_fn(Trade) -> int {
    |t: Trade|
        (if t.buy_order_id == oid {
            t.quantity as int
        } else {
            0
        }) + (if t.sell_order_id == oid {
            t.quantity as int
        } else {
            0
        })
}

/// What the trades fill of the order with this id.
pub open spec fn filled_of(trades: Seq<Trade>, oid: u64) -> int {
    total(trades, fill_part(oid))
}

/// The smaller number.
pub open spec fn lesser(a: int, b: int) -> int {
    if a <= b {
        a
    } else {
        b
    }
}

/// How far two numbers are apart.
pub open spec fn gap(a: int, b: int) -> int {
    if a <= b {
        b - a
    } else {
        a - b
    }
}

/// `a` is served before `b` on their side: at any price before at a limit,
/// then by the better limit, then by the earlier moment, then by the lower id.
pub open spec fn ahead(a: Order, b: Order) -> bool {
    if at_market(a) != at_market(b) {
        at_market(a)
    } else if !at_market(a) && a.limit_px != b.limit_px {
        if a.is_ask {
            a.limit_px < b.limit_px
        } else {
            b.limit_px < a.limit_px
        }
    } else {
        a.ts < b.ts || (a.ts == b.ts && a.oid < b.oid)
    }
}

/// The codes of a record mean what they say: what opens, what withdraws, what
/// executes at any price, and which side it is on. No record both opens and
/// withdraws an order, and one that says an order was filled does neither.
pub proof fn law_codes_tell_the_order(o: Order)
    ensures
        o.is_new_live_order() == opens(o),
        o.is_cancellation() == withdraws(o),
        !(opens(o) && withdraws(o)),
        o.status_id == 5 ==> !opens(o) && !withdraws(o),
        (o.kind() is Market) == at_market(o),
        o.limit_price() == (if at_market(o) {
            None
        } else {
            Some(o.limit_px)
        }),
        (o.side() == crate::types::Side::Sell) == o.is_ask,
        (o.side() == crate::types::Side::Buy) == !o.is_ask,
{
    let codes: Seq<u8> = seq![2u8, 7u8, 10u8, 11u8, 12u8, 13u8, 14u8, 16u8];
    assert(codes[0] == 2 && codes[1] == 7 && codes[2] == 10 && codes[3] == 11 && codes[4] == 12 && codes[5] == 13
        && codes[6] == 14 && codes[7] == 16);
}

} // verus!
