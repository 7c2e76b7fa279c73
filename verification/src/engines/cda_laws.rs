//! What holds of the continuous book across its operations.

use vstd::prelude::*;
use crate::engines::cda::{crosses, fill_trade, sweep, without_ids, BookState, Sweep};
use crate::engines::fba::open_quantity;
use crate::engines::ladder::{better, can_rest, find_resting, outranks, rest_index, well_ranked};
use crate::seqs::{
    lemma_leading_run, lemma_total_first, lemma_total_insert, lemma_total_nonneg, lemma_total_remove, lemma_total_same,
    lemma_total_update, min_of, total,
};
use crate::trades::volume_of;
use crate::types::{Order, Price, Side, Trade};

verus! {

/// Both sides are in price-time order.
pub open spec fn ranked(b: BookState) -> bool {
    well_ranked(Side::Buy, b.bids) && well_ranked(Side::Sell, b.asks)
}

/// The depth counters are the quantities that a full scan would find.
pub open spec fn depths_exact(b: BookState) -> bool {
    b.bid_depth == open_quantity(b.bids) && b.ask_depth == open_quantity(b.asks)
}

/// Every resting order is listed under its own side and price, and nothing
/// else is listed.
pub open spec fn index_in_sync(b: BookState) -> bool {
    &&& forall|i: int|
        0 <= i < b.bids.len() ==> b.index.contains_key((#[trigger] b.bids[i]).oid) && b.index[b.bids[i].oid] == (
            Side::Buy,
            b.bids[i].limit_px,
        )
    &&& forall|i: int|
        0 <= i < b.asks.len() ==> b.index.contains_key((#[trigger] b.asks[i]).oid) && b.index[b.asks[i].oid] == (
            Side::Sell,
            b.asks[i].limit_px,
        )
    &&& forall|oid: u64| #[trigger]
        b.index.contains_key(oid) ==> rests(b.resting(b.index[oid].0), b.index[oid].1, oid)
    &&& distinct_ids(b.bids)
    &&& distinct_ids(b.asks)
}

pub open spec fn rests(s: Seq<Order>, price: Price, oid: u64) -> bool {
    exists|i: int| 0 <= i < s.len() && (#[trigger] s[i]).oid == oid && s[i].limit_px == price
}

pub open spec fn distinct_ids(s: Seq<Order>) -> bool {
    forall|i: int, j: int| 0 <= i < s.len() && 0 <= j < s.len() && i != j ==> (#[trigger] s[i]).oid != (
    #[trigger] s[j]).oid
}

/// No resting bid would trade with a resting ask.
pub open spec fn uncrossed(b: BookState) -> bool {
    forall|i: int, j: int|
        0 <= i < b.bids.len() && 0 <= j < b.asks.len() ==> (#[trigger] b.bids[i]).limit_px < (
        #[trigger] b.asks[j]).limit_px
}

/// What rests and what was filled never exceeds what was submitted.
pub open spec fn fills_accounted(b: BookState) -> bool {
    b.filled + open_quantity(b.bids) + open_quantity(b.asks) <= b.submitted
}

pub open spec fn all_open(s: Seq<Order>) -> bool {
    forall|i: int| 0 <= i < s.len() ==> (#[trigger] s[i]).remaining > 0
}

/// The facts about a sweep that the laws share.
pub proof fn lemma_sweep(taker: Order, makers: Seq<Order>)
    requires
        all_open(makers),
    ensures
        ({
            let swept = sweep(taker, makers);
            let k = makers.len() - swept.makers.len();
            &&& 0 <= swept.left <= taker.remaining
            &&& swept.fills.len() <= makers.len()
            &&& 0 <= k <= swept.fills.len() <= k + 1
            &&& forall|i: int|
                0 <= i < swept.fills.len() ==> {
                    &&& (#[trigger] swept.fills[i]).0 == makers[i]
                    &&& 0 < swept.fills[i].1 <= makers[i].remaining
                    &&& crosses(taker.kind(), makers[i].kind(), taker.side())
                    &&& i < k ==> swept.fills[i].1 == makers[i].remaining
                }
            &&& total(swept.fills, |f: (Order, int)| f.1) + swept.left == taker.remaining
            &&& open_quantity(makers) == open_quantity(swept.makers) + taker.remaining - swept.left
            &&& swept.makers.len() > 0 && swept.left > 0 ==> !crosses(
                taker.kind(),
                swept.makers[0].kind(),
                taker.side(),
            )
            &&& forall|i: int|
                0 <= i < swept.makers.len() ==> {
                    &&& (#[trigger] swept.makers[i]).remaining > 0
                    &&& swept.makers[i] == (Order { remaining: swept.makers[i].remaining, ..makers[k + i] })
                }
            &&& forall|i: int| 0 < i < swept.makers.len() ==> #[trigger] swept.makers[i] == makers[k + i]
            &&& swept.fills.len() == k ==> swept.makers == makers.skip(k)
            &&& swept.fills.len() == k + 1 ==> swept.left == 0
        }),
    decreases makers.len(),
{
    let swept: Sweep = sweep(taker, makers);
    let q = |f: (Order, int)| f.1;
    let r = |o: Order| o.remaining as int;
    if taker.remaining == 0 || makers.len() == 0 || !crosses(taker.kind(), makers[0].kind(), taker.side()) {
        assert(makers.skip(0) =~= makers);
    } else {
        let qty: int = min_of(taker.remaining as int, makers[0].remaining as int);
        let next: Order = taker.filled_by(qty);
        assert(makers[0].remaining > 0);
        if qty == makers[0].remaining {
            let tail: Seq<Order> = makers.drop_first();
            assert(all_open(tail)) by {
                assert forall|i: int| 0 <= i < tail.len() implies (#[trigger] tail[i]).remaining > 0 by {
                    assert(makers[i + 1].remaining > 0);
                }
            }
            lemma_sweep(next, tail);
            let rest: Sweep = sweep(next, tail);
            assert(swept.fills =~= seq![(makers[0], qty)] + rest.fills);
            assert(swept.fills.drop_first() =~= rest.fills);
            lemma_total_first(swept.fills, q);
            lemma_total_first(makers, r);
            let k: int = makers.len() - swept.makers.len();
            assert forall|i: int| 0 <= i < swept.fills.len() implies {
                &&& (#[trigger] swept.fills[i]).0 == makers[i]
                &&& 0 < swept.fills[i].1 <= makers[i].remaining
                &&& crosses(taker.kind(), makers[i].kind(), taker.side())
                &&& i < k ==> swept.fills[i].1 == makers[i].remaining
            } by {
                if i > 0 {
                    assert(swept.fills[i] == rest.fills[i - 1]);
                    assert(tail[i - 1] == makers[i]);
                }
            }
            assert forall|i: int| 0 <= i < swept.makers.len() implies {
                &&& (#[trigger] swept.makers[i]).remaining > 0
                &&& swept.makers[i] == (Order { remaining: swept.makers[i].remaining, ..makers[k + i] })
            } by {
                assert(tail[k - 1 + i] == makers[k + i]);
                assert(rest.makers[i].remaining > 0);
            }
            assert forall|i: int| 0 < i < swept.makers.len() implies #[trigger] swept.makers[i] == makers[k + i] by {
                assert(rest.makers[i] == tail[k - 1 + i]);
            }
            if swept.fills.len() == k {
                assert(tail.skip(k - 1) =~= makers.skip(k));
            }
        } else {
            assert(swept.fills =~= seq![(makers[0], qty)]);
            lemma_total_first(swept.fills, q);
            assert(swept.fills.drop_first() =~= Seq::<(Order, int)>::empty());
            lemma_total_update(makers, 0, makers[0].filled_by(qty), r);
            assert forall|i: int| 0 < i < swept.makers.len() implies (#[trigger] swept.makers[i]) == makers[i] by {
            }
        }
    }
}

proof fn lemma_ranked_open(side: Side, s: Seq<Order>)
    requires
        well_ranked(side, s),
    ensures
        all_open(s),
{
    assert forall|i: int| 0 <= i < s.len() implies (#[trigger] s[i]).remaining > 0 by {
        assert(can_rest(side, s[i]));
    }
}

/// An incoming order meets the resting orders strictly in price-time order,
/// empties each before it reaches the next, and trades at each one's own
/// price, which is never worse than its own limit.
pub proof fn law_price_time_priority(b: BookState, order: Order)
    requires
        ranked(b),
        order.is_new_live_order(),
    ensures
        ({
            let side = order.side();
            let makers = b.resting(side.opposite());
            let trades = b.trades_on(order);
            &&& trades.len() <= makers.len()
            &&& forall|i: int|
                0 <= i < trades.len() ==> {
                    let trade = #[trigger] trades[i];
                    &&& match side {
                        Side::Buy => trade.buy_order_id == order.oid && trade.sell_order_id == makers[i].oid,
                        Side::Sell => trade.sell_order_id == order.oid && trade.buy_order_id == makers[i].oid,
                    }
                    &&& 0 < trade.quantity <= makers[i].remaining
                    &&& i + 1 < trades.len() ==> trade.quantity == makers[i].remaining
                    &&& trade.price == makers[i].limit_px
                    &&& order.limit_price() matches Some(limit) ==> match side {
                        Side::Buy => trade.price <= limit,
                        Side::Sell => trade.price >= limit,
                    }
                }
        }),
{
    let side: Side = order.side();
    let makers: Seq<Order> = b.resting(side.opposite());
    let swept: Sweep = sweep(order, makers);
    lemma_ranked_open(side.opposite(), makers);
    lemma_sweep(order, makers);
    assert forall|i: int| 0 <= i < b.trades_on(order).len() implies {
        let trade = #[trigger] b.trades_on(order)[i];
        &&& match side {
            Side::Buy => trade.buy_order_id == order.oid && trade.sell_order_id == makers[i].oid,
            Side::Sell => trade.sell_order_id == order.oid && trade.buy_order_id == makers[i].oid,
        }
        &&& 0 < trade.quantity <= makers[i].remaining
        &&& i + 1 < b.trades_on(order).len() ==> trade.quantity == makers[i].remaining
        &&& trade.price == makers[i].limit_px
        &&& order.limit_price() matches Some(limit) ==> match side {
            Side::Buy => trade.price <= limit,
            Side::Sell => trade.price >= limit,
        }
    } by {
        assert(swept.fills[i].0 == makers[i]);
        assert(can_rest(side.opposite(), makers[i]));
        assert(b.trades_on(order)[i] == fill_trade(order, makers[i], swept.fills[i].1, b.next_trade_id + i));
    }
}

/// Quantity is conserved: what an order trades leaves the other side of the
/// book, and what it does not trade rests on its own side, unless it is a
/// market order.
pub proof fn law_quantity_is_conserved(b: BookState, order: Order)
    requires
        ranked(b),
        order.is_new_live_order(),
    ensures
        ({
            let (own, other) = (order.side(), order.side().opposite());
            let traded = volume_of(b.trades_on(order));
            &&& 0 <= traded <= order.remaining
            &&& open_quantity(b.submitted(order).resting(other)) == open_quantity(b.resting(other)) - traded
            &&& open_quantity(b.submitted(order).resting(own)) == open_quantity(b.resting(own)) + if order.kind() is Limit {
                order.remaining - traded
            } else {
                0
            }
        }),
{
    let (own, other): (Side, Side) = (order.side(), order.side().opposite());
    let makers: Seq<Order> = b.resting(other);
    lemma_ranked_open(other, makers);
    lemma_sweep(order, makers);
    let swept: Sweep = sweep(order, makers);
    if order.remaining > 0 {
        assert forall|i: int| 0 <= i < swept.fills.len() implies (#[trigger] b.trades_on(order)[i]).quantity as int
            == swept.fills[i].1 by {
            assert(swept.fills[i].0 == makers[i]);
        }
        lemma_total_same(b.trades_on(order), swept.fills, |t: Trade| t.quantity as int, |f: (Order, int)| f.1);
        if swept.left > 0 && order.kind() is Limit {
            let rest: Order = Order { remaining: swept.left as u128, ..order };
            lemma_rest_index_in_range(own, b.resting(own), rest);
            lemma_total_insert(
                b.resting(own),
                rest_index(own, b.resting(own), rest),
                rest,
                |o: Order| o.remaining as int,
            );
        }
    }
}

/// A market order never rests: it leaves its own side as it was.
pub proof fn law_market_orders_never_rest(b: BookState, order: Order)
    requires
        order.kind() is Market,
        !order.is_cancellation(),
    ensures
        b.submitted(order).resting(order.side()) == b.resting(order.side()),
{
}

/// Matching and resting keep the depth counters equal to a full scan, as
/// long as the scan's result is representable.
pub proof fn law_submit_keeps_depths_exact(b: BookState, order: Order)
    requires
        ranked(b),
        depths_exact(b),
        open_quantity(b.submitted(order).resting(order.side())) <= u128::MAX,
    ensures
        depths_exact(b.submitted(order)),
{
    if order.is_cancellation() {
        law_cancel_keeps_depths_exact(b, order.oid);
    } else if order.is_new_live_order() && order.remaining > 0 {
        let side: Side = order.side();
        let other: Side = side.opposite();
        let makers: Seq<Order> = b.resting(other);
        lemma_ranked_open(other, makers);
        lemma_sweep(order, makers);
        let swept: Sweep = sweep(order, makers);
        let r = |o: Order| o.remaining as int;
        lemma_total_nonneg(swept.makers, r);
        if swept.left > 0 && order.kind() is Limit {
            let rest: Order = Order { remaining: swept.left as u128, ..order };
            lemma_rest_index_in_range(side, b.resting(side), rest);
            lemma_total_insert(b.resting(side), rest_index(side, b.resting(side), rest), rest, r);
        }
    }
}

/// Cancelling keeps the depth counters equal to a full scan.
pub proof fn law_cancel_keeps_depths_exact(b: BookState, oid: u64)
    requires
        depths_exact(b),
    ensures
        depths_exact(b.cancelled(oid)),
{
    if b.index.contains_key(oid) {
        let (side, price) = b.index[oid];
        let s: Seq<Order> = b.resting(side);
        let at: int = find_resting(s, price, oid);
        let r = |o: Order| o.remaining as int;
        lemma_leading_run(s, |x: Order| !(x.limit_px == price && x.oid == oid));
        if at < s.len() {
            lemma_total_remove(s, at, r);
            lemma_total_nonneg(s.remove(at), r);
        }
    }
}

proof fn lemma_rest_index_in_range(side: Side, s: Seq<Order>, o: Order)
    ensures
        0 <= rest_index(side, s, o) <= s.len(),
{
    lemma_leading_run(s, |x: Order| better(side, x.limit_px, o.limit_px));
    lemma_leading_run(s, |x: Order| !better(side, o.limit_px, x.limit_px));
    lemma_leading_run(
        s,
        |x: Order|
            better(side, x.limit_px, o.limit_px) || (x.limit_px == o.limit_px
                && crate::engines::ladder::arrived_before(x, o)),
    );
}

proof fn lemma_without_ids(index: Map<u64, (Side, Price)>, gone: Seq<Order>)
    ensures
        forall|oid: u64| #[trigger]
            without_ids(index, gone).contains_key(oid) <==> index.contains_key(oid) && forall|i: int|
                0 <= i < gone.len() ==> (#[trigger] gone[i]).oid != oid,
        forall|oid: u64|
            without_ids(index, gone).contains_key(oid) ==> #[trigger] without_ids(index, gone)[oid] == index[oid],
    decreases gone.len(),
{
    if gone.len() > 0 {
        lemma_without_ids(index, gone.drop_last());
        let prior: Map<u64, (Side, Price)> = without_ids(index, gone.drop_last());
        assert forall|oid: u64| #[trigger] without_ids(index, gone).contains_key(oid) <==> index.contains_key(oid)
            && forall|i: int| 0 <= i < gone.len() ==> (#[trigger] gone[i]).oid != oid by {
            assert(without_ids(index, gone).contains_key(oid) <==> prior.contains_key(oid) && oid != gone.last().oid);
            if prior.contains_key(oid) && oid != gone.last().oid {
                assert forall|i: int| 0 <= i < gone.len() implies (#[trigger] gone[i]).oid != oid by {
                    if i < gone.len() - 1 {
                        assert(gone.drop_last()[i] == gone[i]);
                    }
                }
            }
            if index.contains_key(oid) && forall|i: int| 0 <= i < gone.len() ==> (#[trigger] gone[i]).oid != oid {
                assert forall|i: int| 0 <= i < gone.drop_last().len() implies (#[trigger] gone.drop_last()[i]).oid
                    != oid by {
                    assert(gone[i].oid != oid);
                }
                assert(gone[gone.len() - 1].oid != oid);
            }
        }
    }
}

proof fn lemma_matched_in_sync(b: BookState, order: Order)
    requires
        ranked(b),
        index_in_sync(b),
        order.remaining > 0,
    ensures
        index_in_sync(b.matched(order)),
{
    let other: Side = order.side().opposite();
    let makers: Seq<Order> = b.resting(other);
    lemma_ranked_open(other, makers);
    lemma_sweep(order, makers);
    let swept: Sweep = sweep(order, makers);
    let k: int = makers.len() - swept.makers.len();
    let gone: Seq<Order> = makers.take(k);
    let m: BookState = b.matched(order);
    lemma_without_ids(b.index, gone);
    assert(m.index == without_ids(b.index, gone));
    assert(m.resting(other) == swept.makers);
    assert(m.resting(order.side()) == b.resting(order.side()));
    let own: Seq<Order> = b.resting(order.side());
    assert forall|i: int| 0 <= i < swept.makers.len() implies m.index.contains_key((#[trigger] swept.makers[i]).oid)
        && m.index[swept.makers[i].oid] == (other, swept.makers[i].limit_px) by {
        assert(swept.makers[i].oid == makers[k + i].oid && swept.makers[i].limit_px == makers[k + i].limit_px);
        assert forall|j: int| 0 <= j < gone.len() implies (#[trigger] gone[j]).oid != makers[k + i].oid by {
            assert(makers[j].oid != makers[k + i].oid);
        }
        assert(b.index.contains_key(makers[k + i].oid));
    }
    assert forall|i: int| 0 <= i < own.len() implies m.index.contains_key((#[trigger] own[i]).oid)
        && m.index[own[i].oid] == (order.side(), own[i].limit_px) by {
        assert(b.index[own[i].oid].0 == order.side());
        assert forall|j: int| 0 <= j < gone.len() implies (#[trigger] gone[j]).oid != own[i].oid by {
            assert(b.index[makers[j].oid].0 == other);
        }
    }
    assert forall|oid: u64| #[trigger] m.index.contains_key(oid) implies rests(
        m.resting(m.index[oid].0),
        m.index[oid].1,
        oid,
    ) by {
        assert(b.index.contains_key(oid));
        let (side, price) = b.index[oid];
        let s: Seq<Order> = b.resting(side);
        assert(rests(s, price, oid));
        let i: int = choose|i: int| 0 <= i < s.len() && (#[trigger] s[i]).oid == oid && s[i].limit_px == price;
        if side == other {
            if i < k {
                assert(gone[i].oid == oid);
            }
            assert(swept.makers[i - k].oid == makers[i].oid);
            assert(swept.makers[i - k].limit_px == price);
        } else {
            assert(own[i].oid == oid);
        }
    }
    assert forall|i: int, j: int| 0 <= i < swept.makers.len() && 0 <= j < swept.makers.len() && i != j implies (
    #[trigger] swept.makers[i]).oid != (#[trigger] swept.makers[j]).oid by {
        assert(swept.makers[i].oid == makers[k + i].oid && swept.makers[j].oid == makers[k + j].oid);
    }
}

proof fn lemma_rested_in_sync(m: BookState, rest: Order)
    requires
        index_in_sync(m),
        !m.index.contains_key(rest.oid),
    ensures
        index_in_sync(m.rested(rest)),
{
    let side: Side = rest.side();
    let other: Side = side.opposite();
    let s: Seq<Order> = m.resting(side);
    let at: int = rest_index(side, s, rest);
    lemma_rest_index_in_range(side, s, rest);
    let grown: Seq<Order> = s.insert(at, rest);
    let n: BookState = m.rested(rest);
    let opposite: Seq<Order> = m.resting(other);
    assert(n.resting(side) == grown);
    assert(n.resting(other) == opposite);
    assert forall|i: int| 0 <= i < grown.len() implies n.index.contains_key((#[trigger] grown[i]).oid)
        && n.index[grown[i].oid] == (side, grown[i].limit_px) by {
        if i < at {
            assert(grown[i] == s[i]);
        } else if i > at {
            assert(grown[i] == s[i - 1]);
        }
    }
    assert forall|i: int| 0 <= i < opposite.len() implies n.index.contains_key((#[trigger] opposite[i]).oid)
        && n.index[opposite[i].oid] == (other, opposite[i].limit_px) by {
        assert(m.index.contains_key(opposite[i].oid));
    }
    assert forall|oid: u64| #[trigger] n.index.contains_key(oid) implies rests(
        n.resting(n.index[oid].0),
        n.index[oid].1,
        oid,
    ) by {
        if oid == rest.oid {
            assert(grown[at] == rest);
        } else {
            assert(m.index.contains_key(oid));
            let (sd, price) = m.index[oid];
            let t: Seq<Order> = m.resting(sd);
            let i: int = choose|i: int| 0 <= i < t.len() && (#[trigger] t[i]).oid == oid && t[i].limit_px == price;
            if sd == side {
                assert(grown[if i < at { i } else { i + 1 }] == t[i]);
            } else {
                assert(opposite[i] == t[i]);
            }
        }
    }
    assert forall|i: int, j: int| 0 <= i < grown.len() && 0 <= j < grown.len() && i != j implies (
    #[trigger] grown[i]).oid != (#[trigger] grown[j]).oid by {
        let i0: int = if i < at { i } else { i - 1 };
        let j0: int = if j < at { j } else { j - 1 };
        if i != at && j != at {
            assert(s[i0].oid != s[j0].oid);
        } else if i == at {
            assert(m.index.contains_key(s[j0].oid));
        } else {
            assert(m.index.contains_key(s[i0].oid));
        }
    }
    match side {
        Side::Buy => assert(n.bids == grown && n.asks == opposite),
        Side::Sell => assert(n.asks == grown && n.bids == opposite),
    }
}

/// Submitting an order under an id that is not resting keeps the index in
/// step with the book.
pub proof fn law_submit_keeps_index_in_sync(b: BookState, order: Order)
    requires
        ranked(b),
        index_in_sync(b),
        order.is_new_live_order() ==> !b.index.contains_key(order.oid),
    ensures
        index_in_sync(b.submitted(order)),
{
    if order.is_cancellation() {
        law_cancel_keeps_index_in_sync(b, order.oid);
    } else if order.is_new_live_order() && order.remaining > 0 {
        lemma_matched_in_sync(b, order);
        let side: Side = order.side();
        let other: Side = side.opposite();
        let m: BookState = b.matched(order);
        let makers: Seq<Order> = b.resting(other);
        lemma_ranked_open(other, makers);
        lemma_sweep(order, makers);
        let swept: Sweep = sweep(order, makers);
        lemma_without_ids(b.index, makers.take(makers.len() - swept.makers.len()));
        if swept.left > 0 && order.kind() is Limit {
            lemma_rested_in_sync(m, Order { remaining: swept.left as u128, ..order });
        }
    }
}

/// Cancelling keeps the index in step with the book.
pub proof fn law_cancel_keeps_index_in_sync(b: BookState, oid: u64)
    requires
        index_in_sync(b),
    ensures
        index_in_sync(b.cancelled(oid)),
        b.cancels(oid) == b.index.contains_key(oid),
        !b.cancelled(oid).index.contains_key(oid),
{
    if b.index.contains_key(oid) {
        let (side, price) = b.index[oid];
        let other: Side = side.opposite();
        let s: Seq<Order> = b.resting(side);
        let opposite: Seq<Order> = b.resting(other);
        let misses = |x: Order| !(x.limit_px == price && x.oid == oid);
        let at: int = find_resting(s, price, oid);
        lemma_leading_run(s, misses);
        assert(rests(s, price, oid));
        let w: int = choose|w: int| 0 <= w < s.len() && (#[trigger] s[w]).oid == oid && s[w].limit_px == price;
        if w < at {
            assert(misses(s[w]));
        }
        assert(at < s.len());
        assert(s[at].oid == oid);
        let c: BookState = b.cancelled(oid);
        let rest: Seq<Order> = s.remove(at);
        assert(c.resting(side) == rest);
        assert(c.resting(other) == opposite);
        assert forall|i: int| 0 <= i < rest.len() implies c.index.contains_key((#[trigger] rest[i]).oid)
            && c.index[rest[i].oid] == (side, rest[i].limit_px) by {
            let i0: int = if i < at { i } else { i + 1 };
            assert(rest[i] == s[i0]);
            assert(s[i0].oid != s[at].oid);
            assert(b.index.contains_key(s[i0].oid));
        }
        assert forall|i: int| 0 <= i < opposite.len() implies c.index.contains_key((#[trigger] opposite[i]).oid)
            && c.index[opposite[i].oid] == (other, opposite[i].limit_px) by {
            assert(b.index[opposite[i].oid].0 == other);
        }
        assert forall|id: u64| #[trigger] c.index.contains_key(id) implies rests(
            c.resting(c.index[id].0),
            c.index[id].1,
            id,
        ) by {
            assert(b.index.contains_key(id));
            let (sd, px) = b.index[id];
            let t: Seq<Order> = b.resting(sd);
            let i: int = choose|i: int| 0 <= i < t.len() && (#[trigger] t[i]).oid == id && t[i].limit_px == px;
            if sd == side {
                assert(i != at);
                assert(rest[if i < at { i } else { i - 1 }] == t[i]);
            } else {
                assert(opposite[i] == t[i]);
            }
        }
        assert forall|i: int, j: int| 0 <= i < rest.len() && 0 <= j < rest.len() && i != j implies (#[trigger] rest[i]).oid
            != (#[trigger] rest[j]).oid by {
            let i0: int = if i < at { i } else { i + 1 };
            let j0: int = if j < at { j } else { j + 1 };
            assert(rest[i] == s[i0] && rest[j] == s[j0]);
        }
    }
}

/// With the index in step, cancelling an id takes exactly the resting order
/// with that id off the book, and a second cancel finds nothing.
pub proof fn law_cancel_removes_the_order(b: BookState, oid: u64)
    requires
        index_in_sync(b),
    ensures
        b.cancels(oid) <==> (exists|i: int| 0 <= i < b.bids.len() && (#[trigger] b.bids[i]).oid == oid) || (
        exists|i: int| 0 <= i < b.asks.len() && (#[trigger] b.asks[i]).oid == oid),
        forall|i: int| 0 <= i < b.cancelled(oid).bids.len() ==> (#[trigger] b.cancelled(oid).bids[i]).oid != oid,
        forall|i: int| 0 <= i < b.cancelled(oid).asks.len() ==> (#[trigger] b.cancelled(oid).asks[i]).oid != oid,
        !b.cancelled(oid).cancels(oid),
        b.cancelled(oid).cancelled(oid) == b.cancelled(oid),
{
    law_cancel_keeps_index_in_sync(b, oid);
    let c: BookState = b.cancelled(oid);
    assert forall|i: int| 0 <= i < c.bids.len() implies (#[trigger] c.bids[i]).oid != oid by {
        assert(c.index.contains_key(c.bids[i].oid));
    }
    assert forall|i: int| 0 <= i < c.asks.len() implies (#[trigger] c.asks[i]).oid != oid by {
        assert(c.index.contains_key(c.asks[i].oid));
    }
    if b.index.contains_key(oid) {
        let (side, price) = b.index[oid];
        let s: Seq<Order> = b.resting(side);
        assert(rests(s, price, oid));
        let w: int = choose|w: int| 0 <= w < s.len() && (#[trigger] s[w]).oid == oid && s[w].limit_px == price;
        match side {
            Side::Buy => assert(b.bids[w].oid == oid),
            Side::Sell => assert(b.asks[w].oid == oid),
        }
    }
}

/// A cancel of an id that the book does not list changes nothing.
pub proof fn law_cancel_of_unknown_id_is_harmless(b: BookState, oid: u64)
    requires
        !b.index.contains_key(oid),
    ensures
        b.cancelled(oid) == b,
        !b.cancels(oid),
{
}

/// No order of one list would trade with an order of the other.
spec fn apart(side: Side, own: Seq<Order>, theirs: Seq<Order>) -> bool {
    forall|i: int, j: int|
        0 <= i < own.len() && 0 <= j < theirs.len() ==> better(
            side,
            (#[trigger] theirs[j]).limit_px,
            (#[trigger] own[i]).limit_px,
        )
}

proof fn lemma_apart(b: BookState, side: Side)
    ensures
        uncrossed(b) <==> apart(side, b.resting(side), b.resting(side.opposite())),
{
}

/// The book never holds a bid and an ask that would trade with each other.
pub proof fn law_book_is_never_crossed(b: BookState, order: Order)
    requires
        ranked(b),
        uncrossed(b),
    ensures
        uncrossed(b.submitted(order)),
{
    if order.is_cancellation() {
        law_cancel_keeps_book_uncrossed(b, order.oid);
    } else if order.is_new_live_order() && order.remaining > 0 {
        let side: Side = order.side();
        let other: Side = side.opposite();
        let makers: Seq<Order> = b.resting(other);
        lemma_ranked_open(other, makers);
        lemma_sweep(order, makers);
        let swept: Sweep = sweep(order, makers);
        let k: int = makers.len() - swept.makers.len();
        let own: Seq<Order> = b.resting(side);
        lemma_apart(b, side);
        lemma_apart(b.submitted(order), side);
        assert(apart(side, own, swept.makers)) by {
            assert forall|i: int, j: int| 0 <= i < own.len() && 0 <= j < swept.makers.len() implies better(
                side,
                (#[trigger] swept.makers[j]).limit_px,
                (#[trigger] own[i]).limit_px,
            ) by {
                assert(swept.makers[j].limit_px == makers[k + j].limit_px);
                assert(better(side, makers[k + j].limit_px, own[i].limit_px));
            }
        }
        if swept.left > 0 && order.kind() is Limit {
            let rest: Order = Order { remaining: swept.left as u128, ..order };
            lemma_insert_apart(order, own, makers, rest);
        }
    }
}

proof fn lemma_insert_apart(order: Order, own: Seq<Order>, makers: Seq<Order>, rest: Order)
    requires
        order.kind() is Limit,
        well_ranked(order.side().opposite(), makers),
        sweep(order, makers).left > 0,
        rest == (Order { remaining: rest.remaining, ..order }),
        apart(order.side(), own, sweep(order, makers).makers),
    ensures
        apart(
            order.side(),
            own.insert(rest_index(order.side(), own, rest), rest),
            sweep(order, makers).makers,
        ),
{
    let side: Side = order.side();
    let other: Side = side.opposite();
    let left: Seq<Order> = sweep(order, makers).makers;
    let k: int = makers.len() - left.len();
    let at: int = rest_index(side, own, rest);
    lemma_rest_index_in_range(side, own, rest);
    lemma_ranked_open(other, makers);
    lemma_sweep(order, makers);
    let grown: Seq<Order> = own.insert(at, rest);
    assert forall|i: int, j: int| 0 <= i < grown.len() && 0 <= j < left.len() implies better(
        side,
        (#[trigger] left[j]).limit_px,
        (#[trigger] grown[i]).limit_px,
    ) by {
        if i == at {
            assert(left[0].limit_px == makers[k].limit_px && left[j].limit_px == makers[k + j].limit_px);
            assert(can_rest(other, makers[k]));
            assert(left[0].kind() == makers[k].kind());
            assert(!crosses(order.kind(), left[0].kind(), side));
            assert(j == 0 || outranks(other, makers[k], makers[k + j]));
        } else {
            let i0: int = if i < at { i } else { i - 1 };
            assert(grown[i] == own[i0]);
            assert(better(side, left[j].limit_px, own[i0].limit_px));
        }
    }
}

/// Cancelling cannot make the book cross.
pub proof fn law_cancel_keeps_book_uncrossed(b: BookState, oid: u64)
    requires
        uncrossed(b),
    ensures
        uncrossed(b.cancelled(oid)),
{
    if b.index.contains_key(oid) {
        let (side, price) = b.index[oid];
        let s: Seq<Order> = b.resting(side);
        let at: int = find_resting(s, price, oid);
        lemma_leading_run(s, |x: Order| !(x.limit_px == price && x.oid == oid));
        let c: BookState = b.cancelled(oid);
        assert forall|i: int, j: int| 0 <= i < c.bids.len() && 0 <= j < c.asks.len() implies (#[trigger] c.bids[i]).limit_px
            < (#[trigger] c.asks[j]).limit_px by {
            let i0: int = if at < s.len() && side == Side::Buy && i >= at { i + 1 } else { i };
            let j0: int = if at < s.len() && side == Side::Sell && j >= at { j + 1 } else { j };
            assert(c.bids[i] == b.bids[i0] && c.asks[j] == b.asks[j0]);
        }
    }
}

/// Filled and resting quantity together never exceed what was submitted, so
/// the fill rate stays at or below one, as long as the submitted total is
/// representable.
pub proof fn law_fill_rate_is_at_most_one(b: BookState, order: Order)
    requires
        ranked(b),
        fills_accounted(b),
        b.submitted + order.remaining <= u128::MAX,
    ensures
        fills_accounted(b.submitted(order)),
        b.submitted(order).filled <= b.submitted(order).submitted,
{
    let r = |o: Order| o.remaining as int;
    let n: BookState = b.submitted(order);
    lemma_total_nonneg(n.bids, r);
    lemma_total_nonneg(n.asks, r);
    if order.is_cancellation() {
        if b.index.contains_key(order.oid) {
            let (side, price) = b.index[order.oid];
            let s: Seq<Order> = b.resting(side);
            let at: int = find_resting(s, price, order.oid);
            lemma_leading_run(s, |x: Order| !(x.limit_px == price && x.oid == order.oid));
            if at < s.len() {
                lemma_total_remove(s, at, r);
            }
        }
    } else if order.is_new_live_order() && order.remaining > 0 {
        let side: Side = order.side();
        let makers: Seq<Order> = b.resting(side.opposite());
        lemma_ranked_open(side.opposite(), makers);
        lemma_sweep(order, makers);
        let swept: Sweep = sweep(order, makers);
        lemma_total_nonneg(swept.makers, r);
        if swept.left > 0 && order.kind() is Limit {
            let rest: Order = Order { remaining: swept.left as u128, ..order };
            let own: Seq<Order> = b.resting(side);
            lemma_rest_index_in_range(side, own, rest);
            lemma_total_insert(own, rest_index(side, own, rest), rest, r);
        }
    }
}

} // verus!
