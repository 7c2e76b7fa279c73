//! What a measured session keeps and records, in terms of the orders that go
//! in and the trades and orders that come out.

use vstd::prelude::*;
use crate::engines::plain::{at_market, law_codes_tell_the_order, left_in, lesser, opens, withdraws};
use crate::inputs::replay_laws::{depth_of, law_depth_counts_orders_near, leads, lemma_leads, limits};
use crate::inputs::simulator::{is_row_order, yields_order};
use crate::metrics::events::{BatchClearedEvent, BookSnapshot};
use crate::multi_asset::batches::ClearingResult;
use crate::multi_asset::matching::Sides;
use crate::multi_asset::pair_laws::{bare, bares, lemma_bare, lemma_bares, solid};
use crate::multi_asset::types::{AssetPair, Order, Trade};
use crate::seqs::{lemma_total_member, lemma_total_nonneg, lemma_total_same};
use crate::simulation::cda_simulator::{book_middle, is_snapshot, message_of, open_part, side_depth, trade_events};
use crate::simulation::display::{between_participants, with_pool};
use crate::simulation::fba_simulator::{
    best_limit, earliest_ts, is_window_event, left_of, live, renumbered, ClosedWindow,
};
use crate::simulation::loader::{barren_lines, data_lines, is_loaded, order_of};
use crate::single_pair::continuous::counts;
use crate::text::{lines, trim};
use crate::types::{EngineKind, Order as Record, Price, Side};

verus! {

proof fn lemma_side_depth(orders: Seq<Order>)
    ensures
        side_depth(orders) == lesser(left_in(bares(orders)), u128::MAX as int),
        0 <= left_in(bares(orders)),
{
    let f = |o: Record| o.remaining as int;
    lemma_total_same(orders, bares(orders), open_part(), f);
    lemma_total_nonneg(bares(orders), f);
}

/// A snapshot is of its order's moment. It shows the highest bid and the
/// lowest ask that rest, what is left of each, and the quantity left on either
/// side, up to the largest number there is.
pub proof fn law_snapshot_shows_the_book(e: BookSnapshot, book: Sides, ts: u64, nanos: u128)
    requires
        is_snapshot(e, book, ts, nanos),
        solid(false, book.bids),
        solid(true, book.asks),
    ensures
        e.ts == ts,
        e.compute_nanos == nanos,
        book.bids.len() > 0 ==> {
            &&& e.best_bid == Some(book.bids[0].limit_px)
            &&& forall|i: int| 0 <= i < book.bids.len() ==> (#[trigger] book.bids[i]).limit_px <= e.best_bid->0
            &&& e.best_bid_qty == book.bids[0].remaining
            &&& e.best_bid_qty > 0
        },
        book.bids.len() == 0 ==> e.best_bid is None && e.best_bid_qty == 0 && e.bid_depth == 0,
        book.asks.len() > 0 ==> {
            &&& e.best_ask == Some(book.asks[0].limit_px)
            &&& forall|i: int| 0 <= i < book.asks.len() ==> (#[trigger] book.asks[i]).limit_px >= e.best_ask->0
            &&& e.best_ask_qty == book.asks[0].remaining
            &&& e.best_ask_qty > 0
        },
        book.asks.len() == 0 ==> e.best_ask is None && e.best_ask_qty == 0 && e.ask_depth == 0,
        e.bid_depth == lesser(left_in(bares(book.bids)), u128::MAX as int),
        e.ask_depth == lesser(left_in(bares(book.asks)), u128::MAX as int),
        e.best_bid_qty <= e.bid_depth,
        e.best_ask_qty <= e.ask_depth,
{
    let (b, a) = (bares(book.bids), bares(book.asks));
    let f = |o: Record| o.remaining as int;
    lemma_side_depth(book.bids);
    lemma_side_depth(book.asks);
    if book.bids.len() > 0 {
        lemma_bare(book.bids[0]);
        law_codes_tell_the_order(b[0]);
        lemma_total_member(b, 0, f);
        assert forall|i: int| 0 <= i < book.bids.len() implies (#[trigger] book.bids[i]).limit_px
            <= book.bids[0].limit_px by {
            assert(b[i].limit_px == book.bids[i].limit_px);
            assert(b[0].limit_px == book.bids[0].limit_px);
        }
    }
    if book.asks.len() > 0 {
        lemma_bare(book.asks[0]);
        law_codes_tell_the_order(a[0]);
        lemma_total_member(a, 0, f);
        assert forall|i: int| 0 <= i < book.asks.len() implies (#[trigger] book.asks[i]).limit_px
            >= book.asks[0].limit_px by {
            assert(a[i].limit_px == book.asks[i].limit_px);
            assert(a[0].limit_px == book.asks[0].limit_px);
        }
    }
}

/// A snapshot has the depth of all that rests within ten, fifty and a hundred
/// basis points of the price halfway between the best bid and the best ask,
/// rounded down; with one side empty, of the best of the other. An empty book
/// has no depth.
pub proof fn law_snapshot_depth_is_of_the_book(e: BookSnapshot, book: Sides, ts: u64, nanos: u128, mid: Price)
    requires
        is_snapshot(e, book, ts, nanos),
        solid(false, book.bids),
        solid(true, book.asks),
        mid > 0,
        if book.bids.len() > 0 && book.asks.len() > 0 {
            2 * mid <= book.bids[0].limit_px + book.asks[0].limit_px < 2 * mid + 2
        } else if book.bids.len() > 0 {
            mid == book.bids[0].limit_px
        } else {
            book.asks.len() > 0 && mid == book.asks[0].limit_px
        },
    ensures
        ({
            let all = bares(book.bids + book.asks);
            &&& e.depth_schedule@.len() == 3
            &&& e.depth_schedule@[0].0 == depth_of(all, false, mid, 10)
            &&& e.depth_schedule@[0].1 == depth_of(all, true, mid, 10)
            &&& e.depth_schedule@[1].0 == depth_of(all, false, mid, 50)
            &&& e.depth_schedule@[1].1 == depth_of(all, true, mid, 50)
            &&& e.depth_schedule@[2].0 == depth_of(all, false, mid, 100)
            &&& e.depth_schedule@[2].1 == depth_of(all, true, mid, 100)
        }),
{
    let all: Seq<Order> = book.bids + book.asks;
    law_snapshot_shows_the_book(e, book, ts, nanos);
    lemma_bares(all);
    assert(book_middle(book) == Some(mid));
    law_depth_counts_orders_near(bares(all), Some(mid));
}

/// What is noted of an order is its moment, id, user, side and full size, its
/// limit unless it executes at any price, and whether it opens an order.
pub proof fn law_orders_are_noted(o: Order)
    ensures
        message_of(o).ts == o.ts,
        message_of(o).oid == o.oid,
        message_of(o).user_id == o.user_id,
        message_of(o).side == (if o.is_ask {
            Side::Sell
        } else {
            Side::Buy
        }),
        message_of(o).limit_price == (if at_market(bare(o)) {
            None
        } else {
            Some(o.limit_px)
        }),
        message_of(o).quantity == o.orig_sz,
        message_of(o).accepted == opens(bare(o)),
{
    lemma_bare(o);
    law_codes_tell_the_order(bare(o));
}

/// Every trade is recorded once, in its turn, with its price, quantity, parties,
/// orders and moment, and with the reference price and the side that it was
/// recorded under.
pub proof fn law_trades_are_kept(
    trades: Seq<Trade>,
    engine: EngineKind,
    reference: Option<Price>,
    aggressor: Option<Side>,
)
    ensures
        trade_events(trades, engine, reference, aggressor).len() == trades.len(),
        forall|i: int|
            0 <= i < trades.len() ==> {
                let e = trade_events(trades, engine, reference, aggressor)[i];
                let t = #[trigger] trades[i];
                &&& e.reference_price == reference
                &&& e.aggressor_side == aggressor
                &&& e.trade.trade_id == t.trade_id
                &&& e.trade.price == t.price
                &&& e.trade.quantity == t.quantity
                &&& e.trade.buyer_id == t.buyer_id
                &&& e.trade.seller_id == t.seller_id
                &&& e.trade.buy_order_id == t.buy_order_id
                &&& e.trade.sell_order_id == t.sell_order_id
                &&& e.trade.engine_type == engine
                &&& e.trade.ts == t.ts
                &&& e.trade.trade_tx_hash == t.trade_tx_hash
                &&& e.trade.chain_id == t.chain_id
            },
{
}

/// The trades of a session are numbered on, and are otherwise those of the
/// clearing.
pub proof fn law_trades_are_numbered_on(trades: Seq<Trade>, last_id: int)
    requires
        0 <= last_id,
        last_id + trades.len() <= u64::MAX,
    ensures
        renumbered(trades, last_id).len() == trades.len(),
        forall|i: int|
            0 <= i < trades.len() ==> {
                let r = renumbered(trades, last_id)[i];
                &&& r.trade_id == last_id + 1 + i
                &&& #[trigger] trades[i] == (Trade { trade_id: trades[i].trade_id, ..r })
            },
{
}

proof fn lemma_window_leads(orders: Seq<Order>, side: Side)
    ensures
        best_limit(orders, side) == crate::engines::fba::best_limit(bares(orders), side),
    decreases orders.len(),
{
    if orders.len() > 0 {
        lemma_window_leads(orders.drop_last(), side);
        lemma_bare(orders.last());
        assert(bares(orders).drop_last() =~= bares(orders.drop_last()));
        assert(bares(orders).last() == bare(orders.last()));
    }
}

/// A window opens with its earliest order.
pub proof fn law_window_opens_with_the_earliest(orders: Seq<Order>)
    requires
        orders.len() > 0,
    ensures
        forall|i: int| 0 <= i < orders.len() ==> earliest_ts(orders) <= (#[trigger] orders[i]).ts,
        exists|i: int| 0 <= i < orders.len() && (#[trigger] orders[i]).ts == earliest_ts(orders),
    decreases orders.len(),
{
    let n: int = orders.len() as int;
    assert(orders[n - 1] == orders.last());
    if n > 1 {
        let before: Seq<Order> = orders.drop_last();
        law_window_opens_with_the_earliest(before);
        assert forall|i: int| 0 <= i < n implies earliest_ts(orders) <= (#[trigger] orders[i]).ts by {
            if i < n - 1 {
                assert(before[i] == orders[i]);
            }
        }
        let k: int = choose|k: int| 0 <= k < before.len() && (#[trigger] before[k]).ts == earliest_ts(before);
        assert(orders[k] == before[k]);
        if orders.last().ts < earliest_ts(before) {
            assert(orders[n - 1].ts == earliest_ts(orders));
        } else {
            assert(orders[k].ts == earliest_ts(orders));
        }
    } else {
        assert(orders[0].ts == earliest_ts(orders));
    }
}

/// The record of a window is of its times. It tells the quantity of the orders
/// that are left and what the clearing found; where it found a price, also the
/// best limits that are left on either side.
pub proof fn law_windows_are_recorded(
    e: BatchClearedEvent,
    window: ClosedWindow,
    result: Option<ClearingResult>,
    nanos: u128,
)
    requires
        is_window_event(e, window, result, nanos),
    ensures
        e.batch_open_ts == window.open_ts,
        e.ts == window.close_ts,
        e.compute_nanos == nanos,
        e.unexecuted_quantity == lesser(left_in(bares(left_of(window.orders@, result))), u128::MAX as int),
        match result {
            Some(c) => {
                let left = bares(left_of(window.orders@, result));
                &&& e.clearing_price == Some(c.clearing_price)
                &&& e.demand_at_price == c.demand_at_price
                &&& e.supply_at_price == c.supply_at_price
                &&& e.traded_quantity == c.traded_quantity
                &&& match e.best_unfilled_buy {
                    Some(p) => leads(left, false, p),
                    None => forall|i: int| 0 <= i < left.len() ==> !limits(#[trigger] left[i], false),
                }
                &&& match e.best_unfilled_sell {
                    Some(p) => leads(left, true, p),
                    None => forall|i: int| 0 <= i < left.len() ==> !limits(#[trigger] left[i], true),
                }
            },
            None => {
                &&& left_of(window.orders@, result) == window.orders@
                &&& e.clearing_price is None
                &&& e.demand_at_price == 0
                &&& e.supply_at_price == 0
                &&& e.traded_quantity == 0
                &&& e.best_unfilled_buy is None
                &&& e.best_unfilled_sell is None
            },
        },
{
    let left: Seq<Order> = left_of(window.orders@, result);
    lemma_side_depth(left);
    lemma_window_leads(left, Side::Buy);
    lemma_window_leads(left, Side::Sell);
    lemma_leads(bares(left), Side::Buy);
    lemma_leads(bares(left), Side::Sell);
}

/// The record of a window that traded has the depth of all its orders around
/// the price.
pub proof fn law_window_depth_is_of_its_orders(
    e: BatchClearedEvent,
    window: ClosedWindow,
    result: ClearingResult,
    nanos: u128,
)
    requires
        is_window_event(e, window, Some(result), nanos),
        result.clearing_price > 0,
    ensures
        ({
            let all = bares(window.orders@);
            let p = result.clearing_price;
            &&& e.depth_schedule@.len() == 3
            &&& e.depth_schedule@[0].0 == depth_of(all, false, p, 10)
            &&& e.depth_schedule@[0].1 == depth_of(all, true, p, 10)
            &&& e.depth_schedule@[1].0 == depth_of(all, false, p, 50)
            &&& e.depth_schedule@[1].1 == depth_of(all, true, p, 50)
            &&& e.depth_schedule@[2].0 == depth_of(all, false, p, 100)
            &&& e.depth_schedule@[2].1 == depth_of(all, true, p, 100)
        }),
{
    lemma_bares(window.orders@);
    law_depth_counts_orders_near(bares(window.orders@), Some(result.clearing_price));
}

/// What is handed to the engine of a window is each of its orders that opens
/// one.
pub proof fn law_live_orders_go_in(o: Order)
    ensures
        live()(o) == opens(bare(o)),
{
    lemma_bare(o);
}

/// A session in one pair acts on an order if it opens one and has a quantity.
pub proof fn law_empty_orders_do_nothing(o: Order)
    ensures
        counts(o) <==> opens(bare(o)) && o.remaining > 0,
{
    lemma_bare(o);
}

/// Of a list of trades, each stands in one part of the split ledger: with the
/// pool if the pool is a party, and otherwise with the participants.
pub proof fn law_ledger_is_split(trades: Seq<Trade>, k: int)
    requires
        0 <= k < trades.len(),
    ensures
        trades.filter(between_participants()).len() + trades.filter(with_pool()).len() == trades.len(),
        ({
            let pool = "AMM_POOL"@;
            let t = trades[k];
            if t.buyer_id@ == pool || t.seller_id@ == pool {
                trades.filter(with_pool()).contains(t) && !trades.filter(between_participants()).contains(t)
            } else {
                trades.filter(between_participants()).contains(t) && !trades.filter(with_pool()).contains(t)
            }
        }),
{
    lemma_split_lengths(trades);
    let (a, b) = (between_participants(), with_pool());
    let t: Trade = trades[k];
    if a(t) {
        trades.lemma_filter_contains_rev(a, t);
    }
    if b(t) {
        trades.lemma_filter_contains_rev(b, t);
    }
    if trades.filter(a).contains(t) {
        let i: int = choose|i: int| 0 <= i < trades.filter(a).len() && trades.filter(a)[i] == t;
        trades.lemma_filter_pred(a, i);
    }
    if trades.filter(b).contains(t) {
        let i: int = choose|i: int| 0 <= i < trades.filter(b).len() && trades.filter(b)[i] == t;
        trades.lemma_filter_pred(b, i);
    }
}

proof fn lemma_split_lengths(trades: Seq<Trade>)
    ensures
        trades.filter(between_participants()).len() + trades.filter(with_pool()).len() == trades.len(),
    decreases trades.len(),
{
    reveal(Seq::filter);
    if trades.len() > 0 {
        lemma_split_lengths(trades.drop_last());
    }
}

/// An order that was loaded is its row's, field by field, in the pair of `SOL`
/// and `USD`, and without a wallet, a client id or a chain.
pub proof fn law_loaded_order_is_its_record(o: Order, line: Seq<char>) -> (r: Record)
    requires
        is_loaded(o, line),
    ensures
        is_row_order(r, line),
        (Record { closed_ts: r.closed_ts, ..bare(o) }) == r,
        o.pair.base@ == "SOL"@,
        o.pair.quote@ == "USD"@,
        o.wallet is None,
        o.client_order_id is None,
        o.chain_id is None,
{
    choose|r: Record| #[trigger] is_row_order(r, line) && o == order_of(r, o.pair)
}

/// An order that is made is live and whole: of the side, user, pair and moment
/// given, with that id and all of the quantity unfilled, and at the price given.
pub proof fn law_made_order_is_live(
    id: u64,
    user_id: String,
    pair: AssetPair,
    side: Side,
    price: Price,
    quantity: u128,
    ts: u64,
)
    ensures
        ({
            let o = Order::plain_limit(id, user_id, pair, side, price, quantity, ts);
            &&& opens(bare(o))
            &&& !withdraws(bare(o))
            &&& !at_market(bare(o))
            &&& o.oid == id
            &&& o.user_id == user_id
            &&& o.pair == pair
            &&& o.ts == ts
            &&& o.is_ask == (side == Side::Sell)
            &&& o.limit_px == price
            &&& o.remaining == quantity
            &&& o.orig_sz == quantity
            &&& o.sz == quantity
        }),
        ({
            let o = Order::plain_market(id, user_id, pair, side, quantity, ts);
            &&& opens(bare(o))
            &&& !withdraws(bare(o))
            &&& at_market(bare(o))
            &&& o.oid == id
            &&& o.user_id == user_id
            &&& o.pair == pair
            &&& o.ts == ts
            &&& o.is_ask == (side == Side::Sell)
            &&& o.remaining == quantity
            &&& o.orig_sz == quantity
            &&& o.sz == quantity
        }),
{
    law_codes_tell_the_order(bare(Order::plain_limit(id, user_id, pair, side, price, quantity, ts)));
    law_codes_tell_the_order(bare(Order::plain_market(id, user_id, pair, side, quantity, ts)));
}

/// The lines without an order that are not blank are numbered on from the
/// first, each once.
pub proof fn law_barren_lines_are_numbered(lines: Seq<Seq<char>>, first: int, n: int)
    ensures
        barren_lines(lines, first).contains(n) <==> first <= n < first + lines.len() && trim(lines[n - first]).len() > 0
            && !yields_order(trim(lines[n - first])),
        forall|i: int, j: int|
            0 <= i < j < barren_lines(lines, first).len() ==> #[trigger] barren_lines(lines, first)[i]
                < #[trigger] barren_lines(lines, first)[j],
        forall|i: int|
            0 <= i < barren_lines(lines, first).len() ==> first <= #[trigger] barren_lines(lines, first)[i] < first
                + lines.len(),
    decreases lines.len(),
{
    if lines.len() > 0 {
        let short: Seq<Seq<char>> = lines.drop_last();
        law_barren_lines_are_numbered(short, first, n);
        let e: Seq<int> = barren_lines(short, first);
        let r: Seq<int> = barren_lines(lines, first);
        let last: int = first + lines.len() - 1;
        if first <= n < last {
            assert(short[n - first] == lines[n - first]);
        }
        if e.contains(n) {
            let i: int = choose|i: int| 0 <= i < e.len() && e[i] == n;
            assert(r[i] == n);
        }
        if r.contains(n) {
            let i: int = choose|i: int| 0 <= i < r.len() && r[i] == n;
            if i < e.len() {
                assert(e[i] == n);
            }
        }
        if n == last && r.len() > e.len() {
            assert(r[r.len() - 1] == n);
        }
        assert forall|i: int, j: int| 0 <= i < j < r.len() implies #[trigger] r[i] < #[trigger] r[j] by {
            assert(r[i] == e[i]);
            if j < e.len() {
                assert(r[j] == e[j]);
            }
        }
        assert forall|i: int| 0 <= i < r.len() implies first <= #[trigger] r[i] < first + lines.len() by {
            if i < e.len() {
                assert(r[i] == e[i]);
            }
        }
    } else {
        assert(!barren_lines(lines, first).contains(n));
    }
}

/// The first line of a text is passed over, whatever it holds.
pub proof fn law_header_is_passed_over(text: Seq<char>)
    ensures
        lines(text).len() > 0 ==> data_lines(text).len() == lines(text).len() - 1 && forall|i: int|
            0 <= i < data_lines(text).len() ==> #[trigger] data_lines(text)[i] == lines(text)[i + 1],
        lines(text).len() == 0 ==> data_lines(text).len() == 0,
{
}

} // verus!
