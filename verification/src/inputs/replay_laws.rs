//! What a run records, in terms of the records that come in and the orders
//! that rest in the books.

use vstd::arithmetic::div_mod::{lemma_fundamental_div_mod, lemma_mod_bound};
use vstd::prelude::*;
use crate::engines::auction::{side_total, Interest};
use crate::engines::batch_laws::ask_of;
use crate::engines::cda::BookState;
use crate::engines::cda_laws::{depths_exact, ranked};
use crate::engines::fba::{best_limit, interests, ClearingResult};
use crate::engines::match_laws::{
    facing, law_best_orders_come_first, law_resting_orders_are_hit_in_turn, law_trades_all_within_reach, reach_part,
    reaches, within_reach,
};
use crate::engines::plain::{at_market, gap, law_codes_tell_the_order, left_in, lesser, opens, sold_in, withdraws};
use crate::inputs::replay::{
    actionable, book_middle, cleared_trades, is_batch_event, is_book_event, levels_of, schedule, with_trades, Batch,
    ReplayState,
};
use crate::metrics::events::{bps_from, depth_within, within_part, BatchClearedEvent, BookSnapshot, Level, OrderMessage};
use crate::metrics::timeseries::RecorderState;
use crate::seqs::{lemma_total_first, lemma_total_member, lemma_total_nonneg, lemma_total_same, total};
use crate::types::{Order, Price, Side, Trade};

verus! {

/// A snapshot is of its record's moment. It shows the highest bid and the
/// lowest ask that rest, what is left of the first order on either side, and
/// the quantity left on either side, which is never less than that.
pub proof fn law_snapshot_shows_what_rests(
    e: BookSnapshot,
    book: BookState,
    ts: u64,
    depth: Seq<(u128, u128)>,
    nanos: u128,
)
    requires
        is_book_event(e, book, ts, depth, nanos),
        ranked(book),
        depths_exact(book),
    ensures
        e.ts == ts,
        e.compute_nanos == nanos,
        e.depth_schedule@ == depth,
        book.bids.len() > 0 ==> {
            &&& e.best_bid == Some(book.bids[0].limit_px)
            &&& forall|i: int| 0 <= i < book.bids.len() ==> (#[trigger] book.bids[i]).limit_px <= e.best_bid->0
            &&& e.best_bid_qty == book.bids[0].remaining
            &&& e.best_bid_qty > 0
        },
        book.bids.len() == 0 ==> e.best_bid is None && e.best_bid_qty == 0 && e.bid_depth == 0,
        book.asks.len() > 0 ==> {
            &&& e.best_ask == Some(book.asks[0].limit_px)
            &&& forall|i: int| 0 <= i < book.asks.len() ==> (#[trigger] book.asks[i]).limit_px >= e.best_ask->0
            &&& e.best_ask_qty == book.asks[0].remaining
            &&& e.best_ask_qty > 0
        },
        book.asks.len() == 0 ==> e.best_ask is None && e.best_ask_qty == 0 && e.ask_depth == 0,
        e.bid_depth == left_in(book.bids),
        e.ask_depth == left_in(book.asks),
        e.best_bid_qty <= e.bid_depth,
        e.best_ask_qty <= e.ask_depth,
{
    law_best_orders_come_first(book);
    let f = |o: Order| o.remaining as int;
    if book.bids.len() > 0 {
        assert(book.bids[0].remaining > 0);
        lemma_total_member(book.bids, 0, f);
    }
    if book.asks.len() > 0 {
        assert(book.asks[0].remaining > 0);
        lemma_total_member(book.asks, 0, f);
    }
}

/// Right after an order has taken part of the best order on the other side,
/// the snapshot shows that price still, with so much less to sell or buy; the
/// trade is all that the order wanted.
pub proof fn law_snapshot_shows_a_partial_fill(
    before: BookState,
    o: Order,
    e: BookSnapshot,
    ts: u64,
    depth: Seq<(u128, u128)>,
    nanos: u128,
)
    requires
        ranked(before),
        opens(o),
        before.has_room_for(o),
        before.next_trade_id >= 0,
        facing(before, o).len() > 0,
        reaches(o, facing(before, o)[0]),
        0 < o.remaining < facing(before, o)[0].remaining,
        is_book_event(e, before.submitted(o), ts, depth, nanos),
    ensures
        o.is_ask ==> e.best_bid == Some(before.bids[0].limit_px) && e.best_bid_qty == before.bids[0].remaining
            - o.remaining,
        !o.is_ask ==> e.best_ask == Some(before.asks[0].limit_px) && e.best_ask_qty == before.asks[0].remaining
            - o.remaining,
        before.trades_on(o).len() == 1,
        before.trades_on(o)[0].quantity == o.remaining,
{
    let makers: Seq<Order> = facing(before, o);
    let trades: Seq<Trade> = before.trades_on(o);
    let after: Seq<Order> = facing(before.submitted(o), o);
    let f = |t: Trade| t.quantity as int;
    law_trades_all_within_reach(before, o);
    law_resting_orders_are_hit_in_turn(before, o);
    lemma_total_member(makers, 0, reach_part(o));
    assert(within_reach(o, makers) >= makers[0].remaining);
    assert(sold_in(trades) == o.remaining);
    let gone: int = makers.len() - after.len();
    if trades.len() == 0 {
        assert(sold_in(trades) == 0);
    }
    lemma_total_member(trades, 0, f);
    assert(trades[0].quantity <= o.remaining);
    assert(gone == 0);
    assert(trades.len() == 1);
    lemma_total_first(trades, f);
    assert(trades.drop_first().len() == 0);
    assert(after[0].remaining == makers[0].remaining - trades[0].quantity);
}

/// The reference price of a book is halfway between its best bid and its best
/// ask, rounded down; with one side empty it is the best of the other, and an
/// empty book has none.
pub proof fn law_reference_is_halfway(book: BookState)
    ensures
        book.bids.len() > 0 && book.asks.len() > 0 ==> book_middle(book) is Some && 2 * book_middle(book)->0
            <= book.bids[0].limit_px + book.asks[0].limit_px < 2 * book_middle(book)->0 + 2,
        book.bids.len() > 0 && book.asks.len() == 0 ==> book_middle(book) == Some(book.bids[0].limit_px),
        book.bids.len() == 0 && book.asks.len() > 0 ==> book_middle(book) == Some(book.asks[0].limit_px),
        book.bids.len() == 0 && book.asks.len() == 0 ==> book_middle(book) is None,
{
}

/// What is logged of a record is its moment, id, user, side and full size, its
/// limit unless it executes at any price, and whether it opens an order. Every
/// record is logged, after those before it, and moves the last moment seen.
pub proof fn law_records_are_logged(state: ReplayState, o: Order)
    ensures
        ({
            let log = state.observed(o).messages;
            let m = log.last();
            &&& log.len() == state.messages.len() + 1
            &&& forall|i: int| 0 <= i < state.messages.len() ==> log[i] == #[trigger] state.messages[i]
            &&& m.ts == o.ts
            &&& m.oid == o.oid
            &&& m.user_id == o.user_id
            &&& m.side == (if o.is_ask {
                Side::Sell
            } else {
                Side::Buy
            })
            &&& m.limit_price == (if at_market(o) {
                None
            } else {
                Some(o.limit_px)
            })
            &&& m.quantity == o.orig_sz
            &&& m.accepted == opens(o)
        }),
        state.observed(o).last_seen == Some(o.ts as int),
        state.observed(o).fba == state.fba,
        state.observed(o).cda == state.cda,
        actionable(o) == (opens(o) || withdraws(o)),
{
    law_codes_tell_the_order(o);
}

/// A moment whose interval has been handed out.
pub open spec fn too_late(log: RecorderState, ts: int) -> bool {
    log.anchor is Some && log.emitted > log.anchor->0 && ts < log.emitted
}

proof fn lemma_too_late(log: RecorderState, ts: int)
    requires
        log.width > 0,
        log.anchor is Some,
        crate::metrics::grid::on_grid(log.emitted, log.anchor->0, log.width),
    ensures
        log.is_late(ts) == too_late(log, ts),
{
    let a: int = log.anchor->0;
    crate::metrics::grid::law_bucket_holds_the_moment(ts, a, log.width);
    crate::metrics::row_laws::lemma_falls(log.emitted, a, log.width, log.emitted);
    if ts >= log.emitted {
        crate::metrics::grid::law_buckets_follow_time(log.emitted, ts, a, log.width);
    }
}

/// The trades that an order causes are logged after those before them, in
/// their order, each with the side of that order and the reference price from
/// before it, unless their interval has been handed out; then they are counted.
pub proof fn law_trades_are_logged(
    log: RecorderState,
    trades: Seq<Trade>,
    reference: Option<Price>,
    aggressor: Option<Side>,
    ts: u64,
)
    requires
        log.width > 0,
        log.anchor is Some,
        crate::metrics::grid::on_grid(log.emitted, log.anchor->0, log.width),
        forall|i: int| 0 <= i < trades.len() ==> (#[trigger] trades[i]).ts == ts,
        0 <= log.late,
        log.late + trades.len() <= u64::MAX,
    ensures
        ({
            let after = with_trades(log, trades, reference, aggressor);
            let n = log.trades.len();
            &&& forall|i: int| 0 <= i < n ==> after.trades[i] == #[trigger] log.trades[i]
            &&& !too_late(log, ts as int) ==> {
                &&& after.trades.len() == n + trades.len()
                &&& after.late == log.late
                &&& forall|i: int|
                    0 <= i < trades.len() ==> {
                        &&& after.trades[n + i].trade == #[trigger] trades[i]
                        &&& after.trades[n + i].reference_price == reference
                        &&& after.trades[n + i].aggressor_side == aggressor
                    }
            }
            &&& too_late(log, ts as int) ==> after.trades == log.trades && after.late == log.late + trades.len()
            &&& after.batches == log.batches
            &&& after.books == log.books
            &&& after.anchor == log.anchor
            &&& after.emitted == log.emitted
            &&& after.width == log.width
        }),
    decreases trades.len(),
{
    if trades.len() > 0 {
        let short: Seq<Trade> = trades.drop_last();
        assert forall|i: int| 0 <= i < short.len() implies (#[trigger] short[i]).ts == ts by {
            assert(trades[i].ts == ts);
        }
        law_trades_are_logged(log, short, reference, aggressor, ts);
        let mid: RecorderState = with_trades(log, short, reference, aggressor);
        assert(trades[trades.len() - 1].ts == ts);
        lemma_too_late(mid, ts as int);
        let after: RecorderState = with_trades(log, trades, reference, aggressor);
        if !too_late(log, ts as int) {
            let n: int = log.trades.len() as int;
            assert forall|i: int| 0 <= i < trades.len() implies {
                &&& after.trades[n + i].trade == #[trigger] trades[i]
                &&& after.trades[n + i].reference_price == reference
                &&& after.trades[n + i].aggressor_side == aggressor
            } by {
                if i < short.len() {
                    assert(after.trades[n + i] == mid.trades[n + i]);
                    assert(short[i] == trades[i]);
                }
            }
        }
    }
}

/// What a bid, or an ask, has left.
pub open spec fn side_part(ask: bool) -> spec_fn(Order) -> int {
    |o: Order|
        if o.is_ask == ask {
            o.remaining as int
        } else {
            0
        }
}

proof fn lemma_side_total(orders: Seq<Order>, side: Side)
    ensures
        side_total(interests(orders), side) == total(orders, side_part(ask_of(side))),
{
    let f = |it: Interest| if it.side == side { it.remaining as int } else { 0 };
    assert forall|i: int| 0 <= i < orders.len() implies f(#[trigger] interests(orders)[i]) == side_part(ask_of(side))(
        orders[i],
    ) by {
        law_codes_tell_the_order(orders[i]);
    }
    lemma_total_same(interests(orders), orders, f, side_part(ask_of(side)));
}

/// A limit of that side, and none of that side is better.
pub open spec fn leads(orders: Seq<Order>, ask: bool, price: Price) -> bool {
    &&& exists|i: int| 0 <= i < orders.len() && limits(#[trigger] orders[i], ask) && orders[i].limit_px == price
    &&& forall|i: int|
        0 <= i < orders.len() && limits(#[trigger] orders[i], ask) ==> if ask {
            price <= orders[i].limit_px
        } else {
            orders[i].limit_px <= price
        }
}

/// An order of that side with a limit.
pub open spec fn limits(o: Order, ask: bool) -> bool {
    o.is_ask == ask && !at_market(o)
}

pub proof fn lemma_leads(orders: Seq<Order>, side: Side)
    ensures
        match best_limit(orders, side) {
            Some(p) => leads(orders, ask_of(side), p),
            None => forall|i: int| 0 <= i < orders.len() ==> !limits(#[trigger] orders[i], ask_of(side)),
        },
    decreases orders.len(),
{
    if orders.len() > 0 {
        let ask: bool = ask_of(side);
        let short: Seq<Order> = orders.drop_last();
        let last: Order = orders.last();
        lemma_leads(short, side);
        law_codes_tell_the_order(last);
        let earlier: Option<Price> = best_limit(short, side);
        assert(orders[orders.len() - 1] == last);
        if earlier is Some {
            let i: int = choose|i: int|
                0 <= i < short.len() && limits(#[trigger] short[i], ask) && short[i].limit_px == earlier->0;
            assert(orders[i] == short[i]);
        }
        match best_limit(orders, side) {
            Some(p) => {
                assert forall|i: int| 0 <= i < orders.len() && limits(#[trigger] orders[i], ask) implies if ask {
                    p <= orders[i].limit_px
                } else {
                    orders[i].limit_px <= p
                } by {
                    if i < short.len() {
                        assert(short[i] == orders[i]);
                    }
                }
            },
            None => {
                assert forall|i: int| 0 <= i < orders.len() implies !limits(#[trigger] orders[i], ask) by {
                    if i < short.len() {
                        assert(short[i] == orders[i]);
                    }
                }
            },
        }
    }
}

/// The record of a clearing is of the window of its batch. It tells the
/// quantity that the batch bid and asked, the best limits that are left on
/// either side, and what the clearing found: its price, the quantities wanted
/// and offered there, how far they are apart, and what was traded; without a
/// price, none of that.
pub proof fn law_clearings_are_recorded(
    e: BatchClearedEvent,
    batch: Batch,
    orders: Seq<Order>,
    result: Option<ClearingResult>,
    left: Seq<Order>,
    nanos: u128,
)
    requires
        batch.orders@ == interests(orders),
        is_batch_event(e, batch, result, left, nanos),
    ensures
        e.batch_open_ts == batch.open_ts,
        e.ts == batch.close_ts,
        e.compute_nanos == nanos,
        e.buy_flow == lesser(total(orders, side_part(false)), u128::MAX as int),
        e.sell_flow == lesser(total(orders, side_part(true)), u128::MAX as int),
        match e.best_unfilled_buy {
            Some(p) => leads(left, false, p),
            None => forall|i: int| 0 <= i < left.len() ==> !limits(#[trigger] left[i], false),
        },
        match e.best_unfilled_sell {
            Some(p) => leads(left, true, p),
            None => forall|i: int| 0 <= i < left.len() ==> !limits(#[trigger] left[i], true),
        },
        match result {
            Some(c) => {
                &&& e.clearing_price == Some(c.clearing_price)
                &&& e.demand_at_price == c.demand_at_price
                &&& e.supply_at_price == c.supply_at_price
                &&& e.unexecuted_quantity == gap(c.demand_at_price as int, c.supply_at_price as int)
                &&& e.traded_quantity == c.traded_quantity
                &&& cleared_trades(result) == c.trades@
            },
            None => {
                &&& e.clearing_price is None
                &&& e.demand_at_price == 0
                &&& e.supply_at_price == 0
                &&& e.unexecuted_quantity == 0
                &&& e.traded_quantity == 0
                &&& cleared_trades(result).len() == 0
            },
        },
{
    lemma_side_total(orders, Side::Buy);
    lemma_side_total(orders, Side::Sell);
    lemma_leads(left, Side::Buy);
    lemma_leads(left, Side::Sell);
}

/// Within this many basis points of the reference price, counted in whole
/// ones; a distance too large to count is taken as the largest that is not.
pub open spec fn near(price: int, reference: int, points: int) -> bool {
    lesser(gap(price, reference) * 10_000, u128::MAX as int) < (points + 1) * reference
}

/// What a resting or waiting order adds to the depth of its side: one that
/// executes at any price stands at the reference price.
pub open spec fn depth_part(ask: bool, reference: Price, points: int) -> spec_fn(Order) -> int {
    |o: Order|
        if o.is_ask == ask && (at_market(o) || near(o.limit_px as int, reference as int, points)) {
            o.remaining as int
        } else {
            0
        }
}

/// The quantity of a side within so many basis points.
pub open spec fn depth_of(orders: Seq<Order>, ask: bool, reference: Price, points: int) -> int {
    lesser(total(orders, depth_part(ask, reference, points)), u128::MAX as int)
}

proof fn lemma_near(price: int, reference: int, points: int)
    requires
        reference > 0,
        points >= 0,
    ensures
        (bps_from(reference, price) <= points) == near(price, reference, points),
{
    let x: int = lesser(gap(price, reference) * 10_000, u128::MAX as int);
    lemma_fundamental_div_mod(x, reference);
    lemma_mod_bound(x, reference);
    let q: int = x / reference;
    if q <= points {
        assert(reference * q <= reference * points) by (nonlinear_arith)
            requires
                q <= points,
                reference > 0,
        ;
        assert((points + 1) * reference == reference * points + reference) by (nonlinear_arith);
    } else {
        assert(reference * q >= (points + 1) * reference) by (nonlinear_arith)
            requires
                q >= points + 1,
                reference > 0,
        ;
    }
}

proof fn lemma_depth(orders: Seq<Order>, side: Side, reference: Price, points: int)
    requires
        reference > 0,
        points >= 0,
    ensures
        depth_within(reference, levels_of(interests(orders), reference), side, points) == depth_of(
            orders,
            ask_of(side),
            reference,
            points,
        ),
{
    let levels: Seq<Level> = levels_of(interests(orders), reference);
    assert forall|i: int| 0 <= i < orders.len() implies within_part(reference, side, points)(#[trigger] levels[i])
        == depth_part(ask_of(side), reference, points)(orders[i]) by {
        law_codes_tell_the_order(orders[i]);
        lemma_near(levels[i].price as int, reference as int, points);
        assert((points + 1) * reference > 0) by (nonlinear_arith)
            requires
                points >= 0,
                reference > 0,
        ;
    }
    lemma_total_same(
        levels,
        orders,
        within_part(reference, side, points),
        depth_part(ask_of(side), reference, points),
    );
    lemma_total_nonneg(orders, depth_part(ask_of(side), reference, points));
}

/// The depth schedule has the quantity bid and asked within ten, fifty and a
/// hundred basis points of the reference price. There is none without a
/// reference price or around a price of zero.
pub proof fn law_depth_counts_orders_near(orders: Seq<Order>, reference: Option<Price>)
    ensures
        ({
            let r = match reference {
                Some(p) => schedule(reference, levels_of(interests(orders), p)),
                None => schedule(None, Seq::empty()),
            };
            &&& r.len() == 3
            &&& match reference {
                Some(p) => p > 0 ==> {
                    &&& r[0].0 == depth_of(orders, false, p, 10)
                    &&& r[0].1 == depth_of(orders, true, p, 10)
                    &&& r[1].0 == depth_of(orders, false, p, 50)
                    &&& r[1].1 == depth_of(orders, true, p, 50)
                    &&& r[2].0 == depth_of(orders, false, p, 100)
                    &&& r[2].1 == depth_of(orders, true, p, 100)
                },
                None => true,
            }
            &&& reference is None || reference == Some(0u128) ==> r =~= seq![
                (0u128, 0u128),
                (0u128, 0u128),
                (0u128, 0u128),
            ]
        }),
{
    if let Some(p) = reference {
        if p > 0 {
            lemma_depth(orders, Side::Buy, p, 10);
            lemma_depth(orders, Side::Sell, p, 10);
            lemma_depth(orders, Side::Buy, p, 50);
            lemma_depth(orders, Side::Sell, p, 50);
            lemma_depth(orders, Side::Buy, p, 100);
            lemma_depth(orders, Side::Sell, p, 100);
            lemma_total_nonneg(orders, depth_part(false, p, 10));
            lemma_total_nonneg(orders, depth_part(true, p, 10));
            lemma_total_nonneg(orders, depth_part(false, p, 50));
            lemma_total_nonneg(orders, depth_part(true, p, 50));
            lemma_total_nonneg(orders, depth_part(false, p, 100));
            lemma_total_nonneg(orders, depth_part(true, p, 100));
        }
    }
}

/// After a record that can change the book, a snapshot has the depth of all
/// that rests around the middle; after any other, the depth from before.
pub proof fn law_depth_is_of_the_book(state: ReplayState, o: Order)
    ensures
        opens(o) || withdraws(o) ==> state.depth_now(actionable(o)) == match book_middle(state.cda) {
            Some(p) => schedule(Some(p), levels_of(interests(state.cda.bids + state.cda.asks), p)),
            None => schedule(None, Seq::empty()),
        },
        !opens(o) && !withdraws(o) ==> state.depth_now(actionable(o)) == state.depth,
{
    law_codes_tell_the_order(o);
}

/// The record of a clearing that found a price has the depth of its whole batch
/// around that price; of one that found none there is no depth.
pub proof fn law_clearing_depth_is_of_the_batch(
    e: BatchClearedEvent,
    batch: Batch,
    orders: Seq<Order>,
    result: Option<ClearingResult>,
    left: Seq<Order>,
    nanos: u128,
)
    requires
        batch.orders@ == interests(orders),
        is_batch_event(e, batch, result, left, nanos),
    ensures
        e.depth_schedule@.len() == 3,
        result matches Some(c) ==> c.clearing_price > 0 ==> {
            let p = c.clearing_price;
            &&& e.depth_schedule@[0].0 == depth_of(orders, false, p, 10)
            &&& e.depth_schedule@[0].1 == depth_of(orders, true, p, 10)
            &&& e.depth_schedule@[1].0 == depth_of(orders, false, p, 50)
            &&& e.depth_schedule@[1].1 == depth_of(orders, true, p, 50)
            &&& e.depth_schedule@[2].0 == depth_of(orders, false, p, 100)
            &&& e.depth_schedule@[2].1 == depth_of(orders, true, p, 100)
        },
        result is None ==> forall|i: int| 0 <= i < 3 ==> #[trigger] e.depth_schedule@[i] == (0u128, 0u128),
{
    match result {
        Some(c) => law_depth_counts_orders_near(orders, Some(c.clearing_price)),
        None => {
            law_depth_counts_orders_near(orders, None);
            let none: Seq<(u128, u128)> = seq![(0u128, 0u128), (0u128, 0u128), (0u128, 0u128)];
            assert(none[0] == (0u128, 0u128) && none[1] == (0u128, 0u128) && none[2] == (0u128, 0u128));
            assert(e.depth_schedule@ == none);
        },
    }
}

/// The window that is open when the data ends is closed with the last record,
/// or with its open if no record came after that.
pub proof fn law_last_window_ends_with_the_data(state: ReplayState)
    requires
        state.clock.window is Some,
        state.last_seen is Some,
    ensures
        state.last_window().open == (state.clock.window->0).open,
        state.last_window().close >= state.last_seen->0,
        state.last_window().close >= state.last_window().open,
        state.last_window().close == state.last_seen->0 || state.last_window().close == state.last_window().open,
{
}

/// Rows are settled on the grid of the run, as far as they end the guard before
/// the last record and before where the data goes on, and no further.
pub proof fn law_settled_rows_follow_the_record(state: ReplayState, next_first: Option<int>, guard: int)
    requires
        state.fba_log.width > 0,
        guard >= 0,
        state.last_seen is Some,
        state.fba_log.anchor is Some,
    ensures
        ({
            let (r, a, w) = (state.settled(next_first, guard), state.fba_log.anchor->0, state.fba_log.width);
            let seen = match next_first {
                Some(nf) => lesser(nf, state.last_seen->0),
                None => state.last_seen->0,
            };
            &&& r >= a
            &&& seen - guard < a ==> r == a
            &&& seen - guard >= a ==> r <= seen - guard < r + w
        }),
{
    crate::inputs::tool_laws::law_all_rows_left_behind_are_settled(
        state.fba_log.anchor->0,
        next_first,
        state.last_seen->0,
        guard,
        state.fba_log.width,
    );
}

/// Both engines hand out rows up to the same moment, each from its own record;
/// nothing else of the run changes.
pub proof fn law_both_engines_hand_out_rows(state: ReplayState, hi: int)
    requires
        state.fba_log.anchor is Some,
        state.cda_log.anchor is Some,
    ensures
        state.emitted(hi).fba_log == state.fba_log.emitted_to(hi),
        state.emitted(hi).cda_log == state.cda_log.emitted_to(hi),
        state.emitted(hi).fba == state.fba,
        state.emitted(hi).cda == state.cda,
        state.emitted(hi).messages == state.messages,
        state.emitted(hi).clock == state.clock,
        state.emitted(hi).last_seen == state.last_seen,
        state.emitted(hi).depth == state.depth,
{
}

/// The records whose intervals have been handed out are dropped, and no others.
pub proof fn law_settled_records_are_dropped(state: ReplayState, m: OrderMessage)
    requires
        state.fba_log.width > 0,
        state.fba_log.anchor is Some,
        crate::metrics::grid::on_grid(state.fba_log.emitted, state.fba_log.anchor->0, state.fba_log.width),
    ensures
        state.pruned().messages.contains(m) <==> state.messages.contains(m) && !too_late(state.fba_log, m.ts as int),
        state.pruned().fba == state.fba,
        state.pruned().cda == state.cda,
        state.pruned().fba_log == state.fba_log.pruned(),
        state.pruned().cda_log == state.cda_log.pruned(),
{
    let log: RecorderState = state.fba_log;
    let keep = crate::metrics::timeseries::message_kept(log.anchor->0, log.width, log.emitted);
    lemma_too_late(log, m.ts as int);
    crate::metrics::recorder_laws::lemma_past(log, m.ts as int);
    crate::metrics::recorder_laws::lemma_kept(state.messages, keep, m);
}

} // verus!
