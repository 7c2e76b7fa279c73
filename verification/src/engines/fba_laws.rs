//! What holds of the batch book across its operations.

use vstd::prelude::*;
use crate::engines::auction::{eligible, fills_at, is_best, limit_prices, matched_at, Interest, TieRule};
use crate::engines::auction_laws::{below, bought_by, law_auction_trades_all_it_can, sold_by, traded};
use crate::engines::fba::{
    batch_trade, best_limit, bids_at, interest_of, interests, legs_of, open_quantity, residual, without_oid, BatchState,
};
use crate::engines::fill_laws::{
    ids_differ, legs_at, lemma_fill_fits, lemma_filled_at_least, lemma_filled_by_position, lemma_filled_in_all,
    lemma_no_cross, lemma_shares, lemma_shares_in_all,
};
use crate::engines::ladder::better;
use crate::engines::legs::{filled_under, leg_part, Leg};
use crate::seqs::{
    lemma_total_add, lemma_total_nonneg, lemma_total_push, lemma_total_same, lemma_total_scaled, saturated, total,
};
use crate::trades::volume_of;
use crate::types::{Order, Price, Side, Trade};

verus! {

/// No two orders share an id.
pub open spec fn distinct_oids(s: Seq<Order>) -> bool {
    forall|i: int, j: int| 0 <= i < j < s.len() ==> (#[trigger] s[i]).oid != (#[trigger] s[j]).oid
}

/// What is pending never exceeds what was submitted.
pub open spec fn pending_accounted(b: BatchState) -> bool {
    open_quantity(b.pending) <= b.submitted
}

/// What was filled and what is pending never exceed what was submitted.
pub open spec fn fills_accounted(b: BatchState) -> bool {
    b.filled + open_quantity(b.pending) <= b.submitted
}

/// What was filled is what was traded, on both sides of every trade.
pub open spec fn filled_is_traded(b: BatchState) -> bool {
    b.filled == saturated(2 * volume_of(b.trades))
}

/// A batch of market orders alone has no price: it stays as it is, whatever
/// the book traded at before.
pub proof fn law_market_only_batch_rolls_over(b: BatchState)
    requires
        forall|i: int| 0 <= i < b.pending.len() ==> (#[trigger] b.pending[i]).kind() is Market,
    ensures
        b.price() is None,
        b.cleared() == b,
{
    let book: Seq<Interest> = interests(b.pending);
    let rule: TieRule = TieRule::Nearest { reference: b.last_price };
    assert forall|p: Price| !is_best(book, rule, limit_prices(book), p) by {
        if limit_prices(book).contains(p) {
            let i: int = choose|i: int| 0 <= i < book.len() && (#[trigger] book[i]).limit == Some(p);
            assert(b.pending[i].kind() is Market);
        }
    }
}

/// Every trade of a batch is at the one clearing price, which its buyer and
/// its seller both accept.
pub proof fn law_batch_clears_at_one_price(b: BatchState, price: Price)
    requires
        b.price() == Some(price),
    ensures
        forall|i: int|
            0 <= i < b.batch().len() ==> {
                let t = #[trigger] b.batch()[i];
                &&& t.price == price
                &&& t.quantity > 0
                &&& exists|x: int|
                    0 <= x < b.pending.len() && (#[trigger] b.pending[x]).oid == t.buy_order_id && eligible(
                        interest_of(b.pending[x]),
                        Side::Buy,
                        price,
                    )
                &&& exists|y: int|
                    0 <= y < b.pending.len() && (#[trigger] b.pending[y]).oid == t.sell_order_id && eligible(
                        interest_of(b.pending[y]),
                        Side::Sell,
                        price,
                    )
            },
{
    let book: Seq<Interest> = interests(b.pending);
    let fills: Seq<(int, int, int)> = fills_at(book, price);
    law_auction_trades_all_it_can(book, price);
    lemma_fill_fits(interests(b.pending), price);
    assert forall|i: int| 0 <= i < b.batch().len() implies {
        let t = #[trigger] b.batch()[i];
        &&& t.price == price
        &&& t.quantity > 0
        &&& exists|x: int|
            0 <= x < b.pending.len() && (#[trigger] b.pending[x]).oid == t.buy_order_id && eligible(
                interest_of(b.pending[x]),
                Side::Buy,
                price,
            )
        &&& exists|y: int|
            0 <= y < b.pending.len() && (#[trigger] b.pending[y]).oid == t.sell_order_id && eligible(
                interest_of(b.pending[y]),
                Side::Sell,
                price,
            )
    } by {
        let (x, y, qty) = fills[i];
        assert(b.batch()[i] == batch_trade(b.pending, fills[i], price, b.next_trade_id + i));
        assert(b.pending[x].oid == b.batch()[i].buy_order_id);
        assert(b.pending[y].oid == b.batch()[i].sell_order_id);
        assert(book[x] == interest_of(b.pending[x]) && book[y] == interest_of(b.pending[y]));
    }
}

/// What is left of the first `n` orders is their quantity less what was
/// filled under their ids.
proof fn lemma_residual_total(orders: Seq<Order>, legs: Seq<Leg>, n: int)
    requires
        0 <= n <= orders.len(),
        forall|x: int|
            0 <= x < orders.len() ==> 0 <= filled_under(legs, (#[trigger] orders[x]).oid) <= orders[x].remaining,
    ensures
        open_quantity(residual(orders.take(n), legs)) == total(
            below(n),
            |x: int| orders[x].remaining - filled_under(legs, orders[x].oid),
        ),
    decreases n,
{
    let f = |o: Order| o.remaining as int;
    let g = |x: int| orders[x].remaining - filled_under(legs, orders[x].oid);
    if n == 0 {
        assert(orders.take(0) =~= Seq::<Order>::empty());
    } else {
        lemma_residual_total(orders, legs, n - 1);
        assert(orders.take(n).drop_last() =~= orders.take(n - 1));
        assert(below(n) =~= below(n - 1).push(n - 1));
        lemma_total_push(below(n - 1), n - 1, g);
        let rest: Order = orders[n - 1].filled_by(filled_under(legs, orders[n - 1].oid));
        assert(0 <= filled_under(legs, orders[n - 1].oid) <= orders[n - 1].remaining);
        lemma_total_push(residual(orders.take(n - 1), legs), rest, f);
    }
}

/// Clearing conserves quantity: every traded unit leaves one buy and one
/// sell order, and nothing else leaves the batch.
pub proof fn law_clearing_conserves_quantity(b: BatchState, price: Price)
    requires
        b.price() == Some(price),
        distinct_oids(b.pending),
    ensures
        open_quantity(b.cleared().pending) == open_quantity(b.pending) - 2 * volume_of(b.batch()),
        volume_of(b.batch()) == matched_at(interests(b.pending), price),
{
    let orders: Seq<Order> = b.pending;
    let n: int = orders.len() as int;
    let book: Seq<Interest> = interests(orders);
    let legs: Seq<Leg> = legs_of(b.batch());
    lemma_batch_legs(b, price);
    law_auction_trades_all_it_can(book, price);
    assert forall|x: int| 0 <= x < n implies 0 <= filled_under(legs, (#[trigger] orders[x]).oid) <= orders[x].remaining by {
        lemma_filled_by_position(book, price, x);
    }
    lemma_residual_total(orders, legs, n);
    assert(orders.take(n) =~= orders);
    let rem = |x: int| orders[x].remaining as int;
    let left = |x: int| orders[x].remaining - filled_under(legs, orders[x].oid);
    let got = |x: int| filled_under(legs, book[x].oid);
    assert forall|i: int| 0 <= i < below(n).len() implies rem(#[trigger] below(n)[i]) == left(below(n)[i]) + got(
        below(n)[i],
    ) by {
        assert(book[i] == interest_of(orders[i]));
    }
    lemma_total_scaled(below(n), rem, left, got);
    lemma_filled_in_all(book, price);
    lemma_total_same(below(n), orders, rem, |o: Order| o.remaining as int);
    lemma_batch_volume(b, price);
}

/// The trades of a batch are its fills.
proof fn lemma_legs(b: BatchState, price: Price)
    requires
        b.price() == Some(price),
    ensures
        legs_of(b.batch()) == legs_at(interests(b.pending), price),
{
    let book: Seq<Interest> = interests(b.pending);
    law_auction_trades_all_it_can(book, price);
    assert forall|i: int| 0 <= i < fills_at(book, price).len() implies legs_of(b.batch())[i] == legs_at(book, price)[i] by {
        let (x, y, qty) = fills_at(book, price)[i];
        assert(b.batch()[i] == batch_trade(b.pending, fills_at(book, price)[i], price, b.next_trade_id + i));
        assert(book[x] == interest_of(b.pending[x]) && book[y] == interest_of(b.pending[y]));
    }
    assert(legs_of(b.batch()) =~= legs_at(book, price));
}

/// With distinct ids, the fills are by distinct ids.
proof fn lemma_batch_legs(b: BatchState, price: Price)
    requires
        b.price() == Some(price),
        distinct_oids(b.pending),
    ensures
        legs_of(b.batch()) == legs_at(interests(b.pending), price),
        ids_differ(interests(b.pending)),
{
    let book: Seq<Interest> = interests(b.pending);
    lemma_legs(b, price);
    assert forall|i: int, j: int| 0 <= i < j < book.len() implies (#[trigger] book[i]).oid != (#[trigger] book[j]).oid by {
        assert(b.pending[i].oid != b.pending[j].oid);
    }
}

proof fn lemma_batch_volume(b: BatchState, price: Price)
    requires
        b.price() == Some(price),
    ensures
        volume_of(b.batch()) == traded(fills_at(interests(b.pending), price)),
{
    let fills: Seq<(int, int, int)> = fills_at(interests(b.pending), price);
    lemma_fill_fits(interests(b.pending), price);
    assert forall|i: int| 0 <= i < fills.len() implies (#[trigger] b.batch()[i]).quantity as int == fills[i].2 by {
        assert(0 < fills[i].2 <= u128::MAX);
    }
    lemma_total_same(b.batch(), fills, |t: Trade| t.quantity as int, |f: (int, int, int)| f.2);
}

/// An order that does not accept the clearing price stays in the batch with
/// all of its quantity.
pub proof fn law_ineligible_orders_stay_intact(b: BatchState, price: Price, x: int)
    requires
        b.price() == Some(price),
        distinct_oids(b.pending),
        0 <= x < b.pending.len(),
        b.pending[x].remaining > 0,
        !eligible(interest_of(b.pending[x]), b.pending[x].side(), price),
    ensures
        b.cleared().pending.contains(b.pending[x]),
{
    let orders: Seq<Order> = b.pending;
    let legs: Seq<Leg> = legs_of(b.batch());
    lemma_batch_legs(b, price);
    lemma_filled_by_position(interests(orders), price, x);
    assert(interests(orders)[x] == interest_of(orders[x]));
    assert(filled_under(legs, orders[x].oid) == 0);
    lemma_residual_keeps(orders, legs, x, orders.len() as int);
    assert(orders.take(orders.len() as int) =~= orders);
}

proof fn lemma_residual_keeps(orders: Seq<Order>, legs: Seq<Leg>, x: int, n: int)
    requires
        0 <= x < n <= orders.len(),
        filled_under(legs, orders[x].oid) == 0,
        orders[x].remaining > 0,
    ensures
        residual(orders.take(n), legs).contains(orders[x]),
    decreases n,
{
    assert(orders.take(n).drop_last() =~= orders.take(n - 1));
    let before: Seq<Order> = residual(orders.take(n - 1), legs);
    let after: Seq<Order> = residual(orders.take(n), legs);
    if x == n - 1 {
        assert(orders[x].filled_by(0) == orders[x]);
        assert(after[after.len() - 1] == orders[x]);
    } else {
        lemma_residual_keeps(orders, legs, x, n - 1);
        let i: int = choose|i: int| 0 <= i < before.len() && before[i] == orders[x];
        assert(after[i] == orders[x]);
    }
}

/// The unexecuted quantity of a batch is what the heavier eligible side
/// could not trade, so its share of that side lies between zero and one.
pub proof fn law_unexecuted_share_is_a_share(b: BatchState, price: Price)
    requires
        b.price() == Some(price),
    ensures
        ({
            let c = b.cleared();
            let heavier = if c.last_demand >= c.last_supply { c.last_demand } else { c.last_supply };
            &&& c.last_unexecuted == heavier - matched_at(interests(b.pending), price)
            &&& 0 <= c.last_unexecuted <= heavier
        }),
{
    crate::engines::auction::lemma_volume_bounds(interests(b.pending), Side::Buy, price);
    crate::engines::auction::lemma_volume_bounds(interests(b.pending), Side::Sell, price);
}

/// A cancel leaves no pending order with that id, and leaves the batch as it
/// is when there was none.
pub proof fn law_cancel_withdraws_the_id(b: BatchState, oid: u64)
    ensures
        forall|i: int|
            0 <= i < without_oid(b.pending, oid).len() ==> (#[trigger] without_oid(b.pending, oid)[i]).oid != oid,
        (forall|i: int| 0 <= i < b.pending.len() ==> (#[trigger] b.pending[i]).oid != oid) ==> without_oid(
            b.pending,
            oid,
        ) == b.pending,
        without_oid(without_oid(b.pending, oid), oid) == without_oid(b.pending, oid),
{
    lemma_without_oid(b.pending, oid);
    lemma_without_oid(without_oid(b.pending, oid), oid);
}

proof fn lemma_without_oid(s: Seq<Order>, oid: u64)
    ensures
        forall|i: int| 0 <= i < without_oid(s, oid).len() ==> (#[trigger] without_oid(s, oid)[i]).oid != oid,
        (forall|i: int| 0 <= i < s.len() ==> (#[trigger] s[i]).oid != oid) ==> without_oid(s, oid) == s,
        open_quantity(without_oid(s, oid)) <= open_quantity(s),
    decreases s.len(),
{
    reveal(Seq::filter);
    let keep = |o: Order| o.oid != oid;
    let f = |o: Order| o.remaining as int;
    if s.len() > 0 {
        let prior: Seq<Order> = s.drop_last();
        lemma_without_oid(prior, oid);
        if s.last().oid != oid {
            assert(without_oid(s, oid) == without_oid(prior, oid).push(s.last()));
            lemma_total_push(without_oid(prior, oid), s.last(), f);
        } else {
            assert(s[s.len() - 1].oid == oid);
        }
        if forall|i: int| 0 <= i < s.len() ==> (#[trigger] s[i]).oid != oid {
            assert forall|i: int| 0 <= i < prior.len() implies (#[trigger] prior[i]).oid != oid by {
                assert(s[i].oid != oid);
            }
            assert(s[s.len() - 1].oid != oid);
            assert(without_oid(s, oid) =~= s);
        }
    }
}

/// Submitting and cancelling keep what is pending within what was
/// submitted, as long as the submitted total is representable.
pub proof fn law_submit_keeps_pending_accounted(b: BatchState, order: Order)
    requires
        pending_accounted(b),
        b.submitted + order.remaining <= u128::MAX,
    ensures
        pending_accounted(b.submitted(order)),
{
    if order.is_new_live_order() {
        lemma_total_push(b.pending, order, |o: Order| o.remaining as int);
    } else if order.is_cancellation() {
        lemma_without_oid(b.pending, order.oid);
    }
}

/// Clearing keeps what is pending within what was submitted.
pub proof fn law_clear_keeps_pending_accounted(b: BatchState)
    requires
        pending_accounted(b),
    ensures
        pending_accounted(b.cleared()),
{
    if b.price() is Some {
        lemma_residual_shrinks(b.pending, legs_of(b.batch()));
    }
}

proof fn lemma_residual_shrinks(orders: Seq<Order>, legs: Seq<Leg>)
    ensures
        open_quantity(residual(orders, legs)) <= open_quantity(orders),
    decreases orders.len(),
{
    if orders.len() > 0 {
        lemma_residual_shrinks(orders.drop_last(), legs);
        let oid: u64 = orders.last().oid;
        lemma_total_nonneg(legs, leg_part(oid));
        lemma_total_push(
            residual(orders.drop_last(), legs),
            orders.last().filled_by(filled_under(legs, oid)),
            |o: Order| o.remaining as int,
        );
    }
}

/// What is left of the first `n` orders is at most what the fills left at
/// their positions.
proof fn lemma_residual_within(orders: Seq<Order>, price: Price, n: int)
    requires
        0 <= n <= orders.len(),
    ensures
        ({
            let fills = fills_at(interests(orders), price);
            open_quantity(residual(orders.take(n), legs_at(interests(orders), price))) <= total(
                below(n),
                |x: int| orders[x].remaining - (bought_by(fills, x) + sold_by(fills, x)),
            )
        }),
    decreases n,
{
    let book: Seq<Interest> = interests(orders);
    let fills: Seq<(int, int, int)> = fills_at(book, price);
    let legs: Seq<Leg> = legs_at(book, price);
    let g = |x: int| orders[x].remaining - (bought_by(fills, x) + sold_by(fills, x));
    if n == 0 {
        assert(orders.take(0) =~= Seq::<Order>::empty());
    } else {
        lemma_residual_within(orders, price, n - 1);
        assert(orders.take(n).drop_last() =~= orders.take(n - 1));
        assert(below(n) =~= below(n - 1).push(n - 1));
        lemma_total_push(below(n - 1), n - 1, g);
        lemma_filled_at_least(book, price, n - 1);
        assert(book[n - 1] == interest_of(orders[n - 1]));
        let rest: Order = orders[n - 1].filled_by(filled_under(legs, orders[n - 1].oid));
        lemma_total_push(residual(orders.take(n - 1), legs), rest, |o: Order| o.remaining as int);
    }
}

/// A batch loses at least what it trades, on both sides.
proof fn lemma_batch_shrinks(b: BatchState, price: Price)
    requires
        b.price() == Some(price),
    ensures
        open_quantity(b.cleared().pending) + 2 * volume_of(b.batch()) <= open_quantity(b.pending),
        volume_of(b.batch()) >= 0,
{
    let orders: Seq<Order> = b.pending;
    let n: int = orders.len() as int;
    let book: Seq<Interest> = interests(orders);
    let fills: Seq<(int, int, int)> = fills_at(book, price);
    lemma_legs(b, price);
    lemma_residual_within(orders, price, n);
    assert(orders.take(n) =~= orders);
    lemma_shares_in_all(book, price);
    let rem = |x: int| orders[x].remaining as int;
    let left = |x: int| orders[x].remaining - (bought_by(fills, x) + sold_by(fills, x));
    let share = |x: int| bought_by(fills, x) + sold_by(fills, x);
    lemma_total_scaled(below(n), rem, left, share);
    lemma_total_same(below(n), orders, rem, |o: Order| o.remaining as int);
    law_auction_trades_all_it_can(book, price);
    lemma_batch_volume(b, price);
    lemma_total_nonneg(b.batch(), |t: Trade| t.quantity as int);
}

/// Submitting keeps what was filled and what is pending within what was
/// submitted, as long as the submitted total is representable. Only a
/// clearing fills: a cancelled order leaves the filled quantity as it was.
pub proof fn law_submit_keeps_fills_accounted(b: BatchState, order: Order)
    requires
        fills_accounted(b),
        b.submitted + order.remaining <= u128::MAX,
    ensures
        fills_accounted(b.submitted(order)),
        b.submitted(order).filled == b.filled,
        filled_is_traded(b) ==> filled_is_traded(b.submitted(order)),
{
    if order.is_new_live_order() {
        lemma_total_push(b.pending, order, |o: Order| o.remaining as int);
    } else if order.is_cancellation() {
        lemma_without_oid(b.pending, order.oid);
    }
}

/// Cancelling fills nothing, and keeps what was filled and what is pending
/// within what was submitted.
pub proof fn law_cancel_fills_nothing(b: BatchState, oid: u64)
    requires
        fills_accounted(b),
    ensures
        ({
            let after = BatchState { pending: without_oid(b.pending, oid), ..b };
            &&& after.filled == b.filled
            &&& fills_accounted(after)
        }),
{
    lemma_without_oid(b.pending, oid);
}

/// Clearing keeps what was filled and what is pending within what was
/// submitted, so the fill rate stays at or below one; and what was filled
/// stays twice what was traded, as far as that is representable.
pub proof fn law_clear_keeps_fills_accounted(b: BatchState)
    requires
        fills_accounted(b),
    ensures
        fills_accounted(b.cleared()),
        b.cleared().filled <= b.cleared().submitted,
        filled_is_traded(b) ==> filled_is_traded(b.cleared()),
{
    lemma_total_nonneg(b.cleared().pending, |o: Order| o.remaining as int);
    if let Some(price) = b.price() {
        lemma_batch_shrinks(b, price);
        lemma_total_nonneg(b.trades, |t: Trade| t.quantity as int);
        lemma_total_add(b.trades, b.batch(), |t: Trade| t.quantity as int);
    }
}

/// Every order that is left is one of the batch, less what was filled under
/// its id.
proof fn lemma_residual_member(orders: Seq<Order>, legs: Seq<Leg>, i: int) -> (x: int)
    requires
        0 <= i < residual(orders, legs).len(),
    ensures
        0 <= x < orders.len(),
        residual(orders, legs)[i] == orders[x].filled_by(filled_under(legs, orders[x].oid)),
        residual(orders, legs)[i].remaining > 0,
    decreases orders.len(),
{
    let before: Seq<Order> = residual(orders.drop_last(), legs);
    if i < before.len() {
        lemma_residual_member(orders.drop_last(), legs, i)
    } else {
        orders.len() - 1
    }
}

/// An order that is left was not filled whole.
proof fn lemma_left_unfilled(b: BatchState, price: Price, i: int) -> (x: int)
    requires
        b.price() == Some(price),
        distinct_oids(b.pending),
        0 <= i < b.cleared().pending.len(),
    ensures
        0 <= x < b.pending.len(),
        b.cleared().pending[i].side() == b.pending[x].side(),
        b.cleared().pending[i].kind() == b.pending[x].kind(),
        b.cleared().pending[i].limit_px == b.pending[x].limit_px,
        bought_by(fills_at(interests(b.pending), price), x) + sold_by(fills_at(interests(b.pending), price), x)
            < b.pending[x].remaining,
        bought_by(fills_at(interests(b.pending), price), x) >= 0,
        sold_by(fills_at(interests(b.pending), price), x) >= 0,
{
    let book: Seq<Interest> = interests(b.pending);
    lemma_batch_legs(b, price);
    let x: int = lemma_residual_member(b.pending, legs_of(b.batch()), i);
    lemma_filled_by_position(book, price, x);
    lemma_shares(book, price, x);
    assert(book[x] == interest_of(b.pending[x]));
    x
}

/// The best limit of a side is the limit of one of its orders.
proof fn lemma_best_limit(orders: Seq<Order>, side: Side) -> (i: int)
    requires
        best_limit(orders, side) is Some,
    ensures
        0 <= i < orders.len(),
        bids_at(orders[i], side),
        best_limit(orders, side) == Some(orders[i].limit_px),
    decreases orders.len(),
{
    let earlier: Option<Price> = best_limit(orders.drop_last(), side);
    let o: Order = orders.last();
    if bids_at(o, side) && (earlier is None || better(side, o.limit_px, earlier->0)) {
        orders.len() - 1
    } else {
        lemma_best_limit(orders.drop_last(), side)
    }
}

/// A clearing leaves no two limit orders that could still trade with each
/// other: every buy limit that is pending afterwards is below every sell
/// limit, and so is the best of them.
pub proof fn law_clearing_leaves_no_cross(b: BatchState)
    requires
        b.price() is Some,
        distinct_oids(b.pending),
    ensures
        forall|i: int, j: int|
            0 <= i < b.cleared().pending.len() && 0 <= j < b.cleared().pending.len() && bids_at(
                #[trigger] b.cleared().pending[i],
                Side::Buy,
            ) && bids_at(#[trigger] b.cleared().pending[j], Side::Sell) ==> b.cleared().pending[i].limit_px
                < b.cleared().pending[j].limit_px,
        best_limit(b.cleared().pending, Side::Buy) is Some && best_limit(b.cleared().pending, Side::Sell) is Some
            ==> best_limit(b.cleared().pending, Side::Buy)->0 < best_limit(b.cleared().pending, Side::Sell)->0,
{
    let price: Price = b.price()->0;
    let book: Seq<Interest> = interests(b.pending);
    let left: Seq<Order> = b.cleared().pending;
    assert forall|i: int, j: int|
        0 <= i < left.len() && 0 <= j < left.len() && bids_at(#[trigger] left[i], Side::Buy) && bids_at(
            #[trigger] left[j],
            Side::Sell,
        ) implies left[i].limit_px < left[j].limit_px by {
        let x: int = lemma_left_unfilled(b, price, i);
        let y: int = lemma_left_unfilled(b, price, j);
        assert(book[x] == interest_of(b.pending[x]) && book[y] == interest_of(b.pending[y]));
        lemma_no_cross(book, TieRule::Nearest { reference: b.last_price }, price, x, y);
    }
    if best_limit(left, Side::Buy) is Some && best_limit(left, Side::Sell) is Some {
        let i: int = lemma_best_limit(left, Side::Buy);
        let j: int = lemma_best_limit(left, Side::Sell);
        assert(left[i].limit_px < left[j].limit_px);
    }
}

} // verus!
