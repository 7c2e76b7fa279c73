//! What a batch clearing does, in terms of the orders that go in and the
//! trades and orders that come out.

use vstd::prelude::*;
use crate::engines::auction::{
    accepts, eligible, fills_at, is_best, lemma_queue_exists, limit_prices, matched_at, preferred, queue,
    served_before, volume_at, with_quantities, Interest, TieRule,
};
use crate::engines::auction_laws::{
    bought_by, law_auction_trades_all_it_can, law_batch_with_a_limit_clears, law_clearing_price_maximizes_volume,
    law_rationing_follows_the_queue, share_of, sold_by,
};
use crate::engines::fba::{batch_trade, interest_of, interests, latest_ts, legs_of, residual, BatchState};
use crate::engines::fba_laws::distinct_oids;
use crate::engines::fill_laws::{ids_differ, legs_at, lemma_fill_fits, lemma_filled_by_position, lemma_shares};
use crate::engines::legs::{filled_under, leg_part, Leg};
use crate::engines::plain::{
    ahead, at_market, filled_of, fill_part, gap, law_codes_tell_the_order, lesser, offered, opens, sold_in, taken,
    takes, withdraws,
};
use crate::seqs::{lemma_total_prefix, lemma_total_same, lemma_total_take};
use crate::types::{EngineKind, Order, Price, Side, Trade};

verus! {

/// Some order of the batch has this limit.
pub open spec fn names_limit(orders: Seq<Order>, price: Price) -> bool {
    exists|i: int| 0 <= i < orders.len() && !at_market(#[trigger] orders[i]) && orders[i].limit_px == price
}

pub open spec fn ask_of(side: Side) -> bool {
    match side {
        Side::Buy => false,
        Side::Sell => true,
    }
}

pub proof fn lemma_takes(o: Order, side: Side, price: Price)
    ensures
        eligible(interest_of(o), side, price) == takes(o, ask_of(side), price as int),
{
    law_codes_tell_the_order(o);
}

/// The auction's volumes are the quantities offered.
pub proof fn lemma_offered(orders: Seq<Order>, side: Side, price: Price)
    ensures
        volume_at(interests(orders), side, price) == offered(orders, ask_of(side), price as int),
{
    let f = |it: Interest| if eligible(it, side, price) { it.remaining as int } else { 0 };
    assert forall|i: int| 0 <= i < orders.len() implies f(#[trigger] interests(orders)[i]) == taken(
        ask_of(side),
        price as int,
    )(orders[i]) by {
        lemma_takes(orders[i], side, price);
    }
    lemma_total_same(interests(orders), orders, f, taken(ask_of(side), price as int));
}

pub proof fn lemma_named(orders: Seq<Order>, price: Price)
    ensures
        limit_prices(interests(orders)).contains(price) == names_limit(orders, price),
{
    let book: Seq<Interest> = interests(orders);
    if names_limit(orders, price) {
        let i: int = choose|i: int|
            0 <= i < orders.len() && !at_market(#[trigger] orders[i]) && orders[i].limit_px == price;
        law_codes_tell_the_order(orders[i]);
        assert(book[i].limit == Some(price));
    }
    if limit_prices(book).contains(price) {
        let i: int = choose|i: int| 0 <= i < book.len() && (#[trigger] book[i]).limit == Some(price);
        law_codes_tell_the_order(orders[i]);
        assert(!at_market(orders[i]) && orders[i].limit_px == price);
    }
}

/// A batch clears at one of its limits: the one at which the most is matched;
/// of those that match as much, the one with the least left over on the heavier
/// side; of those, the one nearest to the last price, or the lowest if there is
/// none or two are as near.
pub proof fn law_price_suits_the_batch(b: BatchState, price: Price, other: Price)
    requires
        b.price() == Some(price),
        names_limit(b.pending, other),
    ensures
        names_limit(b.pending, price),
        ({
            let (bid, ask) = (offered(b.pending, false, price as int), offered(b.pending, true, price as int));
            let (bid2, ask2) = (offered(b.pending, false, other as int), offered(b.pending, true, other as int));
            &&& lesser(bid2, ask2) <= lesser(bid, ask)
            &&& lesser(bid2, ask2) == lesser(bid, ask) ==> gap(bid, ask) <= gap(bid2, ask2)
            &&& lesser(bid2, ask2) == lesser(bid, ask) && gap(bid, ask) == gap(bid2, ask2) ==> match b.last_price {
                Some(last) => {
                    &&& gap(price as int, last as int) <= gap(other as int, last as int)
                    &&& gap(price as int, last as int) == gap(other as int, last as int) ==> price <= other
                },
                None => price <= other,
            }
        }),
{
    let book: Seq<Interest> = interests(b.pending);
    let rule: TieRule = TieRule::Nearest { reference: b.last_price };
    assert(is_best(book, rule, limit_prices(book), price));
    lemma_named(b.pending, price);
    lemma_named(b.pending, other);
    lemma_offered(b.pending, Side::Buy, price);
    lemma_offered(b.pending, Side::Sell, price);
    lemma_offered(b.pending, Side::Buy, other);
    lemma_offered(b.pending, Side::Sell, other);
    if other != price {
        assert(preferred(book, rule, price, other));
    }
}

/// A batch has a price exactly when it has a limit order, and no price at all,
/// named in it or not, would match more.
pub proof fn law_no_price_matches_more(b: BatchState, other: Price)
    ensures
        b.price() is Some <==> exists|i: int| 0 <= i < b.pending.len() && !at_market(#[trigger] b.pending[i]),
        b.price() matches Some(price) ==> lesser(
            offered(b.pending, false, other as int),
            offered(b.pending, true, other as int),
        ) <= lesser(offered(b.pending, false, price as int), offered(b.pending, true, price as int)),
{
    let book: Seq<Interest> = interests(b.pending);
    let rule: TieRule = TieRule::Nearest { reference: b.last_price };
    law_batch_with_a_limit_clears(book, rule);
    if exists|i: int| 0 <= i < b.pending.len() && !at_market(#[trigger] b.pending[i]) {
        let i: int = choose|i: int| 0 <= i < b.pending.len() && !at_market(#[trigger] b.pending[i]);
        law_codes_tell_the_order(b.pending[i]);
        assert(book[i].limit is Some);
    }
    if exists|i: int| 0 <= i < book.len() && (#[trigger] book[i]).limit is Some {
        let i: int = choose|i: int| 0 <= i < book.len() && (#[trigger] book[i]).limit is Some;
        law_codes_tell_the_order(b.pending[i]);
        assert(!at_market(b.pending[i]));
    }
    if let Some(price) = b.price() {
        law_clearing_price_maximizes_volume(book, rule, price, other);
        lemma_offered(b.pending, Side::Buy, price);
        lemma_offered(b.pending, Side::Sell, price);
        lemma_offered(b.pending, Side::Buy, other);
        lemma_offered(b.pending, Side::Sell, other);
    }
}

pub proof fn lemma_latest(orders: Seq<Order>)
    ensures
        forall|i: int| 0 <= i < orders.len() ==> (#[trigger] orders[i]).ts <= latest_ts(orders),
        orders.len() > 0 ==> exists|i: int| 0 <= i < orders.len() && (#[trigger] orders[i]).ts == latest_ts(orders),
    decreases orders.len(),
{
    if orders.len() > 0 {
        let before: Seq<Order> = orders.drop_last();
        lemma_latest(before);
        assert forall|i: int| 0 <= i < orders.len() implies (#[trigger] orders[i]).ts <= latest_ts(orders) by {
            if i < before.len() {
                assert(before[i].ts <= latest_ts(before));
            }
        }
        assert(orders[orders.len() - 1] == orders.last());
        if before.len() > 0 && orders.last().ts <= latest_ts(before) {
            let i: int = choose|i: int| 0 <= i < before.len() && (#[trigger] before[i]).ts == latest_ts(before);
            assert(orders[i] == before[i]);
        } else {
            assert(orders[orders.len() - 1].ts == latest_ts(orders));
        }
    }
}

/// This trade is between a bid and an ask of the batch that both take the
/// price.
pub open spec fn joins(t: Trade, orders: Seq<Order>, x: int, y: int) -> bool {
    &&& 0 <= x < orders.len()
    &&& 0 <= y < orders.len()
    &&& takes(orders[x], false, t.price as int)
    &&& takes(orders[y], true, t.price as int)
    &&& t.buy_order_id == orders[x].oid
    &&& t.buyer_id == orders[x].user_id
    &&& t.sell_order_id == orders[y].oid
    &&& t.seller_id == orders[y].user_id
}

/// A batch trades as much as both sides offer at its price, every trade at
/// that price and between a bid and an ask that take it. The trades are
/// numbered on from the last one, and dated by the latest order.
pub proof fn law_batch_trades_what_both_sides_offer(b: BatchState, price: Price)
    requires
        b.price() == Some(price),
        b.can_clear(),
    ensures
        sold_in(b.batch()) == lesser(offered(b.pending, false, price as int), offered(b.pending, true, price as int)),
        b.cleared().trades == b.trades + b.batch(),
        b.cleared().next_trade_id == b.next_trade_id + b.batch().len(),
        forall|i: int|
            0 <= i < b.batch().len() ==> {
                let t = #[trigger] b.batch()[i];
                &&& t.price == price
                &&& t.quantity > 0
                &&& b.next_trade_id >= 0 ==> t.trade_id == b.next_trade_id + i
                &&& t.engine_type == EngineKind::Fba
                &&& t.trade_tx_hash is None
                &&& t.chain_id is None
                &&& exists|x: int, y: int| #[trigger] joins(t, b.pending, x, y)
                &&& forall|k: int| 0 <= k < b.pending.len() ==> (#[trigger] b.pending[k]).ts <= t.ts
                &&& exists|k: int| 0 <= k < b.pending.len() && (#[trigger] b.pending[k]).ts == t.ts
            },
{
    let book: Seq<Interest> = interests(b.pending);
    let fills: Seq<(int, int, int)> = fills_at(book, price);
    law_auction_trades_all_it_can(book, price);
    lemma_fill_fits(book, price);
    lemma_latest(b.pending);
    lemma_offered(b.pending, Side::Buy, price);
    lemma_offered(b.pending, Side::Sell, price);
    assert forall|i: int| 0 <= i < fills.len() implies (#[trigger] b.batch()[i]).quantity as int == fills[i].2 by {
        assert(0 < fills[i].2 <= u128::MAX);
    }
    lemma_total_same(b.batch(), fills, |t: Trade| t.quantity as int, |f: (int, int, int)| f.2);
    assert forall|i: int| 0 <= i < b.batch().len() implies {
        let t = #[trigger] b.batch()[i];
        &&& t.price == price
        &&& t.quantity > 0
        &&& b.next_trade_id >= 0 ==> t.trade_id == b.next_trade_id + i
        &&& t.engine_type == EngineKind::Fba
        &&& t.trade_tx_hash is None
        &&& t.chain_id is None
        &&& exists|x: int, y: int| #[trigger] joins(t, b.pending, x, y)
        &&& forall|k: int| 0 <= k < b.pending.len() ==> (#[trigger] b.pending[k]).ts <= t.ts
        &&& exists|k: int| 0 <= k < b.pending.len() && (#[trigger] b.pending[k]).ts == t.ts
    } by {
        let (x, y, qty) = fills[i];
        assert(b.batch()[i] == batch_trade(b.pending, fills[i], price, b.next_trade_id + i));
        assert(0 < fills[i].2 <= u128::MAX);
        assert(book[x] == interest_of(b.pending[x]) && book[y] == interest_of(b.pending[y]));
        lemma_takes(b.pending[x], Side::Buy, price);
        lemma_takes(b.pending[y], Side::Sell, price);
        assert(joins(b.batch()[i], b.pending, x, y));
    }
}

/// What a clearing reports: demand, supply and what was left over at its price.
/// The price becomes the last one only if something traded.
pub proof fn law_clearing_reports_the_batch(b: BatchState, price: Price)
    requires
        b.price() == Some(price),
    ensures
        b.cleared().last_demand == offered(b.pending, false, price as int),
        b.cleared().last_supply == offered(b.pending, true, price as int),
        b.cleared().last_unexecuted == gap(
            offered(b.pending, false, price as int),
            offered(b.pending, true, price as int),
        ),
        b.cleared().last_price == (if sold_in(b.batch()) > 0 {
            Some(price)
        } else {
            b.last_price
        }),
        b.cleared().submitted == b.submitted,
        b.filled >= 0 ==> b.cleared().filled == lesser(b.filled + 2 * sold_in(b.batch()), u128::MAX as int),
{
    lemma_offered(b.pending, Side::Buy, price);
    lemma_offered(b.pending, Side::Sell, price);
}

proof fn lemma_legs_of_trades(trades: Seq<Trade>, oid: u64)
    ensures
        filled_under(legs_of(trades), oid) == filled_of(trades, oid),
{
    lemma_total_same(legs_of(trades), trades, leg_part(oid), fill_part(oid));
}

proof fn lemma_batch_fills(b: BatchState, price: Price, x: int)
    requires
        b.price() == Some(price),
        distinct_oids(b.pending),
        0 <= x < b.pending.len(),
    ensures
        ids_differ(interests(b.pending)),
        legs_of(b.batch()) == legs_at(interests(b.pending), price),
        filled_of(b.batch(), b.pending[x].oid) == bought_by(fills_at(interests(b.pending), price), x) + sold_by(
            fills_at(interests(b.pending), price),
            x,
        ),
        0 <= filled_of(b.batch(), b.pending[x].oid) <= b.pending[x].remaining,
        !takes(b.pending[x], b.pending[x].is_ask, price as int) ==> filled_of(b.batch(), b.pending[x].oid) == 0,
        b.pending[x].is_ask ==> bought_by(fills_at(interests(b.pending), price), x) == 0,
        !b.pending[x].is_ask ==> sold_by(fills_at(interests(b.pending), price), x) == 0,
{
    let book: Seq<Interest> = interests(b.pending);
    let fills: Seq<(int, int, int)> = fills_at(book, price);
    law_auction_trades_all_it_can(book, price);
    assert forall|i: int| 0 <= i < fills.len() implies legs_of(b.batch())[i] == legs_at(book, price)[i] by {
        let (c, d, qty) = fills[i];
        assert(b.batch()[i] == batch_trade(b.pending, fills[i], price, b.next_trade_id + i));
        assert(book[c] == interest_of(b.pending[c]) && book[d] == interest_of(b.pending[d]));
    }
    assert(legs_of(b.batch()) =~= legs_at(book, price));
    assert forall|i: int, j: int| 0 <= i < j < book.len() implies (#[trigger] book[i]).oid != (#[trigger] book[j]).oid by {
        assert(b.pending[i].oid != b.pending[j].oid);
    }
    lemma_filled_by_position(book, price, x);
    lemma_shares(book, price, x);
    lemma_legs_of_trades(b.batch(), b.pending[x].oid);
    law_codes_tell_the_order(b.pending[x]);
    lemma_takes(b.pending[x], b.pending[x].side(), price);
    assert(book[x] == interest_of(b.pending[x]));
}

/// No order is filled beyond what it had, nor at a price that it does not
/// take; and of two orders on one side, the one that is served later gets
/// nothing before the other is filled whole.
pub proof fn law_fills_go_by_priority(b: BatchState, price: Price, x: int, y: int)
    requires
        b.price() == Some(price),
        distinct_oids(b.pending),
        0 <= x < b.pending.len(),
        0 <= y < b.pending.len(),
    ensures
        0 <= filled_of(b.batch(), b.pending[x].oid) <= b.pending[x].remaining,
        filled_of(b.batch(), b.pending[x].oid) > 0 ==> takes(b.pending[x], b.pending[x].is_ask, price as int),
        b.pending[x].is_ask == b.pending[y].is_ask && ahead(b.pending[x], b.pending[y]) && filled_of(
            b.batch(),
            b.pending[y].oid,
        ) > 0 ==> filled_of(b.batch(), b.pending[x].oid) == b.pending[x].remaining,
{
    let book: Seq<Interest> = interests(b.pending);
    lemma_batch_fills(b, price, x);
    lemma_batch_fills(b, price, y);
    let (a, c): (Order, Order) = (b.pending[x], b.pending[y]);
    if a.is_ask == c.is_ask && ahead(a, c) && filled_of(b.batch(), c.oid) > 0 {
        let side: Side = a.side();
        law_codes_tell_the_order(a);
        law_codes_tell_the_order(c);
        lemma_takes(a, side, price);
        lemma_takes(c, side, price);
        assert(book[x] == interest_of(a) && book[y] == interest_of(c));
        assert(eligible(book[y], side, price));
        assert(accepts(side, book[x].limit, price));
        lemma_queue_exists(book, side, price);
        law_rationing_follows_the_queue(book, price);
        let q: Seq<int> = queue(book, side, price);
        assert(q.contains(x) && q.contains(y));
        let k: int = choose|k: int| 0 <= k < q.len() && q[k] == x;
        let l: int = choose|l: int| 0 <= l < q.len() && q[l] == y;
        if l <= k {
            if l < k {
                assert(served_before(book, q[l], q[k]));
            }
            assert(false);
        }
        let s: Seq<(int, int)> = with_quantities(book, q);
        let own = |e: (int, int)| e.1;
        assert(match side {
            Side::Buy => bought_by(fills_at(book, price), q[k]),
            Side::Sell => sold_by(fills_at(book, price), q[k]),
        } == share_of(s, k, matched_at(book, price)));
        assert(match side {
            Side::Buy => bought_by(fills_at(book, price), q[l]),
            Side::Sell => sold_by(fills_at(book, price), q[l]),
        } == share_of(s, l, matched_at(book, price)));
        lemma_total_take(s, k, own);
        lemma_total_prefix(s.take(l), k + 1, own);
        assert(s.take(l).take(k + 1) =~= s.take(k + 1));
    }
}

proof fn lemma_residual_places(orders: Seq<Order>, legs: Seq<Leg>) -> (at: Seq<int>)
    ensures
        at.len() == residual(orders, legs).len(),
        forall|i: int|
            0 <= i < at.len() ==> 0 <= #[trigger] at[i] < orders.len() && residual(orders, legs)[i]
                == orders[at[i]].filled_by(filled_under(legs, orders[at[i]].oid)) && residual(orders, legs)[i].remaining
                > 0,
        forall|i: int, j: int| 0 <= i < j < at.len() ==> #[trigger] at[i] < #[trigger] at[j],
        forall|x: int|
            0 <= x < orders.len() && (#[trigger] orders[x]).filled_by(filled_under(legs, orders[x].oid)).remaining > 0
                ==> at.contains(x),
    decreases orders.len(),
{
    if orders.len() == 0 {
        Seq::empty()
    } else {
        let short: Seq<Order> = orders.drop_last();
        let before: Seq<int> = lemma_residual_places(short, legs);
        let n: int = orders.len() - 1;
        let last: Order = orders.last().filled_by(filled_under(legs, orders.last().oid));
        let at: Seq<int> = if last.remaining > 0 {
            before.push(n)
        } else {
            before
        };
        assert forall|i: int| 0 <= i < at.len() implies 0 <= #[trigger] at[i] < orders.len() && residual(orders, legs)[i]
            == orders[at[i]].filled_by(filled_under(legs, orders[at[i]].oid)) && residual(orders, legs)[i].remaining > 0 by {
            if i < before.len() {
                assert(0 <= before[i] < short.len());
                assert(short[before[i]] == orders[before[i]]);
            }
        }
        assert forall|i: int, j: int| 0 <= i < j < at.len() implies #[trigger] at[i] < #[trigger] at[j] by {
            if j < before.len() {
                assert(before[i] < before[j]);
            } else {
                assert(before[i] < short.len());
            }
        }
        assert forall|x: int|
            0 <= x < orders.len() && (#[trigger] orders[x]).filled_by(filled_under(legs, orders[x].oid)).remaining
                > 0 implies at.contains(x) by {
            if x < n {
                assert(short[x] == orders[x]);
                assert(before.contains(x));
                let i: int = choose|i: int| 0 <= i < before.len() && before[i] == x;
                assert(at[i] == x);
            } else {
                assert(at[at.len() - 1] == n);
            }
        }
        at
    }
}

/// What is pending after a clearing are the orders that were pending before, in
/// their order and as they were, each less what it traded; those that traded
/// all they had are gone.
pub proof fn law_clearing_rolls_over_the_rest(b: BatchState, price: Price) -> (at: Seq<int>)
    requires
        b.price() == Some(price),
        distinct_oids(b.pending),
    ensures
        at.len() == b.cleared().pending.len(),
        forall|i: int|
            0 <= i < at.len() ==> {
                let before = b.pending[#[trigger] at[i]];
                &&& 0 <= at[i] < b.pending.len()
                &&& filled_of(b.batch(), before.oid) < before.remaining
                &&& b.cleared().pending[i] == (Order {
                    remaining: (before.remaining - filled_of(b.batch(), before.oid)) as u128,
                    ..before
                })
            },
        forall|i: int, j: int| 0 <= i < j < at.len() ==> #[trigger] at[i] < #[trigger] at[j],
        forall|x: int|
            0 <= x < b.pending.len() && filled_of(b.batch(), (#[trigger] b.pending[x]).oid) < b.pending[x].remaining
                ==> at.contains(x),
{
    let legs: Seq<Leg> = legs_of(b.batch());
    let at: Seq<int> = lemma_residual_places(b.pending, legs);
    assert forall|i: int| 0 <= i < at.len() implies {
        let before = b.pending[#[trigger] at[i]];
        &&& 0 <= at[i] < b.pending.len()
        &&& filled_of(b.batch(), before.oid) < before.remaining
        &&& b.cleared().pending[i] == (Order {
            remaining: (before.remaining - filled_of(b.batch(), before.oid)) as u128,
            ..before
        })
    } by {
        lemma_batch_fills(b, price, at[i]);
        lemma_legs_of_trades(b.batch(), b.pending[at[i]].oid);
    }
    assert forall|x: int|
        0 <= x < b.pending.len() && filled_of(b.batch(), (#[trigger] b.pending[x]).oid)
            < b.pending[x].remaining implies at.contains(x) by {
        lemma_batch_fills(b, price, x);
        lemma_legs_of_trades(b.batch(), b.pending[x].oid);
        assert(b.pending[x].filled_by(filled_under(legs, b.pending[x].oid)).remaining > 0);
    }
    at
}

/// A batch without a price stays as it is.
pub proof fn law_no_price_no_change(b: BatchState)
    requires
        b.price() is None,
    ensures
        b.cleared() == b,
        b.batch() == Seq::<Trade>::empty(),
{
}

/// A record that opens an order puts it behind those pending; one that
/// withdraws an order leaves exactly the pending orders of other ids, in their
/// order; any other record changes nothing. Nothing trades before a clearing.
pub proof fn law_submitting_only_queues(b: BatchState, o: Order)
    ensures
        b.submitted(o).trades == b.trades,
        b.submitted(o).last_price == b.last_price,
        b.submitted(o).next_trade_id == b.next_trade_id,
        b.submitted(o).filled == b.filled,
        opens(o) ==> b.submitted(o).pending == b.pending.push(o) && (b.submitted >= 0 ==> b.submitted(o).submitted == lesser(
            b.submitted + o.remaining,
            u128::MAX as int,
        )),
        withdraws(o) ==> b.submitted(o).submitted == b.submitted && b.submitted(o).pending == b.pending.filter(
            |p: Order| p.oid != o.oid,
        ),
        !opens(o) && !withdraws(o) ==> b.submitted(o) == b,
{
    law_codes_tell_the_order(o);
}

} // verus!
