//! What trading does in one pair of several, in terms of the orders that go in
//! and the trades and orders that come out.

use vstd::prelude::*;
use crate::engines::auction::{clearing_price, fills_at, limit_prices, preferred, Interest, TieRule};
use crate::engines::auction_laws::law_auction_trades_all_it_can;
use crate::engines::batch_laws::{lemma_latest, lemma_named, lemma_offered, lemma_takes, names_limit};
use crate::engines::cda::crosses;
use crate::engines::cda_laws::lemma_sweep;
use crate::engines::fill_laws::lemma_fill_fits;
use crate::engines::legs::{filled_under, leg_part, Leg};
use crate::engines::match_laws::{in_order, lemma_sweeps_its_reach, lemma_total_left, reaches, within_reach};
use crate::engines::plain::{ahead, at_market, gap, law_codes_tell_the_order, lesser, offered, takes};
use crate::multi_asset::batches::{
    batch_trade, interest_of, interests, is_result, latest_ts, legs_of, residual, ClearingResult,
};
use crate::multi_asset::clearing::{candidates, pair_price};
use crate::multi_asset::clearing_laws::law_every_batch_has_a_price;
use crate::multi_asset::matching::{no_worse, not_behind, rank_index, ranked, sweep, sweep_trade, Sides, Sweep};
use crate::multi_asset::types::{AssetPair, Order, Trade};
use crate::seqs::{lemma_leading_run, lemma_total_same, min_of, total};
use crate::types::{Price, Side};

verus! {

/// The order without its pair.
pub open spec fn bare(o: Order) -> crate::types::Order {
    crate::types::Order {
        ts: o.ts,
        user_id: o.user_id,
        is_builder: o.is_builder,
        status_id: o.status_id,
        is_ask: o.is_ask,
        limit_px: o.limit_px,
        sz: o.sz,
        oid: o.oid,
        timestamp_diff: o.timestamp_diff,
        trigger_condition: o.trigger_condition,
        triggered: o.triggered,
        is_trigger: o.is_trigger,
        has_children: o.has_children,
        is_position_tpsl: o.is_position_tpsl,
        reduce_only: o.reduce_only,
        order_type_id: o.order_type_id,
        tif_id: o.tif_id,
        trigger_px: o.trigger_px,
        orig_sz: o.orig_sz,
        closed_ts: 0,
        status: o.status,
        order_type: o.order_type,
        tif: o.tif,
        remaining: o.remaining,
    }
}

pub open spec fn bares(orders: Seq<Order>) -> Seq<crate::types::Order> {
    Seq::new(orders.len(), |i: int| bare(orders[i]))
}

pub proof fn lemma_bare(o: Order)
    ensures
        o.side() == bare(o).side(),
        o.kind() == bare(o).kind(),
        o.limit_price() == bare(o).limit_price(),
        o.is_new_live_order() == crate::engines::plain::opens(bare(o)),
        interest_of(o) == crate::engines::fba::interest_of(bare(o)),
{
    law_codes_tell_the_order(bare(o));
}

pub proof fn lemma_bares(orders: Seq<Order>)
    ensures
        interests(orders) == crate::engines::fba::interests(bares(orders)),
        latest_ts(orders) == crate::engines::fba::latest_ts(bares(orders)),
    decreases orders.len(),
{
    assert forall|i: int| 0 <= i < orders.len() implies interests(orders)[i] == crate::engines::fba::interests(
        bares(orders),
    )[i] by {
        lemma_bare(orders[i]);
    }
    assert(interests(orders) =~= crate::engines::fba::interests(bares(orders)));
    if orders.len() > 0 {
        lemma_bares(orders.drop_last());
        assert(bares(orders).drop_last() =~= bares(orders.drop_last()));
    }
}

/// A pair clears at one of the limits of its orders: the one at which the most
/// is matched; of those that match as much, the one with the least left over on
/// the heavier side; of those the highest. Orders without any limit clear at a
/// price of one.
pub proof fn law_pair_price_suits_the_batch(orders: Seq<Order>, other: Price)
    ensures
        names_limit(bares(orders), other) ==> {
            let price = pair_price(orders);
            let (bid, ask) = (offered(bares(orders), false, price as int), offered(bares(orders), true, price as int));
            let (bid2, ask2) = (
                offered(bares(orders), false, other as int),
                offered(bares(orders), true, other as int),
            );
            &&& names_limit(bares(orders), price)
            &&& lesser(bid2, ask2) <= lesser(bid, ask)
            &&& lesser(bid2, ask2) == lesser(bid, ask) ==> gap(bid, ask) <= gap(bid2, ask2)
            &&& lesser(bid2, ask2) == lesser(bid, ask) && gap(bid, ask) == gap(bid2, ask2) ==> other <= price
        },
        (forall|i: int| 0 <= i < orders.len() ==> at_market(#[trigger] bares(orders)[i])) ==> pair_price(orders)
            == 1_000_000,
{
    let book: Seq<Interest> = interests(orders);
    let price: Price = pair_price(orders);
    let plain: Seq<crate::types::Order> = bares(orders);
    lemma_bares(orders);
    law_every_batch_has_a_price(orders);
    lemma_named(plain, price);
    lemma_named(plain, other);
    lemma_offered(plain, Side::Buy, price);
    lemma_offered(plain, Side::Sell, price);
    lemma_offered(plain, Side::Buy, other);
    lemma_offered(plain, Side::Sell, other);
    if names_limit(plain, other) {
        assert(limit_prices(book).contains(other));
        assert(limit_prices(book) != Set::<Price>::empty());
        assert(candidates(orders) == limit_prices(book));
        if other != price {
            assert(preferred(book, TieRule::Highest, price, other));
        }
    }
    if forall|i: int| 0 <= i < orders.len() ==> at_market(#[trigger] plain[i]) {
        assert forall|p: Price| !limit_prices(book).contains(p) by {
            lemma_named(plain, p);
            if names_limit(plain, p) {
                let i: int = choose|i: int|
                    0 <= i < plain.len() && !at_market(#[trigger] plain[i]) && plain[i].limit_px == p;
                assert(at_market(plain[i]));
            }
        }
        assert(limit_prices(book) =~= Set::<Price>::empty());
        assert(candidates(orders).contains(price));
    }
}

/// The quantity of a list of trades.
pub open spec fn sold_in(trades: Seq<Trade>) -> int {
    total(trades, |t: Trade| t.quantity as int)
}

/// This trade is between a bid and an ask of the batch that both take its
/// price.
pub open spec fn joins(t: Trade, orders: Seq<Order>, x: int, y: int) -> bool {
    &&& 0 <= x < orders.len()
    &&& 0 <= y < orders.len()
    &&& takes(bare(orders[x]), false, t.price as int)
    &&& takes(bare(orders[y]), true, t.price as int)
    &&& t.buy_order_id == orders[x].oid
    &&& t.buyer_id == orders[x].user_id
    &&& t.sell_order_id == orders[y].oid
    &&& t.seller_id == orders[y].user_id
}

/// A cleared batch reports what was bid and asked at its price, and trades the
/// lesser of the two: every trade is of the pair, at that price, and between a
/// bid and an ask that take it. The trades are numbered on and dated by the
/// latest order.
pub proof fn law_pair_trades_what_both_sides_offer(
    r: ClearingResult,
    orders: Seq<Order>,
    pair: AssetPair,
    price: Price,
    first_id: int,
)
    requires
        is_result(r, orders, pair, price, first_id),
        0 <= first_id,
        first_id + orders.len() <= u64::MAX,
        offered(bares(orders), false, price as int) <= u128::MAX,
        offered(bares(orders), true, price as int) <= u128::MAX,
    ensures
        r.pair == pair,
        r.clearing_price == price,
        r.demand_at_price == offered(bares(orders), false, price as int),
        r.supply_at_price == offered(bares(orders), true, price as int),
        r.traded_quantity == lesser(r.demand_at_price as int, r.supply_at_price as int),
        sold_in(r.trades@) == r.traded_quantity,
        forall|i: int|
            0 <= i < r.trades@.len() ==> {
                let t = #[trigger] r.trades@[i];
                &&& t.pair == pair
                &&& t.price == price
                &&& t.quantity > 0
                &&& t.trade_id == first_id + i
                &&& t.trade_tx_hash is None
                &&& t.chain_id is None
                &&& exists|x: int, y: int| #[trigger] joins(t, orders, x, y)
                &&& forall|k: int| 0 <= k < orders.len() ==> (#[trigger] orders[k]).ts <= t.ts
                &&& exists|k: int| 0 <= k < orders.len() && (#[trigger] orders[k]).ts == t.ts
            },
{
    let book: Seq<Interest> = interests(orders);
    let plain: Seq<crate::types::Order> = bares(orders);
    let fills: Seq<(int, int, int)> = fills_at(book, price);
    lemma_bares(orders);
    law_auction_trades_all_it_can(book, price);
    lemma_fill_fits(book, price);
    lemma_latest(plain);
    lemma_offered(plain, Side::Buy, price);
    lemma_offered(plain, Side::Sell, price);
    assert forall|i: int| 0 <= i < fills.len() implies (#[trigger] r.trades@[i]).quantity as int == fills[i].2 by {
        assert(0 < fills[i].2 <= u128::MAX);
    }
    lemma_total_same(r.trades@, fills, |t: Trade| t.quantity as int, |f: (int, int, int)| f.2);
    assert forall|i: int| 0 <= i < r.trades@.len() implies {
        let t = #[trigger] r.trades@[i];
        &&& t.pair == pair
        &&& t.price == price
        &&& t.quantity > 0
        &&& t.trade_id == first_id + i
        &&& t.trade_tx_hash is None
        &&& t.chain_id is None
        &&& exists|x: int, y: int| #[trigger] joins(t, orders, x, y)
        &&& forall|k: int| 0 <= k < orders.len() ==> (#[trigger] orders[k]).ts <= t.ts
        &&& exists|k: int| 0 <= k < orders.len() && (#[trigger] orders[k]).ts == t.ts
    } by {
        let (x, y, qty) = fills[i];
        let t: Trade = r.trades@[i];
        assert(t == batch_trade(orders, pair, fills[i], price, first_id + i));
        assert(0 < fills[i].2 <= u128::MAX);
        assert(book[x] == interest_of(orders[x]) && book[y] == interest_of(orders[y]));
        lemma_bare(orders[x]);
        lemma_bare(orders[y]);
        lemma_takes(bare(orders[x]), Side::Buy, price);
        lemma_takes(bare(orders[y]), Side::Sell, price);
        assert(joins(t, orders, x, y));
        assert forall|k: int| 0 <= k < orders.len() implies (#[trigger] orders[k]).ts <= t.ts by {
            assert(plain[k].ts <= latest_ts(orders));
        }
        let k: int = choose|k: int| 0 <= k < plain.len() && (#[trigger] plain[k]).ts == latest_ts(orders);
        assert(orders[k].ts == t.ts);
    }
}

/// What a trade fills of the order with this id.
pub open spec fn fill_part(oid: u64) -> spec_fn(Trade) -> int {
    |t: Trade|
        (if t.buy_order_id == oid {
            t.quantity as int
        } else {
            0
        }) + (if t.sell_order_id == oid {
            t.quantity as int
        } else {
            0
        })
}

/// What the trades fill of the order with this id.
pub open spec fn filled_of(trades: Seq<Trade>, oid: u64) -> int {
    total(trades, fill_part(oid))
}

proof fn lemma_filled_of(trades: Seq<Trade>, oid: u64)
    ensures
        filled_under(legs_of(trades), oid) == filled_of(trades, oid),
        filled_of(trades, oid) >= 0,
{
    lemma_total_same(legs_of(trades), trades, leg_part(oid), fill_part(oid));
    crate::seqs::lemma_total_nonneg(trades, fill_part(oid));
}

/// What is left of a batch are its orders, in their order and as they were,
/// each less what the trades filled of it; those of which nothing is left are
/// gone. The places tell which order each one was.
pub proof fn law_leftovers_are_what_was_not_filled(orders: Seq<Order>, trades: Seq<Trade>) -> (at: Seq<int>)
    ensures
        at.len() == residual(orders, legs_of(trades)).len(),
        forall|i: int|
            0 <= i < at.len() ==> {
                let before = orders[#[trigger] at[i]];
                &&& 0 <= at[i] < orders.len()
                &&& filled_of(trades, before.oid) < before.remaining
                &&& residual(orders, legs_of(trades))[i] == (Order {
                    remaining: (before.remaining - filled_of(trades, before.oid)) as u128,
                    ..before
                })
            },
        forall|i: int, j: int| 0 <= i < j < at.len() ==> #[trigger] at[i] < #[trigger] at[j],
        forall|x: int|
            0 <= x < orders.len() && filled_of(trades, (#[trigger] orders[x]).oid) < orders[x].remaining ==> at.contains(
                x,
            ),
    decreases orders.len(),
{
    if orders.len() == 0 {
        Seq::empty()
    } else {
        let legs: Seq<Leg> = legs_of(trades);
        let short: Seq<Order> = orders.drop_last();
        let before: Seq<int> = law_leftovers_are_what_was_not_filled(short, trades);
        let n: int = orders.len() - 1;
        lemma_filled_of(trades, orders.last().oid);
        let kept: bool = filled_of(trades, orders.last().oid) < orders.last().remaining;
        let at: Seq<int> = if kept {
            before.push(n)
        } else {
            before
        };
        assert forall|i: int| 0 <= i < before.len() implies 0 <= #[trigger] before[i] < short.len() && short[before[i]]
            == orders[before[i]] by {}
        assert forall|i: int| 0 <= i < at.len() implies {
            let was = orders[#[trigger] at[i]];
            &&& 0 <= at[i] < orders.len()
            &&& filled_of(trades, was.oid) < was.remaining
            &&& residual(orders, legs)[i] == (Order {
                remaining: (was.remaining - filled_of(trades, was.oid)) as u128,
                ..was
            })
        } by {
            if i < before.len() {
                assert(at[i] == before[i]);
                assert(short[before[i]] == orders[before[i]]);
            }
        }
        assert forall|i: int, j: int| 0 <= i < j < at.len() implies #[trigger] at[i] < #[trigger] at[j] by {
            if j < before.len() {
                assert(before[i] < before[j]);
            } else {
                assert(before[i] < short.len());
            }
        }
        assert forall|x: int|
            0 <= x < orders.len() && filled_of(trades, (#[trigger] orders[x]).oid)
                < orders[x].remaining implies at.contains(x) by {
            if x < n {
                assert(short[x] == orders[x]);
                assert(before.contains(x));
                let i: int = choose|i: int| 0 <= i < before.len() && before[i] == x;
                assert(at[i] == x);
            } else {
                assert(at[at.len() - 1] == n);
            }
        }
        at
    }
}

/// Limit orders of one side with something left, in price-time order.
pub open spec fn solid(ask: bool, s: Seq<Order>) -> bool {
    in_order(ask, bares(s))
}

/// The orders that an incoming one meets.
pub open spec fn facing(s: Sides, o: Order) -> Seq<Order> {
    if o.is_ask {
        s.bids
    } else {
        s.asks
    }
}

/// The orders of an incoming one's own side.
pub open spec fn beside(s: Sides, o: Order) -> Seq<Order> {
    if o.is_ask {
        s.asks
    } else {
        s.bids
    }
}

/// An incoming order goes on: it takes all of the best resting order and has
/// not had enough.
spec fn goes_on(taker: Order, makers: Seq<Order>) -> bool {
    &&& 0 < taker.remaining
    &&& makers.len() > 0
    &&& crosses(taker.kind(), makers[0].kind(), taker.side())
    &&& 0 < makers[0].remaining <= taker.remaining
}

/// It takes a part of the best resting order and has had enough.
spec fn has_enough(taker: Order, makers: Seq<Order>) -> bool {
    &&& makers.len() > 0
    &&& crosses(taker.kind(), makers[0].kind(), taker.side())
    &&& 0 < taker.remaining < makers[0].remaining
}

proof fn lemma_one_step(taker: Order, makers: Seq<Order>)
    ensures
        goes_on(taker, makers) ==> {
            let qty = makers[0].remaining as int;
            let rest = sweep(taker.filled_by(qty), makers.drop_first());
            sweep(taker, makers) == (Sweep { fills: seq![(makers[0], qty)] + rest.fills, ..rest })
        },
        has_enough(taker, makers) ==> sweep(taker, makers) == (Sweep {
            fills: seq![(makers[0], taker.remaining as int)],
            makers: makers.update(0, makers[0].filled_by(taker.remaining as int)),
            left: 0,
        }),
        !goes_on(taker, makers) && !has_enough(taker, makers) ==> sweep(taker, makers) == (Sweep {
            fills: Seq::empty(),
            makers,
            left: taker.remaining as int,
        }),
{
    if has_enough(taker, makers) {
        let first: Seq<(Order, int)> = seq![(makers[0], taker.remaining as int)];
        assert(first + Seq::<(Order, int)>::empty() =~= first);
    }
}

proof fn lemma_one_bare_step(taker: Order, makers: Seq<Order>)
    ensures
        ({
            let b = crate::engines::cda::sweep(bare(taker), bares(makers));
            &&& goes_on(taker, makers) ==> {
                let qty = makers[0].remaining as int;
                let rest = crate::engines::cda::sweep(bare(taker.filled_by(qty)), bares(makers.drop_first()));
                b == (crate::engines::cda::Sweep { fills: seq![(bare(makers[0]), qty)] + rest.fills, ..rest })
            }
            &&& has_enough(taker, makers) ==> b == (crate::engines::cda::Sweep {
                fills: seq![(bare(makers[0]), taker.remaining as int)],
                makers: bares(makers.update(0, makers[0].filled_by(taker.remaining as int))),
                left: 0,
            })
            &&& !goes_on(taker, makers) && !has_enough(taker, makers) ==> b == (crate::engines::cda::Sweep {
                fills: Seq::empty(),
                makers: bares(makers),
                left: taker.remaining as int,
            })
        }),
{
    lemma_bare(taker);
    let plain: Seq<crate::types::Order> = bares(makers);
    if makers.len() > 0 {
        lemma_bare(makers[0]);
        assert(plain[0] == bare(makers[0]));
        let qty: int = min_of(taker.remaining as int, makers[0].remaining as int);
        assert(bares(makers.drop_first()) =~= plain.drop_first());
        assert(bare(taker.filled_by(qty)) == bare(taker).filled_by(qty));
        assert(bares(makers.update(0, makers[0].filled_by(qty))) =~= plain.update(0, plain[0].filled_by(qty)));
        if has_enough(taker, makers) {
            let first: Seq<(crate::types::Order, int)> = seq![(plain[0], taker.remaining as int)];
            assert(first + Seq::<(crate::types::Order, int)>::empty() =~= first);
        }
    }
}

/// Sweeping orders of a pair is sweeping them without it.
proof fn lemma_bare_sweep(taker: Order, makers: Seq<Order>)
    ensures
        ({
            let a = sweep(taker, makers);
            let b = crate::engines::cda::sweep(bare(taker), bares(makers));
            &&& a.left == b.left
            &&& bares(a.makers) == b.makers
            &&& a.makers.len() <= makers.len()
            &&& a.fills.len() == b.fills.len()
            &&& a.fills.len() <= makers.len()
            &&& forall|i: int|
                0 <= i < a.fills.len() ==> (#[trigger] a.fills[i]).0 == makers[i] && a.fills[i].1
                    == b.fills[i].1
            &&& forall|i: int|
                0 <= i < a.makers.len() ==> #[trigger] a.makers[i] == (Order {
                    remaining: a.makers[i].remaining,
                    ..makers[makers.len() - a.makers.len() + i]
                })
        }),
    decreases makers.len(),
{
    let a: Sweep = sweep(taker, makers);
    let b: crate::engines::cda::Sweep = crate::engines::cda::sweep(bare(taker), bares(makers));
    lemma_one_step(taker, makers);
    lemma_one_bare_step(taker, makers);
    if goes_on(taker, makers) {
        let qty: int = makers[0].remaining as int;
        let tail: Seq<Order> = makers.drop_first();
        let next: Order = taker.filled_by(qty);
        lemma_bare_sweep(next, tail);
        let ra: Sweep = sweep(next, tail);
        let rb: crate::engines::cda::Sweep = crate::engines::cda::sweep(bare(next), bares(tail));
        assert forall|i: int| 0 <= i < a.fills.len() implies (#[trigger] a.fills[i]).0 == makers[i] && a.fills[i].1
            == b.fills[i].1 by {
            if i > 0 {
                assert(a.fills[i] == ra.fills[i - 1]);
                assert(b.fills[i] == rb.fills[i - 1]);
                assert(tail[i - 1] == makers[i]);
            }
        }
        assert forall|i: int| 0 <= i < a.makers.len() implies #[trigger] a.makers[i] == (Order {
            remaining: a.makers[i].remaining,
            ..makers[makers.len() - a.makers.len() + i]
        }) by {
            assert(a.makers[i] == ra.makers[i]);
            assert(tail[tail.len() - ra.makers.len() + i] == makers[makers.len() - a.makers.len() + i]);
        }
    }
}

/// This trade is between the incoming order and the resting one, at the
/// resting limit.
pub open spec fn hits(t: Trade, o: Order, maker: Order) -> bool {
    &&& t.pair == o.pair
    &&& t.price == maker.limit_px
    &&& reaches(bare(o), bare(maker))
    &&& t.ts == o.ts
    &&& t.trade_tx_hash is None
    &&& t.chain_id is None
    &&& if o.is_ask {
        &&& t.sell_order_id == o.oid
        &&& t.seller_id == o.user_id
        &&& t.buy_order_id == maker.oid
        &&& t.buyer_id == maker.user_id
    } else {
        &&& t.buy_order_id == o.oid
        &&& t.buyer_id == o.user_id
        &&& t.sell_order_id == maker.oid
        &&& t.seller_id == maker.user_id
    }
}

/// An incoming order trades the least of what it wants and what rests within
/// its reach on the other side: with the resting orders from the best on, each
/// at its own limit and each but the last one whole. Those that it has not used
/// up stay as they were, the last one hit less what it sold.
pub proof fn law_matching_takes_the_best_in_turn(s: Sides, o: Order, first_id: int)
    requires
        solid(!o.is_ask, facing(s, o)),
        0 <= first_id,
        first_id + facing(s, o).len() <= u64::MAX,
    ensures
        ({
            let makers = facing(s, o);
            let trades = s.trades_on(o, first_id);
            let after = facing(s.matched(o), o);
            let gone = makers.len() - after.len();
            &&& sold_in(trades) == lesser(o.remaining as int, within_reach(bare(o), bares(makers)))
            &&& trades.len() <= makers.len()
            &&& 0 <= gone <= trades.len() <= gone + 1
            &&& forall|i: int|
                0 <= i < trades.len() ==> {
                    &&& hits(#[trigger] trades[i], o, makers[i])
                    &&& trades[i].trade_id == first_id + i
                    &&& 0 < trades[i].quantity <= makers[i].remaining
                    &&& i < gone ==> trades[i].quantity == makers[i].remaining
                }
            &&& forall|i: int|
                0 <= i < after.len() ==> #[trigger] after[i] == (Order {
                    remaining: (makers[gone + i].remaining - if gone + i < trades.len() {
                        trades[gone + i].quantity as int
                    } else {
                        0
                    }) as u128,
                    ..makers[gone + i]
                }) && after[i].remaining > 0
        }),
{
    let makers: Seq<Order> = facing(s, o);
    let plain: Seq<crate::types::Order> = bares(makers);
    let trades: Seq<Trade> = s.trades_on(o, first_id);
    let a: Sweep = s.swept(o);
    let b: crate::engines::cda::Sweep = crate::engines::cda::sweep(bare(o), plain);
    lemma_bare(o);
    law_codes_tell_the_order(bare(o));
    assert(makers == s.resting(o.side().opposite()));
    assert forall|i: int| 0 <= i < plain.len() implies (#[trigger] plain[i]).remaining > 0 by {}
    lemma_bare_sweep(o, makers);
    lemma_sweep(bare(o), plain);
    lemma_total_left(bare(o), plain);
    lemma_sweeps_its_reach(bare(o), plain);
    let after: Seq<Order> = facing(s.matched(o), o);
    assert(after == a.makers);
    let gone: int = makers.len() - after.len();
    assert(bares(after).len() == after.len());
    assert forall|i: int| 0 <= i < trades.len() implies {
        &&& hits(#[trigger] trades[i], o, makers[i])
        &&& trades[i].trade_id == first_id + i
        &&& 0 < trades[i].quantity <= makers[i].remaining
        &&& i < gone ==> trades[i].quantity == makers[i].remaining
        &&& trades[i].quantity as int == b.fills[i].1
    } by {
        assert(a.fills[i].0 == makers[i]);
        assert(b.fills[i].0 == plain[i]);
        assert(trades[i] == sweep_trade(o, makers[i], a.fills[i].1, first_id + i));
        lemma_bare(makers[i]);
        law_codes_tell_the_order(bare(makers[i]));
        assert(plain[i] == bare(makers[i]));
        assert(!at_market(plain[i]));
    }
    lemma_total_same(trades, b.fills, |t: Trade| t.quantity as int, |f: (crate::types::Order, int)| f.1);
    assert forall|i: int| 0 <= i < after.len() implies #[trigger] after[i] == (Order {
        remaining: (makers[gone + i].remaining - if gone + i < trades.len() {
            trades[gone + i].quantity as int
        } else {
            0
        }) as u128,
        ..makers[gone + i]
    }) && after[i].remaining > 0 by {
        assert(bares(after)[i] == bare(after[i]));
        assert(b.makers[i].remaining == after[i].remaining);
        if i > 0 {
            assert(b.makers[i] == plain[gone + i]);
        } else if trades.len() == gone + 1 {
            assert(trades[gone].quantity as int == b.fills[gone].1);
        } else {
            assert(b.makers[0] == plain[gone]);
        }
    }
}

/// What is left of an incoming limit order rests on its own side, behind those
/// that go before it and in front of those that go after it; the others there
/// stay as they are. What is left of an order that executes at any price is
/// gone.
pub proof fn law_rest_takes_its_place(s: Sides, o: Order, first_id: int) -> (at: int)
    requires
        solid(!o.is_ask, facing(s, o)),
        solid(o.is_ask, beside(s, o)),
        ranked(o.side(), beside(s, o)),
        0 <= first_id,
        first_id + facing(s, o).len() <= u64::MAX,
    ensures
        ({
            let own = beside(s, o);
            let after = beside(s.matched(o), o);
            let left = o.remaining - sold_in(s.trades_on(o, first_id));
            let rest = Order { remaining: left as u128, ..o };
            &&& 0 <= left <= o.remaining
            &&& at_market(bare(o)) || left == 0 ==> after == own
            &&& !at_market(bare(o)) && left > 0 ==> {
                &&& 0 <= at <= own.len()
                &&& after == own.insert(at, rest)
                &&& forall|i: int| 0 <= i < at ==> !ahead(bare(rest), bare(#[trigger] own[i]))
                &&& forall|i: int| at <= i < own.len() ==> !ahead(bare(#[trigger] own[i]), bare(rest))
            }
        }),
{
    let makers: Seq<Order> = facing(s, o);
    let own: Seq<Order> = beside(s, o);
    lemma_bare(o);
    law_codes_tell_the_order(bare(o));
    law_matching_takes_the_best_in_turn(s, o, first_id);
    lemma_bare_sweep(o, makers);
    lemma_sweeps_its_reach(bare(o), bares(makers));
    assert(makers == s.resting(o.side().opposite()));
    assert(own == s.resting(o.side()));
    let left: int = o.remaining - sold_in(s.trades_on(o, first_id));
    assert(left == s.swept(o).left);
    let rest: Order = Order { remaining: left as u128, ..o };
    let side: Side = o.side();
    let at: int = rank_index(side, own, rest);
    lemma_leading_run(own, not_behind(side, rest));
    lemma_bare(rest);
    law_codes_tell_the_order(bare(rest));
    if !at_market(bare(o)) {
        assert forall|i: int| 0 <= i < at implies !ahead(bare(rest), bare(#[trigger] own[i])) by {
            assert(not_behind(side, rest)(own[i]));
            assert(bares(own)[i] == bare(own[i]));
            lemma_bare(own[i]);
            law_codes_tell_the_order(bare(own[i]));
        }
        assert forall|i: int| at <= i < own.len() implies !ahead(bare(#[trigger] own[i]), bare(rest)) by {
            assert(!not_behind(side, rest)(own[at]));
            assert(bares(own)[i] == bare(own[i]) && bares(own)[at] == bare(own[at]));
            lemma_bare(own[i]);
            law_codes_tell_the_order(bare(own[i]));
            lemma_bare(own[at]);
            law_codes_tell_the_order(bare(own[at]));
            if i > at {
                assert(no_worse(side, own[at], own[i]));
            }
        }
    }
    at
}

} // verus!
