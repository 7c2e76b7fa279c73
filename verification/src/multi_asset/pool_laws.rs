//! What pools and single-pair batches do, in terms of reserves, orders and
//! prices.

use vstd::arithmetic::div_mod::{lemma_div_pos_is_pos, lemma_fundamental_div_mod, lemma_mod_bound};
use vstd::prelude::*;
use crate::engines::auction::{is_best, limit_prices, preferred, Interest, TieRule};
use crate::engines::auction_laws::law_batch_with_a_limit_clears;
use crate::engines::batch_laws::{lemma_named, lemma_offered, names_limit};
use crate::engines::plain::{at_market, gap, law_codes_tell_the_order, lesser, offered};
use crate::multi_asset::amm::pool_price;
use crate::multi_asset::arbitrage::{
    are_pool_trades, batch_price, changed, cost, fill_price, filled_reserves, is_pool_trade,
    law_arbitrage_hits_the_price, moved_to, moves, proceeds, product, residual_rank, residual_ranks, run_pool,
    target_x, unit_price, value_part, volume_part, PoolRun,
};
use crate::multi_asset::batches::interests;
use crate::multi_asset::pair_laws::{bare, bares, lemma_bares};
use crate::multi_asset::types::{AssetPair, Order, PairView, Trade};
use crate::seqs::{lemma_total_nonneg, total};
use crate::single_pair::clearing::candidates;
use crate::sorting::{comes_before, stable_order};
use crate::types::{Price, Side};

verus! {

/// The price of a pool is what one unit of the base asset costs, in
/// millionths and rounded down; of a pool without the base asset, the highest
/// number.
pub proof fn law_pool_price_is_the_ratio(x: int, y: int)
    requires
        0 <= x,
        0 <= y,
        y * 1_000_000 <= u128::MAX,
    ensures
        x > 0 ==> pool_price(x, y) * x <= y * 1_000_000 < (pool_price(x, y) + 1) * x,
        x == 0 ==> pool_price(x, y) == u128::MAX,
{
    if x > 0 {
        let n: int = y * 1_000_000;
        lemma_quotient(n, x);
    }
}

proof fn lemma_quotient(n: int, d: int)
    requires
        0 <= n,
        0 < d,
    ensures
        (n / d) * d <= n < (n / d + 1) * d,
        0 <= n / d,
{
    lemma_fundamental_div_mod(n, d);
    lemma_mod_bound(n, d);
    lemma_div_pos_is_pos(n, d);
    let q: int = n / d;
    assert((q + 1) * d == d * q + d) by (nonlinear_arith);
    assert(q * d == d * q) by (nonlinear_arith);
}

/// A pool that is not at the price yet is brought as close to it as whole
/// units allow, whichever way it has to go; one that is, stays. What changed is
/// reported, and whether the base asset went in.
pub proof fn law_pool_follows_the_price(x: int, y: int, price: int)
    requires
        0 < x,
        0 < y,
        0 < price,
        x * y * 1_000_000 <= u128::MAX,
        price <= x * y * 1_000_000,
    ensures
        ({
            let (x2, y2) = moved_to(x, y, price);
            let (dx, dy, in_base) = changed(x, y, x2, y2);
            &&& pool_price(x, y) == price ==> (x2, y2) == (x, y)
            &&& pool_price(x, y) != price ==> x2 * x2 * price <= x * y * 1_000_000 < (x2 + 1) * (x2 + 1) * price
            &&& pool_price(x, y) != price ==> x * y <= x2 * y2 < x * y + x2
            &&& dx == gap(x, x2)
            &&& in_base == (x2 > x)
            &&& dy == (if x2 > x {
                if y > y2 {
                    y - y2
                } else {
                    0
                }
            } else {
                if y2 > y {
                    y2 - y
                } else {
                    0
                }
            })
        }),
{
    let n: int = x * y * 1_000_000;
    assert(x * y > 0) by (nonlinear_arith)
        requires
            x > 0,
            y > 0,
    ;
    if pool_price(x, y) != price {
        crate::multi_asset::arbitrage::lemma_target(x, y, price);
        lemma_quotient(n, price);
        let q: int = n / price;
        assert(q >= 1) by (nonlinear_arith)
            requires
                n < (q + 1) * price,
                price <= n,
                price > 0,
        ;
        let t: int = target_x(x, y, price);
        assert(t >= 1) by (nonlinear_arith)
            requires
                q < (t + 1) * (t + 1),
                q >= 1,
                t >= 0,
        ;
        assert(moves(x, y, price));
        law_arbitrage_hits_the_price(x, y, price);
        assert(x <= u128::MAX && y <= u128::MAX) by (nonlinear_arith)
            requires
                x > 0,
                y > 0,
                x * y * 1_000_000 <= u128::MAX,
        ;
        assert(price <= u128::MAX);
        crate::multi_asset::arbitrage::law_arbitrage_keeps_the_product(x, y, price);
    }
}

/// The least that keeps the product of the reserves when `dx` goes out.
pub open spec fn is_least_cost(x: int, y: int, dx: int, c: int) -> bool {
    &&& 0 <= c
    &&& (x - dx) * (y + c) >= x * y
    &&& c > 0 ==> (x - dx) * (y + c - 1) < x * y
}

/// The most that keeps the product of the reserves when `dx` comes in.
pub open spec fn is_most_paid(x: int, y: int, dx: int, p: int) -> bool {
    &&& 0 <= p <= y
    &&& (x + dx) * (y - p) >= x * y
    &&& (x + dx) * (y - p - 1) < x * y
}

/// The price of one unit where `dx` is worth `dy`, in millionths and rounded
/// down.
pub open spec fn is_unit_price(price: int, dx: int, dy: int) -> bool {
    price * dx <= dy * 1_000_000 < (price + 1) * dx
}

proof fn lemma_cost(x: int, y: int, dx: int)
    requires
        0 < dx < x,
        0 <= y,
        y * dx <= u128::MAX,
    ensures
        is_least_cost(x, y, dx, cost(x, y, dx)),
{
    let (d, n): (int, int) = (x - dx, y * dx);
    assert(n >= 0) by (nonlinear_arith)
        requires
            n == y * dx,
            y >= 0,
            dx > 0,
    ;
    lemma_fundamental_div_mod(n, d);
    lemma_mod_bound(n, d);
    lemma_div_pos_is_pos(n, d);
    let c: int = cost(x, y, dx);
    let q: int = n / d;
    assert(d * q + n % d == n);
    assert(d * (y + c) >= x * y) by (nonlinear_arith)
        requires
            d == x - dx,
            n == y * dx,
            n == d * q + n % d,
            0 <= n % d < d,
            c == (if n % d == 0 { q } else { q + 1 }),
    ;
    if c > 0 {
        assert(d * (y + c - 1) < x * y) by (nonlinear_arith)
            requires
                d == x - dx,
                d > 0,
                n == y * dx,
                n == d * q + n % d,
                0 <= n % d < d,
                c == (if n % d == 0 { q } else { q + 1 }),
        ;
    }
}

proof fn lemma_proceeds(x: int, y: int, dx: int)
    requires
        0 < dx,
        0 <= x,
        0 <= y,
        y * dx <= u128::MAX,
        x + dx <= u128::MAX,
    ensures
        is_most_paid(x, y, dx, proceeds(x, y, dx)),
{
    let (d, n): (int, int) = (x + dx, y * dx);
    assert(n >= 0) by (nonlinear_arith)
        requires
            n == y * dx,
            y >= 0,
            dx > 0,
    ;
    lemma_quotient(n, d);
    let p: int = proceeds(x, y, dx);
    assert(p == n / d);
    assert(p <= y) by (nonlinear_arith)
        requires
            p * d <= n,
            n == y * dx,
            d == x + dx,
            x >= 0,
            dx > 0,
            y >= 0,
            p >= 0,
    ;
    assert(d * (y - p) >= x * y) by (nonlinear_arith)
        requires
            d == x + dx,
            n == y * dx,
            p * d <= n,
    ;
    assert(d * (y - p - 1) < x * y) by (nonlinear_arith)
        requires
            d == x + dx,
            n == y * dx,
            n < (p + 1) * d,
    ;
}

/// A pool fills a buyer who does not want all it has, for the least that keeps
/// its product, and a seller for the most that keeps it, unless that is
/// nothing; but only at a price that the order's limit allows. A refused order
/// breaks one of these.
pub proof fn law_pool_fills_at_its_curve(x: int, y: int, o: Order)
    requires
        0 <= x,
        0 <= y,
        o.remaining > 0,
        y * o.remaining <= u128::MAX,
        x + o.remaining <= u128::MAX,
        !o.is_ask && o.remaining < x ==> y + cost(x, y, o.remaining as int) <= u128::MAX && cost(
            x,
            y,
            o.remaining as int,
        ) * 1_000_000 <= u128::MAX,
        y * 1_000_000 <= u128::MAX,
    ensures
        ({
            let dx = o.remaining as int;
            let (x2, y2) = filled_reserves(x, y, o);
            match fill_price(x, y, o) {
                Some(price) => if o.is_ask {
                    &&& x2 == x + dx
                    &&& is_most_paid(x, y, dx, y - y2)
                    &&& y2 < y
                    &&& is_unit_price(price, dx, y - y2)
                    &&& at_market(bare(o)) || price >= o.limit_px
                } else {
                    &&& dx < x
                    &&& x2 == x - dx
                    &&& is_least_cost(x, y, dx, y2 - y)
                    &&& is_unit_price(price, dx, y2 - y)
                    &&& at_market(bare(o)) || price <= o.limit_px
                },
                None => if o.is_ask {
                    exists|p: int, price: int|
                        #![trigger is_most_paid(x, y, dx, p), is_unit_price(price, dx, p)]
                        is_most_paid(x, y, dx, p) && is_unit_price(price, dx, p) && (p == 0 || (!at_market(bare(o))
                            && price < o.limit_px))
                } else {
                    dx >= x || exists|c: int, price: int|
                        #![trigger is_least_cost(x, y, dx, c), is_unit_price(price, dx, c)]
                        is_least_cost(x, y, dx, c) && is_unit_price(price, dx, c) && !at_market(bare(o)) && price
                            > o.limit_px
                },
            }
        }),
{
    let dx: int = o.remaining as int;
    law_codes_tell_the_order(bare(o));
    assert(o.side() == bare(o).side() && o.limit_price() == bare(o).limit_price());
    if o.is_ask {
        lemma_proceeds(x, y, dx);
        let p: int = proceeds(x, y, dx);
        lemma_quotient(p * 1_000_000, dx);
        assert(is_unit_price(unit_price(dx, p, 0), dx, p));
        assert(is_most_paid(x, y, dx, p));
    } else if dx < x {
        lemma_cost(x, y, dx);
        let c: int = cost(x, y, dx);
        lemma_quotient(c * 1_000_000, dx);
        assert(is_unit_price(unit_price(dx, c, u128::MAX as int), dx, c));
        assert(is_least_cost(x, y, dx, c));
    }
}

/// One for each order with something left.
pub open spec fn wants_some() -> spec_fn(Order) -> int {
    |o: Order|
        if o.remaining > 0 {
            1
        } else {
            0
        }
}

/// Of a list of orders, a pool fills or leaves each one that wants something,
/// and drops the others.
pub proof fn law_pool_run_keeps_every_order(x: int, y: int, orders: Seq<Order>)
    ensures
        ({
            let run = run_pool(x, y, orders);
            &&& run.filled.len() + run.left.len() == total(orders, wants_some())
            &&& forall|i: int|
                0 <= i < run.filled.len() ==> orders.contains((#[trigger] run.filled[i]).0) && run.filled[i].0.remaining > 0
            &&& forall|i: int|
                0 <= i < run.left.len() ==> orders.contains(#[trigger] run.left[i]) && run.left[i].remaining > 0
        }),
    decreases orders.len(),
{
    if orders.len() > 0 {
        let short: Seq<Order> = orders.drop_last();
        law_pool_run_keeps_every_order(x, y, short);
        let before: PoolRun = run_pool(x, y, short);
        let run: PoolRun = run_pool(x, y, orders);
        assert(orders[orders.len() - 1] == orders.last());
        assert forall|i: int| 0 <= i < run.filled.len() implies orders.contains((#[trigger] run.filled[i]).0)
            && run.filled[i].0.remaining > 0 by {
            if i < before.filled.len() {
                assert(run.filled[i] == before.filled[i]);
                assert(short.contains(before.filled[i].0));
                let k: int = choose|k: int| 0 <= k < short.len() && short[k] == before.filled[i].0;
                assert(orders[k] == run.filled[i].0);
            }
        }
        assert forall|i: int| 0 <= i < run.left.len() implies orders.contains(#[trigger] run.left[i])
            && run.left[i].remaining > 0 by {
            if i < before.left.len() {
                assert(run.left[i] == before.left[i]);
                assert(short.contains(before.left[i]));
                let k: int = choose|k: int| 0 <= k < short.len() && short[k] == before.left[i];
                assert(orders[k] == run.left[i]);
            }
        }
    }
}

/// `a` goes to the pool before `b`: at any price before at a limit; bids
/// before asks; the higher bid or the lower ask; the earlier; the lower id.
pub open spec fn to_pool_before(a: Order, b: Order) -> bool {
    if at_market(bare(a)) != at_market(bare(b)) {
        at_market(bare(a))
    } else if a.is_ask != b.is_ask {
        !a.is_ask
    } else if !at_market(bare(a)) && a.limit_px != b.limit_px {
        if a.is_ask {
            a.limit_px < b.limit_px
        } else {
            a.limit_px > b.limit_px
        }
    } else if a.ts != b.ts {
        a.ts < b.ts
    } else {
        a.oid < b.oid
    }
}

/// The orders are taken to the pool in that order, each once.
pub proof fn law_pool_serves_by_priority(orders: Seq<Order>, at: Seq<usize>, i: int, j: int)
    requires
        stable_order(residual_ranks(orders), at),
        0 <= i < j < at.len(),
    ensures
        at.len() == orders.len(),
        at[i] < orders.len() && at[j] < orders.len(),
        !to_pool_before(orders[at[j] as int], orders[at[i] as int]),
{
    let keys: Seq<crate::engines::auction::Rank> = residual_ranks(orders);
    assert(comes_before(keys, at[i] as int, at[j] as int));
    let (a, b): (Order, Order) = (orders[at[i] as int], orders[at[j] as int]);
    assert(0 <= at[i] < keys.len() && 0 <= at[j] < keys.len());
    assert(keys[at[i] as int] == residual_rank(a) && keys[at[j] as int] == residual_rank(b));
    law_codes_tell_the_order(bare(a));
    law_codes_tell_the_order(bare(b));
    assert(a.side() == bare(a).side() && a.kind() == bare(a).kind());
    assert(b.side() == bare(b).side() && b.kind() == bare(b).kind());
    assert(!at_market(bare(a)) ==> a.limit_price() == Some(a.limit_px));
    assert(!at_market(bare(b)) ==> b.limit_price() == Some(b.limit_px));
}

/// The average price of the trades of a pair is their value over their volume,
/// rounded down; without volume there is none.
pub proof fn law_average_price_is_value_over_volume(trades: Seq<Trade>, pair: PairView)
    requires
        total(trades, pair_volume(pair)) <= u128::MAX,
        total(trades, pair_value(pair)) <= u128::MAX,
        forall|i: int|
            0 <= i < trades.len() ==> (#[trigger] trades[i]).quantity * trades[i].price <= u128::MAX,
    ensures
        match batch_price(trades, pair) {
            Some(p) => {
                &&& total(trades, pair_volume(pair)) > 0
                &&& p * total(trades, pair_volume(pair)) <= total(trades, pair_value(pair)) < (p + 1) * total(
                    trades,
                    pair_volume(pair),
                )
            },
            None => total(trades, pair_volume(pair)) == 0,
        },
{
    let (v, w): (int, int) = (total(trades, pair_volume(pair)), total(trades, pair_value(pair)));
    assert forall|i: int| 0 <= i < trades.len() implies volume_part(pair)(#[trigger] trades[i]) == pair_volume(pair)(
        trades[i],
    ) by {}
    assert forall|i: int| 0 <= i < trades.len() implies value_part(pair)(#[trigger] trades[i]) == pair_value(pair)(
        trades[i],
    ) by {}
    crate::seqs::lemma_total_same(trades, trades, volume_part(pair), pair_volume(pair));
    crate::seqs::lemma_total_same(trades, trades, value_part(pair), pair_value(pair));
    lemma_total_nonneg(trades, pair_volume(pair));
    assert forall|i: int| 0 <= i < trades.len() implies 0 <= pair_value(pair)(#[trigger] trades[i]) by {
        assert(trades[i].quantity * trades[i].price >= 0) by (nonlinear_arith);
    }
    lemma_total_nonneg(trades, pair_value(pair));
    if v > 0 {
        lemma_quotient(w, v);
        assert(w / v <= w) by (nonlinear_arith)
            requires
                (w / v) * v <= w,
                v >= 1,
                w / v >= 0,
        ;
    }
}

pub open spec fn pair_volume(pair: PairView) -> spec_fn(Trade) -> int {
    |t: Trade|
        if t.pair@ == pair {
            t.quantity as int
        } else {
            0
        }
}

pub open spec fn pair_value(pair: PairView) -> spec_fn(Trade) -> int {
    |t: Trade|
        if t.pair@ == pair {
            t.quantity * t.price
        } else {
            0
        }
}

/// A batch of one pair clears at one of its limits: the one at which the most
/// is matched; of those that match as much, the one with the least left over on
/// the heavier side; of those, the one nearest to the last price, or the lowest
/// if there is none or two are as near. A batch without limits clears at the
/// last price, if there is one; otherwise, and without orders, not at all.
pub proof fn law_batch_price_suits_the_orders(orders: Seq<Order>, last: Option<Price>, other: Price)
    ensures
        ({
            let plain = bares(orders);
            match crate::single_pair::clearing::batch_price(orders, last) {
                Some(price) => {
                    let (bid, ask) = (offered(plain, false, price as int), offered(plain, true, price as int));
                    let (bid2, ask2) = (offered(plain, false, other as int), offered(plain, true, other as int));
                    &&& orders.len() > 0
                    &&& names_limit(plain, other) ==> {
                        &&& names_limit(plain, price)
                        &&& lesser(bid2, ask2) <= lesser(bid, ask)
                        &&& lesser(bid2, ask2) == lesser(bid, ask) ==> gap(bid, ask) <= gap(bid2, ask2)
                        &&& lesser(bid2, ask2) == lesser(bid, ask) && gap(bid, ask) == gap(bid2, ask2) ==> match last {
                            Some(l) => {
                                &&& gap(price as int, l as int) <= gap(other as int, l as int)
                                &&& gap(price as int, l as int) == gap(other as int, l as int) ==> price <= other
                            },
                            None => price <= other,
                        }
                    }
                    &&& !names_limit(plain, price) ==> last == Some(price)
                },
                None => {
                    &&& orders.len() > 0 ==> last is None
                    &&& orders.len() > 0 ==> !names_limit(plain, other)
                },
            }
        }),
{
    let plain: Seq<crate::types::Order> = bares(orders);
    let book: Seq<Interest> = interests(orders);
    let rule: TieRule = TieRule::Nearest { reference: last };
    lemma_bares(orders);
    lemma_named(plain, other);
    lemma_offered(plain, Side::Buy, other);
    lemma_offered(plain, Side::Sell, other);
    if names_limit(plain, other) {
        assert(limit_prices(book).contains(other));
        assert(limit_prices(book) != Set::<Price>::empty());
        let i: int = choose|i: int| 0 <= i < book.len() && (#[trigger] book[i]).limit == Some(other);
        assert(book[i].limit is Some);
    }
    law_batch_with_a_limit_clears(book, rule);
    if orders.len() > 0 && limit_prices(book) == Set::<Price>::empty() && last is Some {
        assert(is_best(book, rule, candidates(orders, last), last->0));
    }
    if orders.len() > 0 && limit_prices(book) != Set::<Price>::empty() {
        assert(exists|p: Price| limit_prices(book).contains(p)) by {
            if forall|p: Price| !limit_prices(book).contains(p) {
                assert(limit_prices(book) =~= Set::<Price>::empty());
            }
        }
        let p: Price = choose|p: Price| limit_prices(book).contains(p);
        let i: int = choose|i: int| 0 <= i < book.len() && (#[trigger] book[i]).limit == Some(p);
        assert(book[i].limit is Some);
    }
    if let Some(price) = crate::single_pair::clearing::batch_price(orders, last) {
        assert(is_best(book, rule, candidates(orders, last), price));
        lemma_named(plain, price);
        lemma_offered(plain, Side::Buy, price);
        lemma_offered(plain, Side::Sell, price);
        if names_limit(plain, other) && other != price {
            assert(preferred(book, rule, price, other));
        }
    }
}

/// The trades of a pool run are numbered on, one for each order that was filled,
/// in their order: over all of it, at its price and moment, between its owner
/// and the pool. The owner of a bid buys and the owner of an ask sells.
pub proof fn law_pool_trades_are_with_the_pool(
    trades: Seq<Trade>,
    pair: AssetPair,
    filled: Seq<(Order, int)>,
    last_id: int,
    i: int,
)
    requires
        are_pool_trades(trades, pair, filled, last_id),
        0 <= i < filled.len(),
    ensures
        trades.len() == filled.len(),
        ({
            let (t, o) = (trades[i], filled[i].0);
            &&& t.trade_id == last_id + 1 + i
            &&& t.pair == pair
            &&& t.price == filled[i].1
            &&& t.quantity == o.remaining
            &&& t.ts == o.ts
            &&& t.trade_tx_hash is None
            &&& t.chain_id is None
            &&& o.is_ask ==> {
                &&& t.seller_id == o.user_id
                &&& t.sell_order_id == o.oid
                &&& t.buyer_id@ == "AMM_POOL"@
                &&& t.buy_order_id == 0
            }
            &&& !o.is_ask ==> {
                &&& t.buyer_id == o.user_id
                &&& t.buy_order_id == o.oid
                &&& t.seller_id@ == "AMM_POOL"@
                &&& t.sell_order_id == 0
            }
        }),
{
    let o: Order = filled[i].0;
    assert(is_pool_trade(trades[i], pair, o, filled[i].1, last_id + 1 + i));
    crate::multi_asset::pair_laws::lemma_bare(o);
    law_codes_tell_the_order(bare(o));
}

} // verus!
