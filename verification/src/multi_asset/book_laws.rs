//! What a book without self-trades does with an order, and what its trades are
//! worth.

use vstd::prelude::*;
use crate::engines::plain::{at_market, law_codes_tell_the_order, lesser};
use crate::multi_asset::optimizer::{quote_amount, routes, tally, Transfer};
use crate::multi_asset::order_book::{
    acceptable, are_crossing_trades, best_maker, crossing, goes_first, is_crossing_trade, law_no_self_trades,
    standing_price, BookView,
};
use crate::multi_asset::pair_laws::{bare, sold_in};
use crate::multi_asset::types::{AssetPair, Order, Trade};
use crate::seqs::{lemma_total_nonneg, lemma_total_remove, lemma_total_same, min_of, total};
use crate::tables::{ascending, lemma_table, lookup};

verus! {

/// The incoming order may trade with this resting one: something is left of
/// it, it is someone else's, and either the incoming one executes at any price
/// or the resting one has a limit that is as good as its own or better.
pub open spec fn willing(o: Order, maker: Order) -> bool {
    &&& maker.remaining > 0
    &&& maker.user_id@ != o.user_id@
    &&& at_market(bare(o)) || (!at_market(bare(maker)) && (if o.is_ask {
        maker.limit_px >= o.limit_px
    } else {
        maker.limit_px <= o.limit_px
    }))
}

/// Where a resting order stands: at its limit, or without one behind bids of
/// any price, and among asks at twice a price of one.
pub open spec fn stands(o: Order) -> int {
    if !at_market(bare(o)) {
        o.limit_px as int
    } else if o.is_ask {
        2_000_000
    } else {
        0
    }
}

/// Of two resting orders on one side, `a` is the better partner: at the better
/// price, or earlier, or of the lower id.
pub open spec fn better_partner(a: Order, b: Order) -> bool {
    if stands(a) != stands(b) {
        if a.is_ask {
            stands(a) < stands(b)
        } else {
            stands(b) < stands(a)
        }
    } else if a.ts != b.ts {
        a.ts < b.ts
    } else {
        a.oid < b.oid
    }
}

proof fn lemma_kinds(o: Order)
    ensures
        o.side() == bare(o).side(),
        o.kind() == bare(o).kind(),
        o.limit_price() == bare(o).limit_price(),
{
}

proof fn lemma_willing(o: Order, maker: Order)
    ensures
        acceptable(o, maker) == willing(o, maker),
        standing_price(maker) == stands(maker),
{
    lemma_kinds(o);
    lemma_kinds(maker);
    law_codes_tell_the_order(bare(o));
    law_codes_tell_the_order(bare(maker));
}

proof fn lemma_better(a: Order, b: Order)
    ensures
        goes_first(a, b) == better_partner(a, b),
{
    lemma_willing(a, a);
    lemma_willing(a, b);
    lemma_kinds(a);
    law_codes_tell_the_order(bare(a));
}

/// An order trades first with the best partner that it may trade with: no
/// other one that it may trade with is better. It finds none only if there is
/// none.
pub proof fn law_best_partner_is_found(o: Order, resting: Seq<Order>)
    requires
        forall|i: int| 0 <= i < resting.len() ==> (#[trigger] resting[i]).is_ask == !o.is_ask,
    ensures
        match best_maker(resting, o) {
            Some(i) => {
                &&& 0 <= i < resting.len()
                &&& willing(o, resting[i])
                &&& forall|j: int|
                    0 <= j < resting.len() && willing(o, #[trigger] resting[j]) ==> !better_partner(
                        resting[j],
                        resting[i],
                    )
            },
            None => forall|j: int| 0 <= j < resting.len() ==> !willing(o, #[trigger] resting[j]),
        },
    decreases resting.len(),
{
    if resting.len() > 0 {
        let short: Seq<Order> = resting.drop_last();
        let last: Order = resting.last();
        assert forall|i: int| 0 <= i < short.len() implies (#[trigger] short[i]).is_ask == !o.is_ask by {
            assert(resting[i].is_ask == !o.is_ask);
        }
        assert(resting[resting.len() - 1] == last);
        law_best_partner_is_found(o, short);
        lemma_willing(o, last);
        assert forall|j: int| 0 <= j < short.len() implies #[trigger] resting[j] == short[j] by {}
        if let Some(i) = best_maker(short, o) {
            lemma_better(last, short[i]);
            lemma_better(short[i], last);
            lemma_kinds(o);
            law_codes_tell_the_order(bare(o));
            assert(resting[i] == short[i]);
            match best_maker(resting, o) {
                Some(k) => {
                    assert forall|j: int| 0 <= j < resting.len() && willing(o, #[trigger] resting[j]) implies !better_partner(
                        resting[j],
                        resting[k],
                    ) by {
                        if j < short.len() {
                            assert(willing(o, short[j]));
                            assert(!better_partner(short[j], short[i]));
                        }
                        assert(resting[j].is_ask == !o.is_ask && resting[k].is_ask == !o.is_ask && resting[i].is_ask
                            == !o.is_ask);
                    }
                },
                None => {},
            }
        } else {
            assert forall|j: int| 0 <= j < short.len() implies !willing(o, #[trigger] resting[j]) by {
                assert(!willing(o, short[j]));
            }
        }
    }
}

/// Two orders of one side that are as good as partners as each other: at the
/// same price, of the same moment and with the same id.
pub open spec fn equal_partners(a: Order, b: Order) -> bool {
    stands(a) == stands(b) && a.ts == b.ts && a.oid == b.oid
}

/// Of equal partners, a buyer trades with the one listed first, and a seller
/// with the one listed last.
pub proof fn law_equal_partners_are_taken_in_turn(o: Order, resting: Seq<Order>, j: int)
    requires
        forall|i: int| 0 <= i < resting.len() ==> (#[trigger] resting[i]).is_ask == !o.is_ask,
        0 <= j < resting.len(),
        willing(o, resting[j]),
    ensures
        best_maker(resting, o) is Some,
        equal_partners(resting[j], resting[best_maker(resting, o)->0]) ==> if o.is_ask {
            j <= best_maker(resting, o)->0
        } else {
            best_maker(resting, o)->0 <= j
        },
    decreases resting.len(),
{
    let n: int = resting.len() - 1;
    let short: Seq<Order> = resting.drop_last();
    let last: Order = resting.last();
    assert(resting[n] == last);
    assert forall|i: int| 0 <= i < short.len() implies (#[trigger] short[i]).is_ask == !o.is_ask by {
        assert(resting[i].is_ask == !o.is_ask);
    }
    law_best_partner_is_found(o, resting);
    law_best_partner_is_found(o, short);
    lemma_willing(o, last);
    lemma_willing(o, resting[j]);
    lemma_kinds(o);
    law_codes_tell_the_order(bare(o));
    if j < n {
        assert(short[j] == resting[j]);
        law_equal_partners_are_taken_in_turn(o, short, j);
        let i: int = best_maker(short, o)->0;
        assert(short[i] == resting[i]);
        lemma_better(last, short[i]);
        lemma_better(short[i], last);
        if best_maker(resting, o) == Some(n) && !o.is_ask && equal_partners(resting[j], last) {
            assert(better_partner(last, short[i]));
            assert(better_partner(short[j], short[i]));
            assert(willing(o, short[j]));
        }
    } else {
        match best_maker(short, o) {
            Some(i) => {
                assert(short[i] == resting[i]);
                lemma_better(last, short[i]);
                lemma_better(short[i], last);
            },
            None => {},
        }
    }
}

/// What a resting order can give the incoming one.
pub open spec fn open_to(o: Order) -> spec_fn(Order) -> int {
    |m: Order|
        if willing(o, m) {
            m.remaining as int
        } else {
            0
        }
}

proof fn lemma_nothing_open(o: Order, resting: Seq<Order>)
    requires
        forall|j: int| 0 <= j < resting.len() ==> !willing(o, #[trigger] resting[j]),
    ensures
        total(resting, open_to(o)) == 0,
    decreases resting.len(),
{
    if resting.len() > 0 {
        let short: Seq<Order> = resting.drop_last();
        assert forall|j: int| 0 <= j < short.len() implies !willing(o, #[trigger] short[j]) by {
            assert(short[j] == resting[j]);
        }
        lemma_nothing_open(o, short);
        assert(!willing(o, resting[resting.len() - 1]));
    }
}

proof fn lemma_trades_all(o: Order, resting: Seq<Order>)
    requires
        forall|i: int| 0 <= i < resting.len() ==> (#[trigger] resting[i]).is_ask == !o.is_ask,
    ensures
        o.remaining - crossing(o, resting).left == lesser(o.remaining as int, total(resting, open_to(o))),
        total(resting, open_to(o)) >= 0,
    decreases resting.len(),
{
    law_best_partner_is_found(o, resting);
    lemma_total_nonneg(resting, open_to(o));
    match best_maker(resting, o) {
        None => {
            lemma_nothing_open(o, resting);
        },
        Some(i) => {
            if o.remaining > 0 {
                let m: Order = resting[i];
                let qty: int = min_of(o.remaining as int, m.remaining as int);
                lemma_total_remove(resting, i, open_to(o));
                let others: Seq<Order> = resting.remove(i);
                lemma_total_nonneg(others, open_to(o));
                if qty == m.remaining {
                    let next: Order = o.filled_by(qty);
                    assert forall|j: int| 0 <= j < others.len() implies (#[trigger] others[j]).is_ask == !next.is_ask by {
                        assert(others[j] == if j < i {
                            resting[j]
                        } else {
                            resting[j + 1]
                        });
                    }
                    lemma_trades_all(next, others);
                    assert forall|j: int| 0 <= j < others.len() implies open_to(next)(#[trigger] others[j]) == open_to(o)(
                        others[j],
                    ) by {}
                    lemma_total_same(others, others, open_to(next), open_to(o));
                }
            }
        },
    }
}

/// An order trades the least of what it wants and what all resting orders that
/// it may trade with have left. Every trade is of the book's pair and of the
/// order's moment, with someone else, at the seller's limit, or the buyer's if
/// the seller has none; the trades are numbered on. What is left of a limit
/// order rests behind the others of its side; of any other order, nothing.
pub proof fn law_book_trades_all_it_can(b: BookView, o: Order, trades: Seq<Trade>, pair: AssetPair)
    requires
        forall|i: int| 0 <= i < b.bids.len() ==> !(#[trigger] b.bids[i]).is_ask,
        forall|i: int| 0 <= i < b.asks.len() ==> (#[trigger] b.asks[i]).is_ask,
        are_crossing_trades(trades, pair, o, b.crossed(o).fills, b.next_trade_id),
    ensures
        ({
            let others = if o.is_ask {
                b.bids
            } else {
                b.asks
            };
            let left = o.remaining - sold_in(trades);
            let rest = Order { remaining: left as u128, ..o };
            &&& sold_in(trades) == lesser(o.remaining as int, total(others, open_to(o)))
            &&& 0 <= left
            &&& b.submitted(o).next_trade_id == b.next_trade_id + trades.len()
            &&& at_market(bare(o)) || left == 0 ==> (if o.is_ask {
                b.submitted(o).asks == b.asks
            } else {
                b.submitted(o).bids == b.bids
            })
            &&& !at_market(bare(o)) && left > 0 ==> (if o.is_ask {
                b.submitted(o).asks == b.asks.push(rest)
            } else {
                b.submitted(o).bids == b.bids.push(rest)
            })
        }),
        forall|i: int|
            0 <= i < trades.len() ==> {
                let t = #[trigger] trades[i];
                &&& t.trade_id == b.next_trade_id + i
                &&& t.pair == pair
                &&& t.ts == o.ts
                &&& t.quantity > 0
                &&& t.buyer_id@ != t.seller_id@
                &&& exists|m: Order| #[trigger] partners(t, o, m)
            },
{
    let others: Seq<Order> = if o.is_ask {
        b.bids
    } else {
        b.asks
    };
    lemma_kinds(o);
    law_codes_tell_the_order(bare(o));
    assert(others == b.resting(o.side().opposite()));
    lemma_trades_all(o, others);
    law_no_self_trades(o, others);
    let fills: Seq<(Order, int)> = b.crossed(o).fills;
    assert forall|i: int| 0 <= i < trades.len() implies (#[trigger] trades[i]).quantity as int == fills[i].1 by {
        assert(is_crossing_trade(trades[i], pair, o, fills[i].0, fills[i].1, b.next_trade_id + i));
    }
    lemma_total_same(trades, fills, |t: Trade| t.quantity as int, |f: (Order, int)| f.1);
    assert forall|i: int| 0 <= i < trades.len() implies {
        let t = #[trigger] trades[i];
        &&& t.trade_id == b.next_trade_id + i
        &&& t.pair == pair
        &&& t.ts == o.ts
        &&& t.quantity > 0
        &&& t.buyer_id@ != t.seller_id@
        &&& exists|m: Order| #[trigger] partners(t, o, m)
    } by {
        let m: Order = fills[i].0;
        assert(is_crossing_trade(trades[i], pair, o, m, fills[i].1, b.next_trade_id + i));
        lemma_kinds(m);
        law_codes_tell_the_order(bare(m));
        lemma_willing(o, m);
        assert(partners(trades[i], o, m));
    }
}

/// The price at which the two trade: the seller's limit, or the buyer's if the
/// seller has none; without any, a price of one.
pub open spec fn agreed(buy: Order, sell: Order) -> int {
    if !at_market(bare(sell)) {
        sell.limit_px as int
    } else if !at_market(bare(buy)) {
        buy.limit_px as int
    } else {
        1_000_000
    }
}

/// The trade is between the incoming order and this one.
pub open spec fn partners(t: Trade, o: Order, m: Order) -> bool {
    &&& willing(o, m)
    &&& t.quantity <= m.remaining
    &&& if o.is_ask {
        &&& t.sell_order_id == o.oid
        &&& t.seller_id == o.user_id
        &&& t.buy_order_id == m.oid
        &&& t.buyer_id == m.user_id
        &&& t.price == agreed(m, o)
    } else {
        &&& t.buy_order_id == o.oid
        &&& t.buyer_id == o.user_id
        &&& t.sell_order_id == m.oid
        &&& t.seller_id == m.user_id
        &&& t.price == agreed(o, m)
    }
}

/// The value of a trade is its quantity at its price, in whole units of the
/// quote asset, rounded down; the product stops at the largest number.
pub proof fn law_value_is_rounded_down(quantity: u128, price: u128, t: Trade, plain: crate::types::Trade)
    requires
        t.quantity == quantity,
        t.price == price,
        plain.quantity == quantity,
        plain.price == price,
    ensures
        quote_amount(t) * 1_000_000 <= lesser(quantity * price, u128::MAX as int) < (quote_amount(t) + 1) * 1_000_000,
        crate::trades::notional(plain) * 1_000_000 <= lesser(quantity * price, u128::MAX as int) < (
        crate::trades::notional(plain) + 1) * 1_000_000,
{
    assert(quantity * price >= 0) by (nonlinear_arith);
}

/// One for each transfer of this asset.
pub open spec fn of_this(asset: Seq<char>) -> spec_fn(Transfer) -> int {
    |t: Transfer|
        if t.asset == asset {
            1
        } else {
            0
        }
}

/// The transfers are counted by asset: an asset is listed with the number of
/// its transfers, and not at all if it has none.
pub proof fn law_transfers_are_counted(t: Seq<Transfer>, asset: Seq<char>)
    requires
        t.len() <= usize::MAX,
    ensures
        ascending(tally(t)),
        match lookup(tally(t), asset) {
            Some(n) => n == total(t, of_this(asset)) && n > 0,
            None => total(t, of_this(asset)) == 0,
        },
        total(t, of_this(asset)) <= t.len(),
    decreases t.len(),
{
    if t.len() > 0 {
        let short: Seq<Transfer> = t.drop_last();
        law_transfers_are_counted(short, asset);
        law_transfers_are_counted(short, t.last().asset);
        let before: Seq<(Seq<char>, usize)> = tally(short);
        let count: int = match lookup(before, t.last().asset) {
            Some(n) => n as int,
            None => 0,
        };
        lemma_table(before, t.last().asset, (count + 1) as usize);
    }
}

/// There is a route between two participants exactly if something is sent
/// along it, and each route is listed once.
pub proof fn law_routes_are_those_used(t: Seq<Transfer>, from: Seq<char>, to: Seq<char>)
    ensures
        ascending(routes(t)),
        lookup(routes(t), (from, to)) is Some <==> exists|i: int|
            0 <= i < t.len() && (#[trigger] t[i]).from == from && t[i].to == to,
    decreases t.len(),
{
    if t.len() > 0 {
        let short: Seq<Transfer> = t.drop_last();
        law_routes_are_those_used(short, from, to);
        lemma_table(routes(short), (t.last().from, t.last().to), ());
        assert(t[t.len() - 1] == t.last());
        if lookup(routes(short), (from, to)) is Some {
            let i: int = choose|i: int| 0 <= i < short.len() && (#[trigger] short[i]).from == from && short[i].to == to;
            assert(t[i] == short[i]);
        }
        if exists|i: int| 0 <= i < t.len() && (#[trigger] t[i]).from == from && t[i].to == to {
            let i: int = choose|i: int| 0 <= i < t.len() && (#[trigger] t[i]).from == from && t[i].to == to;
            if i < short.len() {
                assert(short[i] == t[i]);
            }
        }
    }
}

} // verus!
