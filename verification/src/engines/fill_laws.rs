//! What the fills of a batch do to each order, by its id.

use vstd::prelude::*;
use crate::engines::auction::{
    accepts, clearing_price, eligible, fills_at, lemma_queue_exists, limit_prices, matched_at, queue, served_before,
    volume_at, with_quantities, Interest, TieRule,
};
use crate::engines::auction_laws::{
    below, bought_by, buyer_part, law_auction_trades_all_it_can, law_clearing_price_maximizes_volume,
    law_rationing_follows_the_queue, lemma_members_total, queued, seller_part, share_of, sold_by, traded, where_eligible,
};
use crate::engines::legs::{filled_under, leg_part, Leg};
use crate::seqs::{
    lemma_total_bounds, lemma_total_member, lemma_total_nonneg, lemma_total_prefix, lemma_total_push, lemma_total_remove,
    lemma_total_same, lemma_total_scaled, lemma_total_take, total,
};
use crate::types::{Price, Side};

verus! {

/// No two orders share an id.
pub open spec fn ids_differ(book: Seq<Interest>) -> bool {
    forall|i: int, j: int| 0 <= i < j < book.len() ==> (#[trigger] book[i]).oid != (#[trigger] book[j]).oid
}

/// The fills of a batch at `price`, by order ids.
pub open spec fn legs_at(book: Seq<Interest>, price: Price) -> Seq<Leg> {
    let fills = fills_at(book, price);
    Seq::new(
        fills.len(),
        |i: int| Leg { buy_oid: book[fills[i].0].oid, sell_oid: book[fills[i].1].oid, qty: fills[i].2 as u128 },
    )
}

/// The fills of an order are part of what it offered.
pub proof fn lemma_shares(book: Seq<Interest>, price: Price, x: int)
    requires
        0 <= x < book.len(),
    ensures
        ({
            let fills = fills_at(book, price);
            &&& 0 <= bought_by(fills, x) <= (if eligible(book[x], Side::Buy, price) {
                book[x].remaining as int
            } else {
                0
            })
            &&& 0 <= sold_by(fills, x) <= (if eligible(book[x], Side::Sell, price) {
                book[x].remaining as int
            } else {
                0
            })
        }),
{
    let fills: Seq<(int, int, int)> = fills_at(book, price);
    law_auction_trades_all_it_can(book, price);
    law_rationing_follows_the_queue(book, price);
    lemma_queue_exists(book, Side::Buy, price);
    lemma_queue_exists(book, Side::Sell, price);
    let (buys, sells): (Seq<int>, Seq<int>) = (queue(book, Side::Buy, price), queue(book, Side::Sell, price));
    lemma_total_nonneg(fills, buyer_part(x));
    lemma_total_nonneg(fills, seller_part(x));
    if eligible(book[x], Side::Buy, price) {
        assert(buys.contains(x));
        let k: int = choose|k: int| 0 <= k < buys.len() && buys[k] == x;
        assert(bought_by(fills, buys[k]) == share_of(with_quantities(book, buys), k, matched_at(book, price)));
    } else {
        lemma_nothing_bought(fills, book, price, x);
    }
    if eligible(book[x], Side::Sell, price) {
        assert(sells.contains(x));
        let k: int = choose|k: int| 0 <= k < sells.len() && sells[k] == x;
        assert(sold_by(fills, sells[k]) == share_of(with_quantities(book, sells), k, matched_at(book, price)));
    } else {
        lemma_nothing_sold(fills, book, price, x);
    }
}

proof fn lemma_nothing_bought(fills: Seq<(int, int, int)>, book: Seq<Interest>, price: Price, x: int)
    requires
        !eligible(book[x], Side::Buy, price),
        forall|i: int| 0 <= i < fills.len() ==> eligible(book[(#[trigger] fills[i]).0], Side::Buy, price),
    ensures
        bought_by(fills, x) == 0,
    decreases fills.len(),
{
    if fills.len() > 0 {
        assert(eligible(book[fills[fills.len() - 1].0], Side::Buy, price));
        assert forall|i: int| 0 <= i < fills.drop_last().len() implies eligible(
            book[(#[trigger] fills.drop_last()[i]).0],
            Side::Buy,
            price,
        ) by {
            assert(eligible(book[fills[i].0], Side::Buy, price));
        }
        lemma_nothing_bought(fills.drop_last(), book, price, x);
    }
}

proof fn lemma_nothing_sold(fills: Seq<(int, int, int)>, book: Seq<Interest>, price: Price, x: int)
    requires
        !eligible(book[x], Side::Sell, price),
        forall|i: int| 0 <= i < fills.len() ==> eligible(book[(#[trigger] fills[i]).1], Side::Sell, price),
    ensures
        sold_by(fills, x) == 0,
    decreases fills.len(),
{
    if fills.len() > 0 {
        assert(eligible(book[fills[fills.len() - 1].1], Side::Sell, price));
        assert forall|i: int| 0 <= i < fills.drop_last().len() implies eligible(
            book[(#[trigger] fills.drop_last()[i]).1],
            Side::Sell,
            price,
        ) by {
            assert(eligible(book[fills[i].1], Side::Sell, price));
        }
        lemma_nothing_sold(fills.drop_last(), book, price, x);
    }
}

/// Every fill of a batch is a representable quantity.
pub proof fn lemma_fill_fits(book: Seq<Interest>, price: Price)
    ensures
        forall|i: int|
            0 <= i < fills_at(book, price).len() ==> 0 < (#[trigger] fills_at(book, price)[i]).2 <= u128::MAX,
{
    let fills: Seq<(int, int, int)> = fills_at(book, price);
    law_auction_trades_all_it_can(book, price);
    assert forall|i: int| 0 <= i < fills.len() implies 0 < (#[trigger] fills[i]).2 <= u128::MAX by {
        let x: int = fills[i].0;
        lemma_shares(book, price, x);
        lemma_total_member(fills, i, buyer_part(x));
    }
}

/// With distinct ids, what was filled under an order's id is what the fills
/// gave to its position, and never more than it had.
pub proof fn lemma_filled_by_position(book: Seq<Interest>, price: Price, x: int)
    requires
        ids_differ(book),
        0 <= x < book.len(),
    ensures
        filled_under(legs_at(book, price), book[x].oid) == bought_by(fills_at(book, price), x) + sold_by(
            fills_at(book, price),
            x,
        ),
        0 <= filled_under(legs_at(book, price), book[x].oid) <= book[x].remaining,
        !eligible(book[x], book[x].side, price) ==> filled_under(legs_at(book, price), book[x].oid) == 0,
{
    let fills: Seq<(int, int, int)> = fills_at(book, price);
    let legs: Seq<Leg> = legs_at(book, price);
    let both = |f: (int, int, int)| buyer_part(x)(f) + seller_part(x)(f);
    law_auction_trades_all_it_can(book, price);
    lemma_fill_fits(book, price);
    assert forall|i: int| 0 <= i < legs.len() implies leg_part(book[x].oid)(#[trigger] legs[i]) == both(fills[i]) by {
        let (b, s, qty) = fills[i];
        assert(0 < fills[i].2 <= u128::MAX);
        if b != x {
            if b < x {
                assert(book[b].oid != book[x].oid);
            } else {
                assert(book[x].oid != book[b].oid);
            }
        }
        if s != x {
            if s < x {
                assert(book[s].oid != book[x].oid);
            } else {
                assert(book[x].oid != book[s].oid);
            }
        }
    }
    lemma_total_same(legs, fills, leg_part(book[x].oid), both);
    lemma_total_scaled(fills, both, buyer_part(x), seller_part(x));
    lemma_shares(book, price, x);
}

/// Nothing is filled under an id that no order has.
pub proof fn lemma_unknown_id(book: Seq<Interest>, price: Price, oid: u64)
    requires
        forall|x: int| 0 <= x < book.len() ==> (#[trigger] book[x]).oid != oid,
    ensures
        filled_under(legs_at(book, price), oid) == 0,
{
    let fills: Seq<(int, int, int)> = fills_at(book, price);
    let legs: Seq<Leg> = legs_at(book, price);
    law_auction_trades_all_it_can(book, price);
    let none = |f: (int, int, int)| 0int;
    assert forall|i: int| 0 <= i < legs.len() implies leg_part(oid)(#[trigger] legs[i]) == none(fills[i]) by {
        let (b, s, qty) = fills[i];
        assert(book[b].oid != oid && book[s].oid != oid);
    }
    lemma_total_same(legs, fills, leg_part(oid), none);
    lemma_no_total(fills, none);
}

proof fn lemma_no_total<T>(s: Seq<T>, f: spec_fn(T) -> int)
    requires
        forall|x: T| #[trigger] f(x) == 0,
    ensures
        total(s, f) == 0,
    decreases s.len(),
{
    if s.len() > 0 {
        lemma_no_total(s.drop_last(), f);
    }
}

/// The quantity given to positions below `n` adds up to the quantity traded.
proof fn lemma_bought_in_all(fills: Seq<(int, int, int)>, n: int)
    requires
        0 <= n,
        forall|i: int| 0 <= i < fills.len() ==> 0 <= (#[trigger] fills[i]).0 < n,
    ensures
        total(below(n), |x: int| bought_by(fills, x)) == traded(fills),
    decreases fills.len(),
{
    let f = |x: int| bought_by(fills, x);
    if fills.len() == 0 {
        lemma_no_total(below(n), f);
    } else {
        let prior: Seq<(int, int, int)> = fills.drop_last();
        assert forall|i: int| 0 <= i < prior.len() implies 0 <= (#[trigger] prior[i]).0 < n by {
            assert(0 <= fills[i].0 < n);
        }
        lemma_bought_in_all(prior, n);
        let g = |x: int| bought_by(prior, x);
        let last: (int, int, int) = fills.last();
        let h = |x: int| buyer_part(x)(last);
        lemma_total_scaled(below(n), f, g, h);
        assert(0 <= fills[fills.len() - 1].0 < n);
        lemma_one_hot(n, last.0, last.2, h);
    }
}

proof fn lemma_sold_in_all(fills: Seq<(int, int, int)>, n: int)
    requires
        0 <= n,
        forall|i: int| 0 <= i < fills.len() ==> 0 <= (#[trigger] fills[i]).1 < n,
    ensures
        total(below(n), |x: int| sold_by(fills, x)) == traded(fills),
    decreases fills.len(),
{
    let f = |x: int| sold_by(fills, x);
    if fills.len() == 0 {
        lemma_no_total(below(n), f);
    } else {
        let prior: Seq<(int, int, int)> = fills.drop_last();
        assert forall|i: int| 0 <= i < prior.len() implies 0 <= (#[trigger] prior[i]).1 < n by {
            assert(0 <= fills[i].1 < n);
        }
        lemma_sold_in_all(prior, n);
        let g = |x: int| sold_by(prior, x);
        let last: (int, int, int) = fills.last();
        let h = |x: int| seller_part(x)(last);
        lemma_total_scaled(below(n), f, g, h);
        assert(0 <= fills[fills.len() - 1].1 < n);
        lemma_one_hot(n, last.1, last.2, h);
    }
}

proof fn lemma_one_hot(n: int, at: int, v: int, h: spec_fn(int) -> int)
    requires
        forall|x: int| #[trigger] h(x) == if x == at { v } else { 0 },
        0 <= n,
    ensures
        total(below(n), h) == if 0 <= at < n { v } else { 0 },
    decreases n,
{
    if n > 0 {
        lemma_one_hot(n - 1, at, v, h);
        assert(below(n) =~= below(n - 1).push(n - 1));
        lemma_total_push(below(n - 1), n - 1, h);
    }
}

/// What the fills give to the positions adds up to twice what is traded.
pub proof fn lemma_shares_in_all(book: Seq<Interest>, price: Price)
    ensures
        total(
            below(book.len() as int),
            |x: int| bought_by(fills_at(book, price), x) + sold_by(fills_at(book, price), x),
        ) == 2 * matched_at(book, price),
{
    let n: int = book.len() as int;
    let fills: Seq<(int, int, int)> = fills_at(book, price);
    law_auction_trades_all_it_can(book, price);
    assert forall|i: int| 0 <= i < fills.len() implies 0 <= (#[trigger] fills[i]).0 < n by {}
    assert forall|i: int| 0 <= i < fills.len() implies 0 <= (#[trigger] fills[i]).1 < n by {}
    lemma_bought_in_all(fills, n);
    lemma_sold_in_all(fills, n);
    lemma_total_scaled(
        below(n),
        |x: int| bought_by(fills, x) + sold_by(fills, x),
        |x: int| bought_by(fills, x),
        |x: int| sold_by(fills, x),
    );
}

/// Every traded unit is filled under two ids.
pub proof fn lemma_filled_in_all(book: Seq<Interest>, price: Price)
    requires
        ids_differ(book),
    ensures
        total(below(book.len() as int), |x: int| filled_under(legs_at(book, price), book[x].oid)) == 2 * matched_at(
            book,
            price,
        ),
{
    let n: int = book.len() as int;
    let fills: Seq<(int, int, int)> = fills_at(book, price);
    let share = |x: int| bought_by(fills, x) + sold_by(fills, x);
    let got = |x: int| filled_under(legs_at(book, price), book[x].oid);
    assert forall|i: int| 0 <= i < below(n).len() implies got(#[trigger] below(n)[i]) == share(below(n)[i]) by {
        lemma_filled_by_position(book, price, i);
    }
    lemma_total_same(below(n), below(n), got, share);
    lemma_shares_in_all(book, price);
}

/// Under an order's id at least what its position got was filled.
pub proof fn lemma_filled_at_least(book: Seq<Interest>, price: Price, x: int)
    requires
        0 <= x < book.len(),
    ensures
        0 <= bought_by(fills_at(book, price), x) + sold_by(fills_at(book, price), x) <= filled_under(
            legs_at(book, price),
            book[x].oid,
        ),
        bought_by(fills_at(book, price), x) + sold_by(fills_at(book, price), x) <= book[x].remaining,
{
    let fills: Seq<(int, int, int)> = fills_at(book, price);
    let legs: Seq<Leg> = legs_at(book, price);
    let oid: u64 = book[x].oid;
    let both = |f: (int, int, int)| buyer_part(x)(f) + seller_part(x)(f);
    let under = |f: (int, int, int)|
        (if book[f.0].oid == oid {
            f.2
        } else {
            0
        }) + (if book[f.1].oid == oid {
            f.2
        } else {
            0
        });
    law_auction_trades_all_it_can(book, price);
    lemma_fill_fits(book, price);
    assert forall|i: int| 0 <= i < legs.len() implies leg_part(oid)(#[trigger] legs[i]) == under(fills[i]) by {
        assert(0 < fills[i].2 <= u128::MAX);
    }
    lemma_total_same(legs, fills, leg_part(oid), under);
    assert forall|i: int| 0 <= i < fills.len() implies 0 <= both(#[trigger] fills[i]) <= under(fills[i]) by {
        assert(0 < fills[i].2);
    }
    lemma_total_bounds(fills, both, under);
    lemma_total_scaled(fills, both, buyer_part(x), seller_part(x));
    lemma_shares(book, price, x);
}

/// If an order is not filled whole at `price`, those served up to it have
/// more than is traded, and all of them accept any price that it accepts.
proof fn lemma_unfilled(book: Seq<Interest>, side: Side, price: Price, other: Price, x: int)
    requires
        0 <= x < book.len(),
        eligible(book[x], side, price),
        book[x].limit is Some,
        accepts(side, book[x].limit, other),
        book[x].remaining > match side {
            Side::Buy => bought_by(fills_at(book, price), x),
            Side::Sell => sold_by(fills_at(book, price), x),
        },
    ensures
        volume_at(book, side, other) > matched_at(book, price),
{
    let q: Seq<int> = queue(book, side, price);
    lemma_queue_exists(book, side, price);
    law_rationing_follows_the_queue(book, price);
    assert(q.contains(x));
    let k: int = choose|k: int| 0 <= k < q.len() && q[k] == x;
    let s: Seq<(int, int)> = with_quantities(book, q);
    let own = |e: (int, int)| e.1;
    assert(match side {
        Side::Buy => bought_by(fills_at(book, price), q[k]),
        Side::Sell => sold_by(fills_at(book, price), q[k]),
    } == share_of(s, k, matched_at(book, price)));
    lemma_total_take(s, k, own);
    assert(queued(s.take(k + 1)) > matched_at(book, price));
    let w = |y: int|
        if accepts(side, book[y].limit, other) {
            book[y].remaining as int
        } else {
            0
        };
    let head: Seq<int> = q.take(k + 1);
    assert forall|j: int| 0 <= j < head.len() implies w(#[trigger] head[j]) == own(s.take(k + 1)[j]) by {
        if j < k {
            assert(served_before(book, q[j], q[k]));
        }
        assert(eligible(book[q[j]], side, price));
    }
    lemma_total_same(head, s.take(k + 1), w, own);
    assert forall|j: int| 0 <= j < q.len() implies 0 <= w(#[trigger] q[j]) by {}
    lemma_total_prefix(q, k + 1, w);
    let n: int = book.len() as int;
    assert forall|i: int, j: int| 0 <= i < j < q.len() implies q[i] != q[j] by {
        assert(served_before(book, q[i], q[j]));
    }
    lemma_members_total(book, side, price, q, n, w);
    let here = where_eligible(book, side, price, w);
    let there = |y: int|
        if eligible(book[y], side, other) {
            book[y].remaining as int
        } else {
            0
        };
    assert forall|i: int| 0 <= i < below(n).len() implies 0 <= here(#[trigger] below(n)[i]) <= there(below(n)[i]) by {}
    lemma_total_bounds(below(n), here, there);
    lemma_total_same(
        below(n),
        book,
        there,
        |it: Interest| if eligible(it, side, other) { it.remaining as int } else { 0 },
    );
}

/// A price that an order accepts, on top of all that accept a price that it
/// does not, has at least its quantity more.
proof fn lemma_one_more(book: Seq<Interest>, side: Side, price: Price, other: Price, x: int)
    requires
        0 <= x < book.len(),
        !eligible(book[x], side, price),
        eligible(book[x], side, other),
        match side {
            Side::Buy => other <= price,
            Side::Sell => other >= price,
        },
    ensures
        volume_at(book, side, other) >= volume_at(book, side, price) + book[x].remaining,
{
    let f = |it: Interest| if eligible(it, side, price) { it.remaining as int } else { 0 };
    let g = |it: Interest| if eligible(it, side, other) { it.remaining as int } else { 0 };
    lemma_total_remove(book, x, f);
    lemma_total_remove(book, x, g);
    lemma_total_bounds(book.remove(x), f, g);
}

/// After a clearing at the best price, of a buy limit at or above a sell limit
/// at least one is filled whole.
pub proof fn lemma_no_cross(book: Seq<Interest>, rule: TieRule, price: Price, x: int, y: int)
    requires
        clearing_price(book, rule, limit_prices(book)) == Some(price),
        0 <= x < book.len(),
        0 <= y < book.len(),
        book[x].side == Side::Buy,
        book[y].side == Side::Sell,
        book[x].limit is Some,
        book[y].limit is Some,
        bought_by(fills_at(book, price), x) < book[x].remaining,
        sold_by(fills_at(book, price), y) < book[y].remaining,
    ensures
        book[x].limit->0 < book[y].limit->0,
{
    let (bid, ask): (Price, Price) = (book[x].limit->0, book[y].limit->0);
    law_auction_trades_all_it_can(book, price);
    lemma_shares(book, price, x);
    lemma_shares(book, price, y);
    if bid >= ask {
        if price > bid {
            law_clearing_price_maximizes_volume(book, rule, price, bid);
            lemma_unfilled(book, Side::Sell, price, price, y);
            lemma_unfilled(book, Side::Sell, price, bid, y);
            lemma_one_more(book, Side::Buy, price, bid, x);
        } else if price < ask {
            law_clearing_price_maximizes_volume(book, rule, price, ask);
            lemma_unfilled(book, Side::Buy, price, price, x);
            lemma_unfilled(book, Side::Buy, price, ask, x);
            lemma_one_more(book, Side::Sell, price, ask, y);
        } else {
            lemma_unfilled(book, Side::Buy, price, price, x);
            lemma_unfilled(book, Side::Sell, price, price, y);
        }
    }
}

} // verus!
