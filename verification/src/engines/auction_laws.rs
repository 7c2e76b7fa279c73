//! What holds of every batch auction.

use vstd::prelude::*;
use crate::engines::auction::{
    after_fill, clearing_price, demand, eligible, fills_at, is_best, is_queue, lemma_queue_exists, limit_prices,
    matched_at, pair_off, preferred, queue, served_before, supply, volume_at, with_quantities, Interest, TieRule,
};
use crate::seqs::{
    lemma_total_bounds, lemma_total_first, lemma_total_nonneg, lemma_total_push, lemma_total_remove, lemma_total_same,
    lemma_total_scaled, lemma_total_update, min_of, total,
};
use crate::types::{Price, Side};

verus! {

/// The quantities of a queue.
pub open spec fn queued(s: Seq<(int, int)>) -> int {
    total(s, |e: (int, int)| e.1)
}

/// The quantity of a list of fills.
pub open spec fn traded(fills: Seq<(int, int, int)>) -> int {
    total(fills, |f: (int, int, int)| f.2)
}

/// What a fill gives to the buy order at position `x`.
pub open spec fn buyer_part(x: int) -> spec_fn((int, int, int)) -> int {
    |f: (int, int, int)|
        if f.0 == x {
            f.2
        } else {
            0
        }
}

/// What a fill takes from the sell order at position `x`.
pub open spec fn seller_part(x: int) -> spec_fn((int, int, int)) -> int {
    |f: (int, int, int)|
        if f.1 == x {
            f.2
        } else {
            0
        }
}

/// What the fills give to the buy order at position `x`.
pub open spec fn bought_by(fills: Seq<(int, int, int)>, x: int) -> int {
    total(fills, buyer_part(x))
}

/// What the fills take from the sell order at position `x`.
pub open spec fn sold_by(fills: Seq<(int, int, int)>, x: int) -> int {
    total(fills, seller_part(x))
}

pub open spec fn no_debts(s: Seq<(int, int)>) -> bool {
    forall|i: int| 0 <= i < s.len() ==> (#[trigger] s[i]).1 >= 0
}

pub open spec fn distinct(s: Seq<(int, int)>) -> bool {
    forall|i: int, j: int| 0 <= i < j < s.len() ==> (#[trigger] s[i]).0 != (#[trigger] s[j]).0
}

pub open spec fn listed(s: Seq<(int, int)>, x: int) -> bool {
    exists|i: int| 0 <= i < s.len() && (#[trigger] s[i]).0 == x
}

proof fn lemma_after_fill(s: Seq<(int, int)>, qty: int)
    requires
        s.len() > 0,
        no_debts(s),
        0 <= qty <= s[0].1,
    ensures
        no_debts(after_fill(s, qty)),
        queued(after_fill(s, qty)) == queued(s) - qty,
        distinct(s) ==> distinct(after_fill(s, qty)),
        forall|x: int| listed(after_fill(s, qty), x) ==> #[trigger] listed(s, x),
        distinct(s) && s[0].1 <= qty ==> !listed(after_fill(s, qty), s[0].0),
{
    let t: Seq<(int, int)> = after_fill(s, qty);
    let f = |e: (int, int)| e.1;
    lemma_total_first(s, f);
    if s[0].1 <= qty {
        assert forall|i: int| 0 <= i < t.len() implies (#[trigger] t[i]).1 >= 0 by {
            assert(s[i + 1].1 >= 0);
        }
        assert forall|x: int| listed(t, x) implies #[trigger] listed(s, x) by {
            let i: int = choose|i: int| 0 <= i < t.len() && (#[trigger] t[i]).0 == x;
            assert(s[i + 1].0 == x);
        }
        if distinct(s) && listed(t, s[0].0) {
            let i: int = choose|i: int| 0 <= i < t.len() && (#[trigger] t[i]).0 == s[0].0;
            assert(s[0].0 != s[i + 1].0);
        }
        assert forall|i: int, j: int| distinct(s) && 0 <= i < j < t.len() implies (#[trigger] t[i]).0 != (
        #[trigger] t[j]).0 by {
            assert(s[i + 1].0 != s[j + 1].0);
        }
    } else {
        lemma_total_update(s, 0, (s[0].0, s[0].1 - qty), f);
        assert forall|x: int| listed(t, x) implies #[trigger] listed(s, x) by {
            let i: int = choose|i: int| 0 <= i < t.len() && (#[trigger] t[i]).0 == x;
            assert(s[i].0 == x);
        }
        assert forall|i: int, j: int| distinct(s) && 0 <= i < j < t.len() implies (#[trigger] t[i]).0 != (
        #[trigger] t[j]).0 by {
            assert(s[i].0 != s[j].0);
        }
        assert forall|i: int| 0 <= i < t.len() implies (#[trigger] t[i]).1 >= 0 by {
            assert(s[i].1 >= 0);
        }
    }
}

proof fn lemma_queued_nonneg(s: Seq<(int, int)>)
    requires
        no_debts(s),
    ensures
        queued(s) >= 0,
{
    lemma_total_nonneg(s, |e: (int, int)| e.1);
}

/// Two queues trade the smaller of their quantities, in positive fills
/// between orders that are in them.
pub proof fn lemma_pair_off(buys: Seq<(int, int)>, sells: Seq<(int, int)>)
    requires
        no_debts(buys),
        no_debts(sells),
    ensures
        traded(pair_off(buys, sells)) == min_of(queued(buys), queued(sells)),
        pair_off(buys, sells).len() <= buys.len() + sells.len(),
        forall|i: int|
            0 <= i < pair_off(buys, sells).len() ==> {
                let (b, s, qty) = #[trigger] pair_off(buys, sells)[i];
                qty > 0 && listed(buys, b) && listed(sells, s)
            },
    decreases buys.len() + sells.len(),
{
    lemma_queued_nonneg(buys);
    lemma_queued_nonneg(sells);
    if buys.len() > 0 && sells.len() > 0 {
        let qty: int = min_of(buys[0].1, sells[0].1);
        assert(buys[0].1 >= 0 && sells[0].1 >= 0);
        let (b, s): (Seq<(int, int)>, Seq<(int, int)>) = (after_fill(buys, qty), after_fill(sells, qty));
        lemma_after_fill(buys, qty);
        lemma_after_fill(sells, qty);
        lemma_pair_off(b, s);
        let rest: Seq<(int, int, int)> = pair_off(b, s);
        let all: Seq<(int, int, int)> = pair_off(buys, sells);
        let shift: int = if qty > 0 { 1 } else { 0 };
        if qty > 0 {
            assert(all.drop_first() =~= rest);
            lemma_total_first(all, |f: (int, int, int)| f.2);
        }
        assert forall|i: int| 0 <= i < all.len() implies {
            let (x, y, q) = #[trigger] all[i];
            q > 0 && listed(buys, x) && listed(sells, y)
        } by {
            if qty > 0 && i == 0 {
                assert(all[0] == (buys[0].0, sells[0].0, qty));
            } else {
                assert(all[i] == rest[i - shift]);
                let (x, y, q) = rest[i - shift];
                assert(listed(b, x) && listed(s, y));
                assert(listed(buys, x) && listed(sells, y));
            }
        }
    } else {
        assert(pair_off(buys, sells) =~= Seq::empty());
        if buys.len() == 0 {
            assert(queued(buys) == 0);
        } else {
            assert(queued(sells) == 0);
        }
    }
}

/// What an order gets when `all` is handed out along the queue: its own
/// quantity, or whatever the orders ahead of it have left over.
pub open spec fn share_of(s: Seq<(int, int)>, k: int, all: int) -> int {
    let over = all - queued(s.take(k));
    if over <= 0 {
        0
    } else {
        min_of(s[k].1, over)
    }
}

pub proof fn lemma_absent_gets_nothing(buys: Seq<(int, int)>, sells: Seq<(int, int)>, x: int)
    requires
        no_debts(buys),
        no_debts(sells),
        !listed(buys, x),
    ensures
        bought_by(pair_off(buys, sells), x) == 0,
{
    lemma_pair_off(buys, sells);
    let fills: Seq<(int, int, int)> = pair_off(buys, sells);
    let f = buyer_part(x);
    assert forall|i: int| 0 <= i < fills.len() implies f(#[trigger] fills[i]) == 0 by {
        let (b, s, q) = fills[i];
        assert(listed(buys, b));
    }
    lemma_all_zero(fills, f);
}

proof fn lemma_all_zero(fills: Seq<(int, int, int)>, f: spec_fn((int, int, int)) -> int)
    requires
        forall|i: int| 0 <= i < fills.len() ==> f(#[trigger] fills[i]) == 0,
    ensures
        total(fills, f) == 0,
    decreases fills.len(),
{
    if fills.len() > 0 {
        assert(f(fills[fills.len() - 1]) == 0);
        assert forall|i: int| 0 <= i < fills.drop_last().len() implies f(#[trigger] fills.drop_last()[i]) == 0 by {
            assert(f(fills[i]) == 0);
        }
        lemma_all_zero(fills.drop_last(), f);
    }
}

/// The buy queue is served strictly in order.
pub proof fn lemma_bought_in_order(buys: Seq<(int, int)>, sells: Seq<(int, int)>, k: int)
    requires
        no_debts(buys),
        no_debts(sells),
        distinct(buys),
        0 <= k < buys.len(),
    ensures
        bought_by(pair_off(buys, sells), buys[k].0) == share_of(buys, k, min_of(queued(buys), queued(sells))),
    decreases buys.len() + sells.len(),
{
    let x: int = buys[k].0;
    let f = buyer_part(x);
    let g = |e: (int, int)| e.1;
    lemma_queued_nonneg(buys);
    lemma_queued_nonneg(sells);
    assert(buys[k].1 >= 0);
    assert(no_debts(buys.take(k))) by {
        assert forall|i: int| 0 <= i < buys.take(k).len() implies (#[trigger] buys.take(k)[i]).1 >= 0 by {
            assert(buys[i].1 >= 0);
        }
    }
    lemma_queued_nonneg(buys.take(k));
    if sells.len() == 0 {
        assert(pair_off(buys, sells) =~= Seq::empty());
        assert(queued(sells) == 0);
    } else {
        let qty: int = min_of(buys[0].1, sells[0].1);
        assert(buys[0].1 >= 0 && sells[0].1 >= 0);
        let (b, s): (Seq<(int, int)>, Seq<(int, int)>) = (after_fill(buys, qty), after_fill(sells, qty));
        lemma_after_fill(buys, qty);
        lemma_after_fill(sells, qty);
        let rest: Seq<(int, int, int)> = pair_off(b, s);
        let fills: Seq<(int, int, int)> = pair_off(buys, sells);
        let t0: int = min_of(queued(buys), queued(sells));
        assert(min_of(queued(b), queued(s)) == t0 - qty);
        if qty > 0 {
            assert(fills.drop_first() =~= rest);
            lemma_total_first(fills, f);
        }
        let head: int = if qty > 0 && k == 0 { qty } else { 0 };
        if qty > 0 && k > 0 {
            assert(buys[0].0 != buys[k].0);
        }
        assert(bought_by(fills, x) == head + bought_by(rest, x));
        if k == 0 {
            assert(buys.take(0) =~= Seq::empty());
            if buys[0].1 <= qty {
                assert(!listed(b, x));
                lemma_absent_gets_nothing(b, s, x);
                lemma_total_first(buys, g);
                lemma_queued_nonneg(b);
                lemma_total_first(sells, g);
                lemma_queued_nonneg(s);
            } else {
                lemma_bought_in_order(b, s, 0);
                assert(b.take(0) =~= Seq::empty());
                lemma_queued_nonneg(b);
                lemma_queued_nonneg(s);
            }
        } else {
            if buys[0].1 <= qty {
                lemma_bought_in_order(b, s, k - 1);
                assert(b[k - 1] == buys[k]);
                assert(b.take(k - 1) =~= buys.take(k).drop_first());
                lemma_total_first(buys.take(k), g);
            } else {
                lemma_bought_in_order(b, s, k);
                assert(b.take(k) =~= buys.take(k).update(0, (buys[0].0, buys[0].1 - qty)));
                lemma_total_update(buys.take(k), 0, (buys[0].0, buys[0].1 - qty), g);
            }
        }
    }
}

pub open spec fn mirrored(f: (int, int, int)) -> (int, int, int) {
    (f.1, f.0, f.2)
}

/// Exchanging the sides exchanges them in every fill.
pub proof fn lemma_pair_off_mirrored(buys: Seq<(int, int)>, sells: Seq<(int, int)>)
    ensures
        pair_off(sells, buys) == pair_off(buys, sells).map_values(|f: (int, int, int)| mirrored(f)),
    decreases buys.len() + sells.len(),
{
    let m = |f: (int, int, int)| mirrored(f);
    if buys.len() > 0 && sells.len() > 0 {
        let qty: int = min_of(buys[0].1, sells[0].1);
        let (b, s): (Seq<(int, int)>, Seq<(int, int)>) = (after_fill(buys, qty), after_fill(sells, qty));
        lemma_pair_off_mirrored(b, s);
    }
    assert(pair_off(sells, buys) =~= pair_off(buys, sells).map_values(m));
}

/// The sell queue is served strictly in order.
pub proof fn lemma_sold_in_order(buys: Seq<(int, int)>, sells: Seq<(int, int)>, k: int)
    requires
        no_debts(buys),
        no_debts(sells),
        distinct(sells),
        0 <= k < sells.len(),
    ensures
        sold_by(pair_off(buys, sells), sells[k].0) == share_of(sells, k, min_of(queued(buys), queued(sells))),
{
    lemma_pair_off_mirrored(buys, sells);
    lemma_bought_in_order(sells, buys, k);
    let fills: Seq<(int, int, int)> = pair_off(buys, sells);
    let x: int = sells[k].0;
    lemma_total_same(
        pair_off(sells, buys),
        fills,
        buyer_part(x),
        seller_part(x),
    );
}

/// Demand falls and supply rises as the price goes up.
pub proof fn law_curves_are_monotone(book: Seq<Interest>, low: Price, high: Price)
    requires
        low <= high,
    ensures
        demand(book, high) <= demand(book, low),
        supply(book, low) <= supply(book, high),
{
    lemma_total_bounds(
        book,
        |it: Interest| if eligible(it, Side::Buy, high) { it.remaining as int } else { 0 },
        |it: Interest| if eligible(it, Side::Buy, low) { it.remaining as int } else { 0 },
    );
    lemma_total_bounds(
        book,
        |it: Interest| if eligible(it, Side::Sell, low) { it.remaining as int } else { 0 },
        |it: Interest| if eligible(it, Side::Sell, high) { it.remaining as int } else { 0 },
    );
}

/// A limit price that is closest to `p` from above, if any is at or above
/// it, else the highest one.
proof fn lemma_nearest_limit(book: Seq<Interest>, p: Price, n: int) -> (r: Option<Price>)
    requires
        0 <= n <= book.len(),
    ensures
        r is None ==> forall|i: int| 0 <= i < n ==> (#[trigger] book[i]).limit is None,
        r matches Some(c) ==> {
            &&& exists|i: int| 0 <= i < n && (#[trigger] book[i]).limit == Some(c)
            &&& c >= p ==> forall|i: int|
                0 <= i < n ==> ((#[trigger] book[i]).limit matches Some(x) ==> x < p || x >= c)
            &&& c < p ==> forall|i: int| 0 <= i < n ==> ((#[trigger] book[i]).limit matches Some(x) ==> x <= c)
        },
    decreases n,
{
    if n == 0 {
        None
    } else {
        let prior: Option<Price> = lemma_nearest_limit(book, p, n - 1);
        let here: Option<Price> = book[n - 1].limit;
        let r: Option<Price> = match (prior, here) {
            (None, _) => here,
            (Some(c), None) => Some(c),
            (Some(c), Some(x)) => if c >= p {
                if p <= x && x < c {
                    Some(x)
                } else {
                    Some(c)
                }
            } else {
                if x > c {
                    Some(x)
                } else {
                    Some(c)
                }
            },
        };
        if let Some(c) = r {
            if here == Some(c) {
                assert(book[n - 1].limit == Some(c));
            } else {
                let i: int = choose|i: int| 0 <= i < n - 1 && (#[trigger] book[i]).limit == Some(c);
                assert(book[i].limit == Some(c));
            }
        }
        r
    }
}

/// No price at all, submitted or not, matches more than the clearing price:
/// looking at the submitted limit prices is enough.
pub proof fn law_clearing_price_maximizes_volume(book: Seq<Interest>, rule: TieRule, price: Price, other: Price)
    requires
        clearing_price(book, rule, limit_prices(book)) == Some(price),
    ensures
        matched_at(book, other) <= matched_at(book, price),
{
    assert(is_best(book, rule, limit_prices(book), price));
    let nearest: Option<Price> = lemma_nearest_limit(book, other, book.len() as int);
    let w: int = choose|w: int| 0 <= w < book.len() && (#[trigger] book[w]).limit == Some(price);
    assert(book[w].limit is Some);
    let c: Price = nearest->0;
    assert(limit_prices(book).contains(c));
    assert(matched_at(book, c) <= matched_at(book, price)) by {
        if c != price {
            assert(preferred(book, rule, price, c));
        }
    }
    if c >= other {
        law_curves_are_monotone(book, other, c);
        let f = |it: Interest| if eligible(it, Side::Buy, other) { it.remaining as int } else { 0 };
        let g = |it: Interest| if eligible(it, Side::Buy, c) { it.remaining as int } else { 0 };
        assert forall|i: int| 0 <= i < book.len() implies f(#[trigger] book[i]) == g(book[i]) by {
            if let Some(x) = book[i].limit {
                assert(x < other || x >= c);
            }
        }
        lemma_total_same(book, book, f, g);
    } else {
        law_curves_are_monotone(book, c, other);
        let f = |it: Interest| if eligible(it, Side::Sell, other) { it.remaining as int } else { 0 };
        let g = |it: Interest| if eligible(it, Side::Sell, c) { it.remaining as int } else { 0 };
        assert forall|i: int| 0 <= i < book.len() implies f(#[trigger] book[i]) == g(book[i]) by {
            if let Some(x) = book[i].limit {
                assert(x <= c);
            }
        }
        lemma_total_same(book, book, f, g);
    }
}

/// The best of the first `n` limit prices.
proof fn lemma_best_limit(book: Seq<Interest>, rule: TieRule, n: int) -> (r: Option<Price>)
    requires
        0 <= n <= book.len(),
    ensures
        r is None ==> forall|i: int| 0 <= i < n ==> (#[trigger] book[i]).limit is None,
        r matches Some(p) ==> {
            &&& exists|i: int| 0 <= i < n && (#[trigger] book[i]).limit == Some(p)
            &&& forall|i: int|
                0 <= i < n ==> ((#[trigger] book[i]).limit matches Some(q) ==> q == p || preferred(book, rule, p, q))
        },
    decreases n,
{
    if n == 0 {
        None
    } else {
        let prior: Option<Price> = lemma_best_limit(book, rule, n - 1);
        let here: Option<Price> = book[n - 1].limit;
        let r: Option<Price> = match (prior, here) {
            (None, _) => here,
            (Some(p), None) => Some(p),
            (Some(p), Some(q)) => if q != p && preferred(book, rule, q, p) {
                Some(q)
            } else {
                Some(p)
            },
        };
        if let Some(p) = r {
            if here == Some(p) {
                assert(book[n - 1].limit == Some(p));
            } else {
                let i: int = choose|i: int| 0 <= i < n - 1 && (#[trigger] book[i]).limit == Some(p);
                assert(book[i].limit == Some(p));
            }
        }
        r
    }
}

/// A batch has a clearing price exactly when it has a limit order, and that
/// price is one of its limits and beats every other.
pub proof fn law_batch_with_a_limit_clears(book: Seq<Interest>, rule: TieRule)
    ensures
        clearing_price(book, rule, limit_prices(book)) is Some <==> exists|i: int|
            0 <= i < book.len() && (#[trigger] book[i]).limit is Some,
        clearing_price(book, rule, limit_prices(book)) matches Some(p) ==> is_best(book, rule, limit_prices(book), p),
{
    let candidates: Set<Price> = limit_prices(book);
    match lemma_best_limit(book, rule, book.len() as int) {
        Some(p) => {
            assert(candidates.contains(p));
            assert forall|q: Price| #[trigger] candidates.contains(q) && q != p implies preferred(book, rule, p, q) by {
                let i: int = choose|i: int| 0 <= i < book.len() && (#[trigger] book[i]).limit == Some(q);
                assert(book[i].limit == Some(q));
            }
            assert(is_best(book, rule, candidates, p));
            let i: int = choose|i: int| 0 <= i < book.len() && (#[trigger] book[i]).limit == Some(p);
            assert(book[i].limit is Some);
        },
        None => {
            assert forall|p: Price| !is_best(book, rule, candidates, p) by {
                if candidates.contains(p) {
                    let i: int = choose|i: int| 0 <= i < book.len() && (#[trigger] book[i]).limit == Some(p);
                    assert(book[i].limit is None);
                }
            }
        },
    }
}

/// The numbers below `n`.
pub open spec fn below(n: int) -> Seq<int> {
    Seq::new(n as nat, |i: int| i)
}

/// `w` where the order at the position is eligible, else nothing.
pub open spec fn where_eligible(book: Seq<Interest>, side: Side, price: Price, w: spec_fn(int) -> int) -> spec_fn(
    int,
) -> int {
    |x: int|
        if eligible(book[x], side, price) {
            w(x)
        } else {
            0
        }
}

/// Distinct positions below `n` that are exactly the eligible ones sum to
/// the same as all positions below `n` with the others left out.
pub proof fn lemma_members_total(book: Seq<Interest>, side: Side, price: Price, q: Seq<int>, n: int, w: spec_fn(int) -> int)
    requires
        0 <= n <= book.len(),
        forall|i: int, j: int| 0 <= i < j < q.len() ==> q[i] != q[j],
        forall|i: int| 0 <= i < q.len() ==> 0 <= #[trigger] q[i] < n && eligible(book[q[i]], side, price),
        forall|x: int| 0 <= x < n && eligible(book[x], side, price) ==> #[trigger] q.contains(x),
    ensures
        total(q, w) == total(below(n), where_eligible(book, side, price, w)),
    decreases n,
{
    let v = where_eligible(book, side, price, w);
    if n == 0 {
        if q.len() > 0 {
            assert(0 <= q[0] < n);
        }
    } else {
        assert(below(n) =~= below(n - 1).push(n - 1));
        lemma_total_push(below(n - 1), n - 1, v);
        if eligible(book[n - 1], side, price) {
            assert(q.contains(n - 1));
            let j: int = choose|j: int| 0 <= j < q.len() && q[j] == n - 1;
            let r: Seq<int> = q.remove(j);
            assert forall|i: int, k: int| 0 <= i < k < r.len() implies r[i] != r[k] by {
                let i0: int = if i < j { i } else { i + 1 };
                let k0: int = if k < j { k } else { k + 1 };
                assert(q[i0] != q[k0]);
            }
            assert forall|i: int| 0 <= i < r.len() implies 0 <= #[trigger] r[i] < n - 1 && eligible(book[r[i]], side, price) by {
                let i0: int = if i < j { i } else { i + 1 };
                assert(r[i] == q[i0]);
                assert(0 <= q[i0] < n);
                if i0 < j {
                    assert(q[i0] != q[j]);
                } else {
                    assert(q[j] != q[i0]);
                }
            }
            assert forall|x: int| 0 <= x < n - 1 && eligible(book[x], side, price) implies #[trigger] r.contains(x) by {
                assert(q.contains(x));
                let i0: int = choose|i0: int| 0 <= i0 < q.len() && q[i0] == x;
                assert(r[if i0 < j { i0 } else { i0 - 1 }] == x);
            }
            lemma_members_total(book, side, price, r, n - 1, w);
            lemma_total_remove(q, j, w);
        } else {
            assert forall|i: int| 0 <= i < q.len() implies 0 <= #[trigger] q[i] < n - 1 by {
                assert(eligible(book[q[i]], side, price));
            }
            lemma_members_total(book, side, price, q, n - 1, w);
        }
    }
}

/// A queue holds every eligible position exactly once, so its quantity is
/// the volume at the price.
pub proof fn lemma_queue_volume(book: Seq<Interest>, side: Side, price: Price, q: Seq<int>)
    requires
        is_queue(book, side, price, q),
    ensures
        queued(with_quantities(book, q)) == volume_at(book, side, price),
        no_debts(with_quantities(book, q)),
        distinct(with_quantities(book, q)),
{
    let s: Seq<(int, int)> = with_quantities(book, q);
    let w = |x: int| book[x].remaining as int;
    assert forall|i: int, j: int| 0 <= i < j < q.len() implies q[i] != q[j] by {
        assert(served_before(book, q[i], q[j]));
    }
    assert forall|i: int, j: int| 0 <= i < j < s.len() implies (#[trigger] s[i]).0 != (#[trigger] s[j]).0 by {
        assert(q[i] != q[j]);
    }
    lemma_members_total(book, side, price, q, book.len() as int, w);
    lemma_total_same(s, q, |e: (int, int)| e.1, w);
    lemma_total_same(
        below(book.len() as int),
        book,
        where_eligible(book, side, price, w),
        |it: Interest| if eligible(it, side, price) { it.remaining as int } else { 0 },
    );
}

/// The two queues together are no longer than the batch.
pub proof fn lemma_queue_lengths(book: Seq<Interest>, price: Price, buys: Seq<int>, sells: Seq<int>)
    requires
        is_queue(book, Side::Buy, price, buys),
        is_queue(book, Side::Sell, price, sells),
    ensures
        buys.len() + sells.len() <= book.len(),
{
    let n: int = book.len() as int;
    let one = |x: int| 1int;
    assert forall|i: int, j: int| 0 <= i < j < buys.len() implies buys[i] != buys[j] by {
        assert(served_before(book, buys[i], buys[j]));
    }
    assert forall|i: int, j: int| 0 <= i < j < sells.len() implies sells[i] != sells[j] by {
        assert(served_before(book, sells[i], sells[j]));
    }
    lemma_members_total(book, Side::Buy, price, buys, n, one);
    lemma_members_total(book, Side::Sell, price, sells, n, one);
    lemma_ones(buys);
    lemma_ones(sells);
    lemma_ones(below(n));
    let b = where_eligible(book, Side::Buy, price, one);
    let s = where_eligible(book, Side::Sell, price, one);
    let both = |x: int| b(x) + s(x);
    lemma_total_scaled(below(n), both, b, s);
    lemma_total_bounds(below(n), both, one);
}

proof fn lemma_ones(q: Seq<int>)
    ensures
        total(q, |x: int| 1int) == q.len(),
    decreases q.len(),
{
    if q.len() > 0 {
        lemma_ones(q.drop_last());
    }
}

/// The auction trades exactly the smaller of demand and supply at its
/// price, and every fill is between orders that accept the price.
pub proof fn law_auction_trades_all_it_can(book: Seq<Interest>, price: Price)
    ensures
        traded(fills_at(book, price)) == matched_at(book, price),
        fills_at(book, price).len() <= book.len(),
        forall|i: int|
            0 <= i < fills_at(book, price).len() ==> {
                let (b, s, qty) = #[trigger] fills_at(book, price)[i];
                &&& qty > 0
                &&& 0 <= b < book.len() && eligible(book[b], Side::Buy, price)
                &&& 0 <= s < book.len() && eligible(book[s], Side::Sell, price)
            },
{
    let (buys, sells): (Seq<int>, Seq<int>) = (queue(book, Side::Buy, price), queue(book, Side::Sell, price));
    lemma_queue_exists(book, Side::Buy, price);
    lemma_queue_exists(book, Side::Sell, price);
    lemma_queue_volume(book, Side::Buy, price, buys);
    lemma_queue_volume(book, Side::Sell, price, sells);
    lemma_queue_lengths(book, price, buys, sells);
    let (b, s): (Seq<(int, int)>, Seq<(int, int)>) = (with_quantities(book, buys), with_quantities(book, sells));
    lemma_pair_off(b, s);
    let fills: Seq<(int, int, int)> = fills_at(book, price);
    assert forall|i: int| 0 <= i < fills.len() implies {
        let (x, y, qty) = #[trigger] fills[i];
        &&& qty > 0
        &&& 0 <= x < book.len() && eligible(book[x], Side::Buy, price)
        &&& 0 <= y < book.len() && eligible(book[y], Side::Sell, price)
    } by {
        let (x, y, qty) = fills[i];
        assert(listed(b, x) && listed(s, y));
        let k: int = choose|k: int| 0 <= k < b.len() && (#[trigger] b[k]).0 == x;
        let l: int = choose|l: int| 0 <= l < s.len() && (#[trigger] s[l]).0 == y;
        assert(buys[k] == x && sells[l] == y);
    }
}

/// The matched quantity is handed out along each queue: an order gets
/// nothing before everyone served before it is filled whole, so only orders
/// at the end of what trades are rationed, the earliest first.
pub proof fn law_rationing_follows_the_queue(book: Seq<Interest>, price: Price)
    ensures
        forall|k: int|
            0 <= k < queue(book, Side::Buy, price).len() ==> bought_by(
                fills_at(book, price),
                #[trigger] queue(book, Side::Buy, price)[k],
            ) == share_of(
                with_quantities(book, queue(book, Side::Buy, price)),
                k,
                matched_at(book, price),
            ),
        forall|k: int|
            0 <= k < queue(book, Side::Sell, price).len() ==> sold_by(
                fills_at(book, price),
                #[trigger] queue(book, Side::Sell, price)[k],
            ) == share_of(
                with_quantities(book, queue(book, Side::Sell, price)),
                k,
                matched_at(book, price),
            ),
{
    let (buys, sells): (Seq<int>, Seq<int>) = (queue(book, Side::Buy, price), queue(book, Side::Sell, price));
    lemma_queue_exists(book, Side::Buy, price);
    lemma_queue_exists(book, Side::Sell, price);
    lemma_queue_volume(book, Side::Buy, price, buys);
    lemma_queue_volume(book, Side::Sell, price, sells);
    let (b, s): (Seq<(int, int)>, Seq<(int, int)>) = (with_quantities(book, buys), with_quantities(book, sells));
    assert forall|k: int| 0 <= k < buys.len() implies bought_by(fills_at(book, price), #[trigger] buys[k]) == share_of(
        b,
        k,
        matched_at(book, price),
    ) by {
        lemma_bought_in_order(b, s, k);
        assert(b[k].0 == buys[k]);
    }
    assert forall|k: int| 0 <= k < sells.len() implies sold_by(fills_at(book, price), #[trigger] sells[k]) == share_of(
        s,
        k,
        matched_at(book, price),
    ) by {
        lemma_sold_in_order(b, s, k);
        assert(s[k].0 == sells[k]);
    }
}

} // verus!
