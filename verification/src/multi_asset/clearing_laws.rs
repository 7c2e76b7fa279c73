//! What holds of every clearing in several pairs.

use vstd::prelude::*;
use crate::engines::auction::{clearing_price, eligible, fills_at, is_best, limit_prices, matched_at, Interest, TieRule};
use crate::engines::auction_laws::{below, law_auction_trades_all_it_can, law_batch_with_a_limit_clears};
use crate::engines::fill_laws::{
    ids_differ, legs_at, lemma_fill_fits, lemma_filled_by_position, lemma_filled_in_all, lemma_no_cross, lemma_shares,
    lemma_unknown_id,
};
use crate::engines::legs::{filled_under, leg_part, Leg};
use crate::multi_asset::batches::{batch_trade, batch_trades, interest_of, interests, legs_of, residual};
use crate::multi_asset::clearing::{candidates, left_over, pair_price, run_trades, shown, Batches};
use crate::multi_asset::matching::open_quantity;
use crate::multi_asset::types::{AssetPair, Order, PairView, Trade};
use crate::seqs::{lemma_total_add, lemma_total_push, lemma_total_same, lemma_total_scaled, total};
use crate::types::{Price, Side, PRICE_SCALE};

verus! {

/// Every batch has a clearing price, and it beats every other candidate.
pub proof fn law_every_batch_has_a_price(orders: Seq<Order>)
    ensures
        clearing_price(interests(orders), TieRule::Highest, candidates(orders)) == Some(pair_price(orders)),
        is_best(interests(orders), TieRule::Highest, candidates(orders), pair_price(orders)),
{
    let book: Seq<Interest> = interests(orders);
    law_batch_with_a_limit_clears(book, TieRule::Highest);
    let limits: Set<Price> = limit_prices(book);
    if limits == Set::<Price>::empty() {
        assert(is_best(book, TieRule::Highest, candidates(orders), PRICE_SCALE));
    } else {
        assert(exists|p: Price| limits.contains(p)) by {
            if forall|p: Price| !limits.contains(p) {
                assert(limits =~= Set::<Price>::empty());
            }
        }
        let p: Price = choose|p: Price| limits.contains(p);
        let i: int = choose|i: int| 0 <= i < book.len() && (#[trigger] book[i]).limit == Some(p);
        assert(book[i].limit is Some);
    }
}

/// The quantity of all trades.
pub open spec fn volume_of(trades: Seq<Trade>) -> int {
    total(trades, |t: Trade| t.quantity as int)
}

/// What is left of the orders of all pairs.
pub open spec fn open_in(b: Seq<(PairView, Seq<Order>)>) -> int {
    total(b, |e: (PairView, Seq<Order>)| open_quantity(e.1))
}

/// No two orders share an id, in whichever pairs they are.
pub open spec fn ids_distinct(entries: Seq<(AssetPair, Vec<Order>)>) -> bool {
    forall|i: int, x: int, j: int, y: int|
        0 <= i < entries.len() && 0 <= x < entries[i].1@.len() && 0 <= j < entries.len() && 0 <= y < entries[j].1@.len()
            && (i != j || x != y) ==> (#[trigger] entries[i].1@[x]).oid != (#[trigger] entries[j].1@[y]).oid
}

/// The trades of a batch are its fills.
proof fn lemma_batch_legs(orders: Seq<Order>, pair: AssetPair, price: Price, first_id: int)
    ensures
        legs_of(batch_trades(orders, pair, price, first_id)) == legs_at(interests(orders), price),
        volume_of(batch_trades(orders, pair, price, first_id)) == matched_at(interests(orders), price),
{
    let book: Seq<Interest> = interests(orders);
    let fills: Seq<(int, int, int)> = fills_at(book, price);
    let trades: Seq<Trade> = batch_trades(orders, pair, price, first_id);
    law_auction_trades_all_it_can(book, price);
    lemma_fill_fits(book, price);
    assert forall|i: int| 0 <= i < fills.len() implies legs_of(trades)[i] == legs_at(book, price)[i]
        && trades[i].quantity as int == fills[i].2 by {
        let (x, y, qty) = fills[i];
        assert(0 < fills[i].2 <= u128::MAX);
        assert(trades[i] == batch_trade(orders, pair, fills[i], price, first_id + i));
        assert(book[x] == interest_of(orders[x]) && book[y] == interest_of(orders[y]));
    }
    assert(legs_of(trades) =~= legs_at(book, price));
    lemma_total_same(trades, fills, |t: Trade| t.quantity as int, |f: (int, int, int)| f.2);
}

proof fn lemma_legs_added(u: Seq<Trade>, v: Seq<Trade>, oid: u64)
    ensures
        filled_under(legs_of(u + v), oid) == filled_under(legs_of(u), oid) + filled_under(legs_of(v), oid),
{
    assert(legs_of(u + v) =~= legs_of(u) + legs_of(v));
    lemma_total_add(legs_of(u), legs_of(v), leg_part(oid));
}

/// Nothing is filled under an id that no order has.
proof fn lemma_run_unknown(entries: Seq<(AssetPair, Vec<Order>)>, first_id: int, oid: u64)
    requires
        forall|i: int, x: int|
            0 <= i < entries.len() && 0 <= x < entries[i].1@.len() ==> (#[trigger] entries[i].1@[x]).oid != oid,
    ensures
        filled_under(legs_of(run_trades(entries, first_id)), oid) == 0,
    decreases entries.len(),
{
    if entries.len() > 0 {
        let short: Seq<(AssetPair, Vec<Order>)> = entries.drop_last();
        assert forall|i: int, x: int| 0 <= i < short.len() && 0 <= x < short[i].1@.len() implies (
        #[trigger] short[i].1@[x]).oid != oid by {
            assert(entries[i].1@[x].oid != oid);
        }
        lemma_run_unknown(short, first_id, oid);
        let before: Seq<Trade> = run_trades(short, first_id);
        let (pair, orders) = entries.last();
        let price: Price = pair_price(orders@);
        lemma_legs_added(before, batch_trades(orders@, pair, price, first_id + before.len()), oid);
        lemma_batch_legs(orders@, pair, price, first_id + before.len());
        let book: Seq<Interest> = interests(orders@);
        assert forall|x: int| 0 <= x < book.len() implies (#[trigger] book[x]).oid != oid by {
            assert(entries[entries.len() - 1].1@[x].oid != oid);
        }
        lemma_unknown_id(book, price, oid);
    }
}

/// What all trades fill of an order is what those of its own batch fill.
proof fn lemma_run_filled(entries: Seq<(AssetPair, Vec<Order>)>, first_id: int, i: int, x: int)
    requires
        ids_distinct(entries),
        0 <= i < entries.len(),
        0 <= x < entries[i].1@.len(),
    ensures
        filled_under(legs_of(run_trades(entries, first_id)), entries[i].1@[x].oid) == filled_under(
            legs_at(interests(entries[i].1@), pair_price(entries[i].1@)),
            entries[i].1@[x].oid,
        ),
    decreases entries.len(),
{
    let oid: u64 = entries[i].1@[x].oid;
    let short: Seq<(AssetPair, Vec<Order>)> = entries.drop_last();
    let last: int = entries.len() - 1;
    let before: Seq<Trade> = run_trades(short, first_id);
    let (pair, orders) = entries.last();
    let price: Price = pair_price(orders@);
    lemma_legs_added(before, batch_trades(orders@, pair, price, first_id + before.len()), oid);
    lemma_batch_legs(orders@, pair, price, first_id + before.len());
    if i == last {
        assert forall|j: int, y: int| 0 <= j < short.len() && 0 <= y < short[j].1@.len() implies (
        #[trigger] short[j].1@[y]).oid != oid by {
            assert(entries[j].1@[y].oid != entries[i].1@[x].oid);
        }
        lemma_run_unknown(short, first_id, oid);
    } else {
        assert(ids_distinct(short)) by {
            assert forall|p: int, u: int, q: int, v: int|
                0 <= p < short.len() && 0 <= u < short[p].1@.len() && 0 <= q < short.len() && 0 <= v < short[q].1@.len()
                    && (p != q || u != v) implies (#[trigger] short[p].1@[u]).oid != (#[trigger] short[q].1@[v]).oid by {
                assert(entries[p].1@[u].oid != entries[q].1@[v].oid);
            }
        }
        lemma_run_filled(short, first_id, i, x);
        let book: Seq<Interest> = interests(orders@);
        assert forall|y: int| 0 <= y < book.len() implies (#[trigger] book[y]).oid != oid by {
            assert(entries[last].1@[y].oid != entries[i].1@[x].oid);
        }
        lemma_unknown_id(book, price, oid);
    }
}

proof fn lemma_residual_total(orders: Seq<Order>, legs: Seq<Leg>, n: int)
    requires
        0 <= n <= orders.len(),
        forall|x: int|
            0 <= x < orders.len() ==> 0 <= filled_under(legs, (#[trigger] orders[x]).oid) <= orders[x].remaining,
    ensures
        open_quantity(residual(orders.take(n), legs)) == total(
            below(n),
            |x: int| orders[x].remaining - filled_under(legs, orders[x].oid),
        ),
    decreases n,
{
    let f = |o: Order| o.remaining as int;
    let g = |x: int| orders[x].remaining - filled_under(legs, orders[x].oid);
    if n == 0 {
        assert(orders.take(0) =~= Seq::<Order>::empty());
    } else {
        lemma_residual_total(orders, legs, n - 1);
        assert(orders.take(n).drop_last() =~= orders.take(n - 1));
        assert(below(n) =~= below(n - 1).push(n - 1));
        lemma_total_push(below(n - 1), n - 1, g);
        let rest: Order = orders[n - 1].filled_by(filled_under(legs, orders[n - 1].oid));
        assert(0 <= filled_under(legs, orders[n - 1].oid) <= orders[n - 1].remaining);
        lemma_total_push(residual(orders.take(n - 1), legs), rest, f);
    }
}

/// What is left of a batch is its quantity less twice what it traded.
proof fn lemma_batch_left(entries: Seq<(AssetPair, Vec<Order>)>, first_id: int, i: int)
    requires
        ids_distinct(entries),
        0 <= i < entries.len(),
    ensures
        open_quantity(residual(entries[i].1@, legs_of(run_trades(entries, first_id)))) == open_quantity(entries[i].1@)
            - 2 * matched_at(interests(entries[i].1@), pair_price(entries[i].1@)),
{
    let orders: Seq<Order> = entries[i].1@;
    let n: int = orders.len() as int;
    let book: Seq<Interest> = interests(orders);
    let price: Price = pair_price(orders);
    let legs: Seq<Leg> = legs_of(run_trades(entries, first_id));
    assert(ids_differ(book)) by {
        assert forall|x: int, y: int| 0 <= x < y < book.len() implies (#[trigger] book[x]).oid != (#[trigger] book[y]).oid by {
            assert(entries[i].1@[x].oid != entries[i].1@[y].oid);
        }
    }
    assert forall|x: int| 0 <= x < n implies 0 <= filled_under(legs, (#[trigger] orders[x]).oid) <= orders[x].remaining by {
        lemma_run_filled(entries, first_id, i, x);
        lemma_filled_by_position(book, price, x);
        assert(book[x] == interest_of(orders[x]));
    }
    lemma_residual_total(orders, legs, n);
    assert(orders.take(n) =~= orders);
    let rem = |x: int| orders[x].remaining as int;
    let left = |x: int| orders[x].remaining - filled_under(legs, orders[x].oid);
    let got = |x: int| filled_under(legs_at(book, price), book[x].oid);
    assert forall|k: int| 0 <= k < below(n).len() implies rem(#[trigger] below(n)[k]) == left(below(n)[k]) + got(
        below(n)[k],
    ) by {
        lemma_run_filled(entries, first_id, i, k);
        assert(book[k] == interest_of(orders[k]));
    }
    lemma_total_scaled(below(n), rem, left, got);
    lemma_filled_in_all(book, price);
    lemma_total_same(below(n), orders, rem, |o: Order| o.remaining as int);
}

/// Pairs that are used up leave nothing.
proof fn lemma_left_over_total(b: Seq<(PairView, Seq<Order>)>, legs: Seq<Leg>)
    ensures
        open_in(left_over(b, legs)) == total(b, |e: (PairView, Seq<Order>)| open_quantity(residual(e.1, legs))),
    decreases b.len(),
{
    if b.len() > 0 {
        lemma_left_over_total(b.drop_last(), legs);
        let before: Seq<(PairView, Seq<Order>)> = left_over(b.drop_last(), legs);
        let rest: Seq<Order> = residual(b.last().1, legs);
        if rest.len() > 0 {
            lemma_total_push(
                before,
                (b.last().0, rest),
                |e: (PairView, Seq<Order>)| open_quantity(e.1),
            );
        }
    }
}

pub open spec fn matched_in() -> spec_fn((AssetPair, Vec<Order>)) -> int {
    |e: (AssetPair, Vec<Order>)| matched_at(interests(e.1@), pair_price(e.1@))
}

proof fn lemma_run_volume(entries: Seq<(AssetPair, Vec<Order>)>, first_id: int)
    ensures
        volume_of(run_trades(entries, first_id)) == total(entries, matched_in()),
    decreases entries.len(),
{
    if entries.len() > 0 {
        lemma_run_volume(entries.drop_last(), first_id);
        let before: Seq<Trade> = run_trades(entries.drop_last(), first_id);
        let (pair, orders) = entries.last();
        let price: Price = pair_price(orders@);
        lemma_batch_legs(orders@, pair, price, first_id + before.len());
        lemma_total_add(
            before,
            batch_trades(orders@, pair, price, first_id + before.len()),
            |t: Trade| t.quantity as int,
        );
    }
}

/// Clearing all pairs conserves quantity: every traded unit leaves one buy and
/// one sell order, and whatever was not traded is kept for the next time.
pub proof fn law_clearing_all_pairs_conserves(b: Batches, first_id: int)
    requires
        ids_distinct(b.entries@),
    ensures
        ({
            let trades = run_trades(b.entries@, first_id);
            open_in(left_over(shown(b), legs_of(trades))) == open_in(shown(b)) - 2 * volume_of(trades)
        }),
{
    let entries: Seq<(AssetPair, Vec<Order>)> = b.entries@;
    let trades: Seq<Trade> = run_trades(entries, first_id);
    let legs: Seq<Leg> = legs_of(trades);
    lemma_left_over_total(shown(b), legs);
    lemma_run_volume(entries, first_id);
    let whole = |e: (PairView, Seq<Order>)| open_quantity(e.1);
    let rest = |e: (PairView, Seq<Order>)| open_quantity(residual(e.1, legs));
    let twice = |e: (PairView, Seq<Order>)| 2 * matched_at(interests(e.1), pair_price(e.1));
    let once = |e: (PairView, Seq<Order>)| matched_at(interests(e.1), pair_price(e.1));
    assert forall|i: int| 0 <= i < shown(b).len() implies whole(#[trigger] shown(b)[i]) == rest(shown(b)[i]) + twice(
        shown(b)[i],
    ) by {
        lemma_batch_left(entries, first_id, i);
    }
    lemma_total_scaled(shown(b), whole, rest, twice);
    lemma_total_scaled(shown(b), twice, once, once);
    lemma_total_same(entries, shown(b), matched_in(), once);
}

/// Each pair conserves quantity on its own: what is left of its orders is
/// their quantity less twice what the pair traded.
pub proof fn law_clearing_a_pair_conserves(b: Batches, first_id: int, i: int)
    requires
        ids_distinct(b.entries@),
        0 <= i < b.entries@.len(),
    ensures
        ({
            let entries = b.entries@;
            let (pair, orders) = (entries[i].0, entries[i].1@);
            let before = run_trades(entries.take(i), first_id).len();
            open_quantity(residual(orders, legs_of(run_trades(entries, first_id)))) == open_quantity(orders)
                - 2 * volume_of(batch_trades(orders, pair, pair_price(orders), first_id + before))
        }),
{
    let entries: Seq<(AssetPair, Vec<Order>)> = b.entries@;
    let (pair, orders): (AssetPair, Seq<Order>) = (entries[i].0, entries[i].1@);
    lemma_batch_left(entries, first_id, i);
    lemma_batch_legs(orders, pair, pair_price(orders), first_id + run_trades(entries.take(i), first_id).len());
}

/// What is left of a pair's orders does not cross: every buy limit is below
/// every sell limit.
pub proof fn law_leftovers_do_not_cross(b: Batches, first_id: int, i: int)
    requires
        ids_distinct(b.entries@),
        0 <= i < b.entries@.len(),
    ensures
        ({
            let left = residual(b.entries@[i].1@, legs_of(run_trades(b.entries@, first_id)));
            forall|u: int, v: int|
                0 <= u < left.len() && 0 <= v < left.len() && (#[trigger] left[u]).side() == Side::Buy && (
                #[trigger] left[v]).side() == Side::Sell && left[u].limit_price() is Some && left[v].limit_price() is Some
                    ==> left[u].limit_price()->0 < left[v].limit_price()->0
        }),
{
    let entries: Seq<(AssetPair, Vec<Order>)> = b.entries@;
    let orders: Seq<Order> = entries[i].1@;
    let book: Seq<Interest> = interests(orders);
    let price: Price = pair_price(orders);
    let legs: Seq<Leg> = legs_of(run_trades(entries, first_id));
    let left: Seq<Order> = residual(orders, legs);
    assert(ids_differ(book)) by {
        assert forall|u: int, v: int| 0 <= u < v < book.len() implies (#[trigger] book[u]).oid != (#[trigger] book[v]).oid by {
            assert(entries[i].1@[u].oid != entries[i].1@[v].oid);
        }
    }
    law_every_batch_has_a_price(orders);
    assert forall|u: int, v: int|
        0 <= u < left.len() && 0 <= v < left.len() && (#[trigger] left[u]).side() == Side::Buy && (
        #[trigger] left[v]).side() == Side::Sell && left[u].limit_price() is Some && left[v].limit_price() is Some implies left[u].limit_price()->0
        < left[v].limit_price()->0 by {
        let x: int = lemma_residual_member(orders, legs, u);
        let y: int = lemma_residual_member(orders, legs, v);
        lemma_run_filled(entries, first_id, i, x);
        lemma_run_filled(entries, first_id, i, y);
        lemma_filled_by_position(book, price, x);
        lemma_filled_by_position(book, price, y);
        lemma_shares(book, price, x);
        lemma_shares(book, price, y);
        assert(book[x] == interest_of(orders[x]) && book[y] == interest_of(orders[y]));
        assert(limit_prices(book).contains(book[x].limit->0));
        assert(candidates(orders) == limit_prices(book));
        lemma_no_cross(book, TieRule::Highest, price, x, y);
    }
}

/// Every order that is left is one of the batch, less what was filled under
/// its id.
proof fn lemma_residual_member(orders: Seq<Order>, legs: Seq<Leg>, i: int) -> (x: int)
    requires
        0 <= i < residual(orders, legs).len(),
    ensures
        0 <= x < orders.len(),
        residual(orders, legs)[i] == orders[x].filled_by(filled_under(legs, orders[x].oid)),
        residual(orders, legs)[i].remaining > 0,
    decreases orders.len(),
{
    let before: Seq<Order> = residual(orders.drop_last(), legs);
    if i < before.len() {
        lemma_residual_member(orders.drop_last(), legs, i)
    } else {
        orders.len() - 1
    }
}

/// An order that does not accept its pair's clearing price is kept with all of
/// its quantity.
pub proof fn law_unaccepting_orders_are_kept(b: Batches, first_id: int, i: int, x: int)
    requires
        ids_distinct(b.entries@),
        0 <= i < b.entries@.len(),
        0 <= x < b.entries@[i].1@.len(),
        b.entries@[i].1@[x].remaining > 0,
        !eligible(
            interest_of(b.entries@[i].1@[x]),
            b.entries@[i].1@[x].side(),
            pair_price(b.entries@[i].1@),
        ),
    ensures
        residual(b.entries@[i].1@, legs_of(run_trades(b.entries@, first_id))).contains(b.entries@[i].1@[x]),
{
    let entries: Seq<(AssetPair, Vec<Order>)> = b.entries@;
    let orders: Seq<Order> = entries[i].1@;
    let book: Seq<Interest> = interests(orders);
    let legs: Seq<Leg> = legs_of(run_trades(entries, first_id));
    assert(ids_differ(book)) by {
        assert forall|u: int, v: int| 0 <= u < v < book.len() implies (#[trigger] book[u]).oid != (#[trigger] book[v]).oid by {
            assert(entries[i].1@[u].oid != entries[i].1@[v].oid);
        }
    }
    assert(book[x] == interest_of(orders[x]));
    lemma_run_filled(entries, first_id, i, x);
    lemma_filled_by_position(book, pair_price(orders), x);
    lemma_residual_keeps(orders, legs, x, orders.len() as int);
    assert(orders.take(orders.len() as int) =~= orders);
}

proof fn lemma_residual_keeps(orders: Seq<Order>, legs: Seq<Leg>, x: int, n: int)
    requires
        0 <= x < n <= orders.len(),
        filled_under(legs, orders[x].oid) == 0,
        orders[x].remaining > 0,
    ensures
        residual(orders.take(n), legs).contains(orders[x]),
    decreases n,
{
    assert(orders.take(n).drop_last() =~= orders.take(n - 1));
    let before: Seq<Order> = residual(orders.take(n - 1), legs);
    let after: Seq<Order> = residual(orders.take(n), legs);
    if x == n - 1 {
        assert(orders[x].filled_by(0) == orders[x]);
        assert(after[after.len() - 1] == orders[x]);
    } else {
        lemma_residual_keeps(orders, legs, x, n - 1);
        let i: int = choose|i: int| 0 <= i < before.len() && before[i] == orders[x];
        assert(after[i] == orders[x]);
    }
}

} // verus!
