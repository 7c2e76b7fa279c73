//! The orders and batches of a row, in terms of the messages, trades and
//! clearings on record.

use vstd::prelude::*;
use crate::engines::legs::{filled_under, leg_part};
use crate::engines::plain::{fill_part, lesser};
use crate::metrics::arrivals::{arrivals, in_window};
use crate::metrics::events::{BatchClearedEvent, BookSnapshot, OrderMessage, TradeEvent};
use crate::metrics::facts::{
    batch_nanos, batch_times, book_nanos, book_times, boundary_part, clearing_before, group_named, grouped, markout,
    message_times, opening_times, row_holds, trade_times, user_in, window, window_part, Carry, IntervalFacts,
};
use crate::metrics::grid::{
    bucket, law_bucket_holds_the_moment, law_buckets_follow_time, lemma_on_grid_later, lemma_placed, on_grid, placed,
    row_start,
};
use crate::metrics::orders::{first_fill, opening_of, openings, outcome, outcomes, trade_legs, OrderState};
use crate::metrics::row_laws::{falls, lemma_falls, lemma_placed_all, lemma_selects, names, selects};
use crate::metrics::series::series;
use crate::seqs::{lemma_total_nonneg, lemma_total_same, total};
use crate::sorting::{pick, positions};

verus! {

/// The message opened an order: it was accepted, and no accepted one before it
/// has its id.
pub open spec fn opened_by(messages: Seq<OrderMessage>, i: int) -> bool {
    &&& 0 <= i < messages.len()
    &&& messages[i].accepted
    &&& forall|j: int| 0 <= j < i && (#[trigger] messages[j]).accepted ==> messages[j].oid != messages[i].oid
}

/// The limit of the order with this id, as its first accepted message tells
/// it; none for an order that was never accepted.
pub open spec fn is_limit_of(messages: Seq<OrderMessage>, oid: u64, limit: Option<u128>) -> bool {
    ||| exists|i: int| #[trigger] opened_by(messages, i) && messages[i].oid == oid && limit == messages[i].limit_price
    ||| limit is None && forall|i: int| 0 <= i < messages.len() && (#[trigger] messages[i]).accepted ==> messages[i].oid
        != oid
}

proof fn lemma_opening(messages: Seq<OrderMessage>, oid: u64)
    ensures
        match opening_of(messages, oid) {
            Some(i) => opened_by(messages, i) && messages[i].oid == oid,
            None => forall|i: int| 0 <= i < messages.len() && (#[trigger] messages[i]).accepted ==> messages[i].oid != oid,
        },
    decreases messages.len(),
{
    if messages.len() > 0 {
        let short: Seq<OrderMessage> = messages.drop_last();
        lemma_opening(short, oid);
        match opening_of(short, oid) {
            Some(i) => {
                assert(messages[i] == short[i]);
                assert forall|j: int| 0 <= j < i && (#[trigger] messages[j]).accepted implies messages[j].oid
                    != messages[i].oid by {
                    assert(short[j] == messages[j]);
                }
            },
            None => {
                assert forall|j: int| 0 <= j < short.len() && (#[trigger] messages[j]).accepted implies messages[j].oid
                    != oid by {
                    assert(short[j] == messages[j]);
                }
            },
        }
    }
}

/// The limits noted for a trade are those of its two orders.
pub proof fn law_markouts_tell_the_limits(
    row: IntervalFacts,
    messages: Seq<OrderMessage>,
    trades: Seq<TradeEvent>,
    batches: Seq<BatchClearedEvent>,
    books: Seq<BookSnapshot>,
    anchor: int,
    width: int,
    lo: int,
    n: int,
    carry: Carry,
    k: int,
)
    requires
        row_holds(row, messages, trades, batches, books, anchor, width, lo, n, carry, k),
    ensures
        row.markouts@.len() == row.trades@.len(),
        forall|i: int|
            0 <= i < row.trades@.len() ==> {
                let t = trades[#[trigger] row.trades@[i] as int].trade;
                &&& is_limit_of(messages, t.buy_order_id, row.markouts@[i].buy_limit)
                &&& is_limit_of(messages, t.sell_order_id, row.markouts@[i].sell_limit)
            },
{
    let at: Seq<int> = placed(trade_times(trades), anchor, width, row_start(lo, k, width));
    assert(positions(row.trades@).len() == row.trades@.len());
    assert forall|i: int| 0 <= i < row.trades@.len() implies {
        let t = trades[#[trigger] row.trades@[i] as int].trade;
        &&& is_limit_of(messages, t.buy_order_id, row.markouts@[i].buy_limit)
        &&& is_limit_of(messages, t.sell_order_id, row.markouts@[i].sell_limit)
    } by {
        assert(positions(row.trades@)[i] == row.trades@[i]);
        assert(at[i] == row.trades@[i]);
        assert(row.markouts@[i] == markout(messages, series(books, batches), trades[at[i]]));
        lemma_opening(messages, trades[at[i]].trade.buy_order_id);
        lemma_opening(messages, trades[at[i]].trade.sell_order_id);
    }
}

/// What a recorded trade fills of the order with this id.
pub open spec fn event_fills(oid: u64) -> spec_fn(TradeEvent) -> int {
    |t: TradeEvent| fill_part(oid)(t.trade)
}

/// The trade is one of this order.
pub open spec fn trades_for(t: TradeEvent, oid: u64) -> bool {
    t.trade.buy_order_id == oid || t.trade.sell_order_id == oid
}

/// The earliest moment of a trade of the order, if there is any.
pub open spec fn is_first_fill(trades: Seq<TradeEvent>, oid: u64, ts: Option<u64>) -> bool {
    match ts {
        Some(t) => {
            &&& exists|i: int| 0 <= i < trades.len() && trades_for(#[trigger] trades[i], oid) && trades[i].trade.ts == t
            &&& forall|i: int|
                0 <= i < trades.len() && trades_for(#[trigger] trades[i], oid) ==> t <= trades[i].trade.ts
        },
        None => forall|i: int| 0 <= i < trades.len() ==> !trades_for(#[trigger] trades[i], oid),
    }
}

proof fn lemma_first_fill(trades: Seq<TradeEvent>, oid: u64)
    ensures
        is_first_fill(trades, oid, first_fill(trades, oid)),
    decreases trades.len(),
{
    if trades.len() > 0 {
        let short: Seq<TradeEvent> = trades.drop_last();
        lemma_first_fill(short, oid);
        let earlier: Option<u64> = first_fill(short, oid);
        assert(trades[trades.len() - 1] == trades.last());
        if earlier is Some {
            let i: int = choose|i: int|
                0 <= i < short.len() && trades_for(#[trigger] short[i], oid) && short[i].trade.ts == earlier->0;
            assert(trades[i] == short[i]);
        }
        assert forall|i: int| 0 <= i < short.len() implies #[trigger] trades[i] == short[i] by {}
        match first_fill(trades, oid) {
            Some(t) => {
                assert forall|i: int| 0 <= i < trades.len() && trades_for(#[trigger] trades[i], oid) implies t
                    <= trades[i].trade.ts by {
                    if i < short.len() {
                        assert(trades_for(short[i], oid));
                    }
                }
            },
            None => {
                assert forall|i: int| 0 <= i < trades.len() implies !trades_for(#[trigger] trades[i], oid) by {
                    if i < short.len() {
                        assert(!trades_for(short[i], oid));
                    }
                }
            },
        }
    }
}

proof fn lemma_filled(trades: Seq<TradeEvent>, oid: u64)
    ensures
        filled_under(trade_legs(trades), oid) == total(trades, event_fills(oid)),
        total(trades, event_fills(oid)) >= 0,
{
    lemma_total_same(trade_legs(trades), trades, leg_part(oid), event_fills(oid));
    lemma_total_nonneg(trades, event_fills(oid));
}

proof fn lemma_all_openings(messages: Seq<OrderMessage>)
    ensures
        forall|k: int| 0 <= k < openings(messages).len() ==> opened_by(messages, #[trigger] openings(messages)[k]),
        forall|k: int, l: int|
            0 <= k < l < openings(messages).len() ==> #[trigger] openings(messages)[k] < #[trigger] openings(messages)[l],
        forall|i: int| #[trigger] opened_by(messages, i) ==> openings(messages).contains(i),
    decreases messages.len(),
{
    if messages.len() > 0 {
        let short: Seq<OrderMessage> = messages.drop_last();
        lemma_all_openings(short);
        lemma_opening(short, messages.last().oid);
        let e: Seq<int> = openings(short);
        let r: Seq<int> = openings(messages);
        assert forall|j: int| 0 <= j < short.len() implies #[trigger] messages[j] == short[j] by {}
        assert forall|k: int| 0 <= k < e.len() implies 0 <= #[trigger] e[k] < short.len() by {
            assert(opened_by(short, e[k]));
        }
        assert forall|k: int| 0 <= k < r.len() implies opened_by(messages, #[trigger] r[k]) by {
            if k < e.len() {
                assert(r[k] == e[k]);
                assert(opened_by(short, e[k]));
                assert forall|j: int| 0 <= j < r[k] && (#[trigger] messages[j]).accepted implies messages[j].oid
                    != messages[r[k]].oid by {
                    assert(short[j].accepted);
                }
            } else {
                assert forall|j: int| 0 <= j < r[k] && (#[trigger] messages[j]).accepted implies messages[j].oid
                    != messages[r[k]].oid by {
                    assert(short[j].accepted);
                }
            }
        }
        assert forall|i: int| #[trigger] opened_by(messages, i) implies r.contains(i) by {
            if i < short.len() {
                assert(opened_by(short, i)) by {
                    assert forall|j: int| 0 <= j < i && (#[trigger] short[j]).accepted implies short[j].oid
                        != short[i].oid by {
                        assert(messages[j].accepted);
                    }
                }
                assert(e.contains(i));
                let k: int = choose|k: int| 0 <= k < e.len() && e[k] == i;
                assert(r[k] == i);
            } else {
                if opening_of(short, messages.last().oid) is Some {
                    let j: int = opening_of(short, messages.last().oid)->0;
                    assert(messages[j].accepted);
                }
                assert(r[r.len() - 1] == i);
            }
        }
    }
}

/// There is one outcome for each message that opened an order, in their order.
/// It adds up all that trades filled of the order, bought or sold, up to what a
/// number holds, and tells when the first of these trades was.
pub proof fn law_outcomes_follow_the_orders(messages: Seq<OrderMessage>, trades: Seq<TradeEvent>)
    requires
        messages.len() <= usize::MAX,
    ensures
        ({
            let states = outcomes(messages, trades);
            &&& forall|k: int|
                0 <= k < states.len() ==> {
                    let i = (#[trigger] states[k]).message as int;
                    &&& opened_by(messages, i)
                    &&& states[k].filled_qty == lesser(total(trades, event_fills(messages[i].oid)), u128::MAX as int)
                    &&& is_first_fill(trades, messages[i].oid, states[k].first_fill_ts)
                }
            &&& forall|k: int, l: int|
                0 <= k < l < states.len() ==> (#[trigger] states[k]).message < (#[trigger] states[l]).message
            &&& forall|i: int| #[trigger] opened_by(messages, i) ==> has_outcome(states, i)
        }),
{
    let states: Seq<OrderState> = outcomes(messages, trades);
    let opened: Seq<int> = openings(messages);
    lemma_all_openings(messages);
    assert forall|k: int| 0 <= k < states.len() implies (#[trigger] states[k]).message == opened[k] && opened_by(
        messages,
        opened[k],
    ) by {
        assert(opened_by(messages, opened[k]));
    }
    assert forall|k: int| 0 <= k < states.len() implies {
        let i = (#[trigger] states[k]).message as int;
        &&& opened_by(messages, i)
        &&& states[k].filled_qty == lesser(total(trades, event_fills(messages[i].oid)), u128::MAX as int)
        &&& is_first_fill(trades, messages[i].oid, states[k].first_fill_ts)
    } by {
        let oid: u64 = messages[opened[k]].oid;
        assert(states[k].message == opened[k]);
        lemma_filled(trades, oid);
        lemma_first_fill(trades, oid);
    }
    assert forall|i: int| #[trigger] opened_by(messages, i) implies has_outcome(states, i) by {
        assert(opened.contains(i));
        let k: int = choose|k: int| 0 <= k < opened.len() && opened[k] == i;
        assert(states[k].message == i);
    }
}

/// One of the outcomes is of the order that this message opened.
pub open spec fn has_outcome(states: Seq<OrderState>, i: int) -> bool {
    exists|k: int| 0 <= k < states.len() && (#[trigger] states[k]).message == i
}

pub open spec fn order_falls(
    messages: Seq<OrderMessage>,
    states: Seq<OrderState>,
    anchor: int,
    width: int,
    start: int,
) -> spec_fn(int) -> bool {
    |x: int| falls(messages[states[x].message as int].ts as int, anchor, width, start)
}

/// Is in one of the groups.
spec fn in_group(groups: Seq<Seq<int>>, x: int) -> bool {
    exists|j: int, m: int| 0 <= j < groups.len() && 0 <= m < groups[j].len() && #[trigger] groups[j][m] == x
}

proof fn lemma_group_named(groups: Seq<Seq<int>>, name: spec_fn(int) -> Seq<char>, wanted: Seq<char>)
    ensures
        ({
            let k = group_named(groups, name, wanted);
            &&& 0 <= k <= groups.len()
            &&& k < groups.len() ==> name(groups[k][0]) == wanted
            &&& forall|j: int| 0 <= j < k ==> name((#[trigger] groups[j])[0]) != wanted
        }),
    decreases groups.len(),
{
    if groups.len() > 0 && name(groups[0][0]) != wanted {
        let rest: Seq<Seq<int>> = groups.drop_first();
        lemma_group_named(rest, name, wanted);
        let k: int = group_named(rest, name, wanted);
        if k < rest.len() {
            assert(rest[k] == groups[k + 1]);
        }
        assert forall|j: int| 0 <= j < k + 1 implies name((#[trigger] groups[j])[0]) != wanted by {
            if j > 0 {
                assert(rest[j - 1] == groups[j]);
            }
        }
    }
}

/// These groups have the members of an ascending list, each in one, by name.
spec fn are_groups(s: Seq<int>, name: spec_fn(int) -> Seq<char>, r: Seq<Seq<int>>) -> bool {
    &&& forall|j: int| 0 <= j < r.len() ==> (#[trigger] r[j]).len() > 0
    &&& forall|j: int, m: int|
        0 <= j < r.len() && 0 <= m < r[j].len() ==> s.contains(#[trigger] r[j][m]) && name(r[j][m]) == name(r[j][0])
    &&& forall|i: int| 0 <= i < s.len() ==> in_group(r, #[trigger] s[i])
    &&& forall|j: int, m: int, l: int|
        0 <= j < r.len() && 0 <= m < l < r[j].len() ==> #[trigger] r[j][m] < #[trigger] r[j][l]
    &&& forall|j: int, h: int|
        0 <= j < h < r.len() ==> name((#[trigger] r[j])[0]) != name((#[trigger] r[h])[0])
}

spec fn ascending(s: Seq<int>) -> bool {
    forall|i: int, j: int| 0 <= i < j < s.len() ==> #[trigger] s[i] < #[trigger] s[j]
}

proof fn lemma_member_joins(s: Seq<int>, name: spec_fn(int) -> Seq<char>, e: Seq<Seq<int>>, k: int)
    requires
        s.len() > 0,
        ascending(s),
        are_groups(s.drop_last(), name, e),
        0 <= k < e.len(),
        name(e[k][0]) == name(s.last()),
    ensures
        are_groups(s, name, e.update(k, e[k].push(s.last()))),
{
    let short: Seq<int> = s.drop_last();
    let last: int = s.last();
    let r: Seq<Seq<int>> = e.update(k, e[k].push(last));
    assert(e[k].len() > 0);
    assert forall|j: int, m: int| 0 <= j < e.len() && 0 <= m < e[j].len() implies #[trigger] e[j][m] < last && s.contains(
        e[j][m],
    ) by {
        assert(short.contains(e[j][m]));
        let i: int = choose|i: int| 0 <= i < short.len() && short[i] == e[j][m];
        assert(s[i] < s[s.len() - 1]);
        assert(s[i] == e[j][m]);
    }
    assert forall|j: int| 0 <= j < r.len() implies (#[trigger] r[j]).len() > 0 && r[j][0] == e[j][0] by {
        assert(e[j].len() > 0);
    }
    assert forall|j: int, m: int| 0 <= j < r.len() && 0 <= m < r[j].len() implies s.contains(#[trigger] r[j][m]) && name(
        r[j][m],
    ) == name(r[j][0]) by {
        assert(r[j][0] == e[j][0]);
        if j == k && m == e[k].len() {
            assert(s[s.len() - 1] == r[j][m]);
        } else {
            assert(r[j][m] == e[j][m]);
        }
    }
    assert forall|i: int| 0 <= i < s.len() implies in_group(r, #[trigger] s[i]) by {
        if i < short.len() {
            assert(in_group(e, short[i]));
            let (j, m): (int, int) = choose|j: int, m: int|
                0 <= j < e.len() && 0 <= m < e[j].len() && #[trigger] e[j][m] == short[i];
            assert(r[j][m] == s[i]);
        } else {
            assert(r[k][e[k].len() as int] == s[i]);
        }
    }
    assert forall|j: int, m: int, l: int| 0 <= j < r.len() && 0 <= m < l < r[j].len() implies #[trigger] r[j][m]
        < #[trigger] r[j][l] by {
        assert(r[j][m] == e[j][m]);
        if !(j == k && l == e[k].len()) {
            assert(r[j][l] == e[j][l]);
        }
    }
    assert forall|j: int, h: int| 0 <= j < h < r.len() implies name((#[trigger] r[j])[0]) != name((#[trigger] r[h])[0]) by {
        assert(r[j][0] == e[j][0] && r[h][0] == e[h][0]);
        assert(name(e[j][0]) != name(e[h][0]));
    }
}

proof fn lemma_member_opens(s: Seq<int>, name: spec_fn(int) -> Seq<char>, e: Seq<Seq<int>>)
    requires
        s.len() > 0,
        ascending(s),
        are_groups(s.drop_last(), name, e),
        forall|j: int| 0 <= j < e.len() ==> name((#[trigger] e[j])[0]) != name(s.last()),
    ensures
        are_groups(s, name, e.push(seq![s.last()])),
{
    let short: Seq<int> = s.drop_last();
    let last: int = s.last();
    let r: Seq<Seq<int>> = e.push(seq![last]);
    let n: int = e.len() as int;
    assert(r[n][0] == last);
    assert forall|j: int| 0 <= j < n implies #[trigger] r[j] == e[j] && e[j].len() > 0 by {}
    assert forall|j: int| 0 <= j < r.len() implies (#[trigger] r[j]).len() > 0 by {
        if j < n {
            assert(e[j].len() > 0);
        }
    }
    assert forall|j: int, m: int| 0 <= j < r.len() && 0 <= m < r[j].len() implies s.contains(#[trigger] r[j][m]) && name(
        r[j][m],
    ) == name(r[j][0]) by {
        if j == n {
            assert(s[s.len() - 1] == r[j][m]);
        } else {
            assert(short.contains(e[j][m]));
            let i: int = choose|i: int| 0 <= i < short.len() && short[i] == e[j][m];
            assert(s[i] == r[j][m]);
        }
    }
    assert forall|i: int| 0 <= i < s.len() implies in_group(r, #[trigger] s[i]) by {
        if i < short.len() {
            assert(in_group(e, short[i]));
            let (j, m): (int, int) = choose|j: int, m: int|
                0 <= j < e.len() && 0 <= m < e[j].len() && #[trigger] e[j][m] == short[i];
            assert(r[j][m] == s[i]);
        } else {
            assert(r[n][0] == s[i]);
        }
    }
    assert forall|j: int, m: int, l: int| 0 <= j < r.len() && 0 <= m < l < r[j].len() implies #[trigger] r[j][m]
        < #[trigger] r[j][l] by {
        assert(j < n);
        assert(r[j][m] == e[j][m] && r[j][l] == e[j][l]);
    }
    assert forall|j: int, h: int| 0 <= j < h < r.len() implies name((#[trigger] r[j])[0]) != name((#[trigger] r[h])[0]) by {
        assert(r[j] == e[j]);
        if h < n {
            assert(r[h] == e[h]);
            assert(name(e[j][0]) != name(e[h][0]));
        }
    }
}

proof fn lemma_grouped(s: Seq<int>, name: spec_fn(int) -> Seq<char>)
    requires
        ascending(s),
    ensures
        are_groups(s, name, grouped(s, name)),
    decreases s.len(),
{
    if s.len() > 0 {
        let short: Seq<int> = s.drop_last();
        assert(ascending(short)) by {
            assert forall|i: int, j: int| 0 <= i < j < short.len() implies #[trigger] short[i] < #[trigger] short[j] by {
                assert(s[i] < s[j]);
            }
        }
        lemma_grouped(short, name);
        let e: Seq<Seq<int>> = grouped(short, name);
        lemma_group_named(e, name, name(s.last()));
        let k: int = group_named(e, name, name(s.last()));
        if k < e.len() {
            lemma_member_joins(s, name, e, k);
        } else {
            lemma_member_opens(s, name, e);
        }
    }
}

/// The user of an order.
pub open spec fn user_of(messages: Seq<OrderMessage>, states: Seq<OrderState>, k: int) -> Seq<char> {
    messages[states[k].message as int].user_id@
}

/// The order is in one of the users' groups.
pub open spec fn of_a_user(users: Seq<Vec<usize>>, x: int) -> bool {
    exists|j: int, m: int| 0 <= j < users.len() && 0 <= m < users[j]@.len() && #[trigger] users[j]@[m] == x
}

/// A row lists the orders that were opened in its interval, each once. Its
/// groups have each of them, and no others, in one group for each user: two
/// orders are in the same group exactly if they are of the same user.
pub proof fn law_row_groups_orders_by_user(
    row: IntervalFacts,
    messages: Seq<OrderMessage>,
    trades: Seq<TradeEvent>,
    batches: Seq<BatchClearedEvent>,
    books: Seq<BookSnapshot>,
    anchor: int,
    width: int,
    lo: int,
    n: int,
    carry: Carry,
    k: int,
)
    requires
        width > 0,
        on_grid(lo, anchor, width),
        0 <= k,
        row_holds(row, messages, trades, batches, books, anchor, width, lo, n, carry, k),
    ensures
        ({
            let states = outcomes(messages, trades);
            &&& selects(row.orders@, states.len() as int, order_falls(messages, states, anchor, width, row.start as int))
            &&& forall|i: int| 0 <= i < row.orders@.len() ==> of_a_user(row.users@, #[trigger] row.orders@[i] as int)
            &&& forall|j: int, m: int|
                0 <= j < row.users@.len() && 0 <= m < row.users@[j]@.len() ==> names(
                    row.orders@,
                    #[trigger] row.users@[j]@[m] as int,
                ) && user_of(messages, states, row.users@[j]@[m] as int) == user_of(
                    messages,
                    states,
                    row.users@[j]@[0] as int,
                )
            &&& forall|j: int| 0 <= j < row.users@.len() ==> (#[trigger] row.users@[j])@.len() > 0
            &&& forall|j: int, m: int, l: int|
                0 <= j < row.users@.len() && 0 <= m < l < row.users@[j]@.len() ==> #[trigger] row.users@[j]@[m]
                    < #[trigger] row.users@[j]@[l]
            &&& forall|j: int, h: int|
                0 <= j < h < row.users@.len() ==> user_of(messages, states, (#[trigger] row.users@[j])@[0] as int)
                    != user_of(messages, states, (#[trigger] row.users@[h])@[0] as int)
        }),
{
    lemma_on_grid_later(lo, k, anchor, width);
    let start: int = row.start as int;
    let states: Seq<OrderState> = outcomes(messages, trades);
    let times: Seq<u64> = opening_times(messages, states);
    let at: Seq<int> = placed(times, anchor, width, start);
    let name: spec_fn(int) -> Seq<char> = user_in(messages, states);
    let groups: Seq<Seq<int>> = grouped(at, name);
    lemma_selects(row.orders@, times, anchor, width, start, order_falls(messages, states, anchor, width, start));
    lemma_placed_all(times, anchor, width, start);
    lemma_grouped(at, name);
    assert forall|j: int| 0 <= j < row.users@.len() implies (#[trigger] row.users@[j])@.len() == groups[j].len() by {
        assert(positions(row.users@[j]@) == groups[j]);
    }
    assert forall|j: int, m: int| 0 <= j < row.users@.len() && 0 <= m < row.users@[j]@.len() implies
        #[trigger] row.users@[j]@[m] == groups[j][m] by {
        assert(positions(row.users@[j]@) == groups[j]);
        assert(positions(row.users@[j]@)[m] == row.users@[j]@[m]);
    }
    assert forall|i: int| 0 <= i < row.orders@.len() implies of_a_user(row.users@, #[trigger] row.orders@[i] as int) by {
        assert(positions(row.orders@)[i] == row.orders@[i]);
        assert(in_group(groups, at[i]));
        let (j, m): (int, int) = choose|j: int, m: int|
            0 <= j < groups.len() && 0 <= m < groups[j].len() && #[trigger] groups[j][m] == at[i];
        assert(row.users@[j]@.len() == groups[j].len());
        assert(row.users@[j]@[m] == at[i]);
    }
    assert forall|j: int, m: int| 0 <= j < row.users@.len() && 0 <= m < row.users@[j]@.len() implies names(
        row.orders@,
        #[trigger] row.users@[j]@[m] as int,
    ) && user_of(messages, states, row.users@[j]@[m] as int) == user_of(messages, states, row.users@[j]@[0] as int) by {
        assert(at.contains(groups[j][m]));
        let i: int = choose|i: int| 0 <= i < at.len() && at[i] == groups[j][m];
        assert(positions(row.orders@)[i] == row.orders@[i]);
        assert(row.orders@[i] == row.users@[j]@[m]);
        assert(row.users@[j]@[0] == groups[j][0]);
        assert(name(groups[j][m]) == name(groups[j][0]));
    }
    assert forall|j: int, m: int, l: int|
        0 <= j < row.users@.len() && 0 <= m < l < row.users@[j]@.len() implies #[trigger] row.users@[j]@[m]
        < #[trigger] row.users@[j]@[l] by {
        assert(groups[j][m] < groups[j][l]);
    }
    assert forall|j: int, h: int| 0 <= j < h < row.users@.len() implies user_of(
        messages,
        states,
        (#[trigger] row.users@[j])@[0] as int,
    ) != user_of(messages, states, (#[trigger] row.users@[h])@[0] as int) by {
        assert(row.users@[j]@.len() == groups[j].len() && groups[j].len() > 0);
        assert(row.users@[h]@.len() == groups[h].len() && groups[h].len() > 0);
        assert(row.users@[j]@[0] == groups[j][0] && row.users@[h]@[0] == groups[h][0]);
        assert(name(groups[j][0]) != name(groups[h][0]));
    }
}

/// The price of the last batch recorded before position `x` that has one and
/// closed before `end`; without such a batch, what is carried.
pub open spec fn is_prior(
    batches: Seq<BatchClearedEvent>,
    x: int,
    end: int,
    carried: Option<u128>,
    price: Option<u128>,
) -> bool {
    ||| exists|y: int| #[trigger] last_priced(batches, x, end, y) && price == batches[y].clearing_price
    ||| price == carried && forall|z: int| 0 <= z < x ==> !priced_before(#[trigger] batches[z], end)
}

pub open spec fn priced_before(b: BatchClearedEvent, end: int) -> bool {
    b.clearing_price is Some && b.ts < end
}

pub open spec fn last_priced(batches: Seq<BatchClearedEvent>, x: int, end: int, y: int) -> bool {
    &&& 0 <= y < x
    &&& priced_before(batches[y], end)
    &&& forall|z: int| y < z < x ==> !priced_before(#[trigger] batches[z], end)
}

pub proof fn lemma_before_end(ts: int, anchor: int, width: int, end: int)
    requires
        width > 0,
        on_grid(end, anchor, width),
        end > anchor,
    ensures
        (bucket(ts, anchor, width) < end) == (ts < end),
{
    law_bucket_holds_the_moment(ts, anchor, width);
    lemma_falls(end, anchor, width, end);
    if ts >= end {
        law_buckets_follow_time(end, ts, anchor, width);
    }
}

pub proof fn lemma_prior(batches: Seq<BatchClearedEvent>, x: int, anchor: int, width: int, end: int, carried: Option<u128>)
    requires
        width > 0,
        on_grid(end, anchor, width),
        end > anchor,
        0 <= x <= batches.len(),
    ensures
        is_prior(batches, x, end, carried, clearing_before(batches.take(x), anchor, width, end, carried)),
    decreases x,
{
    if x > 0 {
        let s: Seq<BatchClearedEvent> = batches.take(x);
        assert(s.drop_last() =~= batches.take(x - 1));
        lemma_before_end(s.last().ts as int, anchor, width, end);
        lemma_prior(batches, x - 1, anchor, width, end, carried);
        let r: Option<u128> = clearing_before(s, anchor, width, end, carried);
        if priced_before(batches[x - 1], end) {
            assert(last_priced(batches, x, end, x - 1));
        } else {
            if exists|y: int| #[trigger] last_priced(batches, x - 1, end, y) && r == batches[y].clearing_price {
                let y: int = choose|y: int|
                    #[trigger] last_priced(batches, x - 1, end, y) && r == batches[y].clearing_price;
                assert(last_priced(batches, x, end, y));
            }
        }
    }
}

/// A message that arrived between the two moments, both included.
pub open spec fn arrives(from: int, to: int) -> spec_fn(OrderMessage) -> int {
    |m: OrderMessage|
        if from <= m.ts && m.ts <= to {
            1
        } else {
            0
        }
}

/// A message that arrived in the last tenth of the window: what was left of it
/// is at most a tenth of all.
pub open spec fn arrives_late(from: int, to: int) -> spec_fn(OrderMessage) -> int {
    |m: OrderMessage|
        if from <= m.ts && m.ts <= to && 10 * (to - m.ts) <= to - from {
            1
        } else {
            0
        }
}

/// The messages in the window of the batch at this position.
pub open spec fn window_count(messages: Seq<OrderMessage>, batches: Seq<BatchClearedEvent>) -> spec_fn(usize) -> int {
    |x: usize|
        {
            let b = batches[x as int];
            if b.batch_open_ts < b.ts {
                total(messages, arrives(b.batch_open_ts as int, b.ts as int))
            } else {
                0
            }
        }
}

/// The messages in the last tenth of the window of the batch at this position.
pub open spec fn late_count(messages: Seq<OrderMessage>, batches: Seq<BatchClearedEvent>) -> spec_fn(usize) -> int {
    |x: usize|
        {
            let b = batches[x as int];
            if b.batch_open_ts < b.ts {
                total(messages, arrives_late(b.batch_open_ts as int, b.ts as int))
            } else {
                0
            }
        }
}

proof fn lemma_arrivals(messages: Seq<OrderMessage>, from: int, to: int)
    ensures
        arrivals(message_times(messages), from, to) == total(messages, arrives(from, to)),
{
    lemma_total_same(message_times(messages), messages, in_window(from, to), arrives(from, to));
}

proof fn lemma_late_arrivals(messages: Seq<OrderMessage>, from: int, to: int)
    requires
        from < to,
    ensures
        arrivals(message_times(messages), to - (to - from) / 10, to) == total(messages, arrives_late(from, to)),
{
    let start: int = to - (to - from) / 10;
    let times: Seq<u64> = message_times(messages);
    assert forall|i: int| 0 <= i < times.len() implies in_window(start, to)(#[trigger] times[i]) == arrives_late(
        from,
        to,
    )(messages[i]) by {
        let t: int = times[i] as int;
        assert(t == messages[i].ts);
        assert((start <= t) == (10 * (to - t) <= to - from));
    }
    lemma_total_same(times, messages, in_window(start, to), arrives_late(from, to));
}

pub open spec fn batch_took(batches: Seq<BatchClearedEvent>) -> spec_fn(usize) -> int {
    |x: usize| batches[x as int].compute_nanos as int
}

pub open spec fn book_took(books: Seq<BookSnapshot>) -> spec_fn(usize) -> int {
    |x: usize| books[x as int].compute_nanos as int
}

/// For each batch of a row there is the price of the last priced one before it;
/// the row counts the messages that arrived in the windows of its batches, and
/// those in the last tenth of them, and adds up what its batches and snapshots
/// took.
pub proof fn law_row_looks_back_on_its_batches(
    row: IntervalFacts,
    messages: Seq<OrderMessage>,
    trades: Seq<TradeEvent>,
    batches: Seq<BatchClearedEvent>,
    books: Seq<BookSnapshot>,
    anchor: int,
    width: int,
    lo: int,
    n: int,
    carry: Carry,
    k: int,
)
    requires
        width > 0,
        on_grid(lo, anchor, width),
        0 <= k < n,
        row_holds(row, messages, trades, batches, books, anchor, width, lo, n, carry, k),
    ensures
        row.prior_clearing@.len() == row.batches@.len(),
        forall|i: int|
            0 <= i < row.batches@.len() ==> is_prior(
                batches,
                #[trigger] row.batches@[i] as int,
                lo + n * width,
                carry.prev_clearing,
                row.prior_clearing@[i],
            ),
        row.window_messages == lesser(total(row.batches@, window_count(messages, batches)), u128::MAX as int),
        row.boundary_messages == lesser(total(row.batches@, late_count(messages, batches)), u128::MAX as int),
        row.compute_nanos == lesser(
            total(row.books@, book_took(books)) + total(row.batches@, batch_took(batches)),
            u128::MAX as int,
        ),
{
    lemma_on_grid_later(lo, k, anchor, width);
    lemma_on_grid_later(lo, n, anchor, width);
    let start: int = row.start as int;
    let end: int = lo + n * width;
    assert(n * width > 0) by (nonlinear_arith)
        requires
            n > 0,
            width > 0,
    ;
    let at: Seq<int> = placed(batch_times(batches), anchor, width, start);
    let books_at: Seq<int> = placed(book_times(books), anchor, width, start);
    lemma_placed(batch_times(batches), anchor, width, start);
    lemma_placed(book_times(books), anchor, width, start);
    assert(positions(row.batches@).len() == row.batches@.len());
    assert(positions(row.books@).len() == row.books@.len());
    let picked: Seq<BatchClearedEvent> = pick(batches, at);
    let shown: Seq<BookSnapshot> = pick(books, books_at);
    assert forall|i: int| 0 <= i < row.batches@.len() implies is_prior(
        batches,
        #[trigger] row.batches@[i] as int,
        end,
        carry.prev_clearing,
        row.prior_clearing@[i],
    ) by {
        assert(positions(row.batches@)[i] == row.batches@[i]);
        assert(at[i] == row.batches@[i]);
        lemma_prior(batches, at[i], anchor, width, end, carry.prev_clearing);
    }
    assert forall|i: int| 0 <= i < picked.len() implies {
        &&& window_part(message_times(messages))(#[trigger] picked[i]) == window_count(messages, batches)(row.batches@[i])
        &&& boundary_part(message_times(messages))(picked[i]) == late_count(messages, batches)(row.batches@[i])
        &&& batch_nanos()(picked[i]) == batch_took(batches)(row.batches@[i])
    } by {
        assert(positions(row.batches@)[i] == row.batches@[i]);
        let b: BatchClearedEvent = batches[at[i]];
        assert(picked[i] == b);
        lemma_arrivals(messages, b.batch_open_ts as int, b.ts as int);
        if b.batch_open_ts < b.ts {
            lemma_late_arrivals(messages, b.batch_open_ts as int, b.ts as int);
        }
    }
    lemma_total_same(picked, row.batches@, window_part(message_times(messages)), window_count(messages, batches));
    lemma_total_same(picked, row.batches@, boundary_part(message_times(messages)), late_count(messages, batches));
    lemma_total_same(picked, row.batches@, batch_nanos(), batch_took(batches));
    assert forall|i: int| 0 <= i < shown.len() implies book_nanos()(#[trigger] shown[i]) == book_took(books)(
        row.books@[i],
    ) by {
        assert(positions(row.books@)[i] == row.books@[i]);
    }
    lemma_total_same(shown, row.books@, book_nanos(), book_took(books));
}

} // verus!
