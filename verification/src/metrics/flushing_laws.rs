//! Handing out rows, dropping what they settle and recording on gives the
//! same rows as recording everything first.

use vstd::prelude::*;
use crate::engines::legs::{filled_under, leg_part};
use crate::metrics::arrivals::{arrivals, in_window};
use crate::metrics::events::{BatchClearedEvent, BookSnapshot, OrderMessage, TradeEvent};
use crate::metrics::facts::{
    batch_nanos, batch_times, book_nanos, book_times, boundary_part, clearing_before, close_before, directed_in,
    group_named, grouped, has_direction, markout, message_times, opening_times, orders_hold, points_in, row_holds,
    runs, sweeps_among, time_in, trade_times, trades_hold, user_in, window, window_part, Carry, IntervalFacts, Markout,
};
use crate::metrics::grid::{
    bucket, law_buckets_follow_time, lemma_placed, lemma_rows_between, on_grid, placed, row_start, rows_between,
};
use crate::metrics::orders::{
    first_fill, leg, lemma_openings, limit_of, opening_of, openings, outcomes, trade_legs, OrderState,
};
use crate::metrics::series::{
    batch_point, batch_points, book_point, book_points, by_ts, earlier_than, price_from, series, PricePoint, RefPrice,
};
use crate::metrics::timeseries::{batch_kept, book_kept, message_kept, trade_kept, RecorderState};
use crate::metrics::timeseries_laws::{
    batch_moment, book_moment, in_interval, in_time_order, lemma_clearing_end, lemma_clearing_prefix,
    lemma_close_carried, lemma_filter_twice, lemma_pick_placed, lemma_price_from_tail, lemma_rows_split,
    lemma_series_kept, point_kept, point_moment, times_by, trade_moment,
};
use crate::seqs::{
    leading, lemma_leading, lemma_leading_run, lemma_total_add, lemma_total_push, lemma_total_same, saturated, total,
};
use crate::sorting::{
    ascends_by, lemma_sorted_by_ascends, lemma_sorted_by_filter, pick, placed_by, positions, sorted_by,
};

verus! {

/// What became of one order.
pub struct Fate {
    pub message: OrderMessage,
    pub filled_qty: u128,
    pub first_fill_ts: Option<u64>,
}

/// What a row is computed from, with the events themselves in place of their
/// positions.
pub struct RowView {
    pub start: int,
    pub messages: int,
    pub trades: Seq<TradeEvent>,
    pub markouts: Seq<Markout>,
    pub sweeps: Seq<(Seq<TradeEvent>, Option<RefPrice>)>,
    pub points: Seq<RefPrice>,
    pub prev_close: Option<RefPrice>,
    pub batches: Seq<BatchClearedEvent>,
    pub prior_clearing: Seq<Option<u128>>,
    pub books: Seq<BookSnapshot>,
    pub orders: Seq<Fate>,
    pub users: Seq<Seq<Fate>>,
    pub window_messages: int,
    pub boundary_messages: int,
    pub compute_nanos: int,
}

proof fn lemma_pick_push<T>(s: Seq<T>, at: Seq<int>, i: int)
    ensures
        pick(s, at.push(i)) == pick(s, at).push(s[i]),
{
    assert(pick(s, at.push(i)) =~= pick(s, at).push(s[i]));
}

proof fn lemma_pick_drop<T>(s: Seq<T>, at: Seq<int>)
    requires
        at.len() > 0,
    ensures
        pick(s, at).drop_last() == pick(s, at.drop_last()),
        pick(s, at).last() == s[at.last()],
{
    assert(pick(s, at).drop_last() =~= pick(s, at.drop_last()));
}

/// Choosing among positions chooses among the elements.
proof fn lemma_pick_filter<T>(s: Seq<T>, at: Seq<int>, q: spec_fn(int) -> bool, p: spec_fn(T) -> bool)
    requires
        forall|i: int| #[trigger] q(i) == p(s[i]),
    ensures
        pick(s, at.filter(q)) == pick(s, at).filter(p),
    decreases at.len(),
{
    reveal(Seq::filter);
    if at.len() == 0 {
        assert(pick(s, at.filter(q)) =~= pick(s, at).filter(p));
    } else {
        lemma_pick_filter(s, at.drop_last(), q, p);
        lemma_pick_drop(s, at);
        assert(q(at.last()) == p(s[at.last()]));
        lemma_pick_push(s, at.drop_last().filter(q), at.last());
    }
}

proof fn lemma_pick_placed_by<T>(s: Seq<T>, at: Seq<int>, i: int, k: spec_fn(int) -> int, key: spec_fn(T) -> int)
    requires
        forall|i: int| #[trigger] k(i) == key(s[i]),
    ensures
        pick(s, placed_by(at, i, k)) == placed_by(pick(s, at), s[i], key),
    decreases at.len(),
{
    assert(k(i) == key(s[i]));
    if at.len() > 0 {
        assert(k(at.last()) == key(s[at.last()]));
        lemma_pick_drop(s, at);
    }
    if at.len() == 0 || k(at.last()) <= k(i) {
        lemma_pick_push(s, at, i);
    } else {
        lemma_pick_placed_by(s, at.drop_last(), i, k, key);
        lemma_pick_push(s, placed_by(at.drop_last(), i, k), at.last());
    }
}

/// Sorting positions sorts the elements.
pub proof fn lemma_pick_sorted<T>(s: Seq<T>, at: Seq<int>, k: spec_fn(int) -> int, key: spec_fn(T) -> int)
    requires
        forall|i: int| #[trigger] k(i) == key(s[i]),
    ensures
        pick(s, sorted_by(at, k)) == sorted_by(pick(s, at), key),
    decreases at.len(),
{
    if at.len() == 0 {
        assert(pick(s, sorted_by(at, k)) =~= sorted_by(pick(s, at), key));
    } else {
        lemma_pick_drop(s, at);
        lemma_pick_sorted(s, at.drop_last(), k, key);
        lemma_pick_placed_by(s, sorted_by(at.drop_last(), k), at.last(), k, key);
    }
}

/// The elements at the positions in each list.
pub open spec fn pick_each<T>(s: Seq<T>, lists: Seq<Seq<int>>) -> Seq<Seq<T>> {
    Seq::new(lists.len(), |j: int| pick(s, lists[j]))
}

proof fn lemma_pick_single<T>(s: Seq<T>, i: int)
    ensures
        pick(s, seq![i]) == seq![s[i]],
{
    assert(pick(s, seq![i]) =~= seq![s[i]]);
}

proof fn lemma_runs_nonempty<T>(s: Seq<T>, key: spec_fn(T) -> int)
    ensures
        s.len() > 0 ==> runs(s, key).len() > 0,
        forall|j: int| 0 <= j < runs(s, key).len() ==> (#[trigger] runs(s, key)[j]).len() > 0,
    decreases s.len(),
{
    if s.len() > 0 {
        lemma_runs_nonempty(s.drop_last(), key);
        let e: Seq<Seq<T>> = runs(s.drop_last(), key);
        assert forall|j: int| 0 <= j < runs(s, key).len() implies (#[trigger] runs(s, key)[j]).len() > 0 by {
            if j < e.len() {
                assert(e[j].len() > 0);
            }
        }
    }
}

/// Cutting positions into runs cuts the elements into runs.
proof fn lemma_pick_runs<T>(s: Seq<T>, at: Seq<int>, k: spec_fn(int) -> int, key: spec_fn(T) -> int)
    requires
        forall|i: int| #[trigger] k(i) == key(s[i]),
    ensures
        pick_each(s, runs(at, k)) == runs(pick(s, at), key),
    decreases at.len(),
{
    if at.len() == 0 {
        assert(pick_each(s, runs(at, k)) =~= runs(pick(s, at), key));
    } else {
        let short: Seq<int> = at.drop_last();
        lemma_pick_runs(s, short, k, key);
        lemma_pick_drop(s, at);
        assert(k(at.last()) == key(s[at.last()]));
        let e: Seq<Seq<int>> = runs(short, k);
        if at.len() > 1 {
            assert(k(at[at.len() - 2]) == key(s[at[at.len() - 2]]));
            lemma_runs_nonempty(short, k);
        }
        if at.len() > 1 && k(at[at.len() - 2]) == k(at.last()) {
            lemma_pick_push(s, e.last(), at.last());
            assert(pick_each(s, runs(at, k)) =~= runs(pick(s, at), key));
        } else {
            lemma_pick_single(s, at.last());
            assert(pick_each(s, runs(at, k)) =~= runs(pick(s, at), key));
        }
    }
}

proof fn lemma_pick_group_named<T>(
    s: Seq<T>,
    groups: Seq<Seq<int>>,
    n: spec_fn(int) -> Seq<char>,
    name: spec_fn(T) -> Seq<char>,
    wanted: Seq<char>,
)
    requires
        forall|i: int| #[trigger] n(i) == name(s[i]),
        forall|j: int| 0 <= j < groups.len() ==> (#[trigger] groups[j]).len() > 0,
    ensures
        group_named(groups, n, wanted) == group_named(pick_each(s, groups), name, wanted),
        0 <= group_named(groups, n, wanted) <= groups.len(),
    decreases groups.len(),
{
    if groups.len() > 0 {
        assert(groups[0].len() > 0);
        assert(n(groups[0][0]) == name(s[groups[0][0]]));
        let rest: Seq<Seq<int>> = groups.drop_first();
        assert forall|j: int| 0 <= j < rest.len() implies (#[trigger] rest[j]).len() > 0 by {
            assert(groups[j + 1].len() > 0);
        }
        lemma_pick_group_named(s, rest, n, name, wanted);
        assert(pick_each(s, groups).drop_first() =~= pick_each(s, rest));
    }
}

/// Grouping positions groups the elements.
proof fn lemma_pick_grouped<T>(s: Seq<T>, at: Seq<int>, n: spec_fn(int) -> Seq<char>, name: spec_fn(T) -> Seq<char>)
    requires
        forall|i: int| #[trigger] n(i) == name(s[i]),
    ensures
        pick_each(s, grouped(at, n)) == grouped(pick(s, at), name),
        forall|j: int| 0 <= j < grouped(at, n).len() ==> (#[trigger] grouped(at, n)[j]).len() > 0,
    decreases at.len(),
{
    if at.len() == 0 {
        assert(pick_each(s, grouped(at, n)) =~= grouped(pick(s, at), name));
    } else {
        let short: Seq<int> = at.drop_last();
        lemma_pick_grouped(s, short, n, name);
        lemma_pick_drop(s, at);
        assert(n(at.last()) == name(s[at.last()]));
        let e: Seq<Seq<int>> = grouped(short, n);
        let k: int = group_named(e, n, n(at.last()));
        lemma_pick_group_named(s, e, n, name, n(at.last()));
        if k < e.len() {
            lemma_pick_push(s, e[k], at.last());
        } else {
            lemma_pick_single(s, at.last());
        }
        assert(pick_each(s, grouped(at, n)) =~= grouped(pick(s, at), name));
    }
}

/// What became of the order that a message opened.
pub open spec fn fate_of(m: OrderMessage, trades: Seq<TradeEvent>) -> Fate {
    Fate {
        message: m,
        filled_qty: saturated(filled_under(trade_legs(trades), m.oid)) as u128,
        first_fill_ts: first_fill(trades, m.oid),
    }
}

/// What became of every order, in the order of their first messages.
pub open spec fn fates(messages: Seq<OrderMessage>, trades: Seq<TradeEvent>) -> Seq<Fate> {
    let opened = openings(messages);
    Seq::new(opened.len(), |k: int| fate_of(messages[opened[k]], trades))
}

/// What rows are computed from.
pub struct Record {
    pub messages: Seq<OrderMessage>,
    pub trades: Seq<TradeEvent>,
    pub batches: Seq<BatchClearedEvent>,
    pub books: Seq<BookSnapshot>,
}

/// The row with the events themselves in place of their positions.
pub open spec fn content(row: IntervalFacts, on: Record) -> RowView {
    RowView {
        start: row.start as int,
        messages: row.messages as int,
        trades: pick(on.trades, positions(row.trades@)),
        markouts: row.markouts@,
        sweeps: Seq::new(
            row.sweeps@.len(),
            |j: int| (pick(on.trades, positions(row.sweeps@[j].trades@)), row.sweeps@[j].after),
        ),
        points: row.points@,
        prev_close: row.prev_close,
        batches: pick(on.batches, positions(row.batches@)),
        prior_clearing: row.prior_clearing@,
        books: pick(on.books, positions(row.books@)),
        orders: pick(fates(on.messages, on.trades), positions(row.orders@)),
        users: Seq::new(row.users@.len(), |j: int| pick(fates(on.messages, on.trades), positions(row.users@[j]@))),
        window_messages: row.window_messages as int,
        boundary_messages: row.boundary_messages as int,
        compute_nanos: row.compute_nanos as int,
    }
}

pub open spec fn directed() -> spec_fn(TradeEvent) -> bool {
    |t: TradeEvent| has_direction(t)
}

pub open spec fn moment() -> spec_fn(TradeEvent) -> int {
    |t: TradeEvent| t.trade.ts as int
}

pub open spec fn named() -> spec_fn(Fate) -> Seq<char> {
    |f: Fate| f.message.user_id@
}

/// The sweeps among these trades.
pub open spec fn sweeps_of(trades: Seq<TradeEvent>) -> Seq<Seq<TradeEvent>> {
    runs(sorted_by(trades.filter(directed()), moment()), moment())
}

/// What the trades of a row tell follows from the trades and the look-ups
/// alone.
proof fn lemma_trades_content(
    row: IntervalFacts,
    messages: Seq<OrderMessage>,
    trades: Seq<TradeEvent>,
    prices: Seq<PricePoint>,
    at: Seq<int>,
)
    requires
        trades_hold(row, messages, trades, prices, at),
    ensures
        ({
            let evs = pick(trades, at);
            let swept = sweeps_of(evs);
            &&& row.markouts@ == Seq::new(evs.len(), |i: int| markout(messages, prices, evs[i]))
            &&& Seq::new(
                row.sweeps@.len(),
                |j: int| (pick(trades, positions(row.sweeps@[j].trades@)), row.sweeps@[j].after),
            ) == Seq::new(
                swept.len(),
                |j: int| (swept[j], price_from(prices, swept[j][0].trade.ts + 5_000_000_000)),
            )
        }),
{
    let evs: Seq<TradeEvent> = pick(trades, at);
    let swept: Seq<Seq<TradeEvent>> = sweeps_of(evs);
    let chosen: Seq<int> = at.filter(directed_in(trades));
    lemma_pick_filter(trades, at, directed_in(trades), directed());
    lemma_pick_sorted(trades, chosen, time_in(trades), moment());
    let ordered: Seq<int> = sorted_by(chosen, time_in(trades));
    lemma_pick_runs(trades, ordered, time_in(trades), moment());
    lemma_runs_nonempty(ordered, time_in(trades));
    let lists: Seq<Seq<int>> = sweeps_among(trades, at);
    assert(pick_each(trades, lists) == swept);
    assert(row.markouts@ =~= Seq::new(evs.len(), |i: int| markout(messages, prices, evs[i])));
    assert forall|j: int| 0 <= j < row.sweeps@.len() implies pick(trades, positions(row.sweeps@[j].trades@)) == swept[j]
        && row.sweeps@[j].after == price_from(prices, swept[j][0].trade.ts + 5_000_000_000) by {
        assert(positions(row.sweeps@[j].trades@) == lists[j]);
        assert(pick_each(trades, lists)[j] == pick(trades, lists[j]));
        assert(lists[j].len() > 0);
        assert(swept[j][0] == trades[lists[j][0]]);
    }
    assert(Seq::new(
        row.sweeps@.len(),
        |j: int| (pick(trades, positions(row.sweeps@[j].trades@)), row.sweeps@[j].after),
    ) =~= Seq::new(swept.len(), |j: int| (swept[j], price_from(prices, swept[j][0].trade.ts + 5_000_000_000))));
}

/// What the orders of a row tell follows from what became of them alone.
proof fn lemma_orders_content(
    row: IntervalFacts,
    messages: Seq<OrderMessage>,
    trades: Seq<TradeEvent>,
    at: Seq<int>,
)
    requires
        messages.len() <= usize::MAX,
        orders_hold(row, messages, outcomes(messages, trades), at),
        forall|i: int| 0 <= i < at.len() ==> 0 <= #[trigger] at[i] < openings(messages).len(),
    ensures
        ({
            let all = fates(messages, trades);
            Seq::new(row.users@.len(), |j: int| pick(all, positions(row.users@[j]@))) == grouped(pick(all, at), named())
        }),
{
    let all: Seq<Fate> = fates(messages, trades);
    let states: Seq<OrderState> = outcomes(messages, trades);
    lemma_openings(messages);
    let n = |i: int| all[i].message.user_id@;
    lemma_grouped_same(at, user_in(messages, states), n);
    lemma_pick_grouped(all, at, n, named());
    assert forall|j: int| 0 <= j < row.users@.len() implies pick(all, positions(row.users@[j]@)) == grouped(
        pick(all, at),
        named(),
    )[j] by {
        assert(positions((#[trigger] row.users@[j])@) == grouped(at, user_in(messages, states))[j]);
        assert(pick_each(all, grouped(at, n))[j] == pick(all, grouped(at, n)[j]));
    }
    assert(Seq::new(row.users@.len(), |j: int| pick(all, positions(row.users@[j]@))) =~= grouped(pick(all, at), named()));
}

/// Names that are the same where they are looked at give the same groups.
proof fn lemma_grouped_same<T>(s: Seq<T>, n: spec_fn(T) -> Seq<char>, m: spec_fn(T) -> Seq<char>)
    requires
        forall|i: int| 0 <= i < s.len() ==> n(#[trigger] s[i]) == m(s[i]),
    ensures
        grouped(s, n) == grouped(s, m),
        forall|j: int|
            0 <= j < grouped(s, n).len() ==> (#[trigger] grouped(s, n)[j]).len() > 0 && n(grouped(s, n)[j][0]) == m(
                grouped(s, n)[j][0],
            ),
    decreases s.len(),
{
    if s.len() > 0 {
        let short: Seq<T> = s.drop_last();
        assert forall|i: int| 0 <= i < short.len() implies n(#[trigger] short[i]) == m(short[i]) by {
            assert(n(s[i]) == m(s[i]));
        }
        lemma_grouped_same(short, n, m);
        assert(n(s[s.len() - 1]) == m(s[s.len() - 1]));
        let e: Seq<Seq<T>> = grouped(short, n);
        lemma_group_named_same(e, n, m, n(s.last()));
        let g: Seq<Seq<T>> = grouped(s, n);
        assert forall|j: int| 0 <= j < g.len() implies (#[trigger] g[j]).len() > 0 && n(g[j][0]) == m(g[j][0]) by {
            if j < e.len() {
                assert(e[j].len() > 0 && n(e[j][0]) == m(e[j][0]));
            }
        }
    }
}

proof fn lemma_group_named_same<T>(
    groups: Seq<Seq<T>>,
    n: spec_fn(T) -> Seq<char>,
    m: spec_fn(T) -> Seq<char>,
    wanted: Seq<char>,
)
    requires
        forall|j: int|
            0 <= j < groups.len() ==> (#[trigger] groups[j]).len() > 0 && n(groups[j][0]) == m(groups[j][0]),
    ensures
        group_named(groups, n, wanted) == group_named(groups, m, wanted),
        0 <= group_named(groups, n, wanted) <= groups.len(),
    decreases groups.len(),
{
    if groups.len() > 0 {
        assert(n(groups[0][0]) == m(groups[0][0]));
        let rest: Seq<Seq<T>> = groups.drop_first();
        assert forall|j: int| 0 <= j < rest.len() implies (#[trigger] rest[j]).len() > 0 && n(rest[j][0]) == m(
            rest[j][0],
        ) by {
            assert(groups[j + 1].len() > 0 && n(groups[j + 1][0]) == m(groups[j + 1][0]));
        }
        lemma_group_named_same(rest, n, m, wanted);
    }
}

pub proof fn lemma_sorted_members<T>(s: Seq<T>, key: spec_fn(T) -> int)
    ensures
        forall|i: int| 0 <= i < sorted_by(s, key).len() ==> s.contains(#[trigger] sorted_by(s, key)[i]),
    decreases s.len(),
{
    if s.len() > 0 {
        let short: Seq<T> = s.drop_last();
        lemma_sorted_members(short, key);
        let e: Seq<T> = sorted_by(short, key);
        lemma_placed_by_members(e, s.last(), key);
        let r: Seq<T> = sorted_by(s, key);
        assert forall|i: int| 0 <= i < r.len() implies s.contains(#[trigger] r[i]) by {
            if r[i] == s.last() {
                assert(s[s.len() - 1] == r[i]);
            } else {
                let j: int = choose|j: int| 0 <= j < e.len() && e[j] == r[i];
                assert(short.contains(e[j]));
                let m: int = choose|m: int| 0 <= m < short.len() && short[m] == e[j];
                assert(s[m] == r[i]);
            }
        }
    }
}

pub proof fn lemma_placed_by_members<T>(s: Seq<T>, x: T, key: spec_fn(T) -> int)
    ensures
        forall|i: int|
            0 <= i < placed_by(s, x, key).len() ==> #[trigger] placed_by(s, x, key)[i] == x || s.contains(
                placed_by(s, x, key)[i],
            ),
    decreases s.len(),
{
    let r: Seq<T> = placed_by(s, x, key);
    if s.len() == 0 || key(s.last()) <= key(x) {
        assert forall|i: int| 0 <= i < r.len() implies #[trigger] r[i] == x || s.contains(r[i]) by {
            if i < s.len() {
                assert(s[i] == r[i]);
            }
        }
    } else {
        let e: Seq<T> = placed_by(s.drop_last(), x, key);
        lemma_placed_by_members(s.drop_last(), x, key);
        assert forall|i: int| 0 <= i < r.len() implies #[trigger] r[i] == x || s.contains(r[i]) by {
            if i < e.len() {
                if e[i] != x {
                    assert(s.drop_last().contains(e[i]));
                    let m: int = choose|m: int| 0 <= m < s.drop_last().len() && s.drop_last()[m] == e[i];
                    assert(s[m] == r[i]);
                }
            } else {
                assert(s[s.len() - 1] == r[i]);
            }
        }
    }
}

pub proof fn lemma_runs_members<T>(s: Seq<T>, key: spec_fn(T) -> int)
    ensures
        forall|j: int|
            0 <= j < runs(s, key).len() ==> (#[trigger] runs(s, key)[j]).len() > 0 && s.contains(runs(s, key)[j][0]),
    decreases s.len(),
{
    if s.len() > 0 {
        let short: Seq<T> = s.drop_last();
        lemma_runs_members(short, key);
        lemma_runs_nonempty(short, key);
        let e: Seq<Seq<T>> = runs(short, key);
        let r: Seq<Seq<T>> = runs(s, key);
        assert forall|j: int| 0 <= j < r.len() implies (#[trigger] r[j]).len() > 0 && s.contains(r[j][0]) by {
            if j < e.len() {
                assert(e[j].len() > 0 && short.contains(e[j][0]));
                let m: int = choose|m: int| 0 <= m < short.len() && short[m] == e[j][0];
                assert(s[m] == e[j][0]);
                assert(r[j][0] == e[j][0]);
            } else {
                assert(s[s.len() - 1] == r[j][0]);
            }
        }
    }
}

/// A sweep begins with one of the trades.
proof fn lemma_sweep_starts(evs: Seq<TradeEvent>)
    ensures
        forall|j: int|
            0 <= j < sweeps_of(evs).len() ==> (#[trigger] sweeps_of(evs)[j]).len() > 0 && evs.contains(
                sweeps_of(evs)[j][0],
            ),
{
    let chosen: Seq<TradeEvent> = evs.filter(directed());
    let ordered: Seq<TradeEvent> = sorted_by(chosen, moment());
    lemma_runs_members(ordered, moment());
    lemma_sorted_members(chosen, moment());
    assert forall|j: int| 0 <= j < sweeps_of(evs).len() implies (#[trigger] sweeps_of(evs)[j]).len() > 0 && evs.contains(
        sweeps_of(evs)[j][0],
    ) by {
        let t: TradeEvent = sweeps_of(evs)[j][0];
        assert(ordered.contains(t));
        let i: int = choose|i: int| 0 <= i < ordered.len() && ordered[i] == t;
        assert(chosen.contains(ordered[i]));
        evs.lemma_filter_contains_rev(directed(), t);
    }
}

pub open spec fn message_moment() -> spec_fn(OrderMessage) -> u64 {
    |m: OrderMessage| m.ts
}

pub open spec fn fate_moment() -> spec_fn(Fate) -> u64 {
    |f: Fate| f.message.ts
}

/// The prices that the batches of an interval are measured against.
pub open spec fn prior_clearings(
    batches: Seq<BatchClearedEvent>,
    a: int,
    w: int,
    start: int,
    end: int,
    carried: Option<u128>,
) -> Seq<Option<u128>> {
    let at = placed(batch_times(batches), a, w, start);
    Seq::new(at.len(), |i: int| clearing_before(batches.take(at[i]), a, w, end, carried))
}

/// Whether a row can be told from two records alike: the interval has the
/// same events in both, and every look-up finds the same.
pub open spec fn alike(x: Record, y: Record, a: int, w: int, start: int) -> bool {
    let trades = x.trades.filter(in_interval(trade_moment(), a, w, start));
    let batches = x.batches.filter(in_interval(batch_moment(), a, w, start));
    let (px, py) = (series(x.books, x.batches), series(y.books, y.batches));
    let (tx, ty) = (message_times(x.messages), message_times(y.messages));
    &&& x.messages.filter(in_interval(message_moment(), a, w, start)) == y.messages.filter(
        in_interval(message_moment(), a, w, start),
    )
    &&& trades == y.trades.filter(in_interval(trade_moment(), a, w, start))
    &&& batches == y.batches.filter(in_interval(batch_moment(), a, w, start))
    &&& x.books.filter(in_interval(book_moment(), a, w, start)) == y.books.filter(
        in_interval(book_moment(), a, w, start),
    )
    &&& fates(x.messages, x.trades).filter(in_interval(fate_moment(), a, w, start)) == fates(y.messages, y.trades).filter(
        in_interval(fate_moment(), a, w, start),
    )
    &&& points_in(px, a, w, start) == points_in(py, a, w, start)
    &&& forall|t: TradeEvent| #[trigger]
        trades.contains(t) ==> markout(x.messages, px, t) == markout(y.messages, py, t)
    &&& forall|b: BatchClearedEvent| #[trigger]
        batches.contains(b) ==> window_part(tx)(b) == window_part(ty)(b) && boundary_part(tx)(b) == boundary_part(ty)(b)
}

proof fn lemma_total_on_members<T>(s: Seq<T>, f: spec_fn(T) -> int, g: spec_fn(T) -> int)
    requires
        forall|x: T| #[trigger] s.contains(x) ==> f(x) == g(x),
    ensures
        total(s, f) == total(s, g),
{
    assert forall|i: int| 0 <= i < s.len() implies f(#[trigger] s[i]) == g(s[i]) by {
        assert(s.contains(s[i]));
    }
    lemma_total_same(s, s, f, g);
}

/// Rows of the same interval that are told from records alike are the same.
proof fn lemma_same_row(
    x: Record,
    y: Record,
    a: int,
    w: int,
    row_x: IntervalFacts,
    lo_x: int,
    n_x: int,
    carry_x: Carry,
    k_x: int,
    row_y: IntervalFacts,
    lo_y: int,
    n_y: int,
    carry_y: Carry,
    k_y: int,
)
    requires
        x.messages.len() <= usize::MAX,
        y.messages.len() <= usize::MAX,
        row_holds(row_x, x.messages, x.trades, x.batches, x.books, a, w, lo_x, n_x, carry_x, k_x),
        row_holds(row_y, y.messages, y.trades, y.batches, y.books, a, w, lo_y, n_y, carry_y, k_y),
        row_start(lo_x, k_x, w) == row_start(lo_y, k_y, w),
        alike(x, y, a, w, row_start(lo_x, k_x, w)),
        close_before(series(x.books, x.batches), a, w, lo_x, k_x, carry_x.prev_close) == close_before(
            series(y.books, y.batches),
            a,
            w,
            lo_y,
            k_y,
            carry_y.prev_close,
        ),
        prior_clearings(
            x.batches,
            a,
            w,
            row_start(lo_x, k_x, w),
            row_start(lo_x, n_x, w),
            carry_x.prev_clearing,
        ) == prior_clearings(
            y.batches,
            a,
            w,
            row_start(lo_y, k_y, w),
            row_start(lo_y, n_y, w),
            carry_y.prev_clearing,
        ),
    ensures
        content(row_x, x) == content(row_y, y),
{
    let start: int = row_start(lo_x, k_x, w);
    lemma_row_parts(x, a, w, row_x, lo_x, n_x, carry_x, k_x);
    lemma_row_parts(y, a, w, row_y, lo_y, n_y, carry_y, k_y);
    let (px, py): (Seq<PricePoint>, Seq<PricePoint>) = (series(x.books, x.batches), series(y.books, y.batches));
    let evs: Seq<TradeEvent> = x.trades.filter(in_interval(trade_moment(), a, w, start));
    let cleared: Seq<BatchClearedEvent> = x.batches.filter(in_interval(batch_moment(), a, w, start));
    let swept: Seq<Seq<TradeEvent>> = sweeps_of(evs);
    assert forall|i: int| 0 <= i < evs.len() implies markout(x.messages, px, #[trigger] evs[i]) == markout(
        y.messages,
        py,
        evs[i],
    ) by {
        assert(evs.contains(evs[i]));
    }
    assert(Seq::new(evs.len(), |i: int| markout(x.messages, px, evs[i])) =~= Seq::new(
        evs.len(),
        |i: int| markout(y.messages, py, evs[i]),
    ));
    lemma_sweep_starts(evs);
    assert forall|j: int| 0 <= j < swept.len() implies price_from(px, (#[trigger] swept[j])[0].trade.ts + 5_000_000_000)
        == price_from(py, swept[j][0].trade.ts + 5_000_000_000) by {
        assert(evs.contains(swept[j][0]));
        assert(markout(x.messages, px, swept[j][0]) == markout(y.messages, py, swept[j][0]));
    }
    assert(Seq::new(swept.len(), |j: int| (swept[j], price_from(px, swept[j][0].trade.ts + 5_000_000_000))) =~= Seq::new(
        swept.len(),
        |j: int| (swept[j], price_from(py, swept[j][0].trade.ts + 5_000_000_000)),
    ));
    let (tx, ty): (Seq<u64>, Seq<u64>) = (message_times(x.messages), message_times(y.messages));
    lemma_total_on_members(cleared, window_part(tx), window_part(ty));
    lemma_total_on_members(cleared, boundary_part(tx), boundary_part(ty));
}

/// The parts of a row, by the events in its interval.
proof fn lemma_row_parts(x: Record, a: int, w: int, row: IntervalFacts, lo: int, n: int, carry: Carry, k: int)
    requires
        x.messages.len() <= usize::MAX,
        row_holds(row, x.messages, x.trades, x.batches, x.books, a, w, lo, n, carry, k),
    ensures
        ({
            let start = row_start(lo, k, w);
            let px = series(x.books, x.batches);
            let evs = x.trades.filter(in_interval(trade_moment(), a, w, start));
            let cleared = x.batches.filter(in_interval(batch_moment(), a, w, start));
            let seen = x.books.filter(in_interval(book_moment(), a, w, start));
            let opened = fates(x.messages, x.trades).filter(in_interval(fate_moment(), a, w, start));
            let swept = sweeps_of(evs);
            let tx = message_times(x.messages);
            content(row, x) == (RowView {
                start,
                messages: x.messages.filter(in_interval(message_moment(), a, w, start)).len() as int,
                trades: evs,
                markouts: Seq::new(evs.len(), |i: int| markout(x.messages, px, evs[i])),
                sweeps: Seq::new(
                    swept.len(),
                    |j: int| (swept[j], price_from(px, swept[j][0].trade.ts + 5_000_000_000)),
                ),
                points: points_in(px, a, w, start),
                prev_close: close_before(px, a, w, lo, k, carry.prev_close),
                batches: cleared,
                prior_clearing: prior_clearings(x.batches, a, w, start, row_start(lo, n, w), carry.prev_clearing),
                books: seen,
                orders: opened,
                users: grouped(opened, named()),
                window_messages: saturated(total(cleared, window_part(tx))),
                boundary_messages: saturated(total(cleared, boundary_part(tx))),
                compute_nanos: saturated(total(seen, book_nanos()) + total(cleared, batch_nanos())),
            })
        }),
{
    let start: int = row_start(lo, k, w);
    let px: Seq<PricePoint> = series(x.books, x.batches);
    let trades_at: Seq<int> = placed(trade_times(x.trades), a, w, start);
    assert(trade_times(x.trades) =~= times_by(x.trades, trade_moment()));
    lemma_pick_placed(x.trades, trade_moment(), a, w, start);
    assert(batch_times(x.batches) =~= times_by(x.batches, batch_moment()));
    lemma_pick_placed(x.batches, batch_moment(), a, w, start);
    assert(book_times(x.books) =~= times_by(x.books, book_moment()));
    lemma_pick_placed(x.books, book_moment(), a, w, start);
    assert(message_times(x.messages) =~= times_by(x.messages, message_moment()));
    lemma_pick_placed(x.messages, message_moment(), a, w, start);
    lemma_trades_content(row, x.messages, x.trades, px, trades_at);
    let states: Seq<OrderState> = outcomes(x.messages, x.trades);
    let all: Seq<Fate> = fates(x.messages, x.trades);
    lemma_openings(x.messages);
    assert(opening_times(x.messages, states) =~= times_by(all, fate_moment()));
    let orders_at: Seq<int> = placed(opening_times(x.messages, states), a, w, start);
    lemma_placed(opening_times(x.messages, states), a, w, start);
    lemma_pick_placed(all, fate_moment(), a, w, start);
    lemma_orders_content(row, x.messages, x.trades, orders_at);
    assert(row.prior_clearing@ =~= prior_clearings(
        x.batches,
        a,
        w,
        start,
        row_start(lo, n, w),
        carry.prev_clearing,
    ));
}

proof fn lemma_filter_none<T>(s: Seq<T>, p: spec_fn(T) -> bool)
    requires
        forall|i: int| 0 <= i < s.len() ==> !p(#[trigger] s[i]),
    ensures
        s.filter(p) == Seq::<T>::empty(),
    decreases s.len(),
{
    reveal(Seq::filter);
    if s.len() == 0 {
        assert(s.filter(p) =~= Seq::<T>::empty());
    } else {
        assert(!p(s[s.len() - 1]));
        assert forall|i: int| 0 <= i < s.drop_last().len() implies !p(#[trigger] s.drop_last()[i]) by {
            assert(!p(s[i]));
        }
        lemma_filter_none(s.drop_last(), p);
    }
}

proof fn lemma_filter_all<T>(s: Seq<T>, p: spec_fn(T) -> bool)
    requires
        forall|i: int| 0 <= i < s.len() ==> p(#[trigger] s[i]),
    ensures
        s.filter(p) == s,
    decreases s.len(),
{
    reveal(Seq::filter);
    if s.len() > 0 {
        assert(p(s[s.len() - 1]));
        assert forall|i: int| 0 <= i < s.drop_last().len() implies p(#[trigger] s.drop_last()[i]) by {
            assert(p(s[i]));
        }
        lemma_filter_all(s.drop_last(), p);
        assert(s.drop_last().push(s.last()) =~= s);
    } else {
        assert(s.filter(p) =~= s);
    }
}

proof fn lemma_filter_len<T>(s: Seq<T>, p: spec_fn(T) -> bool)
    ensures
        s.filter(p).len() <= s.len(),
    decreases s.len(),
{
    reveal(Seq::filter);
    if s.len() > 0 {
        lemma_filter_len(s.drop_last(), p);
    }
}

/// What is added and does not pass makes no difference.
proof fn lemma_added_outside<T>(s: Seq<T>, t: Seq<T>, p: spec_fn(T) -> bool)
    requires
        forall|i: int| 0 <= i < t.len() ==> !p(#[trigger] t[i]),
    ensures
        (s + t).filter(p) == s.filter(p),
{
    Seq::filter_distributes_over_add(s, t, p);
    lemma_filter_none(t, p);
    assert(s.filter(p) + Seq::<T>::empty() =~= s.filter(p));
}

proof fn lemma_total_zero<T>(s: Seq<T>, f: spec_fn(T) -> int)
    requires
        forall|i: int| 0 <= i < s.len() ==> f(#[trigger] s[i]) == 0,
    ensures
        total(s, f) == 0,
    decreases s.len(),
{
    if s.len() > 0 {
        assert(f(s[s.len() - 1]) == 0);
        assert forall|i: int| 0 <= i < s.drop_last().len() implies f(#[trigger] s.drop_last()[i]) == 0 by {
            assert(f(s[i]) == 0);
        }
        lemma_total_zero(s.drop_last(), f);
    }
}

/// Leaving out what adds nothing keeps the sum.
proof fn lemma_total_filter<T>(s: Seq<T>, f: spec_fn(T) -> int, keep: spec_fn(T) -> bool)
    requires
        forall|i: int| 0 <= i < s.len() && !keep(#[trigger] s[i]) ==> f(s[i]) == 0,
    ensures
        total(s.filter(keep), f) == total(s, f),
    decreases s.len(),
{
    reveal(Seq::filter);
    if s.len() > 0 {
        let short: Seq<T> = s.drop_last();
        assert forall|i: int| 0 <= i < short.len() && !keep(#[trigger] short[i]) implies f(short[i]) == 0 by {
            assert(!keep(s[i]));
        }
        lemma_total_filter(short, f, keep);
        assert(s[s.len() - 1] == s.last());
        lemma_total_push(short.filter(keep), s.last(), f);
    } else {
        assert(s.filter(keep) =~= s);
    }
}

proof fn lemma_map_filter<T, U>(s: Seq<T>, f: spec_fn(T) -> U, p: spec_fn(U) -> bool, q: spec_fn(T) -> bool)
    requires
        forall|x: T| #[trigger] q(x) == p(f(x)),
    ensures
        s.map_values(f).filter(p) == s.filter(q).map_values(f),
    decreases s.len(),
{
    reveal(Seq::filter);
    if s.len() == 0 {
        assert(s.map_values(f).filter(p) =~= s.filter(q).map_values(f));
    } else {
        let short: Seq<T> = s.drop_last();
        lemma_map_filter(short, f, p, q);
        assert(s.map_values(f).drop_last() =~= short.map_values(f));
        assert(q(s.last()) == p(f(s.last())));
        assert(short.filter(q).push(s.last()).map_values(f) =~= short.filter(q).map_values(f).push(f(s.last())));
    }
}

proof fn lemma_map_same<T, U>(s: Seq<T>, f: spec_fn(T) -> U, g: spec_fn(T) -> U)
    requires
        forall|i: int| 0 <= i < s.len() ==> f(#[trigger] s[i]) == g(s[i]),
    ensures
        s.map_values(f) == s.map_values(g),
{
    assert(s.map_values(f) =~= s.map_values(g));
}

/// The first accepted message of each order.
pub open spec fn opened(messages: Seq<OrderMessage>) -> Seq<OrderMessage> {
    pick(messages, openings(messages))
}

proof fn lemma_opened_step(messages: Seq<OrderMessage>)
    requires
        messages.len() > 0,
    ensures
        opened(messages) == if messages.last().accepted && opening_of(messages.drop_last(), messages.last().oid) is None {
            opened(messages.drop_last()).push(messages.last())
        } else {
            opened(messages.drop_last())
        },
{
    let short: Seq<OrderMessage> = messages.drop_last();
    lemma_openings(short);
    assert(pick(messages, openings(short)) =~= pick(short, openings(short)));
    lemma_pick_push(messages, openings(short), messages.len() - 1);
}

/// The openings are accepted messages of the list.
proof fn lemma_opened_members(messages: Seq<OrderMessage>)
    ensures
        forall|i: int|
            0 <= i < opened(messages).len() ==> (#[trigger] opened(messages)[i]).accepted && messages.contains(
                opened(messages)[i],
            ),
    decreases messages.len(),
{
    if messages.len() > 0 {
        let short: Seq<OrderMessage> = messages.drop_last();
        lemma_opened_members(short);
        lemma_opened_step(messages);
        let e: Seq<OrderMessage> = opened(short);
        assert forall|i: int| 0 <= i < opened(messages).len() implies (#[trigger] opened(messages)[i]).accepted
            && messages.contains(opened(messages)[i]) by {
            if i < e.len() {
                assert(e[i].accepted && short.contains(e[i]));
                let m: int = choose|m: int| 0 <= m < short.len() && short[m] == e[i];
                assert(messages[m] == e[i]);
            } else {
                assert(messages[messages.len() - 1] == opened(messages)[i]);
            }
        }
    }
}

/// An order that was opened was opened by an accepted message with its id.
proof fn lemma_opening_message(messages: Seq<OrderMessage>, oid: u64)
    ensures
        match opening_of(messages, oid) {
            Some(i) => 0 <= i < messages.len() && messages[i].accepted && messages[i].oid == oid,
            None => forall|i: int| 0 <= i < messages.len() && (#[trigger] messages[i]).accepted ==> messages[i].oid != oid,
        },
    decreases messages.len(),
{
    if messages.len() > 0 {
        let short: Seq<OrderMessage> = messages.drop_last();
        lemma_opening_message(short, oid);
        if opening_of(messages, oid) is None {
            assert forall|i: int| 0 <= i < messages.len() && (#[trigger] messages[i]).accepted implies messages[i].oid
                != oid by {
                if i < short.len() {
                    assert(short[i] == messages[i]);
                }
            }
        }
    }
}

proof fn lemma_opening_added(early: Seq<OrderMessage>, late: Seq<OrderMessage>, oid: u64)
    requires
        forall|i: int| 0 <= i < late.len() && (#[trigger] late[i]).accepted ==> late[i].oid != oid,
    ensures
        opening_of(early + late, oid) == opening_of(early, oid),
        limit_of(early + late, oid) == limit_of(early, oid),
    decreases late.len(),
{
    lemma_openings(early);
    if late.len() == 0 {
        assert(early + late =~= early);
    } else {
        assert((early + late).drop_last() =~= early + late.drop_last());
        assert forall|i: int| 0 <= i < late.drop_last().len() && (#[trigger] late.drop_last()[i]).accepted implies late.drop_last()[i].oid
            != oid by {
            assert(late[i].accepted);
        }
        lemma_opening_added(early, late.drop_last(), oid);
        assert(late[late.len() - 1] == (early + late).last());
    }
}

/// Without messages that opened other orders, an order is opened by the same
/// message.
proof fn lemma_opening_kept(messages: Seq<OrderMessage>, oid: u64, keep: spec_fn(OrderMessage) -> bool)
    requires
        forall|i: int|
            0 <= i < messages.len() && !keep(#[trigger] messages[i]) && messages[i].accepted ==> messages[i].oid != oid,
    ensures
        opening_of(messages.filter(keep), oid) is None == opening_of(messages, oid) is None,
        limit_of(messages.filter(keep), oid) == limit_of(messages, oid),
    decreases messages.len(),
{
    reveal(Seq::filter);
    if messages.len() == 0 {
        assert(messages.filter(keep) =~= messages);
    } else {
        let short: Seq<OrderMessage> = messages.drop_last();
        assert forall|i: int| 0 <= i < short.len() && !keep(#[trigger] short[i]) && short[i].accepted implies short[i].oid
            != oid by {
            assert(!keep(messages[i]));
        }
        lemma_opening_kept(short, oid, keep);
        lemma_openings(short);
        lemma_openings(short.filter(keep));
        let kept: Seq<OrderMessage> = short.filter(keep);
        assert(messages[messages.len() - 1] == messages.last());
        if keep(messages.last()) {
            assert(kept.push(messages.last()).drop_last() =~= kept);
        }
    }
}

/// Messages outside an interval do not open orders in it.
proof fn lemma_opened_added(early: Seq<OrderMessage>, late: Seq<OrderMessage>, p: spec_fn(OrderMessage) -> bool)
    requires
        forall|i: int| 0 <= i < late.len() ==> !p(#[trigger] late[i]),
    ensures
        opened(early + late).filter(p) == opened(early).filter(p),
    decreases late.len(),
{
    reveal(Seq::filter);
    if late.len() == 0 {
        assert(early + late =~= early);
    } else {
        let all: Seq<OrderMessage> = early + late;
        assert(all.drop_last() =~= early + late.drop_last());
        assert forall|i: int| 0 <= i < late.drop_last().len() implies !p(#[trigger] late.drop_last()[i]) by {
            assert(!p(late[i]));
        }
        lemma_opened_added(early, late.drop_last(), p);
        lemma_opened_step(all);
        assert(!p(late[late.len() - 1]));
        assert(opened(all.drop_last()).push(all.last()).drop_last() =~= opened(all.drop_last()));
    }
}

/// Leaving messages out leaves the openings among the others, if none of the
/// others is of an order that they opened.
proof fn lemma_opened_kept(
    messages: Seq<OrderMessage>,
    keep: spec_fn(OrderMessage) -> bool,
    p: spec_fn(OrderMessage) -> bool,
)
    requires
        forall|m: OrderMessage| #[trigger] p(m) ==> keep(m),
        forall|i: int, j: int|
            0 <= i < messages.len() && 0 <= j < messages.len() && (#[trigger] messages[i]).accepted && !keep(messages[i])
                && (#[trigger] messages[j]).accepted && keep(messages[j]) ==> messages[i].oid != messages[j].oid,
    ensures
        opened(messages.filter(keep)).filter(p) == opened(messages).filter(p),
    decreases messages.len(),
{
    reveal(Seq::filter);
    if messages.len() == 0 {
        assert(messages.filter(keep) =~= messages);
    } else {
        let short: Seq<OrderMessage> = messages.drop_last();
        let last: OrderMessage = messages.last();
        assert(messages[messages.len() - 1] == last);
        assert forall|i: int, j: int|
            0 <= i < short.len() && 0 <= j < short.len() && (#[trigger] short[i]).accepted && !keep(short[i]) && (
            #[trigger] short[j]).accepted && keep(short[j]) implies short[i].oid != short[j].oid by {
            assert(messages[i].oid != messages[j].oid);
        }
        lemma_opened_kept(short, keep, p);
        lemma_opened_step(messages);
        let kept: Seq<OrderMessage> = short.filter(keep);
        let e: Seq<OrderMessage> = opened(short);
        assert(e.push(last).drop_last() =~= e);
        if keep(last) {
            let now: Seq<OrderMessage> = kept.push(last);
            assert(now.drop_last() =~= kept);
            lemma_opened_step(now);
            assert(opened(kept).push(last).drop_last() =~= opened(kept));
            if last.accepted {
                assert forall|i: int| 0 <= i < short.len() && !keep(#[trigger] short[i]) && short[i].accepted implies short[i].oid
                    != last.oid by {
                    assert(messages[i].oid != messages[messages.len() - 1].oid);
                }
                lemma_opening_kept(short, last.oid, keep);
            }
        }
    }
}

/// Whether a trade is of the order with this id.
pub open spec fn of_order(t: TradeEvent, oid: u64) -> bool {
    t.trade.buy_order_id == oid || t.trade.sell_order_id == oid
}

/// Trades of other orders change nothing for an order.
proof fn lemma_fate_added(m: OrderMessage, early: Seq<TradeEvent>, late: Seq<TradeEvent>)
    requires
        forall|i: int| 0 <= i < late.len() ==> !of_order(#[trigger] late[i], m.oid),
    ensures
        fate_of(m, early + late) == fate_of(m, early),
    decreases late.len(),
{
    if late.len() == 0 {
        assert(early + late =~= early);
    } else {
        let all: Seq<TradeEvent> = early + late;
        assert(all.drop_last() =~= early + late.drop_last());
        assert forall|i: int| 0 <= i < late.drop_last().len() implies !of_order(#[trigger] late.drop_last()[i], m.oid) by {
            assert(!of_order(late[i], m.oid));
        }
        lemma_fate_added(m, early, late.drop_last());
        assert(!of_order(late[late.len() - 1], m.oid));
        lemma_fill_step(all, m.oid);
    }
}

proof fn lemma_fill_step(trades: Seq<TradeEvent>, oid: u64)
    requires
        trades.len() > 0,
    ensures
        filled_under(trade_legs(trades), oid) == filled_under(trade_legs(trades.drop_last()), oid) + leg_part(oid)(
            leg(trades.last()),
        ),
{
    assert(trade_legs(trades) =~= trade_legs(trades.drop_last()).push(leg(trades.last())));
    lemma_total_push(trade_legs(trades.drop_last()), leg(trades.last()), leg_part(oid));
}

proof fn lemma_fate_kept(m: OrderMessage, trades: Seq<TradeEvent>, keep: spec_fn(TradeEvent) -> bool)
    requires
        forall|i: int| 0 <= i < trades.len() && !keep(#[trigger] trades[i]) ==> !of_order(trades[i], m.oid),
    ensures
        fate_of(m, trades.filter(keep)) == fate_of(m, trades),
{
    lemma_filled_kept(trades, m.oid, keep);
    lemma_first_fill_kept(trades, m.oid, keep);
}

proof fn lemma_filled_kept(trades: Seq<TradeEvent>, oid: u64, keep: spec_fn(TradeEvent) -> bool)
    requires
        forall|i: int| 0 <= i < trades.len() && !keep(#[trigger] trades[i]) ==> !of_order(trades[i], oid),
    ensures
        filled_under(trade_legs(trades.filter(keep)), oid) == filled_under(trade_legs(trades), oid),
{
    let f = |t: TradeEvent| leg_part(oid)(leg(t));
    let kept: Seq<TradeEvent> = trades.filter(keep);
    lemma_total_same(trade_legs(trades), trades, leg_part(oid), f);
    lemma_total_same(trade_legs(kept), kept, leg_part(oid), f);
    assert forall|i: int| 0 <= i < trades.len() && !keep(#[trigger] trades[i]) implies f(trades[i]) == 0 by {
        assert(!of_order(trades[i], oid));
    }
    lemma_total_filter(trades, f, keep);
}

proof fn lemma_first_fill_kept(trades: Seq<TradeEvent>, oid: u64, keep: spec_fn(TradeEvent) -> bool)
    requires
        forall|i: int| 0 <= i < trades.len() && !keep(#[trigger] trades[i]) ==> !of_order(trades[i], oid),
    ensures
        first_fill(trades.filter(keep), oid) == first_fill(trades, oid),
    decreases trades.len(),
{
    reveal(Seq::filter);
    if trades.len() == 0 {
        assert(trades.filter(keep) =~= trades);
    } else {
        let short: Seq<TradeEvent> = trades.drop_last();
        assert forall|i: int| 0 <= i < short.len() && !keep(#[trigger] short[i]) implies !of_order(short[i], oid) by {
            assert(!keep(trades[i]));
        }
        assert(trades[trades.len() - 1] == trades.last());
        lemma_first_fill_kept(short, oid, keep);
        let kept: Seq<TradeEvent> = short.filter(keep);
        assert(kept.push(trades.last()).drop_last() =~= kept);
    }
}

impl Record {
    /// What is recorded when more has been recorded.
    pub open spec fn and(self, more: Record) -> Record {
        Record {
            messages: self.messages + more.messages,
            trades: self.trades + more.trades,
            batches: self.batches + more.batches,
            books: self.books + more.books,
        }
    }

    /// What is left without the intervals before `cut`.
    pub open spec fn from(self, a: int, w: int, cut: int) -> Record {
        Record {
            messages: self.messages.filter(message_kept(a, w, cut)),
            trades: self.trades.filter(trade_kept(a, w, cut)),
            batches: self.batches.filter(batch_kept(a, w, cut)),
            books: self.books.filter(book_kept(a, w, cut)),
        }
    }

    /// Nothing is of an interval before `cut`.
    pub open spec fn all_after(self, a: int, w: int, cut: int) -> bool {
        &&& forall|i: int| 0 <= i < self.messages.len() ==> message_kept(a, w, cut)(#[trigger] self.messages[i])
        &&& forall|i: int| 0 <= i < self.trades.len() ==> trade_kept(a, w, cut)(#[trigger] self.trades[i])
        &&& forall|i: int| 0 <= i < self.batches.len() ==> batch_kept(a, w, cut)(#[trigger] self.batches[i])
        &&& forall|i: int| 0 <= i < self.books.len() ==> book_kept(a, w, cut)(#[trigger] self.books[i])
    }

    /// No order is cut in two: the messages that open it and its trades are
    /// all before `cut`, or all after it.
    pub open spec fn orders_uncut(self, a: int, w: int, cut: int) -> bool {
        &&& forall|i: int, j: int|
            0 <= i < self.messages.len() && 0 <= j < self.messages.len() && (#[trigger] self.messages[i]).accepted
                && !message_kept(a, w, cut)(self.messages[i]) && (#[trigger] self.messages[j]).accepted
                && message_kept(a, w, cut)(self.messages[j]) ==> self.messages[i].oid != self.messages[j].oid
        &&& forall|i: int, j: int|
            0 <= i < self.messages.len() && 0 <= j < self.trades.len() && (#[trigger] self.messages[i]).accepted
                && message_kept(a, w, cut)(self.messages[i]) != trade_kept(a, w, cut)(#[trigger] self.trades[j])
                ==> !of_order(self.trades[j], self.messages[i].oid)
    }

    /// The price that a trade before `cut` is measured against after `delay`
    /// was on record before `limit`.
    pub open spec fn answered(self, a: int, w: int, cut: int, delay: int, limit: int) -> bool {
        forall|j: int|
            0 <= j < self.trades.len() && !trade_kept(a, w, cut)(#[trigger] self.trades[j]) ==> exists|i: int|
                0 <= i < series(self.books, self.batches).len() && self.trades[j].trade.ts + delay <= (
                #[trigger] series(self.books, self.batches)[i]).ts < limit
    }

    /// No window of a batch after `cut` reaches back to a message before it.
    pub open spec fn windows_uncut(self, a: int, w: int, cut: int) -> bool {
        forall|i: int, j: int|
            0 <= i < self.messages.len() && 0 <= j < self.batches.len() && !message_kept(a, w, cut)(
                #[trigger] self.messages[i],
            ) && batch_kept(a, w, cut)(#[trigger] self.batches[j]) && window(self.batches[j]) > 0 ==> self.messages[i].ts
                < self.batches[j].batch_open_ts
    }
}

proof fn lemma_fates_are_mapped(messages: Seq<OrderMessage>, trades: Seq<TradeEvent>)
    ensures
        fates(messages, trades) == opened(messages).map_values(|m: OrderMessage| fate_of(m, trades)),
{
    assert(fates(messages, trades) =~= opened(messages).map_values(|m: OrderMessage| fate_of(m, trades)));
}

/// What became of the orders of an interval is what became of the orders that
/// were opened in it.
proof fn lemma_fates_in(messages: Seq<OrderMessage>, trades: Seq<TradeEvent>, a: int, w: int, start: int)
    ensures
        fates(messages, trades).filter(in_interval(fate_moment(), a, w, start)) == opened(messages).filter(
            in_interval(message_moment(), a, w, start),
        ).map_values(|m: OrderMessage| fate_of(m, trades)),
{
    lemma_fates_are_mapped(messages, trades);
    lemma_map_filter(
        opened(messages),
        |m: OrderMessage| fate_of(m, trades),
        in_interval(fate_moment(), a, w, start),
        in_interval(message_moment(), a, w, start),
    );
}

proof fn lemma_fates_early(x: Record, more: Record, a: int, w: int, cut: int, start: int)
    requires
        more.all_after(a, w, cut),
        x.and(more).orders_uncut(a, w, cut),
        start < cut,
    ensures
        fates(x.and(more).messages, x.and(more).trades).filter(in_interval(fate_moment(), a, w, start)) == fates(
            x.messages,
            x.trades,
        ).filter(in_interval(fate_moment(), a, w, start)),
{
    let all: Record = x.and(more);
    let p = in_interval(message_moment(), a, w, start);
    lemma_fates_in(all.messages, all.trades, a, w, start);
    lemma_fates_in(x.messages, x.trades, a, w, start);
    assert forall|i: int| 0 <= i < more.messages.len() implies !p(#[trigger] more.messages[i]) by {
        assert(message_kept(a, w, cut)(more.messages[i]));
    }
    lemma_opened_added(x.messages, more.messages, p);
    let here: Seq<OrderMessage> = opened(x.messages).filter(p);
    assert forall|i: int| 0 <= i < here.len() implies fate_of(#[trigger] here[i], all.trades) == fate_of(here[i], x.trades) by {
        let m: OrderMessage = here[i];
        assert(here.contains(m));
        opened(x.messages).lemma_filter_contains_rev(p, m);
        opened(x.messages).lemma_filter_pred(p, i);
        lemma_opened_members(x.messages);
        let q: int = choose|q: int| 0 <= q < opened(x.messages).len() && opened(x.messages)[q] == m;
        assert(m.accepted && x.messages.contains(m));
        let r: int = choose|r: int| 0 <= r < x.messages.len() && x.messages[r] == m;
        assert(all.messages[r] == m);
        assert forall|j: int| 0 <= j < more.trades.len() implies !of_order(#[trigger] more.trades[j], m.oid) by {
            assert(trade_kept(a, w, cut)(more.trades[j]));
            assert(all.trades[x.trades.len() + j] == more.trades[j]);
        }
        lemma_fate_added(m, x.trades, more.trades);
    }
    lemma_map_same(here, |m: OrderMessage| fate_of(m, all.trades), |m: OrderMessage| fate_of(m, x.trades));
}

proof fn lemma_fates_late(x: Record, a: int, w: int, cut: int, start: int)
    requires
        x.orders_uncut(a, w, cut),
        start >= cut,
    ensures
        fates(x.from(a, w, cut).messages, x.from(a, w, cut).trades).filter(in_interval(fate_moment(), a, w, start)) == fates(
            x.messages,
            x.trades,
        ).filter(in_interval(fate_moment(), a, w, start)),
{
    let rest: Record = x.from(a, w, cut);
    let p = in_interval(message_moment(), a, w, start);
    let keep = message_kept(a, w, cut);
    lemma_fates_in(rest.messages, rest.trades, a, w, start);
    lemma_fates_in(x.messages, x.trades, a, w, start);
    lemma_opened_kept(x.messages, keep, p);
    let here: Seq<OrderMessage> = opened(x.messages).filter(p);
    assert forall|i: int| 0 <= i < here.len() implies fate_of(#[trigger] here[i], rest.trades) == fate_of(
        here[i],
        x.trades,
    ) by {
        let m: OrderMessage = here[i];
        assert(here.contains(m));
        opened(x.messages).lemma_filter_contains_rev(p, m);
        opened(x.messages).lemma_filter_pred(p, i);
        lemma_opened_members(x.messages);
        let q: int = choose|q: int| 0 <= q < opened(x.messages).len() && opened(x.messages)[q] == m;
        assert(m.accepted && x.messages.contains(m));
        let r: int = choose|r: int| 0 <= r < x.messages.len() && x.messages[r] == m;
        assert(keep(x.messages[r]));
        lemma_fate_kept(m, x.trades, trade_kept(a, w, cut));
    }
    lemma_map_same(here, |m: OrderMessage| fate_of(m, rest.trades), |m: OrderMessage| fate_of(m, x.trades));
}

proof fn lemma_book_points_added(early: Seq<BookSnapshot>, late: Seq<BookSnapshot>)
    ensures
        book_points(early + late) == book_points(early) + book_points(late),
    decreases late.len(),
{
    if late.len() == 0 {
        assert(early + late =~= early);
        assert(book_points(early) + book_points(late) =~= book_points(early));
    } else {
        assert((early + late).drop_last() =~= early + late.drop_last());
        lemma_book_points_added(early, late.drop_last());
        let e: Seq<PricePoint> = book_points(early);
        let l: Seq<PricePoint> = book_points(late.drop_last());
        match book_point(late.last()) {
            Some(p) => {
                assert((e + l).push(p) =~= e + l.push(p));
            },
            None => {},
        }
    }
}

proof fn lemma_batch_points_added(early: Seq<BatchClearedEvent>, late: Seq<BatchClearedEvent>)
    ensures
        batch_points(early + late) == batch_points(early) + batch_points(late),
    decreases late.len(),
{
    if late.len() == 0 {
        assert(early + late =~= early);
        assert(batch_points(early) + batch_points(late) =~= batch_points(early));
    } else {
        assert((early + late).drop_last() =~= early + late.drop_last());
        lemma_batch_points_added(early, late.drop_last());
        let e: Seq<PricePoint> = batch_points(early);
        let l: Seq<PricePoint> = batch_points(late.drop_last());
        match batch_point(late.last()) {
            Some(p) => {
                assert((e + l).push(p) =~= e + l.push(p));
            },
            None => {},
        }
    }
}

/// Points have the moments of their books.
proof fn lemma_book_points_pass(books: Seq<BookSnapshot>, p: spec_fn(PricePoint) -> bool, q: spec_fn(u64) -> bool)
    requires
        forall|x: PricePoint| #[trigger] p(x) == q(x.ts),
        forall|i: int| 0 <= i < books.len() ==> !q((#[trigger] books[i]).ts),
    ensures
        forall|i: int| 0 <= i < book_points(books).len() ==> !p(#[trigger] book_points(books)[i]),
    decreases books.len(),
{
    if books.len() > 0 {
        let short: Seq<BookSnapshot> = books.drop_last();
        assert forall|i: int| 0 <= i < short.len() implies !q((#[trigger] short[i]).ts) by {
            assert(!q(books[i].ts));
        }
        lemma_book_points_pass(short, p, q);
        assert(!q(books[books.len() - 1].ts));
        let e: Seq<PricePoint> = book_points(short);
        assert forall|i: int| 0 <= i < book_points(books).len() implies !p(#[trigger] book_points(books)[i]) by {
            if i < e.len() {
                assert(!p(e[i]));
            } else {
                assert(p(book_points(books)[i]) == q(book_points(books)[i].ts));
            }
        }
    }
}

proof fn lemma_batch_points_pass(
    batches: Seq<BatchClearedEvent>,
    p: spec_fn(PricePoint) -> bool,
    q: spec_fn(u64) -> bool,
)
    requires
        forall|x: PricePoint| #[trigger] p(x) == q(x.ts),
        forall|i: int| 0 <= i < batches.len() ==> !q((#[trigger] batches[i]).ts),
    ensures
        forall|i: int| 0 <= i < batch_points(batches).len() ==> !p(#[trigger] batch_points(batches)[i]),
    decreases batches.len(),
{
    if batches.len() > 0 {
        let short: Seq<BatchClearedEvent> = batches.drop_last();
        assert forall|i: int| 0 <= i < short.len() implies !q((#[trigger] short[i]).ts) by {
            assert(!q(batches[i].ts));
        }
        lemma_batch_points_pass(short, p, q);
        assert(!q(batches[batches.len() - 1].ts));
        let e: Seq<PricePoint> = batch_points(short);
        assert forall|i: int| 0 <= i < batch_points(batches).len() implies !p(#[trigger] batch_points(batches)[i]) by {
            if i < e.len() {
                assert(!p(e[i]));
            } else {
                assert(p(batch_points(batches)[i]) == q(batch_points(batches)[i].ts));
            }
        }
    }
}

/// Events whose moments do not pass leave what passes of the series.
proof fn lemma_series_added(x: Record, more: Record, p: spec_fn(PricePoint) -> bool, q: spec_fn(u64) -> bool)
    requires
        forall|x: PricePoint| #[trigger] p(x) == q(x.ts),
        forall|i: int| 0 <= i < more.books.len() ==> !q((#[trigger] more.books[i]).ts),
        forall|i: int| 0 <= i < more.batches.len() ==> !q((#[trigger] more.batches[i]).ts),
    ensures
        series(x.and(more).books, x.and(more).batches).filter(p) == series(x.books, x.batches).filter(p),
{
    let b0: Seq<PricePoint> = book_points(x.books);
    let b1: Seq<PricePoint> = book_points(more.books);
    let c0: Seq<PricePoint> = batch_points(x.batches);
    let c1: Seq<PricePoint> = batch_points(more.batches);
    lemma_book_points_added(x.books, more.books);
    lemma_batch_points_added(x.batches, more.batches);
    lemma_book_points_pass(more.books, p, q);
    lemma_batch_points_pass(more.batches, p, q);
    lemma_sorted_by_filter((b0 + b1) + (c0 + c1), by_ts(), p);
    lemma_sorted_by_filter(b0 + c0, by_ts(), p);
    Seq::filter_distributes_over_add(b0 + b1, c0 + c1, p);
    Seq::filter_distributes_over_add(b0, c0, p);
    lemma_added_outside(b0, b1, p);
    lemma_added_outside(c0, c1, p);
}

/// The reference prices of an interval, by the points in it.
proof fn lemma_points_by_filter(prices: Seq<PricePoint>, a: int, w: int, start: int)
    ensures
        points_in(prices, a, w, start) == prices.filter(in_interval(point_moment(), a, w, start)).map_values(
            |p: PricePoint| p.price,
        ),
{
    assert(crate::metrics::facts::point_times(prices) =~= times_by(prices, point_moment()));
    lemma_pick_placed(prices, point_moment(), a, w, start);
    assert(points_in(prices, a, w, start) =~= prices.filter(in_interval(point_moment(), a, w, start)).map_values(
        |p: PricePoint| p.price,
    ));
}

proof fn lemma_points_early(x: Record, more: Record, a: int, w: int, cut: int, start: int)
    requires
        more.all_after(a, w, cut),
        start < cut,
    ensures
        points_in(series(x.and(more).books, x.and(more).batches), a, w, start) == points_in(
            series(x.books, x.batches),
            a,
            w,
            start,
        ),
{
    let p = in_interval(point_moment(), a, w, start);
    let q = |ts: u64| bucket(ts as int, a, w) == start;
    assert forall|i: int| 0 <= i < more.books.len() implies !q((#[trigger] more.books[i]).ts) by {
        assert(book_kept(a, w, cut)(more.books[i]));
    }
    assert forall|i: int| 0 <= i < more.batches.len() implies !q((#[trigger] more.batches[i]).ts) by {
        assert(batch_kept(a, w, cut)(more.batches[i]));
    }
    lemma_series_added(x, more, p, q);
    lemma_points_by_filter(series(x.books, x.batches), a, w, start);
    lemma_points_by_filter(series(x.and(more).books, x.and(more).batches), a, w, start);
}

pub open spec fn sooner_than(limit: int) -> spec_fn(PricePoint) -> bool {
    |p: PricePoint| p.ts < limit
}

/// Of a list in order of time, what is sooner than a limit comes first.
proof fn lemma_sooner_is_head(s: Seq<PricePoint>, limit: int) -> (m: int)
    requires
        ascends_by(s, by_ts()),
    ensures
        0 <= m <= s.len(),
        s.filter(sooner_than(limit)) == s.take(m),
        m < s.len() ==> s[m].ts >= limit,
    decreases s.len(),
{
    reveal(Seq::filter);
    let p = sooner_than(limit);
    if s.len() == 0 {
        assert(s.filter(p) =~= s.take(0));
        0
    } else {
        let short: Seq<PricePoint> = s.drop_last();
        assert(ascends_by(short, by_ts())) by {
            assert forall|i: int, j: int| 0 <= i <= j < short.len() implies by_ts()(#[trigger] short[i]) <= by_ts()(
                #[trigger] short[j],
            ) by {
                assert(by_ts()(s[i]) <= by_ts()(s[j]));
            }
        }
        let m: int = lemma_sooner_is_head(short, limit);
        if p(s.last()) {
            assert(m == short.len()) by {
                if m < short.len() {
                    assert(by_ts()(s[m]) <= by_ts()(s[s.len() - 1]));
                    assert(short[m] == s[m]);
                }
            }
            assert(short.take(m).push(s.last()) =~= s.take(s.len() as int));
            s.len() as int
        } else {
            assert(short.take(m) =~= s.take(m));
            if m < short.len() {
                assert(short[m] == s[m]);
            }
            m
        }
    }
}

/// A look-up that is answered before a limit only looks at what is before it.
proof fn lemma_answered_before(s: Seq<PricePoint>, target: int, limit: int, i: int)
    requires
        ascends_by(s, by_ts()),
        0 <= i < s.len(),
        target <= s[i].ts < limit,
    ensures
        price_from(s.filter(sooner_than(limit)), target) == price_from(s, target),
{
    let early = earlier_than(target);
    let m: int = lemma_sooner_is_head(s, limit);
    let head: Seq<PricePoint> = s.take(m);
    assert(i < m) by {
        if m <= i {
            assert(by_ts()(s[m]) <= by_ts()(s[i]));
        }
    }
    let k: int = leading(head, early) as int;
    lemma_leading_run(head, early);
    assert(k <= i) by {
        if k > i {
            assert(early(head[i]));
        }
    }
    assert forall|j: int| 0 <= j < k implies early(#[trigger] s[j]) by {
        assert(early(head[j]));
    }
    assert(head[k] == s[k]);
    lemma_leading(s, early, k);
}

proof fn lemma_lookup_early(x: Record, more: Record, target: int, limit: int, i: int)
    requires
        0 <= i < series(x.books, x.batches).len(),
        target <= series(x.books, x.batches)[i].ts < limit,
        forall|j: int| 0 <= j < more.books.len() ==> (#[trigger] more.books[j]).ts >= limit,
        forall|j: int| 0 <= j < more.batches.len() ==> (#[trigger] more.batches[j]).ts >= limit,
    ensures
        price_from(series(x.and(more).books, x.and(more).batches), target) == price_from(
            series(x.books, x.batches),
            target,
        ),
{
    let before: Seq<PricePoint> = series(x.books, x.batches);
    let all: Seq<PricePoint> = series(x.and(more).books, x.and(more).batches);
    let p = sooner_than(limit);
    lemma_series_added(x, more, p, |ts: u64| ts < limit);
    lemma_sorted_by_ascends(book_points(x.books) + batch_points(x.batches), by_ts());
    lemma_sorted_by_ascends(book_points(x.and(more).books) + batch_points(x.and(more).batches), by_ts());
    lemma_answered_before(before, target, limit, i);
    before.lemma_filter_contains(p, i);
    assert(all.filter(p).contains(before[i]));
    all.lemma_filter_contains_rev(p, before[i]);
    let j: int = choose|j: int| 0 <= j < all.len() && all[j] == before[i];
    lemma_answered_before(all, target, limit, j);
}

proof fn lemma_arrivals_by_message(messages: Seq<OrderMessage>, from: int, to: int)
    ensures
        arrivals(message_times(messages), from, to) == total(
            messages,
            |m: OrderMessage| in_window(from, to)(m.ts),
        ),
{
    lemma_total_same(
        message_times(messages),
        messages,
        in_window(from, to),
        |m: OrderMessage| in_window(from, to)(m.ts),
    );
}

/// Messages after a window do not count for it.
proof fn lemma_arrivals_added(early: Seq<OrderMessage>, late: Seq<OrderMessage>, from: int, to: int)
    requires
        forall|i: int| 0 <= i < late.len() ==> (#[trigger] late[i]).ts > to,
    ensures
        arrivals(message_times(early + late), from, to) == arrivals(message_times(early), from, to),
{
    let f = |m: OrderMessage| in_window(from, to)(m.ts);
    lemma_arrivals_by_message(early + late, from, to);
    lemma_arrivals_by_message(early, from, to);
    lemma_total_add(early, late, f);
    lemma_total_zero(late, f);
}

/// Messages before a window do not count for it.
proof fn lemma_arrivals_kept(messages: Seq<OrderMessage>, keep: spec_fn(OrderMessage) -> bool, from: int, to: int)
    requires
        forall|i: int| 0 <= i < messages.len() && !keep(#[trigger] messages[i]) ==> messages[i].ts < from,
    ensures
        arrivals(message_times(messages.filter(keep)), from, to) == arrivals(message_times(messages), from, to),
{
    let f = |m: OrderMessage| in_window(from, to)(m.ts);
    lemma_arrivals_by_message(messages, from, to);
    lemma_arrivals_by_message(messages.filter(keep), from, to);
    lemma_total_filter(messages, f, keep);
}

proof fn lemma_filter_member<T>(s: Seq<T>, p: spec_fn(T) -> bool, x: T) -> (i: int)
    requires
        s.filter(p).contains(x),
    ensures
        0 <= i < s.len(),
        s[i] == x,
        p(x),
{
    s.lemma_filter_contains_rev(p, x);
    let k: int = choose|k: int| 0 <= k < s.filter(p).len() && s.filter(p)[k] == x;
    s.lemma_filter_pred(p, k);
    choose|i: int| 0 <= i < s.len() && s[i] == x
}

/// A settled row can be told from what was on record when it was settled.
proof fn lemma_alike_early(x: Record, more: Record, a: int, w: int, cut: int, limit: int, start: int)
    requires
        w > 0,
        more.all_after(a, w, cut),
        x.and(more).orders_uncut(a, w, cut),
        x.answered(a, w, cut, 1_000_000_000, limit),
        x.answered(a, w, cut, 5_000_000_000, limit),
        x.answered(a, w, cut, 30_000_000_000, limit),
        forall|j: int| 0 <= j < more.books.len() ==> (#[trigger] more.books[j]).ts >= limit,
        forall|j: int| 0 <= j < more.batches.len() ==> (#[trigger] more.batches[j]).ts >= limit,
        start < cut,
    ensures
        alike(x.and(more), x, a, w, start),
{
    let all: Record = x.and(more);
    let (pa, px): (Seq<PricePoint>, Seq<PricePoint>) = (series(all.books, all.batches), series(x.books, x.batches));
    let (ta, tx): (Seq<u64>, Seq<u64>) = (message_times(all.messages), message_times(x.messages));
    let in_messages = in_interval(message_moment(), a, w, start);
    let in_trades = in_interval(trade_moment(), a, w, start);
    let in_batches = in_interval(batch_moment(), a, w, start);
    let in_books = in_interval(book_moment(), a, w, start);
    assert forall|i: int| 0 <= i < more.messages.len() implies !in_messages(#[trigger] more.messages[i]) by {
        assert(message_kept(a, w, cut)(more.messages[i]));
    }
    lemma_added_outside(x.messages, more.messages, in_messages);
    assert forall|i: int| 0 <= i < more.trades.len() implies !in_trades(#[trigger] more.trades[i]) by {
        assert(trade_kept(a, w, cut)(more.trades[i]));
    }
    lemma_added_outside(x.trades, more.trades, in_trades);
    assert forall|i: int| 0 <= i < more.batches.len() implies !in_batches(#[trigger] more.batches[i]) by {
        assert(batch_kept(a, w, cut)(more.batches[i]));
    }
    lemma_added_outside(x.batches, more.batches, in_batches);
    assert forall|i: int| 0 <= i < more.books.len() implies !in_books(#[trigger] more.books[i]) by {
        assert(book_kept(a, w, cut)(more.books[i]));
    }
    lemma_added_outside(x.books, more.books, in_books);
    lemma_fates_early(x, more, a, w, cut, start);
    lemma_points_early(x, more, a, w, cut, start);
    assert forall|t: TradeEvent| #[trigger] all.trades.filter(in_trades).contains(t) implies markout(
        all.messages,
        pa,
        t,
    ) == markout(x.messages, px, t) by {
        let j: int = lemma_filter_member(x.trades, in_trades, t);
        assert(!trade_kept(a, w, cut)(x.trades[j]));
        assert(all.trades[j] == t);
        lemma_limits_early(x, more, a, w, cut, j);
        let i1: int = choose|i: int| 0 <= i < px.len() && t.trade.ts + 1_000_000_000 <= (#[trigger] px[i]).ts < limit;
        let i5: int = choose|i: int| 0 <= i < px.len() && t.trade.ts + 5_000_000_000 <= (#[trigger] px[i]).ts < limit;
        let i30: int = choose|i: int| 0 <= i < px.len() && t.trade.ts + 30_000_000_000 <= (#[trigger] px[i]).ts < limit;
        lemma_lookup_early(x, more, t.trade.ts + 1_000_000_000, limit, i1);
        lemma_lookup_early(x, more, t.trade.ts + 5_000_000_000, limit, i5);
        lemma_lookup_early(x, more, t.trade.ts + 30_000_000_000, limit, i30);
    }
    assert forall|b: BatchClearedEvent| #[trigger] all.batches.filter(in_batches).contains(b) implies window_part(ta)(b)
        == window_part(tx)(b) && boundary_part(ta)(b) == boundary_part(tx)(b) by {
        let j: int = lemma_filter_member(x.batches, in_batches, b);
        assert forall|i: int| 0 <= i < more.messages.len() implies (#[trigger] more.messages[i]).ts > b.ts as int by {
            assert(message_kept(a, w, cut)(more.messages[i]));
            if more.messages[i].ts <= b.ts {
                law_buckets_follow_time(more.messages[i].ts as int, b.ts as int, a, w);
            }
        }
        lemma_arrivals_added(x.messages, more.messages, b.batch_open_ts as int, b.ts as int);
        lemma_arrivals_added(x.messages, more.messages, b.ts - window(b) / 10, b.ts as int);
    }
}

proof fn lemma_limits_early(x: Record, more: Record, a: int, w: int, cut: int, j: int)
    requires
        more.all_after(a, w, cut),
        x.and(more).orders_uncut(a, w, cut),
        0 <= j < x.trades.len(),
        !trade_kept(a, w, cut)(x.trades[j]),
    ensures
        ({
            let t = x.trades[j].trade;
            &&& limit_of(x.and(more).messages, t.buy_order_id) == limit_of(x.messages, t.buy_order_id)
            &&& limit_of(x.and(more).messages, t.sell_order_id) == limit_of(x.messages, t.sell_order_id)
        }),
{
    let all: Record = x.and(more);
    let t: TradeEvent = x.trades[j];
    assert(all.trades[j] == t);
    assert forall|i: int| 0 <= i < more.messages.len() && (#[trigger] more.messages[i]).accepted implies more.messages[i].oid
        != t.trade.buy_order_id && more.messages[i].oid != t.trade.sell_order_id by {
        assert(message_kept(a, w, cut)(more.messages[i]));
        assert(all.messages[x.messages.len() + i] == more.messages[i]);
        assert(!of_order(all.trades[j], all.messages[x.messages.len() + i].oid));
    }
    lemma_opening_added(x.messages, more.messages, t.trade.buy_order_id);
    lemma_opening_added(x.messages, more.messages, t.trade.sell_order_id);
}

/// A row after the cut can be told without what was before it.
proof fn lemma_alike_late(x: Record, a: int, w: int, cut: int, start: int)
    requires
        w > 0,
        x.orders_uncut(a, w, cut),
        x.windows_uncut(a, w, cut),
        start >= cut,
    ensures
        alike(x, x.from(a, w, cut), a, w, start),
{
    let rest: Record = x.from(a, w, cut);
    let (px, pr): (Seq<PricePoint>, Seq<PricePoint>) = (series(x.books, x.batches), series(rest.books, rest.batches));
    let (tx, tr): (Seq<u64>, Seq<u64>) = (message_times(x.messages), message_times(rest.messages));
    let in_messages = in_interval(message_moment(), a, w, start);
    let in_trades = in_interval(trade_moment(), a, w, start);
    let in_batches = in_interval(batch_moment(), a, w, start);
    let in_books = in_interval(book_moment(), a, w, start);
    lemma_filter_twice(x.messages, message_kept(a, w, cut), in_messages);
    lemma_filter_twice(x.trades, trade_kept(a, w, cut), in_trades);
    lemma_filter_twice(x.batches, batch_kept(a, w, cut), in_batches);
    lemma_filter_twice(x.books, book_kept(a, w, cut), in_books);
    lemma_fates_late(x, a, w, cut, start);
    lemma_points_late(x, a, w, cut, start);
    assert forall|t: TradeEvent| #[trigger] x.trades.filter(in_trades).contains(t) implies markout(x.messages, px, t)
        == markout(rest.messages, pr, t) by {
        let j: int = lemma_filter_member(x.trades, in_trades, t);
        assert(trade_kept(a, w, cut)(x.trades[j]));
        assert forall|i: int|
            0 <= i < x.messages.len() && !message_kept(a, w, cut)(#[trigger] x.messages[i]) && x.messages[i].accepted implies x.messages[i].oid
            != t.trade.buy_order_id && x.messages[i].oid != t.trade.sell_order_id by {
            assert(!of_order(x.trades[j], x.messages[i].oid));
        }
        lemma_opening_kept(x.messages, t.trade.buy_order_id, message_kept(a, w, cut));
        lemma_opening_kept(x.messages, t.trade.sell_order_id, message_kept(a, w, cut));
        lemma_lookup_late(x, a, w, cut, t.trade.ts as int, 1_000_000_000);
        lemma_lookup_late(x, a, w, cut, t.trade.ts as int, 5_000_000_000);
        lemma_lookup_late(x, a, w, cut, t.trade.ts as int, 30_000_000_000);
    }
    assert forall|b: BatchClearedEvent| #[trigger] x.batches.filter(in_batches).contains(b) implies window_part(tx)(b)
        == window_part(tr)(b) && boundary_part(tx)(b) == boundary_part(tr)(b) by {
        let j: int = lemma_filter_member(x.batches, in_batches, b);
        if window(b) > 0 {
            assert(batch_kept(a, w, cut)(x.batches[j]));
            assert forall|i: int| 0 <= i < x.messages.len() && !message_kept(a, w, cut)(#[trigger] x.messages[i]) implies x.messages[i].ts
                < b.batch_open_ts by {
                assert(x.messages[i].ts < x.batches[j].batch_open_ts);
            }
            lemma_arrivals_kept(x.messages, message_kept(a, w, cut), b.batch_open_ts as int, b.ts as int);
            lemma_arrivals_kept(x.messages, message_kept(a, w, cut), b.ts - window(b) / 10, b.ts as int);
        }
    }
}

proof fn lemma_points_late(x: Record, a: int, w: int, cut: int, start: int)
    requires
        w > 0,
        start >= cut,
    ensures
        points_in(series(x.from(a, w, cut).books, x.from(a, w, cut).batches), a, w, start) == points_in(
            series(x.books, x.batches),
            a,
            w,
            start,
        ),
{
    let p = in_interval(point_moment(), a, w, start);
    lemma_series_kept(x.books, x.batches, a, w, cut);
    lemma_filter_twice(series(x.books, x.batches), point_kept(a, w, cut), p);
    lemma_points_by_filter(series(x.books, x.batches), a, w, start);
    lemma_points_by_filter(series(x.from(a, w, cut).books, x.from(a, w, cut).batches), a, w, start);
}

proof fn lemma_lookup_late(x: Record, a: int, w: int, cut: int, ts: int, delay: int)
    requires
        w > 0,
        bucket(ts, a, w) >= cut,
        delay >= 0,
    ensures
        price_from(series(x.from(a, w, cut).books, x.from(a, w, cut).batches), ts + delay) == price_from(
            series(x.books, x.batches),
            ts + delay,
        ),
{
    law_buckets_follow_time(ts, ts + delay, a, w);
    lemma_series_kept(x.books, x.batches, a, w, cut);
    lemma_price_from_tail(x.books, x.batches, a, w, cut, ts + delay);
}

proof fn lemma_close_early(x: Record, more: Record, a: int, w: int, cut: int, lo: int, k: int, carried: Option<RefPrice>)
    requires
        w > 0,
        more.all_after(a, w, cut),
        k > 0 ==> row_start(lo, k - 1, w) < cut,
    ensures
        close_before(series(x.and(more).books, x.and(more).batches), a, w, lo, k, carried) == close_before(
            series(x.books, x.batches),
            a,
            w,
            lo,
            k,
            carried,
        ),
    decreases k,
{
    if k > 0 {
        let start: int = row_start(lo, k - 1, w);
        lemma_points_early(x, more, a, w, cut, start);
        assert(row_start(lo, k - 2, w) < start) by (nonlinear_arith)
            requires
                start == lo + (k - 1) * w,
                w > 0,
        ;
        lemma_close_early(x, more, a, w, cut, lo, k - 1, carried);
    }
}

proof fn lemma_close_late(x: Record, a: int, w: int, cut: int, lo: int, k: int, carried: Option<RefPrice>)
    requires
        w > 0,
        lo >= cut,
    ensures
        close_before(series(x.from(a, w, cut).books, x.from(a, w, cut).batches), a, w, lo, k, carried) == close_before(
            series(x.books, x.batches),
            a,
            w,
            lo,
            k,
            carried,
        ),
    decreases k,
{
    if k > 0 {
        let start: int = row_start(lo, k - 1, w);
        assert(start >= lo) by (nonlinear_arith)
            requires
                start == lo + (k - 1) * w,
                k > 0,
                w > 0,
        ;
        lemma_points_late(x, a, w, cut, start);
        lemma_close_late(x, a, w, cut, lo, k - 1, carried);
    }
}

proof fn lemma_placed_added(early: Seq<u64>, late: Seq<u64>, a: int, w: int, start: int)
    requires
        forall|i: int| 0 <= i < late.len() ==> bucket(#[trigger] late[i] as int, a, w) != start,
    ensures
        placed(early + late, a, w, start) == placed(early, a, w, start),
    decreases late.len(),
{
    if late.len() == 0 {
        assert(early + late =~= early);
    } else {
        assert((early + late).drop_last() =~= early + late.drop_last());
        assert forall|i: int| 0 <= i < late.drop_last().len() implies bucket(#[trigger] late.drop_last()[i] as int, a, w)
            != start by {
            assert(bucket(late[i] as int, a, w) != start);
        }
        lemma_placed_added(early, late.drop_last(), a, w, start);
        assert(bucket(late[late.len() - 1] as int, a, w) != start);
    }
}

/// Leaving out moments before an interval moves its positions forward.
proof fn lemma_placed_skipped(times: Seq<u64>, m: int, a: int, w: int, start: int)
    requires
        0 <= m <= times.len(),
        forall|i: int| 0 <= i < m ==> bucket(#[trigger] times[i] as int, a, w) != start,
    ensures
        placed(times, a, w, start).len() == placed(times.skip(m), a, w, start).len(),
        forall|i: int|
            0 <= i < placed(times, a, w, start).len() ==> #[trigger] placed(times, a, w, start)[i] == m + placed(
                times.skip(m),
                a,
                w,
                start,
            )[i],
    decreases times.len(),
{
    if times.len() > m {
        let short: Seq<u64> = times.drop_last();
        assert forall|i: int| 0 <= i < m implies bucket(#[trigger] short[i] as int, a, w) != start by {
            assert(bucket(times[i] as int, a, w) != start);
        }
        lemma_placed_skipped(short, m, a, w, start);
        assert(times.skip(m).drop_last() =~= short.skip(m));
        assert(times.skip(m).last() == times.last());
    } else {
        assert(times.skip(m) =~= Seq::<u64>::empty());
        lemma_placed_added(Seq::empty(), times, a, w, start);
        assert(Seq::<u64>::empty() + times =~= times);
    }
}

proof fn lemma_prior_early(
    early: Seq<BatchClearedEvent>,
    late: Seq<BatchClearedEvent>,
    a: int,
    w: int,
    start: int,
    end1: int,
    end2: int,
    carried: Option<u128>,
)
    requires
        w > 0,
        in_time_order(early + late),
        forall|i: int| 0 <= i < late.len() ==> bucket((#[trigger] late[i]).ts as int, a, w) != start,
        start < end1 <= end2,
    ensures
        prior_clearings(early + late, a, w, start, end2, carried) == prior_clearings(early, a, w, start, end1, carried),
{
    let all: Seq<BatchClearedEvent> = early + late;
    assert(batch_times(all) =~= batch_times(early) + batch_times(late));
    lemma_placed_added(batch_times(early), batch_times(late), a, w, start);
    let at: Seq<int> = placed(batch_times(early), a, w, start);
    lemma_placed(batch_times(early), a, w, start);
    assert forall|i: int| 0 <= i < at.len() implies clearing_before(all.take(#[trigger] at[i]), a, w, end2, carried)
        == clearing_before(early.take(at[i]), a, w, end1, carried) by {
        let p: int = at[i];
        assert(0 <= p < early.len() && bucket(early[p].ts as int, a, w) == start);
        let head: Seq<BatchClearedEvent> = early.take(p);
        assert(all.take(p) =~= head);
        assert forall|j: int| 0 <= j < head.len() implies bucket((#[trigger] head[j]).ts as int, a, w) < end1 by {
            assert(all[j].ts <= all[p].ts);
            law_buckets_follow_time(all[j].ts as int, all[p].ts as int, a, w);
        }
        lemma_clearing_end(head, a, w, end1, end2, carried);
    }
    assert(prior_clearings(all, a, w, start, end2, carried) =~= prior_clearings(early, a, w, start, end1, carried));
}

proof fn lemma_clearing_chained(
    u: Seq<BatchClearedEvent>,
    v: Seq<BatchClearedEvent>,
    a: int,
    w: int,
    end: int,
    carried: Option<u128>,
)
    ensures
        clearing_before(u + v, a, w, end, carried) == clearing_before(
            v,
            a,
            w,
            end,
            clearing_before(u, a, w, end, carried),
        ),
    decreases v.len(),
{
    if v.len() == 0 {
        assert(u + v =~= u);
    } else {
        assert((u + v).drop_last() =~= u + v.drop_last());
        lemma_clearing_chained(u, v.drop_last(), a, w, end, carried);
    }
}

/// Of batches in order of time, those after a cut are a tail.
proof fn lemma_batches_kept(batches: Seq<BatchClearedEvent>, a: int, w: int, cut: int) -> (m: int)
    requires
        w > 0,
        in_time_order(batches),
    ensures
        0 <= m <= batches.len(),
        forall|i: int| 0 <= i < m ==> bucket((#[trigger] batches[i]).ts as int, a, w) < cut,
        forall|i: int| m <= i < batches.len() ==> bucket((#[trigger] batches[i]).ts as int, a, w) >= cut,
        batches.filter(batch_kept(a, w, cut)) == batches.skip(m),
    decreases batches.len(),
{
    reveal(Seq::filter);
    let p = batch_kept(a, w, cut);
    if batches.len() == 0 {
        assert(batches.filter(p) =~= batches.skip(0));
        0
    } else {
        let short: Seq<BatchClearedEvent> = batches.drop_last();
        assert(in_time_order(short)) by {
            assert forall|i: int, j: int| 0 <= i <= j < short.len() implies (#[trigger] short[i]).ts <= (
            #[trigger] short[j]).ts by {
                assert(batches[i].ts <= batches[j].ts);
            }
        }
        let m: int = lemma_batches_kept(short, a, w, cut);
        let last: int = batches.len() - 1;
        if p(batches.last()) {
            assert(batches.skip(m) =~= short.skip(m).push(batches.last()));
            assert forall|i: int| 0 <= i < m implies bucket((#[trigger] batches[i]).ts as int, a, w) < cut by {
                assert(short[i] == batches[i]);
            }
            assert forall|i: int| m <= i < batches.len() implies bucket((#[trigger] batches[i]).ts as int, a, w) >= cut by {
                if i < last {
                    assert(short[i] == batches[i]);
                }
            }
            m
        } else {
            assert forall|i: int| 0 <= i < batches.len() implies bucket((#[trigger] batches[i]).ts as int, a, w) < cut by {
                assert(batches[i].ts <= batches[last].ts);
                law_buckets_follow_time(batches[i].ts as int, batches[last].ts as int, a, w);
            }
            assert(m == short.len()) by {
                if m < short.len() {
                    assert(short[m] == batches[m]);
                }
            }
            assert(batches.filter(p) =~= batches.skip(batches.len() as int));
            batches.len() as int
        }
    }
}

proof fn lemma_prior_late(
    batches: Seq<BatchClearedEvent>,
    a: int,
    w: int,
    cut: int,
    start: int,
    end: int,
    carried: Option<u128>,
    carry: Option<u128>,
)
    requires
        w > 0,
        in_time_order(batches),
        cut <= start < end,
        carry == clearing_before(batches, a, w, cut, carried),
    ensures
        prior_clearings(batches.filter(batch_kept(a, w, cut)), a, w, start, end, carry) == prior_clearings(
            batches,
            a,
            w,
            start,
            end,
            carried,
        ),
{
    let m: int = lemma_batches_kept(batches, a, w, cut);
    let kept: Seq<BatchClearedEvent> = batches.skip(m);
    let times: Seq<u64> = batch_times(batches);
    assert forall|i: int| 0 <= i < m implies bucket(#[trigger] times[i] as int, a, w) != start by {
        assert(bucket(batches[i].ts as int, a, w) < cut);
    }
    lemma_placed_skipped(times, m, a, w, start);
    assert(times.skip(m) =~= batch_times(kept));
    let at: Seq<int> = placed(times, a, w, start);
    let at_kept: Seq<int> = placed(batch_times(kept), a, w, start);
    lemma_placed(times, a, w, start);
    lemma_placed(batch_times(kept), a, w, start);
    let head: Seq<BatchClearedEvent> = batches.take(m);
    lemma_clearing_prefix(batches, m, a, w, cut, carried);
    assert forall|j: int| 0 <= j < head.len() implies bucket((#[trigger] head[j]).ts as int, a, w) < cut by {
        assert(bucket(batches[j].ts as int, a, w) < cut);
    }
    lemma_clearing_end(head, a, w, cut, end, carried);
    assert forall|i: int| 0 <= i < at.len() implies clearing_before(kept.take(at_kept[i]), a, w, end, carry)
        == clearing_before(batches.take(#[trigger] at[i]), a, w, end, carried) by {
        assert(at[i] == m + at_kept[i]);
        assert(0 <= at_kept[i] < batch_times(kept).len());
        assert(batches.take(at[i]) =~= head + kept.take(at_kept[i]));
        lemma_clearing_chained(head, kept.take(at_kept[i]), a, w, end, carried);
    }
    assert(prior_clearings(kept, a, w, start, end, carry) =~= prior_clearings(batches, a, w, start, end, carried));
}

/// After these trades have been recorded.
pub open spec fn with_trades(s: RecorderState, trades: Seq<TradeEvent>) -> RecorderState
    decreases trades.len(),
{
    if trades.len() == 0 {
        s
    } else {
        with_trades(s, trades.drop_last()).with_trade(trades.last())
    }
}

/// After these batches have been recorded.
pub open spec fn with_batches(s: RecorderState, batches: Seq<BatchClearedEvent>) -> RecorderState
    decreases batches.len(),
{
    if batches.len() == 0 {
        s
    } else {
        with_batches(s, batches.drop_last()).with_batch(batches.last())
    }
}

/// After these books have been recorded.
pub open spec fn with_books(s: RecorderState, books: Seq<BookSnapshot>) -> RecorderState
    decreases books.len(),
{
    if books.len() == 0 {
        s
    } else {
        with_books(s, books.drop_last()).with_book(books.last())
    }
}

/// After these events have been recorded.
pub open spec fn recorded(s: RecorderState, more: Record) -> RecorderState {
    with_books(with_batches(with_trades(s, more.trades), more.batches), more.books)
}

/// What a recorder and these messages tell rows from.
pub open spec fn record_of(s: RecorderState, messages: Seq<OrderMessage>) -> Record {
    Record { messages, trades: s.trades, batches: s.batches, books: s.books }
}

proof fn lemma_with_trades(s: RecorderState, trades: Seq<TradeEvent>)
    requires
        s.anchor is Some,
        forall|i: int| 0 <= i < trades.len() ==> trade_kept(s.anchor->0, s.width, s.emitted)(#[trigger] trades[i]),
    ensures
        with_trades(s, trades) == (RecorderState { trades: s.trades + trades, ..s }),
    decreases trades.len(),
{
    if trades.len() == 0 {
        assert(s.trades + trades =~= s.trades);
    } else {
        assert forall|i: int| 0 <= i < trades.drop_last().len() implies trade_kept(s.anchor->0, s.width, s.emitted)(
            #[trigger] trades.drop_last()[i],
        ) by {
            assert(trade_kept(s.anchor->0, s.width, s.emitted)(trades[i]));
        }
        lemma_with_trades(s, trades.drop_last());
        assert(trade_kept(s.anchor->0, s.width, s.emitted)(trades[trades.len() - 1]));
        assert((s.trades + trades.drop_last()).push(trades.last()) =~= s.trades + trades);
    }
}

proof fn lemma_with_batches(s: RecorderState, batches: Seq<BatchClearedEvent>)
    requires
        s.anchor is Some,
        forall|i: int| 0 <= i < batches.len() ==> batch_kept(s.anchor->0, s.width, s.emitted)(#[trigger] batches[i]),
    ensures
        with_batches(s, batches) == (RecorderState { batches: s.batches + batches, ..s }),
    decreases batches.len(),
{
    if batches.len() == 0 {
        assert(s.batches + batches =~= s.batches);
    } else {
        assert forall|i: int| 0 <= i < batches.drop_last().len() implies batch_kept(s.anchor->0, s.width, s.emitted)(
            #[trigger] batches.drop_last()[i],
        ) by {
            assert(batch_kept(s.anchor->0, s.width, s.emitted)(batches[i]));
        }
        lemma_with_batches(s, batches.drop_last());
        assert(batch_kept(s.anchor->0, s.width, s.emitted)(batches[batches.len() - 1]));
        assert((s.batches + batches.drop_last()).push(batches.last()) =~= s.batches + batches);
    }
}

proof fn lemma_with_books(s: RecorderState, books: Seq<BookSnapshot>)
    requires
        s.anchor is Some,
        forall|i: int| 0 <= i < books.len() ==> book_kept(s.anchor->0, s.width, s.emitted)(#[trigger] books[i]),
    ensures
        with_books(s, books) == (RecorderState { books: s.books + books, ..s }),
    decreases books.len(),
{
    if books.len() == 0 {
        assert(s.books + books =~= s.books);
    } else {
        assert forall|i: int| 0 <= i < books.drop_last().len() implies book_kept(s.anchor->0, s.width, s.emitted)(
            #[trigger] books.drop_last()[i],
        ) by {
            assert(book_kept(s.anchor->0, s.width, s.emitted)(books[i]));
        }
        lemma_with_books(s, books.drop_last());
        assert(book_kept(s.anchor->0, s.width, s.emitted)(books[books.len() - 1]));
        assert((s.books + books.drop_last()).push(books.last()) =~= s.books + books);
    }
}

/// Events that do not come too late are all kept.
proof fn lemma_recorded(s: RecorderState, more: Record, cut: int)
    requires
        s.anchor is Some,
        s.emitted <= cut,
        more.all_after(s.anchor->0, s.width, cut),
    ensures
        recorded(s, more) == (RecorderState {
            trades: s.trades + more.trades,
            batches: s.batches + more.batches,
            books: s.books + more.books,
            ..s
        }),
{
    let (a, w): (int, int) = (s.anchor->0, s.width);
    assert forall|i: int| 0 <= i < more.trades.len() implies trade_kept(a, w, s.emitted)(#[trigger] more.trades[i]) by {
        assert(trade_kept(a, w, cut)(more.trades[i]));
    }
    lemma_with_trades(s, more.trades);
    let s1: RecorderState = with_trades(s, more.trades);
    assert forall|i: int| 0 <= i < more.batches.len() implies batch_kept(a, w, s.emitted)(#[trigger] more.batches[i]) by {
        assert(batch_kept(a, w, cut)(more.batches[i]));
    }
    lemma_with_batches(s1, more.batches);
    let s2: RecorderState = with_batches(s1, more.batches);
    assert forall|i: int| 0 <= i < more.books.len() implies book_kept(a, w, s.emitted)(#[trigger] more.books[i]) by {
        assert(book_kept(a, w, cut)(more.books[i]));
    }
    lemma_with_books(s2, more.books);
}

/// Leaving out what is before a cut, and recording what is after it, gives
/// what is after the cut of everything.
proof fn lemma_kept_and_more(x: Record, more: Record, a: int, w: int, cut: int)
    requires
        more.all_after(a, w, cut),
    ensures
        x.from(a, w, cut).and(more) == x.and(more).from(a, w, cut),
{
    Seq::filter_distributes_over_add(x.messages, more.messages, message_kept(a, w, cut));
    lemma_filter_all(more.messages, message_kept(a, w, cut));
    Seq::filter_distributes_over_add(x.trades, more.trades, trade_kept(a, w, cut));
    lemma_filter_all(more.trades, trade_kept(a, w, cut));
    Seq::filter_distributes_over_add(x.batches, more.batches, batch_kept(a, w, cut));
    lemma_filter_all(more.batches, batch_kept(a, w, cut));
    Seq::filter_distributes_over_add(x.books, more.books, book_kept(a, w, cut));
    lemma_filter_all(more.books, book_kept(a, w, cut));
}

/// What is recorded after rows have been handed out: nothing for those rows,
/// and no order, window or look-up that reaches over the cut. Every price that
/// a settled trade is measured against was on record before `limit`, and no
/// price comes in that is older.
pub open spec fn clean_cut(x: Record, more: Record, a: int, w: int, cut: int, limit: int) -> bool {
    &&& more.all_after(a, w, cut)
    &&& in_time_order(x.and(more).batches)
    &&& x.and(more).orders_uncut(a, w, cut)
    &&& x.and(more).windows_uncut(a, w, cut)
    &&& x.answered(a, w, cut, 1_000_000_000, limit)
    &&& x.answered(a, w, cut, 5_000_000_000, limit)
    &&& x.answered(a, w, cut, 30_000_000_000, limit)
    &&& forall|j: int| 0 <= j < more.books.len() ==> (#[trigger] more.books[j]).ts >= limit
    &&& forall|j: int| 0 <= j < more.batches.len() ==> (#[trigger] more.batches[j]).ts >= limit
}

/// Handing out rows as they are settled, dropping what they settle and going
/// on recording gives the same rows as recording everything first and handing
/// them all out at the end: the same events, look-ups and carried prices in
/// every row.
pub proof fn law_flushing_changes_no_row(
    s: RecorderState,
    seen: Seq<OrderMessage>,
    more: Record,
    hi1: int,
    hi2: int,
    limit: int,
    settled: Seq<IntervalFacts>,
    rest: Seq<IntervalFacts>,
    whole: Seq<IntervalFacts>,
)
    requires
        s.width > 0,
        s.anchor is Some,
        on_grid(s.emitted, s.anchor->0, s.width),
        s.emitted < hi1 <= hi2 <= u64::MAX,
        seen.len() + more.messages.len() <= usize::MAX,
        clean_cut(record_of(s, seen), more, s.anchor->0, s.width, s.emitted_to(hi1).emitted, limit),
        s.are_rows(seen, hi1, settled),
        recorded(s.emitted_to(hi1).pruned(), more).are_rows(
            seen.filter(message_kept(s.anchor->0, s.width, s.emitted_to(hi1).emitted)) + more.messages,
            hi2,
            rest,
        ),
        recorded(s, more).are_rows(seen + more.messages, hi2, whole),
    ensures
        whole.len() == settled.len() + rest.len(),
        forall|k: int|
            0 <= k < settled.len() ==> content(
                #[trigger] whole[k],
                record_of(recorded(s, more), seen + more.messages),
            ) == content(settled[k], record_of(s, seen)),
        forall|k: int|
            0 <= k < rest.len() ==> content(
                whole[settled.len() + k],
                record_of(recorded(s, more), seen + more.messages),
            ) == content(
                #[trigger] rest[k],
                record_of(
                    recorded(s.emitted_to(hi1).pruned(), more),
                    seen.filter(message_kept(s.anchor->0, s.width, s.emitted_to(hi1).emitted)) + more.messages,
                ),
            ),
{
    let (a, w, lo): (int, int, int) = (s.anchor->0, s.width, s.emitted);
    let mid: RecorderState = s.emitted_to(hi1);
    let cut: int = mid.emitted;
    let x: Record = record_of(s, seen);
    let all: Record = x.and(more);
    let after: Record = all.from(a, w, cut);
    let n1: int = s.due(hi1);
    let n: int = rows_between(lo, hi2, w);
    let end1: int = row_start(lo, n1, w);
    lemma_rows_between(lo, hi1, w);
    lemma_rows_between(lo, hi2, w);
    lemma_rows_split(lo, hi1, hi2, w);
    assert(row_start(lo, 0, w) < hi1);
    assert(n1 > 0);
    assert(row_start(lo, n1 - 1, w) < hi1);
    assert(row_start(lo, n1 - 1, w) < end1 && lo < end1) by (nonlinear_arith)
        requires
            row_start(lo, n1 - 1, w) == lo + (n1 - 1) * w,
            end1 == lo + n1 * w,
            w > 0,
            n1 > 0,
    ;
    assert(lo <= cut && row_start(lo, n1 - 1, w) < cut);
    lemma_recorded(s, more, cut);
    lemma_recorded(mid.pruned(), more, cut);
    lemma_kept_and_more(x, more, a, w, cut);
    assert(record_of(recorded(s, more), seen + more.messages) == all);
    assert(record_of(
        recorded(mid.pruned(), more),
        seen.filter(message_kept(a, w, cut)) + more.messages,
    ) == after);
    lemma_filter_len(seen, message_kept(a, w, cut));
    assert forall|k: int| 0 <= k < n1 implies content(#[trigger] whole[k], all) == content(settled[k], x) by {
        lemma_settled_row(x, more, a, w, cut, limit, lo, n1, n, s.carry, k, settled[k], whole[k]);
    }
    let n2: int = recorded(mid.pruned(), more).due(hi2);
    lemma_rows_between(end1, hi2, w);
    if end1 > u64::MAX {
        assert(rows_between(end1, hi2, w) == 0);
        assert(n2 == 0);
    } else {
        assert(cut == end1);
        assert(n == n1 + n2);
        assert forall|k: int| 0 <= k < rest.len() implies content(whole[n1 + k], all) == content(
            #[trigger] rest[k],
            after,
        ) by {
            lemma_later_row(x, more, a, w, limit, lo, n1, n2, s.carry, mid.carry, k, rest[k], whole[n1 + k]);
        }
    }
}

proof fn lemma_settled_row(
    x: Record,
    more: Record,
    a: int,
    w: int,
    cut: int,
    limit: int,
    lo: int,
    n1: int,
    n: int,
    carry: Carry,
    k: int,
    settled: IntervalFacts,
    whole: IntervalFacts,
)
    requires
        w > 0,
        0 <= k < n1 <= n,
        row_start(lo, n1 - 1, w) < cut,
        clean_cut(x, more, a, w, cut, limit),
        x.messages.len() + more.messages.len() <= usize::MAX,
        row_holds(settled, x.messages, x.trades, x.batches, x.books, a, w, lo, n1, carry, k),
        row_holds(
            whole,
            x.and(more).messages,
            x.and(more).trades,
            x.and(more).batches,
            x.and(more).books,
            a,
            w,
            lo,
            n,
            carry,
            k,
        ),
    ensures
        content(whole, x.and(more)) == content(settled, x),
{
    let all: Record = x.and(more);
    let start: int = row_start(lo, k, w);
    let (end1, end): (int, int) = (row_start(lo, n1, w), row_start(lo, n, w));
    assert(start <= row_start(lo, n1 - 1, w) && start < end1 <= end && row_start(lo, k - 1, w) < start) by (nonlinear_arith)
        requires
            start == lo + k * w,
            end1 == lo + n1 * w,
            end == lo + n * w,
            row_start(lo, n1 - 1, w) == lo + (n1 - 1) * w,
            row_start(lo, k - 1, w) == lo + (k - 1) * w,
            0 <= k < n1 <= n,
            w > 0,
    ;
    lemma_alike_early(x, more, a, w, cut, limit, start);
    lemma_close_early(x, more, a, w, cut, lo, k, carry.prev_close);
    assert forall|i: int| 0 <= i < more.batches.len() implies bucket((#[trigger] more.batches[i]).ts as int, a, w) != start by {
        assert(batch_kept(a, w, cut)(more.batches[i]));
    }
    lemma_prior_early(x.batches, more.batches, a, w, start, end1, end, carry.prev_clearing);
    lemma_same_row(all, x, a, w, whole, lo, n, carry, k, settled, lo, n1, carry, k);
}

proof fn lemma_later_row(
    x: Record,
    more: Record,
    a: int,
    w: int,
    limit: int,
    lo: int,
    n1: int,
    n2: int,
    carry: Carry,
    carried: Carry,
    k: int,
    rest: IntervalFacts,
    whole: IntervalFacts,
)
    requires
        w > 0,
        0 < n1,
        0 <= k < n2,
        clean_cut(x, more, a, w, row_start(lo, n1, w), limit),
        x.messages.len() + more.messages.len() <= usize::MAX,
        carried.prev_close == close_before(series(x.books, x.batches), a, w, lo, n1, carry.prev_close),
        carried.prev_clearing == clearing_before(x.batches, a, w, row_start(lo, n1, w), carry.prev_clearing),
        ({
            let after = x.and(more).from(a, w, row_start(lo, n1, w));
            row_holds(
                rest,
                after.messages,
                after.trades,
                after.batches,
                after.books,
                a,
                w,
                row_start(lo, n1, w),
                n2,
                carried,
                k,
            )
        }),
        row_holds(
            whole,
            x.and(more).messages,
            x.and(more).trades,
            x.and(more).batches,
            x.and(more).books,
            a,
            w,
            lo,
            n1 + n2,
            carry,
            n1 + k,
        ),
    ensures
        content(whole, x.and(more)) == content(rest, x.and(more).from(a, w, row_start(lo, n1, w))),
{
    let all: Record = x.and(more);
    let cut: int = row_start(lo, n1, w);
    let after: Record = all.from(a, w, cut);
    let start: int = row_start(cut, k, w);
    let end: int = row_start(cut, n2, w);
    assert(start == row_start(lo, n1 + k, w) && end == row_start(lo, n1 + n2, w) && cut <= start < end && row_start(
        lo,
        n1 - 1,
        w,
    ) < cut) by (nonlinear_arith)
        requires
            cut == lo + n1 * w,
            start == cut + k * w,
            end == cut + n2 * w,
            row_start(lo, n1 + k, w) == lo + (n1 + k) * w,
            row_start(lo, n1 + n2, w) == lo + (n1 + n2) * w,
            row_start(lo, n1 - 1, w) == lo + (n1 - 1) * w,
            0 <= k < n2,
            w > 0,
    ;
    lemma_alike_late(all, a, w, cut, start);
    lemma_close_early(x, more, a, w, cut, lo, n1, carry.prev_close);
    lemma_close_late(all, a, w, cut, cut, k, carried.prev_close);
    lemma_close_carried(series(all.books, all.batches), a, w, lo, n1, k, carry.prev_close);
    assert forall|j: int| x.batches.len() <= j < all.batches.len() implies bucket(
        (#[trigger] all.batches[j]).ts as int,
        a,
        w,
    ) >= cut by {
        assert(batch_kept(a, w, cut)(more.batches[j - x.batches.len()]));
    }
    lemma_clearing_prefix(all.batches, x.batches.len() as int, a, w, cut, carry.prev_clearing);
    assert(all.batches.take(x.batches.len() as int) =~= x.batches);
    lemma_prior_late(all.batches, a, w, cut, start, end, carry.prev_clearing, carried.prev_clearing);
    lemma_filter_len(all.messages, message_kept(a, w, cut));
    lemma_same_row(all, after, a, w, whole, lo, n1 + n2, carry, n1 + k, rest, cut, n2, carried, k);
}

} // verus!
