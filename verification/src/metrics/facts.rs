//! What a row of the metric time series is computed from: for each interval,
//! the events in it and the prices, orders and counts that belong to them.

use vstd::prelude::*;
use crate::metrics::arrivals::{arrivals, Arrivals};
use crate::metrics::events::{BatchClearedEvent, BookSnapshot, OrderMessage, TradeEvent};
use crate::metrics::grid::{bucket, bucket_of, lemma_placed, on_grid, placed, positions_by_row, row_start};
use crate::metrics::orders::{lemma_openings, limit_of, openings, outcome, outcomes, OrderBookkeeping, OrderState};
use crate::metrics::series::{by_ts, price_at_or_after, price_from, price_series, series, PricePoint, RefPrice};
use crate::seqs::{lemma_total_nonneg, lemma_total_take, saturated, total};
use crate::sorting::{ascends_by, lemma_sorted_by, pick, positions, sort_positions, sorted_by};

verus! {

/// Nanoseconds in a second.
pub const NS_PER_SEC: u128 = 1_000_000_000;

/// What was recorded of one engine, in the order of recording.
#[derive(Debug)]
pub struct EventLog {
    pub trades: Vec<TradeEvent>,
    pub batches: Vec<BatchClearedEvent>,
    pub books: Vec<BookSnapshot>,
}

/// What one row needs to know of the rows before it.
#[derive(Clone, Copy, Debug, PartialEq, Eq, Structural)]
pub struct Carry {
    /// The last reference price of the last interval that had one.
    pub prev_close: Option<RefPrice>,
    /// The price of the last batch that had one.
    pub prev_clearing: Option<u128>,
}

impl Default for Carry {
    fn default() -> (r: Self)
        ensures
            r == (Carry { prev_close: None, prev_clearing: None }),
    {
        Carry { prev_close: None, prev_clearing: None }
    }
}

/// The limits of the two orders of a trade, and the first reference prices
/// one, five and thirty seconds after it.
#[derive(Clone, Copy, Debug, PartialEq, Eq, Structural)]
pub struct Markout {
    pub buy_limit: Option<u128>,
    pub sell_limit: Option<u128>,
    pub after_1s: Option<RefPrice>,
    pub after_5s: Option<RefPrice>,
    pub after_30s: Option<RefPrice>,
}

/// The trades that one incoming order caused, and the first reference price
/// five seconds later.
#[derive(Debug)]
pub struct FlowSweep {
    pub trades: Vec<usize>,
    pub after: Option<RefPrice>,
}

/// What one row is computed from. Events are given by their positions in the
/// log, orders by their position among the outcomes.
#[derive(Debug)]
pub struct IntervalFacts {
    pub start: u64,
    pub messages: usize,
    pub trades: Vec<usize>,
    /// For each of `trades`.
    pub markouts: Vec<Markout>,
    pub sweeps: Vec<FlowSweep>,
    /// The reference prices, in order of time.
    pub points: Vec<RefPrice>,
    pub prev_close: Option<RefPrice>,
    pub batches: Vec<usize>,
    /// For each of `batches`: the price of the last priced batch before it.
    pub prior_clearing: Vec<Option<u128>>,
    pub books: Vec<usize>,
    pub orders: Vec<usize>,
    /// The `orders`, one group for each user.
    pub users: Vec<Vec<usize>>,
    /// Arrivals in the windows of `batches`, all and those in the last tenth.
    pub window_messages: u128,
    pub boundary_messages: u128,
    /// What the engine took for the events of this interval.
    pub compute_nanos: u128,
}

pub open spec fn message_times(messages: Seq<OrderMessage>) -> Seq<u64> {
    Seq::new(messages.len(), |i: int| messages[i].ts)
}

pub open spec fn trade_times(trades: Seq<TradeEvent>) -> Seq<u64> {
    Seq::new(trades.len(), |i: int| trades[i].trade.ts)
}

pub open spec fn batch_times(batches: Seq<BatchClearedEvent>) -> Seq<u64> {
    Seq::new(batches.len(), |i: int| batches[i].ts)
}

pub open spec fn book_times(books: Seq<BookSnapshot>) -> Seq<u64> {
    Seq::new(books.len(), |i: int| books[i].ts)
}

pub open spec fn point_times(points: Seq<PricePoint>) -> Seq<u64> {
    Seq::new(points.len(), |i: int| points[i].ts)
}

/// When the orders were opened.
pub open spec fn opening_times(messages: Seq<OrderMessage>, states: Seq<OrderState>) -> Seq<u64> {
    Seq::new(states.len(), |i: int| messages[states[i].message as int].ts)
}

/// What is looked up for one trade.
pub open spec fn markout(messages: Seq<OrderMessage>, prices: Seq<PricePoint>, t: TradeEvent) -> Markout {
    Markout {
        buy_limit: limit_of(messages, t.trade.buy_order_id),
        sell_limit: limit_of(messages, t.trade.sell_order_id),
        after_1s: price_from(prices, t.trade.ts + 1_000_000_000),
        after_5s: price_from(prices, t.trade.ts + 5_000_000_000),
        after_30s: price_from(prices, t.trade.ts + 30_000_000_000),
    }
}

/// Trades with a side that caused them and a reference price to measure
/// against.
pub open spec fn has_direction(t: TradeEvent) -> bool {
    t.aggressor_side is Some && t.reference_price is Some && t.reference_price->0 > 0
}

pub open spec fn directed_in(trades: Seq<TradeEvent>) -> spec_fn(int) -> bool {
    |i: int| has_direction(trades[i])
}

pub open spec fn time_in(trades: Seq<TradeEvent>) -> spec_fn(int) -> int {
    |i: int| trades[i].trade.ts as int
}

/// A list cut where the key changes.
pub open spec fn runs<T>(s: Seq<T>, key: spec_fn(T) -> int) -> Seq<Seq<T>>
    decreases s.len(),
{
    if s.len() == 0 {
        Seq::empty()
    } else {
        let earlier = runs(s.drop_last(), key);
        if s.len() > 1 && key(s[s.len() - 2]) == key(s.last()) {
            earlier.update(earlier.len() - 1, earlier.last().push(s.last()))
        } else {
            earlier.push(seq![s.last()])
        }
    }
}

/// The sweeps among the trades at these positions: all with a direction that
/// happened at the same moment, in order of time.
pub open spec fn sweeps_among(trades: Seq<TradeEvent>, at: Seq<int>) -> Seq<Seq<int>> {
    runs(sorted_by(at.filter(directed_in(trades)), time_in(trades)), time_in(trades))
}

/// A list grouped by name, in the order in which the names first occur.
pub open spec fn grouped<T>(s: Seq<T>, name: spec_fn(T) -> Seq<char>) -> Seq<Seq<T>>
    decreases s.len(),
{
    if s.len() == 0 {
        Seq::empty()
    } else {
        let earlier = grouped(s.drop_last(), name);
        let k = group_named(earlier, name, name(s.last()));
        if k < earlier.len() {
            earlier.update(k, earlier[k].push(s.last()))
        } else {
            earlier.push(seq![s.last()])
        }
    }
}

/// The first group whose members have this name, or the number of groups.
pub open spec fn group_named<T>(groups: Seq<Seq<T>>, name: spec_fn(T) -> Seq<char>, wanted: Seq<char>) -> int
    decreases groups.len(),
{
    if groups.len() == 0 {
        0
    } else if name(groups[0][0]) == wanted {
        0
    } else {
        1 + group_named(groups.drop_first(), name, wanted)
    }
}

pub open spec fn user_in(messages: Seq<OrderMessage>, states: Seq<OrderState>) -> spec_fn(int) -> Seq<char> {
    |k: int| messages[states[k].message as int].user_id@
}

/// The price of the last priced batch among those of intervals before `end`,
/// or else the one carried in.
pub open spec fn clearing_before(
    batches: Seq<BatchClearedEvent>,
    anchor: int,
    width: int,
    end: int,
    carried: Option<u128>,
) -> Option<u128>
    decreases batches.len(),
{
    if batches.len() == 0 {
        carried
    } else if bucket(batches.last().ts as int, anchor, width) < end && batches.last().clearing_price is Some {
        batches.last().clearing_price
    } else {
        clearing_before(batches.drop_last(), anchor, width, end, carried)
    }
}

/// The window of a batch, if it has any length.
pub open spec fn window(b: BatchClearedEvent) -> int {
    if b.ts > b.batch_open_ts {
        b.ts - b.batch_open_ts
    } else {
        0
    }
}

/// Arrivals in the window of a batch.
pub open spec fn window_part(times: Seq<u64>) -> spec_fn(BatchClearedEvent) -> int {
    |b: BatchClearedEvent|
        if window(b) == 0 {
            0
        } else {
            arrivals(times, b.batch_open_ts as int, b.ts as int)
        }
}

/// Arrivals in the last tenth of the window of a batch.
pub open spec fn boundary_part(times: Seq<u64>) -> spec_fn(BatchClearedEvent) -> int {
    |b: BatchClearedEvent|
        if window(b) == 0 {
            0
        } else {
            arrivals(times, b.ts - window(b) / 10, b.ts as int)
        }
}

pub open spec fn book_nanos() -> spec_fn(BookSnapshot) -> int {
    |s: BookSnapshot| s.compute_nanos as int
}

pub open spec fn batch_nanos() -> spec_fn(BatchClearedEvent) -> int {
    |b: BatchClearedEvent| b.compute_nanos as int
}

/// The reference prices of the interval that starts at `start`.
pub open spec fn points_in(prices: Seq<PricePoint>, anchor: int, width: int, start: int) -> Seq<RefPrice> {
    let at = placed(point_times(prices), anchor, width, start);
    Seq::new(at.len(), |i: int| prices[at[i]].price)
}

/// The last reference price before interval number `k`.
pub open spec fn close_before(
    prices: Seq<PricePoint>,
    anchor: int,
    width: int,
    lo: int,
    k: int,
    carried: Option<RefPrice>,
) -> Option<RefPrice>
    decreases k,
{
    if k <= 0 {
        carried
    } else {
        let points = points_in(prices, anchor, width, row_start(lo, k - 1, width));
        if points.len() > 0 {
            Some(points.last())
        } else {
            close_before(prices, anchor, width, lo, k - 1, carried)
        }
    }
}

/// The trades of a row and what is looked up for them.
pub open spec fn trades_hold(
    row: IntervalFacts,
    messages: Seq<OrderMessage>,
    trades: Seq<TradeEvent>,
    prices: Seq<PricePoint>,
    at: Seq<int>,
) -> bool {
    &&& positions(row.trades@) == at
    &&& row.markouts@.len() == at.len()
    &&& forall|i: int| 0 <= i < at.len() ==> #[trigger] row.markouts@[i] == markout(messages, prices, trades[at[i]])
    &&& row.sweeps@.len() == sweeps_among(trades, at).len()
    &&& forall|j: int|
        0 <= j < row.sweeps@.len() ==> positions((#[trigger] row.sweeps@[j]).trades@) == sweeps_among(trades, at)[j]
            && row.sweeps@[j].after == price_from(
            prices,
            trades[sweeps_among(trades, at)[j][0]].trade.ts + 5_000_000_000,
        )
}

/// The batches of a row and what is looked up for them.
pub open spec fn batches_hold(
    row: IntervalFacts,
    messages: Seq<OrderMessage>,
    batches: Seq<BatchClearedEvent>,
    anchor: int,
    width: int,
    end: int,
    carried: Option<u128>,
    at: Seq<int>,
) -> bool {
    &&& positions(row.batches@) == at
    &&& row.prior_clearing@.len() == at.len()
    &&& forall|i: int|
        0 <= i < at.len() ==> #[trigger] row.prior_clearing@[i] == clearing_before(
            batches.take(at[i]),
            anchor,
            width,
            end,
            carried,
        )
    &&& row.window_messages == saturated(total(pick(batches, at), window_part(message_times(messages))))
    &&& row.boundary_messages == saturated(total(pick(batches, at), boundary_part(message_times(messages))))
}

/// The orders of a row, grouped by user.
pub open spec fn orders_hold(
    row: IntervalFacts,
    messages: Seq<OrderMessage>,
    states: Seq<OrderState>,
    at: Seq<int>,
) -> bool {
    &&& positions(row.orders@) == at
    &&& row.users@.len() == grouped(at, user_in(messages, states)).len()
    &&& forall|j: int|
        0 <= j < row.users@.len() ==> positions((#[trigger] row.users@[j])@) == grouped(
            at,
            user_in(messages, states),
        )[j]
}

/// Whether `row` is what the row of interval number `k` is computed from, of
/// `n` intervals that start at `lo`.
pub open spec fn row_holds(
    row: IntervalFacts,
    messages: Seq<OrderMessage>,
    trades: Seq<TradeEvent>,
    batches: Seq<BatchClearedEvent>,
    books: Seq<BookSnapshot>,
    anchor: int,
    width: int,
    lo: int,
    n: int,
    carry: Carry,
    k: int,
) -> bool {
    let start = row_start(lo, k, width);
    let prices = series(books, batches);
    let states = outcomes(messages, trades);
    let books_at = placed(book_times(books), anchor, width, start);
    let batches_at = placed(batch_times(batches), anchor, width, start);
    &&& row.start == start
    &&& row.messages == placed(message_times(messages), anchor, width, start).len()
    &&& trades_hold(row, messages, trades, prices, placed(trade_times(trades), anchor, width, start))
    &&& row.points@ == points_in(prices, anchor, width, start)
    &&& row.prev_close == close_before(prices, anchor, width, lo, k, carry.prev_close)
    &&& batches_hold(
        row,
        messages,
        batches,
        anchor,
        width,
        row_start(lo, n, width),
        carry.prev_clearing,
        batches_at,
    )
    &&& positions(row.books@) == books_at
    &&& orders_hold(row, messages, states, placed(opening_times(messages, states), anchor, width, start))
    &&& row.compute_nanos == saturated(
        total(pick(books, books_at), book_nanos()) + total(pick(batches, batches_at), batch_nanos()),
    )
}

/// The moments of the messages.
pub fn times_of_messages(messages: &Vec<OrderMessage>) -> (r: Vec<u64>)
    ensures
        r@ == message_times(messages@),
{
    let mut r: Vec<u64> = Vec::new();
    let mut i: usize = 0;
    while i < messages.len()
        invariant
            i <= messages.len(),
            r@ =~= message_times(messages@).take(i as int),
        decreases messages.len() - i,
    {
        r.push(messages[i].ts);
        i += 1;
    }
    assert(r@ =~= message_times(messages@));
    r
}

/// The moments of the trades.
pub fn times_of_trades(trades: &Vec<TradeEvent>) -> (r: Vec<u64>)
    ensures
        r@ == trade_times(trades@),
{
    let mut r: Vec<u64> = Vec::new();
    let mut i: usize = 0;
    while i < trades.len()
        invariant
            i <= trades.len(),
            r@ =~= trade_times(trades@).take(i as int),
        decreases trades.len() - i,
    {
        r.push(trades[i].trade.ts);
        i += 1;
    }
    assert(r@ =~= trade_times(trades@));
    r
}

/// The moments of the batches.
pub fn times_of_batches(batches: &Vec<BatchClearedEvent>) -> (r: Vec<u64>)
    ensures
        r@ == batch_times(batches@),
{
    let mut r: Vec<u64> = Vec::new();
    let mut i: usize = 0;
    while i < batches.len()
        invariant
            i <= batches.len(),
            r@ =~= batch_times(batches@).take(i as int),
        decreases batches.len() - i,
    {
        r.push(batches[i].ts);
        i += 1;
    }
    assert(r@ =~= batch_times(batches@));
    r
}

/// The moments of the books.
pub fn times_of_books(books: &Vec<BookSnapshot>) -> (r: Vec<u64>)
    ensures
        r@ == book_times(books@),
{
    let mut r: Vec<u64> = Vec::new();
    let mut i: usize = 0;
    while i < books.len()
        invariant
            i <= books.len(),
            r@ =~= book_times(books@).take(i as int),
        decreases books.len() - i,
    {
        r.push(books[i].ts);
        i += 1;
    }
    assert(r@ =~= book_times(books@));
    r
}

fn times_of_points(points: &Vec<PricePoint>) -> (r: Vec<u64>)
    ensures
        r@ == point_times(points@),
{
    let mut r: Vec<u64> = Vec::new();
    let mut i: usize = 0;
    while i < points.len()
        invariant
            i <= points.len(),
            r@ =~= point_times(points@).take(i as int),
        decreases points.len() - i,
    {
        r.push(points[i].ts);
        i += 1;
    }
    assert(r@ =~= point_times(points@));
    r
}

/// Every outcome refers to a message.
pub proof fn lemma_outcomes_in_range(messages: Seq<OrderMessage>, trades: Seq<TradeEvent>)
    requires
        messages.len() <= usize::MAX,
    ensures
        forall|i: int|
            0 <= i < outcomes(messages, trades).len() ==> (#[trigger] outcomes(messages, trades)[i]).message < messages.len(),
{
    lemma_openings(messages);
    assert forall|i: int| 0 <= i < outcomes(messages, trades).len() implies (#[trigger] outcomes(messages, trades)[i]).message
        < messages.len() by {
        assert(0 <= openings(messages)[i] < messages.len());
    }
}

fn times_of_openings(messages: &Vec<OrderMessage>, states: &Vec<OrderState>) -> (r: Vec<u64>)
    requires
        forall|i: int| 0 <= i < states@.len() ==> (#[trigger] states@[i]).message < messages@.len(),
    ensures
        r@ == opening_times(messages@, states@),
{
    let mut r: Vec<u64> = Vec::new();
    let mut i: usize = 0;
    while i < states.len()
        invariant
            i <= states.len(),
            forall|i: int| 0 <= i < states@.len() ==> (#[trigger] states@[i]).message < messages@.len(),
            r@ =~= opening_times(messages@, states@).take(i as int),
        decreases states.len() - i,
    {
        r.push(messages[states[i].message].ts);
        i += 1;
    }
    assert(r@ =~= opening_times(messages@, states@));
    r
}

proof fn lemma_runs(s: Seq<int>, key: spec_fn(int) -> int)
    ensures
        s.len() > 0 ==> runs(s, key).len() > 0 && runs(s, key).last().len() > 0 && runs(s, key).last().last() == s.last(),
        forall|j: int| 0 <= j < runs(s, key).len() ==> (#[trigger] runs(s, key)[j]).len() > 0,
        forall|j: int|
            0 <= j < runs(s, key).len() ==> s.contains(#[trigger] runs(s, key)[j][0]),
    decreases s.len(),
{
    if s.len() > 0 {
        let short: Seq<int> = s.drop_last();
        lemma_runs(short, key);
        let r: Seq<Seq<int>> = runs(s, key);
        assert forall|j: int| 0 <= j < r.len() implies s.contains(#[trigger] r[j][0]) by {
            let e: Seq<Seq<int>> = runs(short, key);
            if j < e.len() {
                assert(r[j][0] == e[j][0]);
                assert(short.contains(e[j][0]));
                let i: int = choose|i: int| 0 <= i < short.len() && short[i] == e[j][0];
                assert(s[i] == e[j][0]);
            } else {
                assert(s[s.len() - 1] == r[j][0]);
            }
        }
    }
}

/// The trades with a direction, in order of time.
fn directed_by_time(trades: &Vec<TradeEvent>, at: &Vec<usize>) -> (r: Vec<usize>)
    requires
        forall|i: int| 0 <= i < at@.len() ==> #[trigger] at@[i] < trades@.len(),
    ensures
        positions(r@) == sorted_by(positions(at@).filter(directed_in(trades@)), time_in(trades@)),
        forall|i: int| 0 <= i < r@.len() ==> #[trigger] r@[i] < trades@.len(),
{
    let ghost keep = directed_in(trades@);
    let ghost all: Seq<int> = positions(at@);
    let mut directed: Vec<usize> = Vec::new();
    let mut keys: Vec<u128> = Vec::new();
    let mut i: usize = 0;
    proof {
        reveal(Seq::filter);
        assert(all.take(0) =~= Seq::<int>::empty());
        assert(positions(directed@) =~= Seq::<int>::empty());
    }
    while i < at.len()
        invariant
            i <= at.len(),
            keep == directed_in(trades@),
            all == positions(at@),
            forall|k: int| 0 <= k < at@.len() ==> #[trigger] at@[k] < trades@.len(),
            forall|k: int| 0 <= k < directed@.len() ==> #[trigger] directed@[k] < trades@.len(),
            keys@.len() == directed@.len(),
            forall|k: int| 0 <= k < keys@.len() ==> #[trigger] keys@[k] == trades@[directed@[k] as int].trade.ts,
            positions(directed@) == all.take(i as int).filter(keep),
        decreases at.len() - i,
    {
        let x: usize = at[i];
        let ghost before: Seq<usize> = directed@;
        proof {
            reveal(Seq::filter);
            assert(all.take(i + 1).drop_last() =~= all.take(i as int));
            assert(all.take(i + 1).last() == x);
        }
        let has: bool = match (trades[x].aggressor_side, trades[x].reference_price) {
            (Some(_), Some(p)) => p > 0,
            _ => false,
        };
        if has {
            directed.push(x);
            keys.push(trades[x].trade.ts as u128);
            assert(positions(directed@) =~= positions(before).push(x as int));
        }
        i += 1;
    }
    assert(all.take(i as int) =~= all);
    let order: Vec<usize> = sort_positions(&keys);
    let ghost p: Seq<int> = positions(order@);
    let mut r: Vec<usize> = Vec::new();
    let mut j: usize = 0;
    while j < order.len()
        invariant
            j <= order.len(),
            p == positions(order@),
            forall|k: int| 0 <= k < order@.len() ==> #[trigger] order@[k] < directed@.len(),
            forall|k: int| 0 <= k < directed@.len() ==> #[trigger] directed@[k] < trades@.len(),
            r@.len() == j,
            forall|k: int| 0 <= k < j ==> #[trigger] r@[k] == directed@[order@[k] as int],
            forall|k: int| 0 <= k < j ==> #[trigger] r@[k] < trades@.len(),
        decreases order.len() - j,
    {
        r.push(directed[order[j]]);
        j += 1;
    }
    proof {
        let list: Seq<int> = positions(directed@);
        assert(positions(r@) =~= pick(list, p));
        assert forall|k: int| 0 <= k < list.len() implies time_in(trades@)(#[trigger] list[k]) == keys@[k] by {
            assert(keys@[k] == trades@[directed@[k] as int].trade.ts);
        }
        lemma_sorted_by(list, keys@, order@, time_in(trades@));
    }
    r
}

fn sweeps_of(trades: &Vec<TradeEvent>, at: &Vec<usize>, prices: &Vec<PricePoint>) -> (r: Vec<FlowSweep>)
    requires
        forall|i: int| 0 <= i < at@.len() ==> #[trigger] at@[i] < trades@.len(),
        ascends_by(prices@, by_ts()),
    ensures
        r@.len() == sweeps_among(trades@, positions(at@)).len(),
        forall|j: int|
            0 <= j < r@.len() ==> positions((#[trigger] r@[j]).trades@) == sweeps_among(trades@, positions(at@))[j]
                && r@[j].after == price_from(
                prices@,
                trades@[sweeps_among(trades@, positions(at@))[j][0]].trade.ts + 5_000_000_000,
            ),
{
    let sorted: Vec<usize> = directed_by_time(trades, at);
    let ghost list: Seq<int> = positions(sorted@);
    let ghost key = time_in(trades@);
    let mut r: Vec<FlowSweep> = Vec::new();
    let mut j: usize = 0;
    assert(list.take(0) =~= Seq::<int>::empty());
    while j < sorted.len()
        invariant
            j <= sorted.len(),
            list == positions(sorted@),
            key == time_in(trades@),
            ascends_by(prices@, by_ts()),
            forall|k: int| 0 <= k < sorted@.len() ==> #[trigger] sorted@[k] < trades@.len(),
            r@.len() == runs(list.take(j as int), key).len(),
            forall|m: int|
                0 <= m < r@.len() ==> positions((#[trigger] r@[m]).trades@) == runs(list.take(j as int), key)[m]
                    && r@[m].after == price_from(
                    prices@,
                    trades@[runs(list.take(j as int), key)[m][0]].trade.ts + 5_000_000_000,
                ),
        decreases sorted.len() - j,
    {
        let x: usize = sorted[j];
        let ts: u64 = trades[x].trade.ts;
        let ghost now: Seq<int> = list.take(j + 1);
        let ghost short: Seq<int> = list.take(j as int);
        let ghost done: Seq<FlowSweep> = r@;
        proof {
            assert(now.drop_last() =~= short);
            assert(now.last() == x);
            lemma_runs(short, key);
            if j > 0 {
                assert(now[now.len() - 2] == sorted@[j - 1]);
            }
        }
        if j > 0 && trades[sorted[j - 1]].trade.ts == ts {
            let n: usize = r.len();
            let ghost last: Seq<usize> = r@[n - 1].trades@;
            r[n - 1].trades.push(x);
            proof {
                assert(positions(r@[n - 1].trades@) =~= positions(last).push(x as int));
                assert(runs(now, key)[n - 1][0] == runs(short, key)[n - 1][0]);
            }
        } else {
            let mut group: Vec<usize> = Vec::new();
            group.push(x);
            assert(positions(group@) =~= seq![x as int]);
            let after: Option<RefPrice> = price_at_or_after(prices, ts as u128 + 5_000_000_000);
            r.push(FlowSweep { trades: group, after });
        }
        j += 1;
    }
    assert(list.take(j as int) =~= list);
    r
}

proof fn lemma_group_named(groups: Seq<Seq<int>>, name: spec_fn(int) -> Seq<char>, wanted: Seq<char>, k: int)
    requires
        0 <= k <= groups.len(),
        forall|i: int| 0 <= i < k ==> name((#[trigger] groups[i])[0]) != wanted,
        k < groups.len() ==> name(groups[k][0]) == wanted,
    ensures
        group_named(groups, name, wanted) == k,
    decreases groups.len(),
{
    if k > 0 {
        assert(name(groups[0][0]) != wanted);
        let rest: Seq<Seq<int>> = groups.drop_first();
        assert forall|i: int| 0 <= i < k - 1 implies name((#[trigger] rest[i])[0]) != wanted by {
            assert(name(groups[i + 1][0]) != wanted);
        }
        lemma_group_named(rest, name, wanted, k - 1);
    }
}

fn users_of(messages: &Vec<OrderMessage>, states: &Vec<OrderState>, at: &Vec<usize>) -> (r: Vec<Vec<usize>>)
    requires
        forall|i: int| 0 <= i < states@.len() ==> (#[trigger] states@[i]).message < messages@.len(),
        forall|i: int| 0 <= i < at@.len() ==> #[trigger] at@[i] < states@.len(),
    ensures
        r@.len() == grouped(positions(at@), user_in(messages@, states@)).len(),
        forall|j: int|
            0 <= j < r@.len() ==> positions((#[trigger] r@[j])@) == grouped(
                positions(at@),
                user_in(messages@, states@),
            )[j],
{
    let ghost name = user_in(messages@, states@);
    let ghost list: Seq<int> = positions(at@);
    let mut r: Vec<Vec<usize>> = Vec::new();
    let mut i: usize = 0;
    assert(list.take(0) =~= Seq::<int>::empty());
    while i < at.len()
        invariant
            i <= at.len(),
            name == user_in(messages@, states@),
            list == positions(at@),
            forall|k: int| 0 <= k < states@.len() ==> (#[trigger] states@[k]).message < messages@.len(),
            forall|k: int| 0 <= k < at@.len() ==> #[trigger] at@[k] < states@.len(),
            r@.len() == grouped(list.take(i as int), name).len(),
            forall|j: int|
                0 <= j < r@.len() ==> positions((#[trigger] r@[j])@) == grouped(list.take(i as int), name)[j],
            forall|j: int| 0 <= j < r@.len() ==> (#[trigger] r@[j])@.len() > 0 && r@[j]@[0] < states@.len(),
        decreases at.len() - i,
    {
        let x: usize = at[i];
        let ghost groups: Seq<Seq<int>> = grouped(list.take(i as int), name);
        let user: &String = &messages[states[x].message].user_id;
        let mut k: usize = 0;
        while k < r.len() && messages[states[r[k][0]].message].user_id != *user
            invariant
                k <= r.len(),
                name == user_in(messages@, states@),
                x < states@.len(),
                user@ == name(x as int),
                r@.len() == groups.len(),
                forall|k: int| 0 <= k < states@.len() ==> (#[trigger] states@[k]).message < messages@.len(),
                forall|j: int| 0 <= j < r@.len() ==> positions((#[trigger] r@[j])@) == groups[j],
                forall|j: int| 0 <= j < r@.len() ==> (#[trigger] r@[j])@.len() > 0 && r@[j]@[0] < states@.len(),
                forall|j: int| 0 <= j < k ==> name((#[trigger] groups[j])[0]) != name(x as int),
            decreases r.len() - k,
        {
            proof {
                assert(positions(r@[k as int]@) == groups[k as int]);
                assert(groups[k as int][0] == r@[k as int]@[0]);
            }
            k += 1;
        }
        proof {
            if k < r.len() {
                assert(positions(r@[k as int]@) == groups[k as int]);
                assert(groups[k as int][0] == r@[k as int]@[0]);
            }
            lemma_group_named(groups, name, name(x as int), k as int);
            assert(list.take(i + 1).drop_last() =~= list.take(i as int));
            assert(list.take(i + 1).last() == x);
        }
        if k < r.len() {
            let ghost before: Seq<usize> = r@[k as int]@;
            r[k].push(x);
            assert(positions(r@[k as int]@) =~= positions(before).push(x as int));
        } else {
            let mut group: Vec<usize> = Vec::new();
            group.push(x);
            assert(positions(group@) =~= seq![x as int]);
            r.push(group);
        }
        i += 1;
    }
    assert(list.take(i as int) =~= list);
    r
}

/// Whether these are positions in a list of this length.
pub open spec fn all_below(at: Seq<usize>, len: nat) -> bool {
    forall|i: int| 0 <= i < at.len() ==> #[trigger] at[i] < len
}

proof fn lemma_placed_below(times: Seq<u64>, anchor: int, width: int, start: int, at: Seq<usize>)
    requires
        positions(at) == placed(times, anchor, width, start),
    ensures
        all_below(at, times.len()),
{
    lemma_placed(times, anchor, width, start);
    assert forall|i: int| 0 <= i < at.len() implies #[trigger] at[i] < times.len() by {
        assert(positions(at)[i] == at[i]);
    }
}

fn copy_positions(at: &Vec<usize>) -> (r: Vec<usize>)
    ensures
        r@ == at@,
{
    let mut r: Vec<usize> = Vec::new();
    let mut i: usize = 0;
    while i < at.len()
        invariant
            i <= at.len(),
            r@ =~= at@.take(i as int),
        decreases at.len() - i,
    {
        r.push(at[i]);
        i += 1;
    }
    assert(r@ =~= at@);
    r
}

fn markouts_of(
    messages: &Vec<OrderMessage>,
    trades: &Vec<TradeEvent>,
    book: &OrderBookkeeping,
    prices: &Vec<PricePoint>,
    at: &Vec<usize>,
) -> (r: Vec<Markout>)
    requires
        all_below(at@, trades@.len()),
        book.keeps(messages@),
        ascends_by(prices@, by_ts()),
    ensures
        r@.len() == at@.len(),
        forall|i: int|
            0 <= i < at@.len() ==> #[trigger] r@[i] == markout(messages@, prices@, trades@[positions(at@)[i]]),
{
    let mut r: Vec<Markout> = Vec::new();
    let mut i: usize = 0;
    while i < at.len()
        invariant
            i <= at.len(),
            all_below(at@, trades@.len()),
            book.keeps(messages@),
            ascends_by(prices@, by_ts()),
            r@.len() == i,
            forall|k: int|
                0 <= k < i ==> #[trigger] r@[k] == markout(messages@, prices@, trades@[positions(at@)[k]]),
        decreases at.len() - i,
    {
        let x: usize = at[i];
        let ts: u128 = trades[x].trade.ts as u128;
        r.push(
            Markout {
                buy_limit: book.limit(messages, trades[x].trade.buy_order_id),
                sell_limit: book.limit(messages, trades[x].trade.sell_order_id),
                after_1s: price_at_or_after(prices, ts + 1_000_000_000),
                after_5s: price_at_or_after(prices, ts + 5_000_000_000),
                after_30s: price_at_or_after(prices, ts + 30_000_000_000),
            },
        );
        i += 1;
    }
    r
}

/// For each batch the price of the last priced batch before it, and at the
/// end the one after all of them.
fn prior_clearings(
    batches: &Vec<BatchClearedEvent>,
    anchor: u64,
    width: u64,
    end: u128,
    carried: Option<u128>,
) -> (r: Vec<Option<u128>>)
    requires
        width > 0,
    ensures
        r@.len() == batches@.len() + 1,
        forall|i: int|
            0 <= i <= batches@.len() ==> #[trigger] r@[i] == clearing_before(
                batches@.take(i),
                anchor as int,
                width as int,
                end as int,
                carried,
            ),
{
    let mut r: Vec<Option<u128>> = Vec::new();
    let mut last: Option<u128> = carried;
    r.push(last);
    let mut i: usize = 0;
    assert(batches@.take(0) =~= Seq::<BatchClearedEvent>::empty());
    while i < batches.len()
        invariant
            i <= batches.len(),
            width > 0,
            r@.len() == i + 1,
            last == r@[i as int],
            forall|k: int|
                0 <= k <= i ==> #[trigger] r@[k] == clearing_before(
                    batches@.take(k),
                    anchor as int,
                    width as int,
                    end as int,
                    carried,
                ),
        decreases batches.len() - i,
    {
        let b: u64 = bucket_of(batches[i].ts, anchor, width);
        assert(batches@.take(i + 1).drop_last() =~= batches@.take(i as int));
        if (b as u128) < end && batches[i].clearing_price.is_some() {
            last = batches[i].clearing_price;
        }
        r.push(last);
        i += 1;
    }
    r
}

fn prior_at(priors: &Vec<Option<u128>>, at: &Vec<usize>) -> (r: Vec<Option<u128>>)
    requires
        all_below(at@, priors@.len()),
    ensures
        r@.len() == at@.len(),
        forall|i: int| 0 <= i < at@.len() ==> #[trigger] r@[i] == priors@[positions(at@)[i]],
{
    let mut r: Vec<Option<u128>> = Vec::new();
    let mut i: usize = 0;
    while i < at.len()
        invariant
            i <= at.len(),
            all_below(at@, priors@.len()),
            r@.len() == i,
            forall|k: int| 0 <= k < i ==> #[trigger] r@[k] == priors@[positions(at@)[k]],
        decreases at.len() - i,
    {
        r.push(priors[at[i]]);
        i += 1;
    }
    r
}

fn window_counts(batches: &Vec<BatchClearedEvent>, seen: &Arrivals, at: &Vec<usize>) -> (r: (u128, u128))
    requires
        all_below(at@, batches@.len()),
        seen.wf(),
    ensures
        r.0 == saturated(total(pick(batches@, positions(at@)), window_part(seen@))),
        r.1 == saturated(total(pick(batches@, positions(at@)), boundary_part(seen@))),
{
    let ghost list: Seq<BatchClearedEvent> = pick(batches@, positions(at@));
    let ghost f = window_part(seen@);
    let ghost g = boundary_part(seen@);
    let mut all: u128 = 0;
    let mut late: u128 = 0;
    let mut i: usize = 0;
    assert(list.take(0) =~= Seq::<BatchClearedEvent>::empty());
    while i < at.len()
        invariant
            i <= at.len(),
            all_below(at@, batches@.len()),
            seen.wf(),
            list == pick(batches@, positions(at@)),
            f == window_part(seen@),
            g == boundary_part(seen@),
            all == saturated(total(list.take(i as int), f)),
            late == saturated(total(list.take(i as int), g)),
            total(list.take(i as int), f) >= 0,
            total(list.take(i as int), g) >= 0,
        decreases at.len() - i,
    {
        let b: BatchClearedEvent = batches[at[i]];
        proof {
            lemma_total_take(list, i as int, f);
            lemma_total_take(list, i as int, g);
            assert(list[i as int] == b);
        }
        if b.ts > b.batch_open_ts {
            let length: u64 = b.ts - b.batch_open_ts;
            all = all.saturating_add(seen.count(b.batch_open_ts, b.ts) as u128);
            late = late.saturating_add(seen.count(b.ts - length / 10, b.ts) as u128);
        }
        i += 1;
    }
    assert(list.take(i as int) =~= list);
    (all, late)
}

fn nanos_of(
    books: &Vec<BookSnapshot>,
    books_at: &Vec<usize>,
    batches: &Vec<BatchClearedEvent>,
    batches_at: &Vec<usize>,
) -> (r: u128)
    requires
        all_below(books_at@, books@.len()),
        all_below(batches_at@, batches@.len()),
    ensures
        r == saturated(
            total(pick(books@, positions(books_at@)), book_nanos()) + total(
                pick(batches@, positions(batches_at@)),
                batch_nanos(),
            ),
        ),
{
    let ghost first: Seq<BookSnapshot> = pick(books@, positions(books_at@));
    let ghost second: Seq<BatchClearedEvent> = pick(batches@, positions(batches_at@));
    let mut sum: u128 = 0;
    let mut i: usize = 0;
    assert(first.take(0) =~= Seq::<BookSnapshot>::empty());
    while i < books_at.len()
        invariant
            i <= books_at.len(),
            all_below(books_at@, books@.len()),
            first == pick(books@, positions(books_at@)),
            sum == saturated(total(first.take(i as int), book_nanos())),
        decreases books_at.len() - i,
    {
        proof {
            lemma_total_take(first, i as int, book_nanos());
            lemma_total_nonneg(first.take(i as int), book_nanos());
            assert(first[i as int] == books@[books_at@[i as int] as int]);
        }
        sum = sum.saturating_add(books[books_at[i]].compute_nanos);
        i += 1;
    }
    assert(first.take(i as int) =~= first);
    let ghost so_far: int = total(first, book_nanos());
    proof {
        lemma_total_nonneg(first, book_nanos());
    }
    let mut j: usize = 0;
    assert(second.take(0) =~= Seq::<BatchClearedEvent>::empty());
    while j < batches_at.len()
        invariant
            j <= batches_at.len(),
            all_below(batches_at@, batches@.len()),
            second == pick(batches@, positions(batches_at@)),
            so_far >= 0,
            sum == saturated(so_far + total(second.take(j as int), batch_nanos())),
        decreases batches_at.len() - j,
    {
        proof {
            lemma_total_take(second, j as int, batch_nanos());
            lemma_total_nonneg(second.take(j as int), batch_nanos());
            assert(second[j as int] == batches@[batches_at@[j as int] as int]);
        }
        sum = sum.saturating_add(batches[batches_at[j]].compute_nanos);
        j += 1;
    }
    assert(second.take(j as int) =~= second);
    sum
}

fn prices_at(points: &Vec<PricePoint>, at: &Vec<usize>) -> (r: Vec<RefPrice>)
    requires
        all_below(at@, points@.len()),
    ensures
        r@ == Seq::new(at@.len(), |i: int| points@[positions(at@)[i]].price),
{
    let mut r: Vec<RefPrice> = Vec::new();
    let mut i: usize = 0;
    while i < at.len()
        invariant
            i <= at.len(),
            all_below(at@, points@.len()),
            r@ =~= Seq::new(i as nat, |k: int| points@[positions(at@)[k]].price),
        decreases at.len() - i,
    {
        r.push(points[at[i]].price);
        i += 1;
    }
    r
}

/// The rows of `n` intervals from `lo` on, and what the next row needs to
/// know of them.
pub fn interval_facts(
    log: &EventLog,
    messages: &Vec<OrderMessage>,
    anchor: u64,
    width: u64,
    lo: u64,
    n: usize,
    carry: Carry,
) -> (r: (Vec<IntervalFacts>, Carry))
    requires
        width > 0,
        on_grid(lo as int, anchor as int, width as int),
        n > 0 ==> row_start(lo as int, n - 1, width as int) <= u64::MAX,
    ensures
        r.0@.len() == n,
        forall|k: int|
            0 <= k < n ==> row_holds(
                #[trigger] r.0@[k],
                messages@,
                log.trades@,
                log.batches@,
                log.books@,
                anchor as int,
                width as int,
                lo as int,
                n as int,
                carry,
                k,
            ),
        r.1.prev_close == close_before(
            series(log.books@, log.batches@),
            anchor as int,
            width as int,
            lo as int,
            n as int,
            carry.prev_close,
        ),
        r.1.prev_clearing == clearing_before(
            log.batches@,
            anchor as int,
            width as int,
            row_start(lo as int, n as int, width as int),
            carry.prev_clearing,
        ),
{
    let prices: Vec<PricePoint> = price_series(&log.books, &log.batches);
    let book: OrderBookkeeping = OrderBookkeeping::build(messages, &log.trades);
    let message_ts: Vec<u64> = times_of_messages(messages);
    let seen: Arrivals = Arrivals::of(&message_ts);
    proof {
        assert(messages.len() <= usize::MAX);
        lemma_outcomes_in_range(messages@, log.trades@);
    }
    let by_message: Vec<Vec<usize>> = positions_by_row(&message_ts, anchor, width, lo, n);
    let by_trade: Vec<Vec<usize>> = positions_by_row(&times_of_trades(&log.trades), anchor, width, lo, n);
    let by_batch: Vec<Vec<usize>> = positions_by_row(&times_of_batches(&log.batches), anchor, width, lo, n);
    let by_book: Vec<Vec<usize>> = positions_by_row(&times_of_books(&log.books), anchor, width, lo, n);
    let by_point: Vec<Vec<usize>> = positions_by_row(&times_of_points(&prices), anchor, width, lo, n);
    let by_order: Vec<Vec<usize>> = positions_by_row(&times_of_openings(messages, &book.states), anchor, width, lo, n);
    proof {
        assert(n * width <= 0xffff_ffff_ffff_ffff * 0xffff_ffff_ffff_ffff) by (nonlinear_arith)
            requires
                n <= 0xffff_ffff_ffff_ffff,
                width <= 0xffff_ffff_ffff_ffff,
        ;
    }
    let end: u128 = lo as u128 + n as u128 * width as u128;
    let priors: Vec<Option<u128>> = prior_clearings(&log.batches, anchor, width, end, carry.prev_clearing);
    let mut rows: Vec<IntervalFacts> = Vec::new();
    let mut prev_close: Option<RefPrice> = carry.prev_close;
    let mut k: usize = 0;
    let ghost a: int = anchor as int;
    let ghost w: int = width as int;
    while k < n
        invariant
            k <= n,
            width > 0,
            a == anchor,
            w == width,
            row_start(lo as int, n - 1, w) <= u64::MAX,
            end == row_start(lo as int, n as int, w),
            prices@ == series(log.books@, log.batches@),
            ascends_by(prices@, by_ts()),
            book.states@ == outcomes(messages@, log.trades@),
            book.keeps(messages@),
            forall|i: int| 0 <= i < book.states@.len() ==> (#[trigger] book.states@[i]).message < messages@.len(),
            seen.wf(),
            seen@ == message_times(messages@),
            by_message@.len() == n,
            by_trade@.len() == n,
            by_batch@.len() == n,
            by_book@.len() == n,
            by_point@.len() == n,
            by_order@.len() == n,
            forall|j: int|
                0 <= j < n ==> positions((#[trigger] by_message@[j])@) == placed(
                    message_times(messages@),
                    a,
                    w,
                    row_start(lo as int, j, w),
                ),
            forall|j: int|
                0 <= j < n ==> positions((#[trigger] by_trade@[j])@) == placed(
                    trade_times(log.trades@),
                    a,
                    w,
                    row_start(lo as int, j, w),
                ),
            forall|j: int|
                0 <= j < n ==> positions((#[trigger] by_batch@[j])@) == placed(
                    batch_times(log.batches@),
                    a,
                    w,
                    row_start(lo as int, j, w),
                ),
            forall|j: int|
                0 <= j < n ==> positions((#[trigger] by_book@[j])@) == placed(
                    book_times(log.books@),
                    a,
                    w,
                    row_start(lo as int, j, w),
                ),
            forall|j: int|
                0 <= j < n ==> positions((#[trigger] by_point@[j])@) == placed(
                    point_times(prices@),
                    a,
                    w,
                    row_start(lo as int, j, w),
                ),
            forall|j: int|
                0 <= j < n ==> positions((#[trigger] by_order@[j])@) == placed(
                    opening_times(messages@, book.states@),
                    a,
                    w,
                    row_start(lo as int, j, w),
                ),
            priors@.len() == log.batches@.len() + 1,
            forall|i: int|
                0 <= i <= log.batches@.len() ==> #[trigger] priors@[i] == clearing_before(
                    log.batches@.take(i),
                    a,
                    w,
                    end as int,
                    carry.prev_clearing,
                ),
            prev_close == close_before(prices@, a, w, lo as int, k as int, carry.prev_close),
            rows@.len() == k,
            forall|j: int|
                0 <= j < k ==> row_holds(
                    #[trigger] rows@[j],
                    messages@,
                    log.trades@,
                    log.batches@,
                    log.books@,
                    a,
                    w,
                    lo as int,
                    n as int,
                    carry,
                    j,
                ),
        decreases n - k,
    {
        let ghost start: int = row_start(lo as int, k as int, w);
        proof {
            assert(k * width <= (n - 1) * width) by (nonlinear_arith)
                requires
                    k <= n - 1,
            ;
            lemma_placed_below(message_times(messages@), a, w, start, by_message@[k as int]@);
            lemma_placed_below(trade_times(log.trades@), a, w, start, by_trade@[k as int]@);
            lemma_placed_below(batch_times(log.batches@), a, w, start, by_batch@[k as int]@);
            lemma_placed_below(book_times(log.books@), a, w, start, by_book@[k as int]@);
            lemma_placed_below(point_times(prices@), a, w, start, by_point@[k as int]@);
            lemma_placed_below(opening_times(messages@, book.states@), a, w, start, by_order@[k as int]@);
            assert(positions(by_message@[k as int]@).len() == by_message@[k as int]@.len());
            assert(all_below(by_batch@[k as int]@, priors@.len())) by {
                assert(all_below(by_batch@[k as int]@, log.batches@.len()));
            }
        }
        let counts: (u128, u128) = window_counts(&log.batches, &seen, &by_batch[k]);
        let points: Vec<RefPrice> = prices_at(&prices, &by_point[k]);
        assert(points@ =~= points_in(prices@, a, w, start));
        let last: Option<RefPrice> = if points.len() > 0 {
            Some(points[points.len() - 1])
        } else {
            prev_close
        };
        let row: IntervalFacts = IntervalFacts {
            start: lo + k as u64 * width,
            messages: by_message[k].len(),
            trades: copy_positions(&by_trade[k]),
            markouts: markouts_of(messages, &log.trades, &book, &prices, &by_trade[k]),
            sweeps: sweeps_of(&log.trades, &by_trade[k], &prices),
            points,
            prev_close,
            batches: copy_positions(&by_batch[k]),
            prior_clearing: prior_at(&priors, &by_batch[k]),
            books: copy_positions(&by_book[k]),
            orders: copy_positions(&by_order[k]),
            users: users_of(messages, &book.states, &by_order[k]),
            window_messages: counts.0,
            boundary_messages: counts.1,
            compute_nanos: nanos_of(&log.books, &by_book[k], &log.batches, &by_batch[k]),
        };
        proof {
            let at: Seq<int> = placed(batch_times(log.batches@), a, w, start);
            assert forall|i: int| 0 <= i < at.len() implies #[trigger] row.prior_clearing@[i] == clearing_before(
                log.batches@.take(at[i]),
                a,
                w,
                end as int,
                carry.prev_clearing,
            ) by {
                assert(by_batch@[k as int]@[i] < log.batches@.len());
                assert(positions(by_batch@[k as int]@)[i] == at[i]);
                assert(priors@[at[i]] == clearing_before(log.batches@.take(at[i]), a, w, end as int, carry.prev_clearing));
            }
        }
        rows.push(row);
        prev_close = last;
        k += 1;
    }
    let prev_clearing: Option<u128> = priors[log.batches.len()];
    assert(log.batches@.take(log.batches@.len() as int) =~= log.batches@);
    (rows, Carry { prev_close, prev_clearing })
}

} // verus!
