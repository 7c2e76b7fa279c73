//! What a row of the time series holds, in terms of the recorded events: which
//! of them are in it, and how its trades are gathered into sweeps.

use vstd::prelude::*;
use crate::metrics::events::{BatchClearedEvent, BookSnapshot, OrderMessage, TradeEvent};
use crate::metrics::facts::{
    batch_times, book_times, directed_in, has_direction, message_times, row_holds, runs, sweeps_among, time_in,
    trade_times, Carry, FlowSweep, IntervalFacts,
};
use crate::metrics::flushing_laws::{lemma_placed_by_members, lemma_sorted_members};
use crate::metrics::grid::{
    bucket, law_bucket_holds_the_moment, lemma_grid_step, lemma_on_grid_later, lemma_placed, on_grid, placed,
    row_start,
};
use crate::seqs::total;
use crate::sorting::{placed_by, positions, sorted_by};
use crate::types::Side;

verus! {

/// The moment is in the interval of this width from `start` on. The first
/// interval also has all that came before it.
pub open spec fn falls(ts: int, anchor: int, width: int, start: int) -> bool {
    ts < start + width && (start <= ts || start == anchor)
}

/// The list names this position.
pub open spec fn names(at: Seq<usize>, x: int) -> bool {
    exists|i: int| 0 <= i < at.len() && #[trigger] at[i] == x
}

/// The list names the positions below `n` with this property, each once and
/// in ascending order.
pub open spec fn selects(at: Seq<usize>, n: int, p: spec_fn(int) -> bool) -> bool {
    &&& forall|i: int| 0 <= i < at.len() ==> #[trigger] at[i] < n && p(at[i] as int)
    &&& forall|i: int, j: int| 0 <= i < j < at.len() ==> #[trigger] at[i] < #[trigger] at[j]
    &&& forall|x: int| 0 <= x < n && p(x) ==> #[trigger] names(at, x)
}

pub open spec fn trade_falls(trades: Seq<TradeEvent>, anchor: int, width: int, start: int) -> spec_fn(int) -> bool {
    |x: int| falls(trades[x].trade.ts as int, anchor, width, start)
}

pub open spec fn batch_falls(batches: Seq<BatchClearedEvent>, anchor: int, width: int, start: int) -> spec_fn(
    int,
) -> bool {
    |x: int| falls(batches[x].ts as int, anchor, width, start)
}

pub open spec fn book_falls(books: Seq<BookSnapshot>, anchor: int, width: int, start: int) -> spec_fn(int) -> bool {
    |x: int| falls(books[x].ts as int, anchor, width, start)
}

/// One for each message in the interval.
pub open spec fn message_falls(anchor: int, width: int, start: int) -> spec_fn(OrderMessage) -> int {
    |m: OrderMessage|
        if falls(m.ts as int, anchor, width, start) {
            1
        } else {
            0
        }
}

pub proof fn lemma_falls(ts: int, anchor: int, width: int, start: int)
    requires
        width > 0,
        on_grid(start, anchor, width),
    ensures
        (bucket(ts, anchor, width) == start) == falls(ts, anchor, width, start),
{
    let b: int = bucket(ts, anchor, width);
    law_bucket_holds_the_moment(ts, anchor, width);
    if falls(ts, anchor, width, start) && ts >= anchor && b != start {
        if b > start {
            lemma_grid_step(start, b, anchor, width);
            let q: int = (b - start) / width;
            assert(q * width >= width) by (nonlinear_arith)
                requires
                    q * width > 0,
                    width > 0,
            ;
        } else {
            lemma_grid_step(b, start, anchor, width);
            let q: int = (start - b) / width;
            assert(q * width >= width) by (nonlinear_arith)
                requires
                    q * width > 0,
                    width > 0,
            ;
        }
    }
}

/// The positions in an interval are all of them, in ascending order.
pub proof fn lemma_placed_all(times: Seq<u64>, anchor: int, width: int, start: int)
    ensures
        forall|i: int, j: int|
            0 <= i < j < placed(times, anchor, width, start).len() ==> #[trigger] placed(
                times,
                anchor,
                width,
                start,
            )[i] < #[trigger] placed(times, anchor, width, start)[j],
        forall|x: int|
            0 <= x < times.len() && bucket(#[trigger] times[x] as int, anchor, width) == start ==> placed(
                times,
                anchor,
                width,
                start,
            ).contains(x),
    decreases times.len(),
{
    if times.len() > 0 {
        let short: Seq<u64> = times.drop_last();
        let e: Seq<int> = placed(short, anchor, width, start);
        let r: Seq<int> = placed(times, anchor, width, start);
        lemma_placed_all(short, anchor, width, start);
        lemma_placed(short, anchor, width, start);
        assert forall|x: int|
            0 <= x < times.len() && bucket(#[trigger] times[x] as int, anchor, width) == start implies r.contains(x) by {
            if x < short.len() {
                assert(short[x] == times[x]);
                assert(e.contains(x));
                let i: int = choose|i: int| 0 <= i < e.len() && e[i] == x;
                assert(r[i] == x);
            } else {
                assert(r[r.len() - 1] == x);
            }
        }
    }
}

pub proof fn lemma_selects(at: Seq<usize>, times: Seq<u64>, anchor: int, width: int, start: int, p: spec_fn(int) -> bool)
    requires
        width > 0,
        on_grid(start, anchor, width),
        positions(at) == placed(times, anchor, width, start),
        forall|x: int| 0 <= x < times.len() ==> #[trigger] p(x) == falls(times[x] as int, anchor, width, start),
    ensures
        selects(at, times.len() as int, p),
{
    let e: Seq<int> = placed(times, anchor, width, start);
    lemma_placed(times, anchor, width, start);
    lemma_placed_all(times, anchor, width, start);
    assert forall|i: int| 0 <= i < at.len() implies #[trigger] at[i] < times.len() && p(at[i] as int) by {
        assert(positions(at)[i] == at[i]);
        assert(e[i] == at[i]);
        lemma_falls(times[e[i]] as int, anchor, width, start);
    }
    assert forall|i: int, j: int| 0 <= i < j < at.len() implies #[trigger] at[i] < #[trigger] at[j] by {
        assert(positions(at)[i] == at[i] && positions(at)[j] == at[j]);
        assert(e[i] < e[j]);
    }
    assert forall|x: int| 0 <= x < times.len() && p(x) implies #[trigger] names(at, x) by {
        lemma_falls(times[x] as int, anchor, width, start);
        assert(bucket(times[x] as int, anchor, width) == start);
        assert(e.contains(x));
        let i: int = choose|i: int| 0 <= i < e.len() && e[i] == x;
        assert(positions(at)[i] == at[i]);
        assert(at[i] == x);
    }
}

proof fn lemma_message_count(messages: Seq<OrderMessage>, anchor: int, width: int, start: int)
    requires
        width > 0,
        on_grid(start, anchor, width),
    ensures
        placed(message_times(messages), anchor, width, start).len() == total(
            messages,
            message_falls(anchor, width, start),
        ),
    decreases messages.len(),
{
    if messages.len() > 0 {
        lemma_message_count(messages.drop_last(), anchor, width, start);
        assert(message_times(messages).drop_last() =~= message_times(messages.drop_last()));
        lemma_falls(messages.last().ts as int, anchor, width, start);
    }
}

/// A row starts as many widths after the first as it has rows before it. It
/// counts the messages and lists the trades, batches and snapshots whose moment
/// is in its interval, all of them, each once and as recorded.
pub proof fn law_row_holds_its_interval(
    row: IntervalFacts,
    messages: Seq<OrderMessage>,
    trades: Seq<TradeEvent>,
    batches: Seq<BatchClearedEvent>,
    books: Seq<BookSnapshot>,
    anchor: int,
    width: int,
    lo: int,
    n: int,
    carry: Carry,
    k: int,
)
    requires
        width > 0,
        on_grid(lo, anchor, width),
        0 <= k,
        row_holds(row, messages, trades, batches, books, anchor, width, lo, n, carry, k),
    ensures
        row.start == lo + k * width,
        row.messages == total(messages, message_falls(anchor, width, row.start as int)),
        selects(row.trades@, trades.len() as int, trade_falls(trades, anchor, width, row.start as int)),
        selects(row.batches@, batches.len() as int, batch_falls(batches, anchor, width, row.start as int)),
        selects(row.books@, books.len() as int, book_falls(books, anchor, width, row.start as int)),
{
    lemma_on_grid_later(lo, k, anchor, width);
    let start: int = row.start as int;
    lemma_message_count(messages, anchor, width, start);
    lemma_selects(row.trades@, trade_times(trades), anchor, width, start, trade_falls(trades, anchor, width, start));
    lemma_selects(row.batches@, batch_times(batches), anchor, width, start, batch_falls(batches, anchor, width, start));
    lemma_selects(row.books@, book_times(books), anchor, width, start, book_falls(books, anchor, width, start));
}

/// An order of one side or the other caused the trade, and there is a positive
/// reference price to measure it against.
pub open spec fn directed(t: TradeEvent) -> bool {
    &&& t.aggressor_side == Some(Side::Buy) || t.aggressor_side == Some(Side::Sell)
    &&& match t.reference_price {
        Some(p) => p > 0,
        None => false,
    }
}

/// The trade at this position is in one of the sweeps.
pub open spec fn swept(sweeps: Seq<FlowSweep>, x: int) -> bool {
    exists|j: int, m: int|
        0 <= j < sweeps.len() && 0 <= m < sweeps[j].trades@.len() && #[trigger] sweeps[j].trades@[m] == x
}

/// Ascending by key, and where the key is the same by the number itself.
pub open spec fn in_turn(s: Seq<int>, key: spec_fn(int) -> int) -> bool {
    forall|i: int, j: int|
        0 <= i < j < s.len() ==> key(#[trigger] s[i]) < key(#[trigger] s[j]) || (key(s[i]) == key(s[j]) && s[i] < s[j])
}

proof fn lemma_placed_in_turn(s: Seq<int>, x: int, key: spec_fn(int) -> int)
    requires
        in_turn(s, key),
        forall|i: int| 0 <= i < s.len() ==> #[trigger] s[i] < x,
    ensures
        in_turn(placed_by(s, x, key), key),
        placed_by(s, x, key).contains(x),
        forall|i: int| 0 <= i < s.len() ==> placed_by(s, x, key).contains(#[trigger] s[i]),
    decreases s.len(),
{
    let r: Seq<int> = placed_by(s, x, key);
    if s.len() == 0 || key(s.last()) <= key(x) {
        assert(r[s.len() as int] == x);
        assert forall|i: int| 0 <= i < s.len() implies r.contains(#[trigger] s[i]) by {
            assert(r[i] == s[i]);
        }
        assert forall|i: int, j: int| 0 <= i < j < r.len() implies key(#[trigger] r[i]) < key(#[trigger] r[j]) || (key(
            r[i],
        ) == key(r[j]) && r[i] < r[j]) by {
            assert(r[i] == s[i]);
            if j < s.len() {
                assert(r[j] == s[j]);
            } else if i < s.len() - 1 {
                assert(key(s[i]) <= key(s[s.len() - 1]));
            }
        }
    } else {
        let short: Seq<int> = s.drop_last();
        assert forall|i: int| 0 <= i < short.len() implies #[trigger] short[i] < x by {
            assert(s[i] < x);
        }
        assert forall|i: int, j: int| 0 <= i < j < short.len() implies key(#[trigger] short[i]) < key(
            #[trigger] short[j],
        ) || (key(short[i]) == key(short[j]) && short[i] < short[j]) by {
            assert(short[i] == s[i] && short[j] == s[j]);
        }
        lemma_placed_in_turn(short, x, key);
        lemma_placed_by_members(short, x, key);
        let e: Seq<int> = placed_by(short, x, key);
        assert(r == e.push(s.last()));
        assert(r.contains(x)) by {
            let i: int = choose|i: int| 0 <= i < e.len() && e[i] == x;
            assert(r[i] == x);
        }
        assert forall|i: int| 0 <= i < s.len() implies r.contains(#[trigger] s[i]) by {
            if i < short.len() {
                assert(e.contains(short[i]));
                let m: int = choose|m: int| 0 <= m < e.len() && e[m] == short[i];
                assert(r[m] == s[i]);
            } else {
                assert(r[r.len() - 1] == s[i]);
            }
        }
        assert forall|i: int, j: int| 0 <= i < j < r.len() implies key(#[trigger] r[i]) < key(#[trigger] r[j]) || (key(
            r[i],
        ) == key(r[j]) && r[i] < r[j]) by {
            assert(r[i] == e[i]);
            if j < e.len() {
                assert(r[j] == e[j]);
            } else {
                assert(r[j] == s.last());
                if e[i] != x {
                    assert(short.contains(e[i]));
                    let m: int = choose|m: int| 0 <= m < short.len() && short[m] == e[i];
                    assert(s[m] == e[i]);
                    assert(s[s.len() - 1] == s.last());
                }
            }
        }
    }
}

pub proof fn lemma_sorted_in_turn(s: Seq<int>, key: spec_fn(int) -> int)
    requires
        forall|i: int, j: int| 0 <= i < j < s.len() ==> #[trigger] s[i] < #[trigger] s[j],
    ensures
        in_turn(sorted_by(s, key), key),
        forall|i: int| 0 <= i < s.len() ==> sorted_by(s, key).contains(#[trigger] s[i]),
    decreases s.len(),
{
    if s.len() > 0 {
        let short: Seq<int> = s.drop_last();
        lemma_sorted_in_turn(short, key);
        lemma_sorted_members(short, key);
        let e: Seq<int> = sorted_by(short, key);
        assert forall|i: int| 0 <= i < e.len() implies #[trigger] e[i] < s.last() by {
            assert(short.contains(e[i]));
            let m: int = choose|m: int| 0 <= m < short.len() && short[m] == e[i];
            assert(s[m] < s[s.len() - 1]);
        }
        lemma_placed_in_turn(e, s.last(), key);
        let r: Seq<int> = sorted_by(s, key);
        assert forall|i: int| 0 <= i < s.len() implies r.contains(#[trigger] s[i]) by {
            if i < short.len() {
                assert(e.contains(short[i]));
                let m: int = choose|m: int| 0 <= m < e.len() && e[m] == short[i];
                assert(r.contains(e[m]));
            }
        }
    }
}

/// Is in one of the parts.
spec fn in_part(parts: Seq<Seq<int>>, x: int) -> bool {
    exists|j: int, m: int| 0 <= j < parts.len() && 0 <= m < parts[j].len() && #[trigger] parts[j][m] == x
}

/// Cutting a list in turn where its key changes loses nothing, and keeps the
/// turn within the parts and between them.
proof fn lemma_runs_in_turn(s: Seq<int>, key: spec_fn(int) -> int)
    requires
        in_turn(s, key),
    ensures
        forall|j: int| 0 <= j < runs(s, key).len() ==> (#[trigger] runs(s, key)[j]).len() > 0,
        s.len() > 0 ==> runs(s, key).len() > 0 && runs(s, key).last().last() == s.last(),
        forall|j: int, m: int|
            0 <= j < runs(s, key).len() && 0 <= m < runs(s, key)[j].len() ==> s.contains(#[trigger] runs(s, key)[j][m]),
        forall|i: int| 0 <= i < s.len() ==> in_part(runs(s, key), #[trigger] s[i]),
        forall|j: int, m: int, l: int|
            0 <= j < runs(s, key).len() && 0 <= m < l < runs(s, key)[j].len() ==> key(#[trigger] runs(s, key)[j][m])
                == key(#[trigger] runs(s, key)[j][l]) && runs(s, key)[j][m] < runs(s, key)[j][l],
        forall|j: int, m: int, h: int, l: int|
            0 <= j < h < runs(s, key).len() && 0 <= m < runs(s, key)[j].len() && 0 <= l < runs(s, key)[h].len() ==> key(
                #[trigger] runs(s, key)[j][m],
            ) < key(#[trigger] runs(s, key)[h][l]),
    decreases s.len(),
{
    if s.len() > 0 {
        let short: Seq<int> = s.drop_last();
        let last: int = s.last();
        assert forall|i: int, j: int| 0 <= i < j < short.len() implies key(#[trigger] short[i]) < key(
            #[trigger] short[j],
        ) || (key(short[i]) == key(short[j]) && short[i] < short[j]) by {
            assert(short[i] == s[i] && short[j] == s[j]);
        }
        lemma_runs_in_turn(short, key);
        let e: Seq<Seq<int>> = runs(short, key);
        let r: Seq<Seq<int>> = runs(s, key);
        let joins: bool = s.len() > 1 && key(s[s.len() - 2]) == key(last);
        assert forall|i: int| 0 <= i < short.len() implies key(#[trigger] short[i]) <= key(last) && (key(short[i]) == key(
            last,
        ) ==> short[i] < last) && (!joins ==> key(short[i]) < key(last)) by {
            assert(s[i] == short[i] && s[s.len() - 1] == last);
            if i < s.len() - 2 {
                assert(key(s[i]) <= key(s[s.len() - 2]));
            }
            assert(key(s[s.len() - 2]) <= key(s[s.len() - 1]));
        }
        assert(joins ==> short[short.len() - 1] == s[s.len() - 2]);
        // The members of the earlier parts come before the last one.
        assert forall|j: int, m: int| 0 <= j < e.len() && 0 <= m < e[j].len() implies key(#[trigger] e[j][m]) <= key(last)
            && (key(e[j][m]) == key(last) ==> e[j][m] < last) && (!joins ==> key(e[j][m]) < key(last)) by {
            assert(short.contains(e[j][m]));
            let i: int = choose|i: int| 0 <= i < short.len() && short[i] == e[j][m];
            assert(key(short[i]) <= key(last));
        }
        if joins {
            let n: int = e.len() - 1;
            assert(r == e.update(n, e[n].push(last)));
            assert(e[n][e[n].len() - 1] == short.last());
            assert(r[n].last() == last);
            assert forall|j: int| 0 <= j < r.len() implies (#[trigger] r[j]).len() > 0 by {
                assert(e[j].len() > 0);
            }
            assert forall|j: int, m: int| 0 <= j < r.len() && 0 <= m < r[j].len() implies s.contains(#[trigger] r[j][m]) by {
                if j == n && m == e[n].len() {
                    assert(s[s.len() - 1] == r[j][m]);
                } else {
                    assert(r[j][m] == e[j][m]);
                    assert(short.contains(e[j][m]));
                    let i: int = choose|i: int| 0 <= i < short.len() && short[i] == e[j][m];
                    assert(s[i] == r[j][m]);
                }
            }
            assert forall|i: int| 0 <= i < s.len() implies in_part(r, #[trigger] s[i]) by {
                if i < short.len() {
                    assert(in_part(e, short[i]));
                    let (j, m): (int, int) = choose|j: int, m: int|
                        0 <= j < e.len() && 0 <= m < e[j].len() && #[trigger] e[j][m] == short[i];
                    assert(r[j][m] == s[i]);
                } else {
                    assert(r[n][e[n].len() as int] == s[i]);
                }
            }
            assert forall|j: int, m: int, l: int| 0 <= j < r.len() && 0 <= m < l < r[j].len() implies key(
                #[trigger] r[j][m],
            ) == key(#[trigger] r[j][l]) && r[j][m] < r[j][l] by {
                assert(r[j][m] == e[j][m]);
                if j == n && l == e[n].len() {
                    if m < e[n].len() - 1 {
                        assert(key(e[n][m]) == key(e[n][e[n].len() - 1]));
                    }
                } else {
                    assert(r[j][l] == e[j][l]);
                }
            }
            assert forall|j: int, m: int, h: int, l: int|
                0 <= j < h < r.len() && 0 <= m < r[j].len() && 0 <= l < r[h].len() implies key(#[trigger] r[j][m]) < key(
                #[trigger] r[h][l],
            ) by {
                assert(r[j][m] == e[j][m]);
                if h == n && l == e[n].len() {
                    assert(key(e[j][m]) < key(e[n][e[n].len() - 1]));
                } else {
                    assert(r[h][l] == e[h][l]);
                }
            }
        } else {
            assert(r =~= e.push(seq![last]));
            let n: int = e.len() as int;
            assert(r[n][0] == last);
            assert forall|j: int| 0 <= j < r.len() implies (#[trigger] r[j]).len() > 0 by {
                if j < n {
                    assert(e[j].len() > 0);
                }
            }
            assert forall|j: int, m: int| 0 <= j < r.len() && 0 <= m < r[j].len() implies s.contains(#[trigger] r[j][m]) by {
                if j == n {
                    assert(s[s.len() - 1] == r[j][m]);
                } else {
                    assert(r[j][m] == e[j][m]);
                    assert(short.contains(e[j][m]));
                    let i: int = choose|i: int| 0 <= i < short.len() && short[i] == e[j][m];
                    assert(s[i] == r[j][m]);
                }
            }
            assert forall|i: int| 0 <= i < s.len() implies in_part(r, #[trigger] s[i]) by {
                if i < short.len() {
                    assert(in_part(e, short[i]));
                    let (j, m): (int, int) = choose|j: int, m: int|
                        0 <= j < e.len() && 0 <= m < e[j].len() && #[trigger] e[j][m] == short[i];
                    assert(r[j][m] == s[i]);
                } else {
                    assert(r[n][0] == s[i]);
                }
            }
            assert forall|j: int, m: int, l: int| 0 <= j < r.len() && 0 <= m < l < r[j].len() implies key(
                #[trigger] r[j][m],
            ) == key(#[trigger] r[j][l]) && r[j][m] < r[j][l] by {
                assert(j < n);
                assert(r[j][m] == e[j][m] && r[j][l] == e[j][l]);
            }
            assert forall|j: int, m: int, h: int, l: int|
                0 <= j < h < r.len() && 0 <= m < r[j].len() && 0 <= l < r[h].len() implies key(#[trigger] r[j][m]) < key(
                #[trigger] r[h][l],
            ) by {
                assert(r[j][m] == e[j][m]);
                if h < n {
                    assert(r[h][l] == e[h][l]);
                }
            }
        }
    }
}

proof fn lemma_filter_kept(s: Seq<int>, keep: spec_fn(int) -> bool)
    requires
        forall|i: int, j: int| 0 <= i < j < s.len() ==> #[trigger] s[i] < #[trigger] s[j],
    ensures
        forall|i: int, j: int|
            0 <= i < j < s.filter(keep).len() ==> #[trigger] s.filter(keep)[i] < #[trigger] s.filter(keep)[j],
        forall|i: int|
            0 <= i < s.filter(keep).len() ==> keep(#[trigger] s.filter(keep)[i]) && s.contains(s.filter(keep)[i]),
        forall|i: int| 0 <= i < s.len() && keep(#[trigger] s[i]) ==> s.filter(keep).contains(s[i]),
    decreases s.len(),
{
    reveal(Seq::filter);
    if s.len() > 0 {
        let short: Seq<int> = s.drop_last();
        lemma_filter_kept(short, keep);
        let e: Seq<int> = short.filter(keep);
        let r: Seq<int> = s.filter(keep);
        assert forall|i: int| 0 <= i < e.len() implies #[trigger] e[i] < s.last() by {
            assert(short.contains(e[i]));
            let m: int = choose|m: int| 0 <= m < short.len() && short[m] == e[i];
            assert(s[m] < s[s.len() - 1]);
        }
        assert forall|i: int| 0 <= i < r.len() implies keep(#[trigger] r[i]) && s.contains(r[i]) by {
            if i < e.len() {
                assert(r[i] == e[i]);
                assert(short.contains(e[i]));
                let m: int = choose|m: int| 0 <= m < short.len() && short[m] == e[i];
                assert(s[m] == r[i]);
            } else {
                assert(s[s.len() - 1] == r[i]);
            }
        }
        assert forall|i: int| 0 <= i < s.len() && keep(#[trigger] s[i]) implies r.contains(s[i]) by {
            if i < short.len() {
                assert(keep(short[i]));
                assert(e.contains(short[i]));
                let m: int = choose|m: int| 0 <= m < e.len() && e[m] == short[i];
                assert(r[m] == s[i]);
            } else {
                assert(r[r.len() - 1] == s[i]);
            }
        }
    }
}

proof fn lemma_filter_from(s: Seq<int>, keep: spec_fn(int) -> bool)
    ensures
        forall|i: int| 0 <= i < s.filter(keep).len() ==> s.contains(#[trigger] s.filter(keep)[i]),
    decreases s.len(),
{
    reveal(Seq::filter);
    if s.len() > 0 {
        let short: Seq<int> = s.drop_last();
        lemma_filter_from(short, keep);
        let e: Seq<int> = short.filter(keep);
        let r: Seq<int> = s.filter(keep);
        assert forall|i: int| 0 <= i < r.len() implies s.contains(#[trigger] r[i]) by {
            if i < e.len() {
                assert(r[i] == e[i]);
                assert(short.contains(e[i]));
                let m: int = choose|m: int| 0 <= m < short.len() && short[m] == e[i];
                assert(s[m] == r[i]);
            } else {
                assert(s[s.len() - 1] == r[i]);
            }
        }
    }
}

/// Of the trades of a row, exactly those that an order of either side caused
/// and that have a positive reference price are in a sweep, each in one and
/// once. The trades of a sweep happened at one moment and stand in the order in
/// which they were recorded; a later sweep happened later.
pub proof fn law_sweeps_gather_directed_trades(
    row: IntervalFacts,
    messages: Seq<OrderMessage>,
    trades: Seq<TradeEvent>,
    batches: Seq<BatchClearedEvent>,
    books: Seq<BookSnapshot>,
    anchor: int,
    width: int,
    lo: int,
    n: int,
    carry: Carry,
    k: int,
)
    requires
        width > 0,
        on_grid(lo, anchor, width),
        0 <= k,
        row_holds(row, messages, trades, batches, books, anchor, width, lo, n, carry, k),
    ensures
        forall|i: int|
            0 <= i < row.trades@.len() ==> (directed(trades[#[trigger] row.trades@[i] as int]) <==> swept(
                row.sweeps@,
                row.trades@[i] as int,
            )),
        forall|j: int, m: int|
            0 <= j < row.sweeps@.len() && 0 <= m < row.sweeps@[j].trades@.len() ==> names(
                row.trades@,
                #[trigger] row.sweeps@[j].trades@[m] as int,
            ),
        forall|j: int| 0 <= j < row.sweeps@.len() ==> (#[trigger] row.sweeps@[j]).trades@.len() > 0,
        forall|j: int, m: int, l: int|
            0 <= j < row.sweeps@.len() && 0 <= m < l < row.sweeps@[j].trades@.len() ==> #[trigger] row.sweeps@[j].trades@[m]
                < #[trigger] row.sweeps@[j].trades@[l] && trades[row.sweeps@[j].trades@[m] as int].trade.ts
                == trades[row.sweeps@[j].trades@[l] as int].trade.ts,
        forall|j: int, m: int, h: int, l: int|
            0 <= j < h < row.sweeps@.len() && 0 <= m < row.sweeps@[j].trades@.len() && 0 <= l
                < row.sweeps@[h].trades@.len() ==> trades[#[trigger] row.sweeps@[j].trades@[m] as int].trade.ts
                < trades[#[trigger] row.sweeps@[h].trades@[l] as int].trade.ts,
{
    let start: int = row_start(lo, k, width);
    let at: Seq<int> = placed(trade_times(trades), anchor, width, start);
    let key: spec_fn(int) -> int = time_in(trades);
    let kept: Seq<int> = at.filter(directed_in(trades));
    let list: Seq<int> = sorted_by(kept, key);
    let parts: Seq<Seq<int>> = sweeps_among(trades, at);
    lemma_placed(trade_times(trades), anchor, width, start);
    lemma_placed_all(trade_times(trades), anchor, width, start);
    lemma_filter_kept(at, directed_in(trades));
    lemma_sorted_in_turn(kept, key);
    lemma_sorted_members(kept, key);
    lemma_runs_in_turn(list, key);
    assert forall|j: int, m: int| 0 <= j < row.sweeps@.len() && 0 <= m < row.sweeps@[j].trades@.len() implies
        #[trigger] row.sweeps@[j].trades@[m] == parts[j][m] && m < parts[j].len() by {
        assert(positions(row.sweeps@[j].trades@) == parts[j]);
        assert(positions(row.sweeps@[j].trades@)[m] == row.sweeps@[j].trades@[m]);
    }
    assert forall|j: int| 0 <= j < row.sweeps@.len() implies (#[trigger] row.sweeps@[j]).trades@.len()
        == parts[j].len() by {
        assert(positions(row.sweeps@[j].trades@) == parts[j]);
    }
    assert forall|i: int| 0 <= i < row.trades@.len() implies (directed(trades[#[trigger] row.trades@[i] as int])
        <==> swept(row.sweeps@, row.trades@[i] as int)) by {
        let x: int = row.trades@[i] as int;
        assert(positions(row.trades@)[i] == x);
        assert(at[i] == x);
        let t: TradeEvent = trades[x];
        assert(t.aggressor_side is Some ==> t.aggressor_side->0 == Side::Buy || t.aggressor_side->0 == Side::Sell);
        assert(directed(t) == directed_in(trades)(x));
        if directed(t) {
            assert(kept.contains(at[i]));
            let a: int = choose|a: int| 0 <= a < kept.len() && kept[a] == x;
            assert(list.contains(kept[a]));
            let b: int = choose|b: int| 0 <= b < list.len() && list[b] == x;
            assert(in_part(parts, list[b]));
            let (j, m): (int, int) = choose|j: int, m: int|
                0 <= j < parts.len() && 0 <= m < parts[j].len() && #[trigger] parts[j][m] == x;
            assert(row.sweeps@[j].trades@.len() == parts[j].len());
            assert(row.sweeps@[j].trades@[m] == x);
        }
        if swept(row.sweeps@, x) {
            let (j, m): (int, int) = choose|j: int, m: int|
                0 <= j < row.sweeps@.len() && 0 <= m < row.sweeps@[j].trades@.len()
                    && #[trigger] row.sweeps@[j].trades@[m] == x;
            assert(parts[j][m] == x);
            assert(list.contains(parts[j][m]));
            let b: int = choose|b: int| 0 <= b < list.len() && list[b] == x;
            assert(kept.contains(list[b]));
            let a: int = choose|a: int| 0 <= a < kept.len() && kept[a] == x;
            assert(directed_in(trades)(kept[a]));
        }
    }
    assert forall|j: int, m: int| 0 <= j < row.sweeps@.len() && 0 <= m < row.sweeps@[j].trades@.len() implies names(
        row.trades@,
        #[trigger] row.sweeps@[j].trades@[m] as int,
    ) by {
        let x: int = row.sweeps@[j].trades@[m] as int;
        assert(list.contains(parts[j][m]));
        let b: int = choose|b: int| 0 <= b < list.len() && list[b] == x;
        assert(kept.contains(list[b]));
        let a: int = choose|a: int| 0 <= a < kept.len() && kept[a] == x;
        assert(at.contains(kept[a]));
        let i: int = choose|i: int| 0 <= i < at.len() && at[i] == x;
        assert(positions(row.trades@)[i] == row.trades@[i]);
        assert(row.trades@[i] == x);
    }
    assert forall|j: int, m: int, l: int|
        0 <= j < row.sweeps@.len() && 0 <= m < l < row.sweeps@[j].trades@.len() implies #[trigger] row.sweeps@[j].trades@[m]
        < #[trigger] row.sweeps@[j].trades@[l] && trades[row.sweeps@[j].trades@[m] as int].trade.ts
        == trades[row.sweeps@[j].trades@[l] as int].trade.ts by {
        assert(parts[j][m] < parts[j][l] && key(parts[j][m]) == key(parts[j][l]));
    }
    assert forall|j: int, m: int, h: int, l: int|
        0 <= j < h < row.sweeps@.len() && 0 <= m < row.sweeps@[j].trades@.len() && 0 <= l
            < row.sweeps@[h].trades@.len() implies trades[#[trigger] row.sweeps@[j].trades@[m] as int].trade.ts
        < trades[#[trigger] row.sweeps@[h].trades@[l] as int].trade.ts by {
        assert(key(parts[j][m]) < key(parts[h][l]));
    }
}

/// The trade with the side that caused it changed to the other one.
pub open spec fn other_side(t: TradeEvent) -> TradeEvent {
    TradeEvent {
        aggressor_side: match t.aggressor_side {
            Some(Side::Buy) => Some(Side::Sell),
            Some(Side::Sell) => Some(Side::Buy),
            None => None,
        },
        ..t
    }
}

/// The two sides are treated alike: with buys and sells exchanged in every
/// trade, a row has the same sweeps.
pub proof fn law_sweeps_treat_sides_alike(
    row: IntervalFacts,
    flipped: IntervalFacts,
    messages: Seq<OrderMessage>,
    trades: Seq<TradeEvent>,
    batches: Seq<BatchClearedEvent>,
    books: Seq<BookSnapshot>,
    anchor: int,
    width: int,
    lo: int,
    n: int,
    carry: Carry,
    k: int,
)
    requires
        row_holds(row, messages, trades, batches, books, anchor, width, lo, n, carry, k),
        row_holds(
            flipped,
            messages,
            Seq::new(trades.len(), |i: int| other_side(trades[i])),
            batches,
            books,
            anchor,
            width,
            lo,
            n,
            carry,
            k,
        ),
        width > 0,
    ensures
        flipped.sweeps@.len() == row.sweeps@.len(),
        forall|j: int|
            0 <= j < row.sweeps@.len() ==> (#[trigger] row.sweeps@[j]).trades@ == flipped.sweeps@[j].trades@
                && row.sweeps@[j].after == flipped.sweeps@[j].after,
{
    let turned: Seq<TradeEvent> = Seq::new(trades.len(), |i: int| other_side(trades[i]));
    let start: int = row_start(lo, k, width);
    let at: Seq<int> = placed(trade_times(trades), anchor, width, start);
    assert(trade_times(turned) =~= trade_times(trades));
    lemma_placed(trade_times(trades), anchor, width, start);
    lemma_same_sweeps(trades, turned, at);
    assert forall|j: int| 0 <= j < row.sweeps@.len() implies (#[trigger] row.sweeps@[j]).trades@
        == flipped.sweeps@[j].trades@ && row.sweeps@[j].after == flipped.sweeps@[j].after by {
        let a: Seq<usize> = row.sweeps@[j].trades@;
        let b: Seq<usize> = flipped.sweeps@[j].trades@;
        assert(positions(a) == positions(b));
        assert forall|m: int| 0 <= m < a.len() implies a[m] == b[m] by {
            assert(positions(a)[m] == a[m] && positions(b)[m] == b[m]);
        }
        assert(a.len() == positions(a).len() && b.len() == positions(b).len());
        assert(a =~= b);
        lemma_first_in_range(trades, at, j);
    }
}

proof fn lemma_first_in_range(trades: Seq<TradeEvent>, at: Seq<int>, j: int)
    requires
        forall|i: int| 0 <= i < at.len() ==> 0 <= #[trigger] at[i] < trades.len(),
        0 <= j < sweeps_among(trades, at).len(),
    ensures
        0 <= sweeps_among(trades, at)[j][0] < trades.len(),
{
    let kept: Seq<int> = at.filter(directed_in(trades));
    let list: Seq<int> = sorted_by(kept, time_in(trades));
    crate::metrics::flushing_laws::lemma_runs_members(list, time_in(trades));
    lemma_sorted_members(kept, time_in(trades));
    assert(list.contains(sweeps_among(trades, at)[j][0]));
    let b: int = choose|b: int| 0 <= b < list.len() && list[b] == sweeps_among(trades, at)[j][0];
    assert(kept.contains(list[b]));
    let a: int = choose|a: int| 0 <= a < kept.len() && kept[a] == list[b];
    lemma_filter_from(at, directed_in(trades));
    assert(at.contains(kept[a]));
}

/// Both keys give the same for every member.
spec fn agree<U>(s: Seq<int>, f: spec_fn(int) -> U, g: spec_fn(int) -> U) -> bool {
    forall|i: int| 0 <= i < s.len() ==> f(#[trigger] s[i]) == g(s[i])
}

proof fn lemma_filter_same(s: Seq<int>, f: spec_fn(int) -> bool, g: spec_fn(int) -> bool)
    requires
        agree(s, f, g),
    ensures
        s.filter(f) == s.filter(g),
    decreases s.len(),
{
    reveal(Seq::filter);
    if s.len() > 0 {
        let short: Seq<int> = s.drop_last();
        assert forall|i: int| 0 <= i < short.len() implies f(#[trigger] short[i]) == g(short[i]) by {
            assert(short[i] == s[i]);
        }
        lemma_filter_same(short, f, g);
        assert(f(s[s.len() - 1]) == g(s[s.len() - 1]));
    }
}

proof fn lemma_placed_same(s: Seq<int>, x: int, f: spec_fn(int) -> int, g: spec_fn(int) -> int)
    requires
        agree(s, f, g),
        f(x) == g(x),
    ensures
        placed_by(s, x, f) == placed_by(s, x, g),
    decreases s.len(),
{
    if s.len() > 0 {
        let short: Seq<int> = s.drop_last();
        assert forall|i: int| 0 <= i < short.len() implies f(#[trigger] short[i]) == g(short[i]) by {
            assert(short[i] == s[i]);
        }
        lemma_placed_same(short, x, f, g);
        assert(f(s[s.len() - 1]) == g(s[s.len() - 1]));
    }
}

proof fn lemma_sorted_same(s: Seq<int>, f: spec_fn(int) -> int, g: spec_fn(int) -> int)
    requires
        agree(s, f, g),
    ensures
        sorted_by(s, f) == sorted_by(s, g),
        agree(sorted_by(s, f), f, g),
    decreases s.len(),
{
    if s.len() > 0 {
        let short: Seq<int> = s.drop_last();
        assert forall|i: int| 0 <= i < short.len() implies f(#[trigger] short[i]) == g(short[i]) by {
            assert(short[i] == s[i]);
        }
        lemma_sorted_same(short, f, g);
        assert(f(s[s.len() - 1]) == g(s[s.len() - 1]));
        lemma_placed_same(sorted_by(short, f), s.last(), f, g);
        lemma_sorted_members(s, f);
        let r: Seq<int> = sorted_by(s, f);
        assert forall|i: int| 0 <= i < r.len() implies f(#[trigger] r[i]) == g(r[i]) by {
            assert(s.contains(r[i]));
        }
    }
}

proof fn lemma_runs_same(s: Seq<int>, f: spec_fn(int) -> int, g: spec_fn(int) -> int)
    requires
        agree(s, f, g),
    ensures
        runs(s, f) == runs(s, g),
    decreases s.len(),
{
    if s.len() > 0 {
        let short: Seq<int> = s.drop_last();
        assert forall|i: int| 0 <= i < short.len() implies f(#[trigger] short[i]) == g(short[i]) by {
            assert(short[i] == s[i]);
        }
        lemma_runs_same(short, f, g);
        assert(f(s[s.len() - 1]) == g(s[s.len() - 1]));
        if s.len() > 1 {
            assert(f(s[s.len() - 2]) == g(s[s.len() - 2]));
        }
    }
}

proof fn lemma_same_sweeps(trades: Seq<TradeEvent>, turned: Seq<TradeEvent>, at: Seq<int>)
    requires
        turned.len() == trades.len(),
        forall|i: int| 0 <= i < trades.len() ==> #[trigger] turned[i] == other_side(trades[i]),
        forall|i: int| 0 <= i < at.len() ==> 0 <= #[trigger] at[i] < trades.len(),
    ensures
        sweeps_among(turned, at) == sweeps_among(trades, at),
{
    let f: spec_fn(int) -> bool = directed_in(turned);
    let g: spec_fn(int) -> bool = directed_in(trades);
    assert forall|i: int| 0 <= i < at.len() implies f(#[trigger] at[i]) == g(at[i]) by {
        assert(turned[at[i]] == other_side(trades[at[i]]));
        assert(has_direction(turned[at[i]]) == has_direction(trades[at[i]]));
    }
    lemma_filter_same(at, f, g);
    let kept: Seq<int> = at.filter(g);
    let u: spec_fn(int) -> int = time_in(turned);
    let v: spec_fn(int) -> int = time_in(trades);
    assert forall|i: int| 0 <= i < kept.len() implies u(#[trigger] kept[i]) == v(kept[i]) by {
        lemma_filter_from(at, g);
        assert(at.contains(kept[i]));
        assert(turned[kept[i]] == other_side(trades[kept[i]]));
    }
    lemma_sorted_same(kept, u, v);
    lemma_runs_same(sorted_by(kept, u), u, v);
}

} // verus!
