//! What recorders and collectors keep, and which moments their rows span.

use vstd::arithmetic::div_mod::{lemma_div_pos_is_pos, lemma_fundamental_div_mod, lemma_mod_bound};
use vstd::prelude::*;
use crate::metrics::collector::{earliest_in, CollectorState};
use crate::metrics::events::{BatchClearedEvent, BookSnapshot, OrderMessage, TradeEvent};
use crate::metrics::facts::{batch_times, book_times, message_times, trade_times};
use crate::metrics::grid::{bucket, law_bucket_holds_the_moment, law_buckets_follow_time, on_grid};
use crate::metrics::row_laws::lemma_falls;
use crate::metrics::timeseries::{earliest, latest_in, RecorderState};

verus! {

/// One of the recorded events was at this moment.
pub open spec fn happened(
    messages: Seq<OrderMessage>,
    trades: Seq<TradeEvent>,
    batches: Seq<BatchClearedEvent>,
    books: Seq<BookSnapshot>,
    ts: int,
) -> bool {
    ||| exists|i: int| 0 <= i < messages.len() && (#[trigger] messages[i]).ts == ts
    ||| exists|i: int| 0 <= i < trades.len() && (#[trigger] trades[i]).trade.ts == ts
    ||| exists|i: int| 0 <= i < batches.len() && (#[trigger] batches[i]).ts == ts
    ||| exists|i: int| 0 <= i < books.len() && (#[trigger] books[i]).ts == ts
}

pub proof fn lemma_extremes(times: Seq<u64>)
    ensures
        forall|i: int| 0 <= i < times.len() ==> earliest_in(times) <= #[trigger] times[i] <= latest_in(times),
        times.len() > 0 ==> exists|i: int| 0 <= i < times.len() && #[trigger] times[i] == earliest_in(times),
        times.len() > 0 ==> exists|i: int| 0 <= i < times.len() && #[trigger] times[i] == latest_in(times),
        times.len() == 0 ==> earliest_in(times) == u64::MAX && latest_in(times) == 0,
        0 <= earliest_in(times) <= u64::MAX,
        0 <= latest_in(times) <= u64::MAX,
    decreases times.len(),
{
    if times.len() > 0 {
        let short: Seq<u64> = times.drop_last();
        lemma_extremes(short);
        assert(times[times.len() - 1] == times.last());
        assert forall|i: int| 0 <= i < times.len() implies earliest_in(times) <= #[trigger] times[i] <= latest_in(times) by {
            if i < short.len() {
                assert(short[i] == times[i]);
            }
        }
        if short.len() > 0 {
            let i: int = choose|i: int| 0 <= i < short.len() && #[trigger] short[i] == earliest_in(short);
            assert(times[i] == short[i]);
            let j: int = choose|j: int| 0 <= j < short.len() && #[trigger] short[j] == latest_in(short);
            assert(times[j] == short[j]);
        }
    }
}

/// The rows of a collector span exactly what was recorded: from the earliest
/// moment, in intervals of its width, as many as it takes to reach the latest.
/// Without a width, or with nothing recorded, there are none.
pub proof fn law_collected_rows_span_the_record(s: CollectorState, ts: int)
    requires
        s.width >= 0,
        happened(s.messages, s.trades, s.batches, s.books, ts),
    ensures
        s.first() <= ts <= s.last(),
        happened(s.messages, s.trades, s.batches, s.books, s.first()),
        happened(s.messages, s.trades, s.batches, s.books, s.last()),
        s.width > 0 && s.first() < u64::MAX ==> s.row_count() > 0 && s.first() + (s.row_count() - 1) * s.width
            <= s.last() < s.first() + s.row_count() * s.width,
        s.width == 0 ==> s.row_count() == 0,
{
    let m: Seq<u64> = message_times(s.messages);
    let t: Seq<u64> = trade_times(s.trades);
    let b: Seq<u64> = batch_times(s.batches);
    let k: Seq<u64> = book_times(s.books);
    lemma_extremes(m);
    lemma_extremes(t);
    lemma_extremes(b);
    lemma_extremes(k);
    lemma_moments(s);
    if exists|i: int| 0 <= i < s.messages.len() && (#[trigger] s.messages[i]).ts == ts {
        let i: int = choose|i: int| 0 <= i < s.messages.len() && (#[trigger] s.messages[i]).ts == ts;
        assert(m[i] == ts);
    } else if exists|i: int| 0 <= i < s.trades.len() && (#[trigger] s.trades[i]).trade.ts == ts {
        let i: int = choose|i: int| 0 <= i < s.trades.len() && (#[trigger] s.trades[i]).trade.ts == ts;
        assert(t[i] == ts);
    } else if exists|i: int| 0 <= i < s.batches.len() && (#[trigger] s.batches[i]).ts == ts {
        let i: int = choose|i: int| 0 <= i < s.batches.len() && (#[trigger] s.batches[i]).ts == ts;
        assert(b[i] == ts);
    } else {
        let i: int = choose|i: int| 0 <= i < s.books.len() && (#[trigger] s.books[i]).ts == ts;
        assert(k[i] == ts);
    }
    if s.width > 0 && s.first() < u64::MAX {
        let d: int = s.last() - s.first();
        lemma_fundamental_div_mod(d, s.width);
        lemma_mod_bound(d, s.width);
        lemma_div_pos_is_pos(d, s.width);
        let q: int = d / s.width;
        assert((q + 1) * s.width == s.width * q + s.width) by (nonlinear_arith);
        assert(q * s.width == s.width * q) by (nonlinear_arith);
    }
}

/// Every moment of a list of events happened.
proof fn lemma_moments(s: CollectorState)
    ensures
        forall|i: int|
            0 <= i < s.messages.len() ==> happened(
                s.messages,
                s.trades,
                s.batches,
                s.books,
                #[trigger] message_times(s.messages)[i] as int,
            ),
        forall|i: int|
            0 <= i < s.trades.len() ==> happened(
                s.messages,
                s.trades,
                s.batches,
                s.books,
                #[trigger] trade_times(s.trades)[i] as int,
            ),
        forall|i: int|
            0 <= i < s.batches.len() ==> happened(
                s.messages,
                s.trades,
                s.batches,
                s.books,
                #[trigger] batch_times(s.batches)[i] as int,
            ),
        forall|i: int|
            0 <= i < s.books.len() ==> happened(
                s.messages,
                s.trades,
                s.batches,
                s.books,
                #[trigger] book_times(s.books)[i] as int,
            ),
{
    assert forall|i: int| 0 <= i < s.messages.len() implies happened(
        s.messages,
        s.trades,
        s.batches,
        s.books,
        #[trigger] message_times(s.messages)[i] as int,
    ) by {
        assert(s.messages[i].ts == message_times(s.messages)[i]);
    }
    assert forall|i: int| 0 <= i < s.trades.len() implies happened(
        s.messages,
        s.trades,
        s.batches,
        s.books,
        #[trigger] trade_times(s.trades)[i] as int,
    ) by {
        assert(s.trades[i].trade.ts == trade_times(s.trades)[i]);
    }
    assert forall|i: int| 0 <= i < s.batches.len() implies happened(
        s.messages,
        s.trades,
        s.batches,
        s.books,
        #[trigger] batch_times(s.batches)[i] as int,
    ) by {
        assert(s.batches[i].ts == batch_times(s.batches)[i]);
    }
    assert forall|i: int| 0 <= i < s.books.len() implies happened(
        s.messages,
        s.trades,
        s.batches,
        s.books,
        #[trigger] book_times(s.books)[i] as int,
    ) by {
        assert(s.books[i].ts == book_times(s.books)[i]);
    }
}

/// A grid that has not started begins at the earliest message, if there is one
/// before the end of time; one that has started stays where it is.
pub proof fn law_grid_starts_at_the_earliest(s: RecorderState, messages: Seq<OrderMessage>)
    ensures
        s.anchor is Some ==> s.anchored(messages) == s,
        s.anchor is None ==> match s.anchored(messages).anchor {
            Some(a) => {
                &&& s.anchored(messages).emitted == a
                &&& exists|i: int| 0 <= i < messages.len() && (#[trigger] messages[i]).ts == a
                &&& forall|i: int| 0 <= i < messages.len() ==> a <= (#[trigger] messages[i]).ts
            },
            None => forall|i: int| 0 <= i < messages.len() ==> (#[trigger] messages[i]).ts == u64::MAX,
        },
{
    lemma_earliest(messages);
}

proof fn lemma_earliest(messages: Seq<OrderMessage>)
    ensures
        match earliest(messages) {
            Some(a) => {
                &&& 0 <= a < u64::MAX
                &&& exists|i: int| 0 <= i < messages.len() && (#[trigger] messages[i]).ts == a
                &&& forall|i: int| 0 <= i < messages.len() ==> a <= (#[trigger] messages[i]).ts
            },
            None => forall|i: int| 0 <= i < messages.len() ==> (#[trigger] messages[i]).ts == u64::MAX,
        },
    decreases messages.len(),
{
    if messages.len() > 0 {
        let short: Seq<OrderMessage> = messages.drop_last();
        lemma_earliest(short);
        assert(messages[messages.len() - 1] == messages.last());
        assert forall|i: int| 0 <= i < short.len() implies #[trigger] messages[i] == short[i] by {}
        if let Some(a) = earliest(short) {
            let i: int = choose|i: int| 0 <= i < short.len() && (#[trigger] short[i]).ts == a;
            assert(messages[i].ts == a);
        }
        match earliest(messages) {
            Some(a) => {
                assert forall|i: int| 0 <= i < messages.len() implies a <= (#[trigger] messages[i]).ts by {
                    if i < short.len() {
                        assert(short[i].ts == messages[i].ts);
                    }
                }
            },
            None => {
                assert forall|i: int| 0 <= i < messages.len() implies (#[trigger] messages[i]).ts == u64::MAX by {
                    if i < short.len() {
                        assert(short[i].ts == u64::MAX);
                    }
                }
            },
        }
    }
}

/// Whether the moment is before what was handed out; the first interval counts
/// with all before it, once it was.
pub open spec fn is_past(s: RecorderState, ts: int) -> bool {
    s.anchor is Some && s.anchor->0 < s.emitted && ts < s.emitted
}

pub proof fn lemma_past(s: RecorderState, ts: int)
    requires
        s.width > 0,
        s.anchor is Some,
        on_grid(s.emitted, s.anchor->0, s.width),
    ensures
        s.is_late(ts) == is_past(s, ts),
        s.is_late(ts) == (bucket(ts, s.anchor->0, s.width) < s.emitted),
{
    let a: int = s.anchor->0;
    law_bucket_holds_the_moment(ts, a, s.width);
    lemma_falls(s.emitted, a, s.width, s.emitted);
    if ts >= s.emitted {
        law_buckets_follow_time(s.emitted, ts, a, s.width);
    }
}

/// An event is recorded after those of its kind, and nothing else changes, if
/// its moment has not been handed out; else it is only counted. The first event
/// starts the grid at its moment.
pub proof fn law_events_are_kept(s: RecorderState, t: TradeEvent, b: BatchClearedEvent, book: BookSnapshot)
    requires
        s.width > 0,
        s.anchor is Some ==> on_grid(s.emitted, s.anchor->0, s.width),
        0 <= s.late < u64::MAX,
    ensures
        s.anchor is Some && !is_past(s, t.trade.ts as int) ==> s.with_trade(t) == (RecorderState {
            trades: s.trades.push(t),
            ..s
        }),
        s.anchor is Some && is_past(s, t.trade.ts as int) ==> s.with_trade(t) == (RecorderState { late: s.late + 1, ..s }),
        s.anchor is Some && !is_past(s, b.ts as int) ==> s.with_batch(b) == (RecorderState {
            batches: s.batches.push(b),
            ..s
        }),
        s.anchor is Some && is_past(s, b.ts as int) ==> s.with_batch(b) == (RecorderState { late: s.late + 1, ..s }),
        s.anchor is Some && !is_past(s, book.ts as int) ==> s.with_book(book) == (RecorderState {
            books: s.books.push(book),
            ..s
        }),
        s.anchor is Some && is_past(s, book.ts as int) ==> s.with_book(book) == (RecorderState { late: s.late + 1, ..s }),
        s.anchor is None ==> s.with_trade(t) == (RecorderState {
            anchor: Some(t.trade.ts as int),
            emitted: t.trade.ts as int,
            trades: s.trades.push(t),
            ..s
        }),
        s.anchor is None ==> s.with_batch(b) == (RecorderState {
            anchor: Some(b.ts as int),
            emitted: b.ts as int,
            batches: s.batches.push(b),
            ..s
        }),
        s.anchor is None ==> s.with_book(book) == (RecorderState {
            anchor: Some(book.ts as int),
            emitted: book.ts as int,
            books: s.books.push(book),
            ..s
        }),
{
    if s.anchor is Some {
        lemma_past(s, t.trade.ts as int);
        lemma_past(s, b.ts as int);
        lemma_past(s, book.ts as int);
    }
}

/// Dropping what was handed out keeps the events that are not past, in their
/// order, and only those.
pub proof fn law_pruning_drops_what_is_past(s: RecorderState, t: TradeEvent, b: BatchClearedEvent, book: BookSnapshot)
    requires
        s.width > 0,
        s.anchor is Some,
        on_grid(s.emitted, s.anchor->0, s.width),
    ensures
        s.pruned().trades.contains(t) <==> s.trades.contains(t) && !is_past(s, t.trade.ts as int),
        s.pruned().batches.contains(b) <==> s.batches.contains(b) && !is_past(s, b.ts as int),
        s.pruned().books.contains(book) <==> s.books.contains(book) && !is_past(s, book.ts as int),
        s.pruned().anchor == s.anchor,
        s.pruned().emitted == s.emitted,
        s.pruned().carry == s.carry,
        s.pruned().late == s.late,
{
    let (a, w, c): (int, int, int) = (s.anchor->0, s.width, s.emitted);
    lemma_past(s, t.trade.ts as int);
    lemma_past(s, b.ts as int);
    lemma_past(s, book.ts as int);
    lemma_kept(s.trades, crate::metrics::timeseries::trade_kept(a, w, c), t);
    lemma_kept(s.batches, crate::metrics::timeseries::batch_kept(a, w, c), b);
    lemma_kept(s.books, crate::metrics::timeseries::book_kept(a, w, c), book);
}

pub proof fn lemma_kept<T>(s: Seq<T>, keep: spec_fn(T) -> bool, x: T)
    ensures
        s.filter(keep).contains(x) <==> s.contains(x) && keep(x),
    decreases s.len(),
{
    reveal(Seq::filter);
    if s.len() > 0 {
        let short: Seq<T> = s.drop_last();
        lemma_kept(short, keep, x);
        let e: Seq<T> = short.filter(keep);
        let r: Seq<T> = s.filter(keep);
        if e.contains(x) {
            let i: int = choose|i: int| 0 <= i < e.len() && e[i] == x;
            assert(r[i] == x);
        }
        if short.contains(x) {
            let i: int = choose|i: int| 0 <= i < short.len() && short[i] == x;
            assert(s[i] == x);
        }
        if s.last() == x {
            assert(s[s.len() - 1] == x);
            if keep(x) {
                assert(r[r.len() - 1] == x);
            }
        }
        if r.contains(x) {
            let i: int = choose|i: int| 0 <= i < r.len() && r[i] == x;
            if i < e.len() {
                assert(e[i] == x);
            }
        }
        if s.contains(x) && s.last() != x {
            let i: int = choose|i: int| 0 <= i < s.len() && s[i] == x;
            assert(short[i] == x);
        }
    }
}

} // verus!
