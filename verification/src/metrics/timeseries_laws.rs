//! Laws of the time series: handing rows out in pieces, recording more
//! events meanwhile and dropping the settled ones does not change a row.

use vstd::prelude::*;
use crate::metrics::events::{BatchClearedEvent, BookSnapshot, OrderMessage, TradeEvent};
use crate::metrics::facts::{
    batch_times, book_times, clearing_before, close_before, point_times, points_in, row_holds, trade_times, Carry,
    IntervalFacts,
};
use crate::metrics::grid::{
    bucket, law_buckets_follow_time, lemma_on_grid_later, lemma_placed, lemma_rows_between, on_grid, placed,
    row_start, rows_between,
};
use crate::metrics::series::{
    batch_point, batch_points, book_point, book_points, by_ts, earlier_than, price_from, series, PricePoint, RefPrice,
};
use crate::metrics::timeseries::{batch_kept, book_kept, trade_kept, RecorderState};
use crate::seqs::{leading, lemma_leading, lemma_leading_run};
use crate::sorting::{ascends_by, lemma_sorted_by_ascends, lemma_sorted_by_filter, pick, placed_by, sorted_by};

verus! {

/// Batches recorded in order of time.
pub open spec fn in_time_order(batches: Seq<BatchClearedEvent>) -> bool {
    forall|i: int, j: int| 0 <= i <= j < batches.len() ==> (#[trigger] batches[i]).ts <= (#[trigger] batches[j]).ts
}

/// No batch of these is of an interval at or after `end`: then it makes no
/// difference which later end is looked at.
pub proof fn lemma_clearing_end(
    batches: Seq<BatchClearedEvent>,
    a: int,
    w: int,
    end1: int,
    end2: int,
    carried: Option<u128>,
)
    requires
        end1 <= end2,
        forall|j: int| 0 <= j < batches.len() ==> bucket((#[trigger] batches[j]).ts as int, a, w) < end1,
    ensures
        clearing_before(batches, a, w, end1, carried) == clearing_before(batches, a, w, end2, carried),
    decreases batches.len(),
{
    if batches.len() > 0 {
        assert(bucket(batches[batches.len() - 1].ts as int, a, w) < end1);
        let short: Seq<BatchClearedEvent> = batches.drop_last();
        assert forall|j: int| 0 <= j < short.len() implies bucket((#[trigger] short[j]).ts as int, a, w) < end1 by {
            assert(bucket(batches[j].ts as int, a, w) < end1);
        }
        lemma_clearing_end(short, a, w, end1, end2, carried);
    }
}

/// Batches of intervals at or after `end` are passed over.
pub proof fn lemma_clearing_prefix(batches: Seq<BatchClearedEvent>, i: int, a: int, w: int, end: int, carried: Option<u128>)
    requires
        0 <= i <= batches.len(),
        forall|j: int| i <= j < batches.len() ==> bucket((#[trigger] batches[j]).ts as int, a, w) >= end,
    ensures
        clearing_before(batches, a, w, end, carried) == clearing_before(batches.take(i), a, w, end, carried),
    decreases batches.len() - i,
{
    if i < batches.len() {
        assert(bucket(batches[batches.len() - 1].ts as int, a, w) >= end);
        let short: Seq<BatchClearedEvent> = batches.drop_last();
        assert forall|j: int| i <= j < short.len() implies bucket((#[trigger] short[j]).ts as int, a, w) >= end by {
            assert(bucket(batches[j].ts as int, a, w) >= end);
        }
        lemma_clearing_prefix(short, i, a, w, end, carried);
        assert(short.take(i) =~= batches.take(i));
    } else {
        assert(batches.take(i) =~= batches);
    }
}

/// The price carried on from an earlier end is the one that would have been
/// found anyway.
pub proof fn lemma_clearing_carried(batches: Seq<BatchClearedEvent>, a: int, w: int, end1: int, end2: int, carried: Option<u128>)
    requires
        end1 <= end2,
    ensures
        clearing_before(batches, a, w, end2, clearing_before(batches, a, w, end1, carried)) == clearing_before(
            batches,
            a,
            w,
            end2,
            carried,
        ),
    decreases batches.len(),
{
    if batches.len() > 0 {
        let last: BatchClearedEvent = batches.last();
        let short: Seq<BatchClearedEvent> = batches.drop_last();
        if !(bucket(last.ts as int, a, w) < end2 && last.clearing_price is Some) {
            lemma_clearing_carried(short, a, w, end1, end2, carried);
        }
    }
}

pub proof fn lemma_close_carried(prices: Seq<PricePoint>, a: int, w: int, lo: int, n1: int, k: int, carried: Option<RefPrice>)
    requires
        n1 >= 0,
        k >= 0,
    ensures
        close_before(
            prices,
            a,
            w,
            row_start(lo, n1, w),
            k,
            close_before(prices, a, w, lo, n1, carried),
        ) == close_before(prices, a, w, lo, n1 + k, carried),
    decreases k,
{
    if k > 0 {
        lemma_close_carried(prices, a, w, lo, n1, k - 1, carried);
        assert(row_start(row_start(lo, n1, w), k - 1, w) == row_start(lo, n1 + k - 1, w)) by (nonlinear_arith);
    }
}

pub proof fn lemma_rows_split(lo: int, hi1: int, hi2: int, w: int)
    requires
        w > 0,
        hi1 <= hi2,
    ensures
        ({
            let n1 = rows_between(lo, hi1, w);
            rows_between(lo, hi2, w) == n1 + rows_between(row_start(lo, n1, w), hi2, w)
        }),
{
    lemma_rows_between(lo, hi1, w);
    lemma_rows_between(lo, hi2, w);
    let n1: int = rows_between(lo, hi1, w);
    let n: int = rows_between(lo, hi2, w);
    let lo2: int = row_start(lo, n1, w);
    lemma_rows_between(lo2, hi2, w);
    let n2: int = rows_between(lo2, hi2, w);
    assert(row_start(lo, n1 + n2, w) == row_start(lo2, n2, w)) by (nonlinear_arith)
        requires
            lo2 == lo + n1 * w,
    ;
    if n1 > 0 {
        assert(row_start(lo, n1 - 1, w) < hi1);
    }
    if n2 > 0 {
        assert(row_start(lo2, n2 - 1, w) < hi2);
        assert(row_start(lo, n1 + n2 - 1, w) == row_start(lo2, n2 - 1, w)) by (nonlinear_arith)
            requires
                lo2 == lo + n1 * w,
        ;
        assert(n1 + n2 - 1 < n);
    } else if n1 > 0 {
        assert(row_start(lo, n1 - 1, w) < hi2);
        assert(n1 - 1 < n);
    }
    assert(!(n1 + n2 < n)) by {
        assert(!(row_start(lo2, n2, w) < hi2));
    }
}

/// A row that was computed as one of `n1` is also the row among `n`.
proof fn lemma_row_among_more(
    row: IntervalFacts,
    messages: Seq<OrderMessage>,
    s: RecorderState,
    n1: int,
    n: int,
    k: int,
)
    requires
        s.width > 0,
        s.anchor is Some,
        on_grid(s.emitted, s.anchor->0, s.width),
        in_time_order(s.batches),
        0 <= k < n1 <= n,
        row_holds(row, messages, s.trades, s.batches, s.books, s.anchor->0, s.width, s.emitted, n1, s.carry, k),
    ensures
        row_holds(row, messages, s.trades, s.batches, s.books, s.anchor->0, s.width, s.emitted, n, s.carry, k),
{
    let a: int = s.anchor->0;
    let w: int = s.width;
    let lo: int = s.emitted;
    let end1: int = row_start(lo, n1, w);
    let end: int = row_start(lo, n, w);
    let start: int = row_start(lo, k, w);
    assert(start < end1 <= end) by (nonlinear_arith)
        requires
            start == lo + k * w,
            end1 == lo + n1 * w,
            end == lo + n * w,
            k < n1 <= n,
            w > 0,
    ;
    let at: Seq<int> = placed(batch_times(s.batches), a, w, start);
    lemma_placed(batch_times(s.batches), a, w, start);
    assert forall|i: int| 0 <= i < at.len() implies #[trigger] row.prior_clearing@[i] == clearing_before(
        s.batches.take(at[i]),
        a,
        w,
        end,
        s.carry.prev_clearing,
    ) by {
        let p: int = at[i];
        assert(0 <= p < s.batches.len() && bucket(s.batches[p].ts as int, a, w) == start);
        let head: Seq<BatchClearedEvent> = s.batches.take(p);
        assert forall|j: int| 0 <= j < head.len() implies bucket((#[trigger] head[j]).ts as int, a, w) < end1 by {
            assert(s.batches[j].ts <= s.batches[p].ts);
            law_buckets_follow_time(s.batches[j].ts as int, s.batches[p].ts as int, a, w);
        }
        lemma_clearing_end(head, a, w, end1, end, s.carry.prev_clearing);
        assert(row.prior_clearing@[i] == clearing_before(head, a, w, end1, s.carry.prev_clearing));
    }
}

/// A row of the second piece is a later row of the whole.
proof fn lemma_row_of_second_piece(
    row: IntervalFacts,
    messages: Seq<OrderMessage>,
    s: RecorderState,
    carry: Carry,
    n1: int,
    n2: int,
    k: int,
)
    requires
        s.width > 0,
        s.anchor is Some,
        on_grid(s.emitted, s.anchor->0, s.width),
        in_time_order(s.batches),
        0 <= n1,
        0 <= k < n2,
        carry.prev_close == close_before(
            series(s.books, s.batches),
            s.anchor->0,
            s.width,
            s.emitted,
            n1,
            s.carry.prev_close,
        ),
        carry.prev_clearing == clearing_before(
            s.batches,
            s.anchor->0,
            s.width,
            row_start(s.emitted, n1, s.width),
            s.carry.prev_clearing,
        ),
        row_holds(
            row,
            messages,
            s.trades,
            s.batches,
            s.books,
            s.anchor->0,
            s.width,
            row_start(s.emitted, n1, s.width),
            n2,
            carry,
            k,
        ),
    ensures
        row_holds(
            row,
            messages,
            s.trades,
            s.batches,
            s.books,
            s.anchor->0,
            s.width,
            s.emitted,
            n1 + n2,
            s.carry,
            n1 + k,
        ),
{
    let a: int = s.anchor->0;
    let w: int = s.width;
    let lo: int = s.emitted;
    let lo2: int = row_start(lo, n1, w);
    let end: int = row_start(lo, n1 + n2, w);
    let start: int = row_start(lo, n1 + k, w);
    assert(start == row_start(lo2, k, w) && end == row_start(lo2, n2, w) && lo2 <= start && lo2 <= end) by (nonlinear_arith)
        requires
            start == lo + (n1 + k) * w,
            lo2 == lo + n1 * w,
            end == lo + (n1 + n2) * w,
            w > 0,
            k >= 0,
            n2 >= 0,
    ;
    lemma_close_carried(series(s.books, s.batches), a, w, lo, n1, k, s.carry.prev_close);
    let at: Seq<int> = placed(batch_times(s.batches), a, w, start);
    lemma_placed(batch_times(s.batches), a, w, start);
    assert forall|i: int| 0 <= i < at.len() implies #[trigger] row.prior_clearing@[i] == clearing_before(
        s.batches.take(at[i]),
        a,
        w,
        end,
        s.carry.prev_clearing,
    ) by {
        let p: int = at[i];
        assert(0 <= p < s.batches.len() && bucket(s.batches[p].ts as int, a, w) == start);
        let head: Seq<BatchClearedEvent> = s.batches.take(p);
        assert forall|j: int| p <= j < s.batches.len() implies bucket((#[trigger] s.batches[j]).ts as int, a, w) >= lo2 by {
            assert(s.batches[p].ts <= s.batches[j].ts);
            law_buckets_follow_time(s.batches[p].ts as int, s.batches[j].ts as int, a, w);
        }
        lemma_clearing_prefix(s.batches, p, a, w, lo2, s.carry.prev_clearing);
        lemma_clearing_carried(head, a, w, lo2, end, s.carry.prev_clearing);
        assert(row.prior_clearing@[i] == clearing_before(head, a, w, end, carry.prev_clearing));
    }
}

/// Handing out the rows up to one moment and then those up to a later one
/// gives the same rows, and leaves the same recorder, as handing them all out
/// at once.
pub proof fn law_pieces_make_the_whole(
    s: RecorderState,
    messages: Seq<OrderMessage>,
    hi1: int,
    hi2: int,
    rows1: Seq<IntervalFacts>,
    rows2: Seq<IntervalFacts>,
)
    requires
        s.width > 0,
        s.anchor is Some,
        on_grid(s.emitted, s.anchor->0, s.width),
        in_time_order(s.batches),
        hi1 <= hi2 <= u64::MAX,
        s.emitted <= u64::MAX,
        s.are_rows(messages, hi1, rows1),
        s.emitted_to(hi1).are_rows(messages, hi2, rows2),
    ensures
        s.are_rows(messages, hi2, rows1 + rows2),
        s.emitted_to(hi1).emitted_to(hi2) == s.emitted_to(hi2),
{
    let a: int = s.anchor->0;
    let w: int = s.width;
    let lo: int = s.emitted;
    let n1: int = s.due(hi1);
    let n: int = s.due(hi2);
    let lo2: int = row_start(lo, n1, w);
    let prices: Seq<PricePoint> = series(s.books, s.batches);
    lemma_rows_between(lo, hi1, w);
    lemma_rows_between(lo, hi2, w);
    lemma_rows_split(lo, hi1, hi2, w);
    let mid: RecorderState = s.emitted_to(hi1);
    let n2: int = mid.due(hi2);
    lemma_rows_between(lo2, hi2, w);
    lemma_on_grid_later(lo, n1, a, w);
    let whole: Seq<IntervalFacts> = rows1 + rows2;
    if n1 == 0 {
        assert(mid == s);
        assert(lo2 == lo);
        assert(whole =~= rows2);
        assert(rows1.len() == 0);
    } else {
        assert(n2 == n - n1) by {
            if lo2 > u64::MAX {
                assert(rows_between(lo2, hi2, w) == 0);
                assert(rows_between(mid.emitted, hi2, w) == 0);
            }
        }
        assert forall|k: int| 0 <= k < whole.len() implies row_holds(
            #[trigger] whole[k],
            messages,
            s.trades,
            s.batches,
            s.books,
            a,
            w,
            lo,
            n,
            s.carry,
            k,
        ) by {
            if k < n1 {
                assert(whole[k] == rows1[k]);
                lemma_row_among_more(rows1[k], messages, s, n1, n, k);
            } else {
                assert(whole[k] == rows2[k - n1]);
                assert(mid.emitted == lo2) by {
                    if lo2 > u64::MAX {
                        assert(rows_between(mid.emitted, hi2, w) == 0);
                    }
                }
                lemma_row_of_second_piece(rows2[k - n1], messages, s, mid.carry, n1, n2, k - n1);
            }
        }
        if n2 > 0 {
            assert(mid.emitted == lo2) by {
                if lo2 > u64::MAX {
                    assert(rows_between(mid.emitted, hi2, w) == 0);
                }
            }
            assert(row_start(lo2, n2, w) == row_start(lo, n, w)) by (nonlinear_arith)
                requires
                    lo2 == lo + n1 * w,
                    n == n1 + n2,
            ;
            assert(lo2 <= row_start(lo, n, w)) by (nonlinear_arith)
                requires
                    lo2 == lo + n1 * w,
                    n >= n1,
                    w > 0,
            ;
            lemma_close_carried(prices, a, w, lo, n1, n2, s.carry.prev_close);
            lemma_clearing_carried(s.batches, a, w, lo2, row_start(lo, n, w), s.carry.prev_clearing);
        }
    }
}

/// One row for every interval, with no gap: the rows handed out start one
/// interval apart, at the moment up to which rows had been handed out before.
pub proof fn law_rows_leave_no_gap(
    s: RecorderState,
    messages: Seq<OrderMessage>,
    hi: int,
    rows: Seq<IntervalFacts>,
)
    requires
        s.width > 0,
        s.anchor is Some,
        s.are_rows(messages, hi, rows),
    ensures
        forall|k: int| 0 <= k < rows.len() ==> (#[trigger] rows[k]).start == s.emitted + k * s.width,
        forall|k: int| 0 <= k < rows.len() ==> (#[trigger] rows[k]).start < hi,
        s.emitted_to(hi).emitted >= hi || s.emitted_to(hi).emitted == u64::MAX,
{
    lemma_rows_between(s.emitted, hi, s.width);
    assert forall|k: int| 0 <= k < rows.len() implies (#[trigger] rows[k]).start == s.emitted + k * s.width && rows[k].start
        < hi by {
        assert(row_start(s.emitted, k, s.width) < hi);
    }
    assert(!(row_start(s.emitted, s.due(hi), s.width) < hi));
}

/// An event for an interval that has been handed out is counted, and
/// otherwise leaves the recorder as it was.
pub proof fn law_late_events_are_only_counted(s: RecorderState, t: TradeEvent, b: BatchClearedEvent, book: BookSnapshot)
    requires
        s.anchor is Some,
        s.late < u64::MAX,
    ensures
        s.is_late(t.trade.ts as int) ==> s.with_trade(t) == (RecorderState { late: s.late + 1, ..s }),
        s.is_late(b.ts as int) ==> s.with_batch(b) == (RecorderState { late: s.late + 1, ..s }),
        s.is_late(book.ts as int) ==> s.with_book(book) == (RecorderState { late: s.late + 1, ..s }),
{
}

/// The moments of a list of events.
pub open spec fn times_by<T>(s: Seq<T>, f: spec_fn(T) -> u64) -> Seq<u64> {
    Seq::new(s.len(), |i: int| f(s[i]))
}

pub open spec fn in_interval<T>(f: spec_fn(T) -> u64, a: int, w: int, start: int) -> spec_fn(T) -> bool {
    |x: T| bucket(f(x) as int, a, w) == start
}

/// The events placed in an interval are those whose moment is in it.
pub proof fn lemma_pick_placed<T>(s: Seq<T>, f: spec_fn(T) -> u64, a: int, w: int, start: int)
    ensures
        pick(s, placed(times_by(s, f), a, w, start)) == s.filter(in_interval(f, a, w, start)),
    decreases s.len(),
{
    reveal(Seq::filter);
    let times: Seq<u64> = times_by(s, f);
    let p = in_interval(f, a, w, start);
    if s.len() == 0 {
        assert(pick(s, placed(times, a, w, start)) =~= s.filter(p));
    } else {
        let short: Seq<T> = s.drop_last();
        lemma_pick_placed(short, f, a, w, start);
        assert(times.drop_last() =~= times_by(short, f));
        let at: Seq<int> = placed(times_by(short, f), a, w, start);
        lemma_placed(times_by(short, f), a, w, start);
        assert(pick(s, at) =~= pick(short, at)) by {
            assert forall|i: int| 0 <= i < at.len() implies s[at[i]] == short[at[i]] by {
                assert(0 <= at[i] < times_by(short, f).len());
            }
        }
        if p(s.last()) {
            assert(pick(s, at.push(s.len() - 1)) =~= pick(s, at).push(s.last()));
        }
    }
}

/// Leaving out elements that would be left out later makes no difference.
pub proof fn lemma_filter_twice<T>(s: Seq<T>, keep: spec_fn(T) -> bool, p: spec_fn(T) -> bool)
    requires
        forall|x: T| #[trigger] p(x) ==> keep(x),
    ensures
        s.filter(keep).filter(p) == s.filter(p),
    decreases s.len(),
{
    reveal(Seq::filter);
    if s.len() == 0 {
        assert(s.filter(keep) =~= s);
    } else {
        lemma_filter_twice(s.drop_last(), keep, p);
        if keep(s.last()) {
            let t: Seq<T> = s.drop_last().filter(keep);
            assert(t.push(s.last()).drop_last() =~= t);
        } else {
            assert(!p(s.last()));
        }
    }
}

pub open spec fn trade_moment() -> spec_fn(TradeEvent) -> u64 {
    |t: TradeEvent| t.trade.ts
}

pub open spec fn batch_moment() -> spec_fn(BatchClearedEvent) -> u64 {
    |b: BatchClearedEvent| b.ts
}

pub open spec fn book_moment() -> spec_fn(BookSnapshot) -> u64 {
    |s: BookSnapshot| s.ts
}

pub open spec fn point_moment() -> spec_fn(PricePoint) -> u64 {
    |p: PricePoint| p.ts
}

pub open spec fn point_kept(a: int, w: int, cutoff: int) -> spec_fn(PricePoint) -> bool {
    |p: PricePoint| bucket(p.ts as int, a, w) >= cutoff
}

/// The trades of the interval that starts at `start`.
pub open spec fn trades_in(s: RecorderState, start: int) -> Seq<TradeEvent> {
    pick(s.trades, placed(trade_times(s.trades), s.anchor->0, s.width, start))
}

/// The batches of the interval that starts at `start`.
pub open spec fn batches_in(s: RecorderState, start: int) -> Seq<BatchClearedEvent> {
    pick(s.batches, placed(batch_times(s.batches), s.anchor->0, s.width, start))
}

/// The books of the interval that starts at `start`.
pub open spec fn books_in(s: RecorderState, start: int) -> Seq<BookSnapshot> {
    pick(s.books, placed(book_times(s.books), s.anchor->0, s.width, start))
}

proof fn lemma_book_points_kept(books: Seq<BookSnapshot>, a: int, w: int, cutoff: int)
    ensures
        book_points(books.filter(book_kept(a, w, cutoff))) == book_points(books).filter(point_kept(a, w, cutoff)),
    decreases books.len(),
{
    reveal(Seq::filter);
    let keep = book_kept(a, w, cutoff);
    let p = point_kept(a, w, cutoff);
    if books.len() == 0 {
        assert(books.filter(keep) =~= books);
        assert(book_points(books).filter(p) =~= book_points(books));
    } else {
        let short: Seq<BookSnapshot> = books.drop_last();
        lemma_book_points_kept(short, a, w, cutoff);
        let kept: Seq<BookSnapshot> = short.filter(keep);
        assert(kept.push(books.last()).drop_last() =~= kept);
        let e: Seq<PricePoint> = book_points(short);
        match book_point(books.last()) {
            Some(point) => {
                assert(e.push(point).drop_last() =~= e);
            },
            None => {},
        }
    }
}

proof fn lemma_batch_points_kept(batches: Seq<BatchClearedEvent>, a: int, w: int, cutoff: int)
    ensures
        batch_points(batches.filter(batch_kept(a, w, cutoff))) == batch_points(batches).filter(point_kept(a, w, cutoff)),
    decreases batches.len(),
{
    reveal(Seq::filter);
    let keep = batch_kept(a, w, cutoff);
    let p = point_kept(a, w, cutoff);
    if batches.len() == 0 {
        assert(batches.filter(keep) =~= batches);
        assert(batch_points(batches).filter(p) =~= batch_points(batches));
    } else {
        let short: Seq<BatchClearedEvent> = batches.drop_last();
        lemma_batch_points_kept(short, a, w, cutoff);
        let kept: Seq<BatchClearedEvent> = short.filter(keep);
        assert(kept.push(batches.last()).drop_last() =~= kept);
        let e: Seq<PricePoint> = batch_points(short);
        match batch_point(batches.last()) {
            Some(point) => {
                assert(e.push(point).drop_last() =~= e);
            },
            None => {},
        }
    }
}

/// The series of what is kept is what is kept of the series.
pub proof fn lemma_series_kept(books: Seq<BookSnapshot>, batches: Seq<BatchClearedEvent>, a: int, w: int, cutoff: int)
    ensures
        series(books.filter(book_kept(a, w, cutoff)), batches.filter(batch_kept(a, w, cutoff))) == series(
            books,
            batches,
        ).filter(point_kept(a, w, cutoff)),
{
    let p = point_kept(a, w, cutoff);
    lemma_book_points_kept(books, a, w, cutoff);
    lemma_batch_points_kept(batches, a, w, cutoff);
    Seq::filter_distributes_over_add(book_points(books), batch_points(batches), p);
    lemma_sorted_by_filter(book_points(books) + batch_points(batches), by_ts(), p);
}

/// Of a list in order of time, leaving out the settled intervals leaves a
/// tail.
proof fn lemma_kept_is_tail(s: Seq<PricePoint>, a: int, w: int, cutoff: int) -> (m: int)
    requires
        w > 0,
        ascends_by(s, by_ts()),
    ensures
        0 <= m <= s.len(),
        forall|i: int| 0 <= i < m ==> bucket((#[trigger] s[i]).ts as int, a, w) < cutoff,
        s.filter(point_kept(a, w, cutoff)) == s.skip(m),
    decreases s.len(),
{
    reveal(Seq::filter);
    let p = point_kept(a, w, cutoff);
    if s.len() == 0 {
        assert(s.filter(p) =~= s.skip(0));
        0
    } else {
        let short: Seq<PricePoint> = s.drop_last();
        assert(ascends_by(short, by_ts())) by {
            assert forall|i: int, j: int| 0 <= i <= j < short.len() implies by_ts()(#[trigger] short[i]) <= by_ts()(
                #[trigger] short[j],
            ) by {
                assert(by_ts()(s[i]) <= by_ts()(s[j]));
            }
        }
        let m: int = lemma_kept_is_tail(short, a, w, cutoff);
        if p(s.last()) {
            assert(s.skip(m) =~= short.skip(m).push(s.last()));
            assert forall|i: int| 0 <= i < m implies bucket((#[trigger] s[i]).ts as int, a, w) < cutoff by {
                assert(s[i] == short[i]);
            }
            m
        } else {
            assert forall|i: int| 0 <= i < s.len() implies bucket((#[trigger] s[i]).ts as int, a, w) < cutoff by {
                assert(by_ts()(s[i]) <= by_ts()(s[s.len() - 1]));
                law_buckets_follow_time(s[i].ts as int, s.last().ts as int, a, w);
            }
            assert(m == short.len()) by {
                if m < short.len() {
                    short.lemma_filter_pred(p, 0);
                    assert(short.skip(m)[0] == short[m]);
                    assert(bucket(s[m].ts as int, a, w) < cutoff);
                }
            }
            assert(s.filter(p) =~= s.skip(s.len() as int));
            s.len() as int
        }
    }
}

/// Dropping the settled events changes nothing for the rows still to come:
/// each interval keeps its trades, batches, books and reference prices, and
/// every look-up of a price at or after a moment that is not settled finds
/// what it found before.
pub proof fn law_pruning_leaves_later_rows(s: RecorderState, start: int, target: int)
    requires
        s.width > 0,
        s.anchor is Some,
        start >= s.emitted,
        bucket(target, s.anchor->0, s.width) >= s.emitted,
    ensures
        trades_in(s.pruned(), start) == trades_in(s, start),
        batches_in(s.pruned(), start) == batches_in(s, start),
        books_in(s.pruned(), start) == books_in(s, start),
        points_in(series(s.pruned().books, s.pruned().batches), s.anchor->0, s.width, start) == points_in(
            series(s.books, s.batches),
            s.anchor->0,
            s.width,
            start,
        ),
        price_from(series(s.pruned().books, s.pruned().batches), target) == price_from(
            series(s.books, s.batches),
            target,
        ),
{
    let a: int = s.anchor->0;
    let w: int = s.width;
    let c: int = s.emitted;
    let q: RecorderState = s.pruned();
    let all: Seq<PricePoint> = series(s.books, s.batches);
    let kept: Seq<PricePoint> = series(q.books, q.batches);
    assert(trade_times(s.trades) =~= times_by(s.trades, trade_moment()));
    assert(trade_times(q.trades) =~= times_by(q.trades, trade_moment()));
    lemma_pick_placed(s.trades, trade_moment(), a, w, start);
    lemma_pick_placed(q.trades, trade_moment(), a, w, start);
    lemma_filter_twice(s.trades, trade_kept(a, w, c), in_interval(trade_moment(), a, w, start));
    assert(batch_times(s.batches) =~= times_by(s.batches, batch_moment()));
    assert(batch_times(q.batches) =~= times_by(q.batches, batch_moment()));
    lemma_pick_placed(s.batches, batch_moment(), a, w, start);
    lemma_pick_placed(q.batches, batch_moment(), a, w, start);
    lemma_filter_twice(s.batches, batch_kept(a, w, c), in_interval(batch_moment(), a, w, start));
    assert(book_times(s.books) =~= times_by(s.books, book_moment()));
    assert(book_times(q.books) =~= times_by(q.books, book_moment()));
    lemma_pick_placed(s.books, book_moment(), a, w, start);
    lemma_pick_placed(q.books, book_moment(), a, w, start);
    lemma_filter_twice(s.books, book_kept(a, w, c), in_interval(book_moment(), a, w, start));
    lemma_series_kept(s.books, s.batches, a, w, c);
    assert(point_times(all) =~= times_by(all, point_moment()));
    assert(point_times(kept) =~= times_by(kept, point_moment()));
    lemma_pick_placed(all, point_moment(), a, w, start);
    lemma_pick_placed(kept, point_moment(), a, w, start);
    lemma_filter_twice(all, point_kept(a, w, c), in_interval(point_moment(), a, w, start));
    let at_all: Seq<int> = placed(point_times(all), a, w, start);
    let at_kept: Seq<int> = placed(point_times(kept), a, w, start);
    assert(pick(all, at_all) == pick(kept, at_kept));
    assert(at_all.len() == pick(all, at_all).len());
    assert(at_kept.len() == pick(kept, at_kept).len());
    assert forall|i: int| 0 <= i < at_all.len() implies points_in(all, a, w, start)[i] == points_in(kept, a, w, start)[i] by {
        assert(pick(all, at_all)[i] == pick(kept, at_kept)[i]);
    }
    assert(points_in(all, a, w, start) =~= points_in(kept, a, w, start));
    lemma_price_from_tail(s.books, s.batches, a, w, c, target);
}

pub proof fn lemma_price_from_tail(
    books: Seq<BookSnapshot>,
    batches: Seq<BatchClearedEvent>,
    a: int,
    w: int,
    cutoff: int,
    target: int,
)
    requires
        w > 0,
        bucket(target, a, w) >= cutoff,
    ensures
        price_from(series(books, batches).filter(point_kept(a, w, cutoff)), target) == price_from(
            series(books, batches),
            target,
        ),
{
    let all: Seq<PricePoint> = series(books, batches);
    let early = earlier_than(target);
    lemma_sorted_by_ascends(book_points(books) + batch_points(batches), by_ts());
    let m: int = lemma_kept_is_tail(all, a, w, cutoff);
    let tail: Seq<PricePoint> = all.skip(m);
    let k: int = leading(tail, early) as int;
    lemma_leading_run(tail, early);
    assert forall|i: int| 0 <= i < m + k implies early(#[trigger] all[i]) by {
        if i < m {
            assert(bucket(all[i].ts as int, a, w) < cutoff);
            if all[i].ts >= target {
                law_buckets_follow_time(target, all[i].ts as int, a, w);
            }
        } else {
            assert(all[i] == tail[i - m]);
        }
    }
    if m + k < all.len() {
        assert(all[m + k] == tail[k]);
    }
    lemma_leading(all, early, m + k);
}

/// Events recorded later leave a settled row alone: one of another interval
/// does not change which trades, batches and books the row has, and a new
/// reference price that is not older than those on record does not change a
/// look-up that found one.
pub proof fn law_new_events_leave_settled_rows(
    s: RecorderState,
    t: TradeEvent,
    b: BatchClearedEvent,
    book: BookSnapshot,
    start: int,
    target: int,
)
    requires
        s.width > 0,
        s.anchor is Some,
        bucket(t.trade.ts as int, s.anchor->0, s.width) != start,
        bucket(b.ts as int, s.anchor->0, s.width) != start,
        bucket(book.ts as int, s.anchor->0, s.width) != start,
        s.batches.len() == 0 || s.books.len() == 0,
        forall|i: int| 0 <= i < s.batches.len() ==> (#[trigger] s.batches[i]).ts <= b.ts,
        forall|i: int| 0 <= i < s.books.len() ==> (#[trigger] s.books[i]).ts <= book.ts,
        price_from(series(s.books, s.batches), target) is Some,
    ensures
        trades_in(s.with_trade(t), start) == trades_in(s, start),
        batches_in(s.with_batch(b), start) == batches_in(s, start),
        books_in(s.with_book(book), start) == books_in(s, start),
        s.books.len() == 0 ==> price_from(series(s.books, s.with_batch(b).batches), target) == price_from(
            series(s.books, s.batches),
            target,
        ),
        s.batches.len() == 0 ==> price_from(series(s.with_book(book).books, s.batches), target) == price_from(
            series(s.books, s.batches),
            target,
        ),
{
    let a: int = s.anchor->0;
    let w: int = s.width;
    lemma_pushed_elsewhere(s.trades, t, trade_moment(), a, w, start);
    lemma_pushed_elsewhere(s.batches, b, batch_moment(), a, w, start);
    lemma_pushed_elsewhere(s.books, book, book_moment(), a, w, start);
    assert(trade_times(s.trades) =~= times_by(s.trades, trade_moment()));
    assert(trade_times(s.trades.push(t)) =~= times_by(s.trades.push(t), trade_moment()));
    assert(batch_times(s.batches) =~= times_by(s.batches, batch_moment()));
    assert(batch_times(s.batches.push(b)) =~= times_by(s.batches.push(b), batch_moment()));
    assert(book_times(s.books) =~= times_by(s.books, book_moment()));
    assert(book_times(s.books.push(book)) =~= times_by(s.books.push(book), book_moment()));
    let points: Seq<PricePoint> = book_points(s.books) + batch_points(s.batches);
    if s.books.len() == 0 {
        assert(s.batches.push(b).drop_last() =~= s.batches);
        lemma_batch_points_before(s.batches, b.ts);
        assert(points =~= batch_points(s.batches));
        if let Some(point) = batch_point(b) {
            assert(book_points(s.books) + batch_points(s.batches.push(b)) =~= points.push(point));
            lemma_lookup_after_push(points, point, target);
        }
    }
    if s.batches.len() == 0 {
        assert(s.books.push(book).drop_last() =~= s.books);
        lemma_book_points_before(s.books, book.ts);
        assert(points =~= book_points(s.books));
        if let Some(point) = book_point(book) {
            assert(book_points(s.books.push(book)) + batch_points(s.batches) =~= points.push(point));
            lemma_lookup_after_push(points, point, target);
        }
    }
}

proof fn lemma_pushed_elsewhere<T>(s: Seq<T>, x: T, f: spec_fn(T) -> u64, a: int, w: int, start: int)
    requires
        bucket(f(x) as int, a, w) != start,
    ensures
        pick(s.push(x), placed(times_by(s.push(x), f), a, w, start)) == pick(s, placed(times_by(s, f), a, w, start)),
{
    reveal(Seq::filter);
    lemma_pick_placed(s, f, a, w, start);
    lemma_pick_placed(s.push(x), f, a, w, start);
    assert(s.push(x).drop_last() =~= s);
}

proof fn lemma_batch_points_before(batches: Seq<BatchClearedEvent>, ts: u64)
    requires
        forall|i: int| 0 <= i < batches.len() ==> (#[trigger] batches[i]).ts <= ts,
    ensures
        forall|i: int| 0 <= i < batch_points(batches).len() ==> (#[trigger] batch_points(batches)[i]).ts <= ts,
    decreases batches.len(),
{
    if batches.len() > 0 {
        assert(batches[batches.len() - 1].ts <= ts);
        assert forall|i: int| 0 <= i < batches.drop_last().len() implies (#[trigger] batches.drop_last()[i]).ts <= ts by {
            assert(batches[i].ts <= ts);
        }
        lemma_batch_points_before(batches.drop_last(), ts);
        let e: Seq<PricePoint> = batch_points(batches.drop_last());
        assert forall|i: int| 0 <= i < batch_points(batches).len() implies (#[trigger] batch_points(batches)[i]).ts <= ts by {
            if i < e.len() {
                assert(e[i].ts <= ts);
            }
        }
    }
}

proof fn lemma_book_points_before(books: Seq<BookSnapshot>, ts: u64)
    requires
        forall|i: int| 0 <= i < books.len() ==> (#[trigger] books[i]).ts <= ts,
    ensures
        forall|i: int| 0 <= i < book_points(books).len() ==> (#[trigger] book_points(books)[i]).ts <= ts,
    decreases books.len(),
{
    if books.len() > 0 {
        assert(books[books.len() - 1].ts <= ts);
        assert forall|i: int| 0 <= i < books.drop_last().len() implies (#[trigger] books.drop_last()[i]).ts <= ts by {
            assert(books[i].ts <= ts);
        }
        lemma_book_points_before(books.drop_last(), ts);
        let e: Seq<PricePoint> = book_points(books.drop_last());
        assert forall|i: int| 0 <= i < book_points(books).len() implies (#[trigger] book_points(books)[i]).ts <= ts by {
            if i < e.len() {
                assert(e[i].ts <= ts);
            }
        }
    }
}

proof fn lemma_sorted_last<T>(s: Seq<T>, key: spec_fn(T) -> int, bound: int)
    requires
        forall|i: int| 0 <= i < s.len() ==> key(#[trigger] s[i]) <= bound,
    ensures
        forall|i: int| 0 <= i < sorted_by(s, key).len() ==> key(#[trigger] sorted_by(s, key)[i]) <= bound,
    decreases s.len(),
{
    if s.len() > 0 {
        assert(key(s[s.len() - 1]) <= bound);
        assert forall|i: int| 0 <= i < s.drop_last().len() implies key(#[trigger] s.drop_last()[i]) <= bound by {
            assert(key(s[i]) <= bound);
        }
        lemma_sorted_last(s.drop_last(), key, bound);
        lemma_placed_last(sorted_by(s.drop_last(), key), s.last(), key, bound);
    }
}

proof fn lemma_placed_last<T>(s: Seq<T>, x: T, key: spec_fn(T) -> int, bound: int)
    requires
        key(x) <= bound,
        forall|i: int| 0 <= i < s.len() ==> key(#[trigger] s[i]) <= bound,
    ensures
        forall|i: int| 0 <= i < placed_by(s, x, key).len() ==> key(#[trigger] placed_by(s, x, key)[i]) <= bound,
    decreases s.len(),
{
    if s.len() > 0 && key(s.last()) > key(x) {
        assert forall|i: int| 0 <= i < s.drop_last().len() implies key(#[trigger] s.drop_last()[i]) <= bound by {
            assert(key(s[i]) <= bound);
        }
        assert(key(s[s.len() - 1]) <= bound);
        lemma_placed_last(s.drop_last(), x, key, bound);
        let t: Seq<T> = placed_by(s.drop_last(), x, key);
        assert forall|i: int| 0 <= i < t.push(s.last()).len() implies key(#[trigger] t.push(s.last())[i]) <= bound by {
            if i < t.len() {
                assert(key(t[i]) <= bound);
            }
        }
    } else {
        assert forall|i: int| 0 <= i < s.push(x).len() implies key(#[trigger] s.push(x)[i]) <= bound by {
            if i < s.len() {
                assert(key(s[i]) <= bound);
            }
        }
    }
}

proof fn lemma_lookup_after_push(points: Seq<PricePoint>, x: PricePoint, target: int)
    requires
        forall|i: int| 0 <= i < points.len() ==> (#[trigger] points[i]).ts <= x.ts,
        price_from(sorted_by(points, by_ts()), target) is Some,
    ensures
        price_from(sorted_by(points.push(x), by_ts()), target) == price_from(sorted_by(points, by_ts()), target),
{
    let s: Seq<PricePoint> = sorted_by(points, by_ts());
    let early = earlier_than(target);
    assert(points.push(x).drop_last() =~= points);
    assert forall|i: int| 0 <= i < points.len() implies by_ts()(#[trigger] points[i]) <= x.ts by {
        assert(points[i].ts <= x.ts);
    }
    lemma_sorted_last(points, by_ts(), x.ts as int);
    if s.len() > 0 {
        assert(by_ts()(s[s.len() - 1]) <= x.ts);
    }
    assert(sorted_by(points.push(x), by_ts()) == s.push(x));
    let k: int = leading(s, early) as int;
    lemma_leading_run(s, early);
    assert forall|i: int| 0 <= i < k implies early(#[trigger] s.push(x)[i]) by {
        assert(s.push(x)[i] == s[i]);
    }
    assert(s.push(x)[k] == s[k]);
    lemma_leading(s.push(x), early, k);
}

} // verus!
