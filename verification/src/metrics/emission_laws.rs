//! Which rows a recorder hands out and what it goes on from, in terms of the
//! moments and events that it has recorded.

use vstd::prelude::*;
use crate::engines::plain::lesser;
use crate::metrics::events::{BatchClearedEvent, OrderMessage};
use crate::metrics::facts::{batch_times, book_times, message_times, trade_times, IntervalFacts};
use crate::metrics::grid::{lemma_on_grid_later, lemma_rows_between, on_grid, row_start};
use crate::metrics::order_laws::{is_prior, lemma_prior};
use crate::metrics::recorder_laws::{happened, lemma_extremes};
use crate::metrics::timeseries::RecorderState;

verus! {

/// Rows are handed out from where the last ones ended, one interval after the
/// other, as many as it takes to reach `hi` and no more. Then the recorder goes
/// on from there: from the last reference price of these rows, or what they
/// went on from if they have none, and from the price of the last priced batch
/// that closed before their end. All it has recorded stays.
pub proof fn law_rows_reach_what_is_due(s: RecorderState, messages: Seq<OrderMessage>, hi: int, rows: Seq<IntervalFacts>)
    requires
        s.width > 0,
        s.anchor is Some,
        on_grid(s.emitted, s.anchor->0, s.width),
        s.are_rows(messages, hi, rows),
    ensures
        hi <= s.emitted ==> rows.len() == 0 && s.emitted_to(hi) == s,
        hi > s.emitted ==> {
            let n = rows.len() as int;
            let end = s.emitted + n * s.width;
            let after = s.emitted_to(hi);
            let last = rows[n - 1];
            &&& n > 0
            &&& s.emitted + (n - 1) * s.width < hi <= end
            &&& forall|k: int| 0 <= k < n ==> (#[trigger] rows[k]).start == s.emitted + k * s.width
            &&& after.emitted == lesser(end, u64::MAX as int)
            &&& is_prior(s.batches, s.batches.len() as int, end, s.carry.prev_clearing, after.carry.prev_clearing)
            &&& after.carry.prev_close == (if last.points@.len() > 0 {
                Some(last.points@.last())
            } else {
                last.prev_close
            })
            &&& after.trades == s.trades
            &&& after.batches == s.batches
            &&& after.books == s.books
            &&& after.late == s.late
            &&& after.anchor == s.anchor
            &&& after.width == s.width
        },
{
    lemma_rows_between(s.emitted, hi, s.width);
    if hi > s.emitted {
        let n: int = s.due(hi);
        assert(row_start(s.emitted, 0, s.width) == s.emitted);
        assert(n > 0);
        assert(row_start(s.emitted, n - 1, s.width) < hi);
        assert(row_start(s.emitted, n, s.width) >= hi);
        let end: int = s.emitted + n * s.width;
        lemma_on_grid_later(s.emitted, n, s.anchor->0, s.width);
        let all: Seq<BatchClearedEvent> = s.batches;
        assert(all.take(all.len() as int) =~= all);
        lemma_prior(all, all.len() as int, s.anchor->0, s.width, end, s.carry.prev_clearing);
        assert(rows[n - 1].start == row_start(s.emitted, n - 1, s.width));
        assert forall|k: int| 0 <= k < n implies (#[trigger] rows[k]).start == s.emitted + k * s.width by {
            assert(rows[k].start == row_start(s.emitted, k, s.width));
        }
    }
}

/// The latest moment on record is that of an event, and no event is later;
/// without events it is zero.
pub proof fn law_latest_moment_is_of_an_event(s: RecorderState, messages: Seq<OrderMessage>, ts: int)
    ensures
        happened(messages, s.trades, s.batches, s.books, ts) ==> ts <= s.latest(messages) && happened(
            messages,
            s.trades,
            s.batches,
            s.books,
            s.latest(messages),
        ),
        messages.len() == 0 && s.trades.len() == 0 && s.batches.len() == 0 && s.books.len() == 0 ==> s.latest(messages)
            == 0,
{
    let m: Seq<u64> = message_times(messages);
    let t: Seq<u64> = trade_times(s.trades);
    let b: Seq<u64> = batch_times(s.batches);
    let k: Seq<u64> = book_times(s.books);
    lemma_extremes(m);
    lemma_extremes(t);
    lemma_extremes(b);
    lemma_extremes(k);
    let l: int = s.latest(messages);
    if happened(messages, s.trades, s.batches, s.books, ts) {
        if exists|i: int| 0 <= i < messages.len() && (#[trigger] messages[i]).ts == ts {
            let i: int = choose|i: int| 0 <= i < messages.len() && (#[trigger] messages[i]).ts == ts;
            assert(m[i] == ts);
        } else if exists|i: int| 0 <= i < s.trades.len() && (#[trigger] s.trades[i]).trade.ts == ts {
            let i: int = choose|i: int| 0 <= i < s.trades.len() && (#[trigger] s.trades[i]).trade.ts == ts;
            assert(t[i] == ts);
        } else if exists|i: int| 0 <= i < s.batches.len() && (#[trigger] s.batches[i]).ts == ts {
            let i: int = choose|i: int| 0 <= i < s.batches.len() && (#[trigger] s.batches[i]).ts == ts;
            assert(b[i] == ts);
        } else {
            let i: int = choose|i: int| 0 <= i < s.books.len() && (#[trigger] s.books[i]).ts == ts;
            assert(k[i] == ts);
        }
        if l == ts {
        } else if m.len() > 0 && l == crate::metrics::timeseries::latest_in(m) {
            let i: int = choose|i: int| 0 <= i < m.len() && #[trigger] m[i] == l;
            assert(messages[i].ts == l);
        } else if t.len() > 0 && l == crate::metrics::timeseries::latest_in(t) {
            let i: int = choose|i: int| 0 <= i < t.len() && #[trigger] t[i] == l;
            assert(s.trades[i].trade.ts == l);
        } else if b.len() > 0 && l == crate::metrics::timeseries::latest_in(b) {
            let i: int = choose|i: int| 0 <= i < b.len() && #[trigger] b[i] == l;
            assert(s.batches[i].ts == l);
        } else {
            let i: int = choose|i: int| 0 <= i < k.len() && #[trigger] k[i] == l;
            assert(s.books[i].ts == l);
        }
    }
}

} // verus!
