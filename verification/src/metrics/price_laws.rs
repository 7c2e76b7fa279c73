//! The reference prices of a run, in terms of the snapshots and clearings that
//! quote them: which comes next after a moment, which are in a row, and which
//! is carried on.

use vstd::prelude::*;
use crate::metrics::events::{BatchClearedEvent, BookSnapshot, OrderMessage, TradeEvent};
use crate::metrics::facts::{markout, point_times, row_holds, sweeps_among, trade_times, Carry, IntervalFacts};
use crate::metrics::flushing_laws::lemma_sorted_members;
use crate::metrics::grid::{bucket, lemma_on_grid_later, lemma_placed, on_grid, placed, row_start};
use crate::metrics::row_laws::{falls, lemma_falls};
use crate::metrics::series::{
    batch_point, batch_points, book_point, book_points, by_ts, earlier_than, price_from, series, PricePoint, RefPrice,
};
use crate::seqs::{leading, lemma_leading, lemma_leading_run, lemma_total_add, lemma_total_push, total};
use crate::sorting::{lemma_placed_at, lemma_sorted_by_ascends, placed_by, positions, sorted_by};

verus! {

/// The snapshot quotes this price: its best bid and its best ask.
pub open spec fn book_quotes(s: BookSnapshot, price: RefPrice) -> bool {
    s.best_bid == Some(price.low) && s.best_ask == Some(price.high)
}

/// The clearing quotes this price: it found one.
pub open spec fn batch_quotes(b: BatchClearedEvent, price: RefPrice) -> bool {
    b.clearing_price == Some(price.low) && price.high == price.low
}

pub open spec fn has_quote(s: BookSnapshot) -> bool {
    s.best_bid is Some && s.best_ask is Some
}

/// This price was quoted at this moment.
pub open spec fn quoted(books: Seq<BookSnapshot>, batches: Seq<BatchClearedEvent>, ts: int, price: RefPrice) -> bool {
    ||| exists|i: int| 0 <= i < books.len() && (#[trigger] books[i]).ts == ts && book_quotes(books[i], price)
    ||| exists|i: int| 0 <= i < batches.len() && (#[trigger] batches[i]).ts == ts && batch_quotes(batches[i], price)
}

/// Nothing was quoted from one moment up to, but without, another.
pub open spec fn nothing_quoted(books: Seq<BookSnapshot>, batches: Seq<BatchClearedEvent>, from: int, to: int) -> bool {
    &&& forall|i: int|
        0 <= i < books.len() && has_quote(#[trigger] books[i]) ==> !(from <= books[i].ts < to)
    &&& forall|i: int|
        0 <= i < batches.len() && (#[trigger] batches[i]).clearing_price is Some ==> !(from <= batches[i].ts < to)
}

/// The first quote at or after the moment, if there is any. Of quotes at one
/// moment the snapshots come first, and of each kind the first recorded.
pub open spec fn comes_next(
    books: Seq<BookSnapshot>,
    batches: Seq<BatchClearedEvent>,
    target: int,
    price: Option<RefPrice>,
) -> bool {
    match price {
        None => nothing_quoted(books, batches, target, u64::MAX + 1),
        Some(p) => is_next(books, batches, target, p),
    }
}

pub open spec fn is_next(
    books: Seq<BookSnapshot>,
    batches: Seq<BatchClearedEvent>,
    target: int,
    price: RefPrice,
) -> bool {
    ||| exists|i: int| #[trigger] next_book(books, batches, target, price, i)
    ||| exists|i: int| #[trigger] next_batch(books, batches, target, price, i)
}

pub open spec fn next_book(
    books: Seq<BookSnapshot>,
    batches: Seq<BatchClearedEvent>,
    target: int,
    price: RefPrice,
    i: int,
) -> bool {
    &&& 0 <= i < books.len()
    &&& books[i].ts >= target
    &&& book_quotes(books[i], price)
    &&& nothing_quoted(books, batches, target, books[i].ts as int)
    &&& forall|j: int| 0 <= j < i && has_quote(#[trigger] books[j]) ==> books[j].ts != books[i].ts
}

pub open spec fn next_batch(
    books: Seq<BookSnapshot>,
    batches: Seq<BatchClearedEvent>,
    target: int,
    price: RefPrice,
    i: int,
) -> bool {
    &&& 0 <= i < batches.len()
    &&& batches[i].ts >= target
    &&& batch_quotes(batches[i], price)
    &&& nothing_quoted(books, batches, target, batches[i].ts as int)
    &&& forall|j: int| 0 <= j < books.len() && has_quote(#[trigger] books[j]) ==> books[j].ts != batches[i].ts
    &&& forall|j: int|
        0 <= j < i && (#[trigger] batches[j]).clearing_price is Some ==> batches[j].ts != batches[i].ts
}

/// The snapshots that quote a price, by their positions.
spec fn book_sources(books: Seq<BookSnapshot>) -> Seq<int>
    decreases books.len(),
{
    if books.len() == 0 {
        Seq::empty()
    } else if has_quote(books.last()) {
        book_sources(books.drop_last()).push(books.len() - 1)
    } else {
        book_sources(books.drop_last())
    }
}

spec fn batch_sources(batches: Seq<BatchClearedEvent>) -> Seq<int>
    decreases batches.len(),
{
    if batches.len() == 0 {
        Seq::empty()
    } else if batches.last().clearing_price is Some {
        batch_sources(batches.drop_last()).push(batches.len() - 1)
    } else {
        batch_sources(batches.drop_last())
    }
}

proof fn lemma_book_sources(books: Seq<BookSnapshot>)
    ensures
        book_sources(books).len() == book_points(books).len(),
        forall|k: int|
            0 <= k < book_sources(books).len() ==> 0 <= #[trigger] book_sources(books)[k] < books.len() && has_quote(
                books[book_sources(books)[k]],
            ) && book_points(books)[k].ts == books[book_sources(books)[k]].ts && book_quotes(
                books[book_sources(books)[k]],
                book_points(books)[k].price,
            ),
        forall|k: int, l: int|
            0 <= k < l < book_sources(books).len() ==> #[trigger] book_sources(books)[k] < #[trigger] book_sources(
                books,
            )[l],
        forall|i: int| 0 <= i < books.len() && has_quote(#[trigger] books[i]) ==> book_sources(books).contains(i),
    decreases books.len(),
{
    if books.len() > 0 {
        let short: Seq<BookSnapshot> = books.drop_last();
        lemma_book_sources(short);
        let e: Seq<int> = book_sources(short);
        let r: Seq<int> = book_sources(books);
        assert forall|k: int| 0 <= k < r.len() implies 0 <= #[trigger] r[k] < books.len() && has_quote(books[r[k]])
            && book_points(books)[k].ts == books[r[k]].ts && book_quotes(books[r[k]], book_points(books)[k].price) by {
            if k < e.len() {
                assert(r[k] == e[k]);
                assert(short[e[k]] == books[r[k]]);
            }
        }
        assert forall|i: int| 0 <= i < books.len() && has_quote(#[trigger] books[i]) implies r.contains(i) by {
            if i < short.len() {
                assert(has_quote(short[i]));
                assert(e.contains(i));
                let k: int = choose|k: int| 0 <= k < e.len() && e[k] == i;
                assert(r[k] == i);
            } else {
                assert(r[r.len() - 1] == i);
            }
        }
    }
}

proof fn lemma_batch_sources(batches: Seq<BatchClearedEvent>)
    ensures
        batch_sources(batches).len() == batch_points(batches).len(),
        forall|k: int|
            0 <= k < batch_sources(batches).len() ==> 0 <= #[trigger] batch_sources(batches)[k] < batches.len()
                && batches[batch_sources(batches)[k]].clearing_price is Some && batch_points(batches)[k].ts
                == batches[batch_sources(batches)[k]].ts && batch_quotes(
                batches[batch_sources(batches)[k]],
                batch_points(batches)[k].price,
            ),
        forall|k: int, l: int|
            0 <= k < l < batch_sources(batches).len() ==> #[trigger] batch_sources(batches)[k]
                < #[trigger] batch_sources(batches)[l],
        forall|i: int|
            0 <= i < batches.len() && (#[trigger] batches[i]).clearing_price is Some ==> batch_sources(
                batches,
            ).contains(i),
    decreases batches.len(),
{
    if batches.len() > 0 {
        let short: Seq<BatchClearedEvent> = batches.drop_last();
        lemma_batch_sources(short);
        let e: Seq<int> = batch_sources(short);
        let r: Seq<int> = batch_sources(batches);
        assert forall|k: int| 0 <= k < r.len() implies 0 <= #[trigger] r[k] < batches.len()
            && batches[r[k]].clearing_price is Some && batch_points(batches)[k].ts == batches[r[k]].ts && batch_quotes(
            batches[r[k]],
            batch_points(batches)[k].price,
        ) by {
            if k < e.len() {
                assert(r[k] == e[k]);
                assert(short[e[k]] == batches[r[k]]);
            }
        }
        assert forall|i: int| 0 <= i < batches.len() && (#[trigger] batches[i]).clearing_price is Some implies r.contains(
            i,
        ) by {
            if i < short.len() {
                assert(short[i].clearing_price is Some);
                assert(e.contains(i));
                let k: int = choose|k: int| 0 <= k < e.len() && e[k] == i;
                assert(r[k] == i);
            } else {
                assert(r[r.len() - 1] == i);
            }
        }
    }
}

/// The first entry at or after the moment: the earliest, and of several at that
/// moment the one that stands first.
spec fn is_first_from(s: Seq<PricePoint>, target: int, i: int) -> bool {
    &&& 0 <= i < s.len()
    &&& s[i].ts >= target
    &&& forall|x: int| 0 <= x < s.len() && (#[trigger] s[x]).ts >= target ==> s[x].ts > s[i].ts || (s[x].ts == s[i].ts
        && x >= i)
}

proof fn lemma_first_from(s: Seq<PricePoint>, target: int)
    ensures
        ({
            let r = sorted_by(s, by_ts());
            let k = leading(r, earlier_than(target)) as int;
            if k < r.len() {
                exists|i: int| #[trigger] is_first_from(s, target, i) && s[i] == r[k]
            } else {
                forall|x: int| 0 <= x < s.len() ==> (#[trigger] s[x]).ts < target
            }
        }),
    decreases s.len(),
{
    let key: spec_fn(PricePoint) -> int = by_ts();
    let p: spec_fn(PricePoint) -> bool = earlier_than(target);
    let r: Seq<PricePoint> = sorted_by(s, key);
    let k: int = leading(r, p) as int;
    if s.len() > 0 {
        let short: Seq<PricePoint> = s.drop_last();
        let x: PricePoint = s.last();
        let e: Seq<PricePoint> = sorted_by(short, key);
        lemma_first_from(short, target);
        lemma_sorted_by_ascends(short, key);
        lemma_sorted_by_ascends(s, key);
        lemma_leading_run(e, p);
        lemma_leading_run(r, p);
        let m: int = leading(e, p) as int;
        // Where the last entry goes: behind all that are not later.
        let up = |q: PricePoint| key(q) <= key(x);
        lemma_leading_run(e, up);
        let j: int = leading(e, up) as int;
        assert forall|i: int| j <= i < e.len() implies key(#[trigger] e[i]) > key(x) by {
            assert(!up(e[j]));
            assert(key(e[j]) <= key(e[i]));
        }
        if j > 0 {
            assert(up(e[j - 1]));
        }
        lemma_placed_at(e, x, key, j);
        assert(r == e.insert(j, x));
        if x.ts < target {
            // It goes in front of the first one at or after the moment.
            if m < e.len() {
                assert(!p(e[m]));
                assert(j <= m) by {
                    if j > m {
                        assert(up(e[m]));
                    }
                }
                assert(r[m + 1] == e[m]);
                assert forall|i: int| 0 <= i < m + 1 implies p(#[trigger] r[i]) by {
                    if i < j {
                        assert(p(e[i]));
                    } else if i > j {
                        assert(p(e[i - 1]));
                    }
                }
                lemma_leading(r, p, m + 1);
                let i: int = choose|i: int| #[trigger] is_first_from(short, target, i) && short[i] == e[m];
                assert(is_first_from(s, target, i)) by {
                    assert forall|y: int| 0 <= y < s.len() && (#[trigger] s[y]).ts >= target implies s[y].ts > s[i].ts
                        || (s[y].ts == s[i].ts && y >= i) by {
                        assert(short[y] == s[y]);
                    }
                }
                assert(s[i] == r[k]);
            } else {
                assert forall|i: int| 0 <= i < r.len() implies p(#[trigger] r[i]) by {
                    if i < j {
                        assert(p(e[i]));
                    } else if i > j {
                        assert(p(e[i - 1]));
                    }
                }
                lemma_leading(r, p, r.len() as int);
                assert forall|y: int| 0 <= y < s.len() implies (#[trigger] s[y]).ts < target by {
                    if y < short.len() {
                        assert(short[y].ts < target);
                    }
                }
            }
        } else {
            assert(m <= j) by {
                if j < m {
                    assert(p(e[j]));
                    assert(key(e[j]) > key(x));
                }
            }
            assert forall|i: int| 0 <= i < m implies p(#[trigger] r[i]) by {
                assert(p(e[i]));
                assert(r[i] == e[i]);
            }
            if m < j {
                assert(r[m] == e[m]);
                assert(up(e[m]));
                lemma_leading(r, p, m);
                let i: int = choose|i: int| #[trigger] is_first_from(short, target, i) && short[i] == e[m];
                assert(is_first_from(s, target, i)) by {
                    assert forall|y: int| 0 <= y < s.len() && (#[trigger] s[y]).ts >= target implies s[y].ts > s[i].ts
                        || (s[y].ts == s[i].ts && y >= i) by {
                        if y < short.len() {
                            assert(short[y] == s[y]);
                        }
                    }
                }
                assert(s[i] == r[k]);
            } else {
                assert(r[m] == x);
                lemma_leading(r, p, m);
                let i: int = s.len() - 1;
                assert(is_first_from(s, target, i)) by {
                    assert forall|y: int| 0 <= y < s.len() && (#[trigger] s[y]).ts >= target implies s[y].ts > s[i].ts
                        || (s[y].ts == s[i].ts && y >= i) by {
                        if y < short.len() {
                            assert(short[y] == s[y]);
                            if m < e.len() {
                                let f: int = choose|f: int|
                                    #[trigger] is_first_from(short, target, f) && short[f] == e[m];
                                assert(short[y].ts >= short[f].ts);
                                assert(key(e[m]) > key(x));
                            } else {
                                assert(short[y].ts < target);
                            }
                        }
                    }
                }
                assert(s[i] == r[k]);
            }
        }
    }
}

/// The price looked up at a moment is the first that was quoted from then on.
pub proof fn law_next_quote_is_found(books: Seq<BookSnapshot>, batches: Seq<BatchClearedEvent>, target: int)
    ensures
        comes_next(books, batches, target, price_from(series(books, batches), target)),
{
    let bp: Seq<PricePoint> = book_points(books);
    let cp: Seq<PricePoint> = batch_points(batches);
    let all: Seq<PricePoint> = bp + cp;
    let r: Seq<PricePoint> = series(books, batches);
    let k: int = leading(r, earlier_than(target)) as int;
    let bs: Seq<int> = book_sources(books);
    let cs: Seq<int> = batch_sources(batches);
    lemma_book_sources(books);
    lemma_batch_sources(batches);
    lemma_first_from(all, target);
    if k < r.len() {
        let i: int = choose|i: int| #[trigger] is_first_from(all, target, i) && all[i] == r[k];
        let p: RefPrice = all[i].price;
        let now: int = all[i].ts as int;
        assert forall|b: int| 0 <= b < books.len() && has_quote(#[trigger] books[b]) implies !(target <= books[b].ts < now)
            && (books[b].ts == now ==> i < bp.len() && b >= bs[i]) by {
            assert(bs.contains(b));
            let l: int = choose|l: int| 0 <= l < bs.len() && bs[l] == b;
            assert(all[l] == bp[l]);
            assert(bp[l].ts == books[bs[l]].ts);
            if books[b].ts == now {
                assert(all[l].ts >= target);
                assert(l >= i);
                if i < l {
                    assert(bs[i] < bs[l]);
                }
            }
        }
        assert forall|b: int| 0 <= b < batches.len() && (#[trigger] batches[b]).clearing_price is Some implies !(target
            <= batches[b].ts < now) && (batches[b].ts == now && i >= bp.len() ==> b >= cs[i - bp.len()]) by {
            assert(cs.contains(b));
            let l: int = choose|l: int| 0 <= l < cs.len() && cs[l] == b;
            assert(all[bp.len() + l] == cp[l]);
            assert(cp[l].ts == batches[cs[l]].ts);
            if batches[b].ts == now && i >= bp.len() {
                assert(all[bp.len() + l].ts >= target);
                assert(bp.len() + l >= i);
                if i < bp.len() + l {
                    assert(cs[i - bp.len()] < cs[l]);
                }
            }
        }
        assert(nothing_quoted(books, batches, target, now));
        assert(price_from(r, target) == Some(p));
        if i < bp.len() {
            let b: int = bs[i];
            assert(bp[i] == all[i]);
            assert(book_quotes(books[b], p));
            assert(next_book(books, batches, target, p, b));
            assert(is_next(books, batches, target, p));
        } else {
            let b: int = cs[i - bp.len()];
            assert(cp[i - bp.len()] == all[i]);
            assert(batch_quotes(batches[b], p));
            assert(next_batch(books, batches, target, p, b));
            assert(is_next(books, batches, target, p));
        }
    } else {
        assert forall|b: int| 0 <= b < books.len() && has_quote(#[trigger] books[b]) implies !(target <= books[b].ts
            < u64::MAX + 1) by {
            assert(bs.contains(b));
            let l: int = choose|l: int| 0 <= l < bs.len() && bs[l] == b;
            assert(all[l] == bp[l]);
            assert(bp[l].ts == books[bs[l]].ts);
            assert(all[l].ts < target);
        }
        assert forall|b: int| 0 <= b < batches.len() && (#[trigger] batches[b]).clearing_price is Some implies !(target
            <= batches[b].ts < u64::MAX + 1) by {
            assert(cs.contains(b));
            let l: int = choose|l: int| 0 <= l < cs.len() && cs[l] == b;
            assert(all[bp.len() + l] == cp[l]);
            assert(cp[l].ts == batches[cs[l]].ts);
            assert(all[bp.len() + l].ts < target);
        }
        assert(nothing_quoted(books, batches, target, u64::MAX + 1));
    }
}

/// The prices looked up for a trade are the first that were quoted one, five
/// and thirty seconds after it or later; the one for a sweep, five seconds
/// after it.
pub proof fn law_markouts_look_ahead(
    row: IntervalFacts,
    messages: Seq<OrderMessage>,
    trades: Seq<TradeEvent>,
    batches: Seq<BatchClearedEvent>,
    books: Seq<BookSnapshot>,
    anchor: int,
    width: int,
    lo: int,
    n: int,
    carry: Carry,
    k: int,
)
    requires
        row_holds(row, messages, trades, batches, books, anchor, width, lo, n, carry, k),
    ensures
        row.markouts@.len() == row.trades@.len(),
        forall|i: int|
            0 <= i < row.trades@.len() ==> {
                let ts = trades[#[trigger] row.trades@[i] as int].trade.ts as int;
                &&& comes_next(books, batches, ts + 1_000_000_000, row.markouts@[i].after_1s)
                &&& comes_next(books, batches, ts + 5_000_000_000, row.markouts@[i].after_5s)
                &&& comes_next(books, batches, ts + 30_000_000_000, row.markouts@[i].after_30s)
            },
        forall|j: int|
            0 <= j < row.sweeps@.len() && (#[trigger] row.sweeps@[j]).trades@.len() > 0 ==> comes_next(
                books,
                batches,
                trades[row.sweeps@[j].trades@[0] as int].trade.ts + 5_000_000_000,
                row.sweeps@[j].after,
            ),
{
    let at: Seq<int> = placed(trade_times(trades), anchor, width, row_start(lo, k, width));
    let prices: Seq<PricePoint> = series(books, batches);
    assert(positions(row.trades@).len() == row.trades@.len());
    assert forall|i: int| 0 <= i < row.trades@.len() implies {
        let ts = trades[#[trigger] row.trades@[i] as int].trade.ts as int;
        &&& comes_next(books, batches, ts + 1_000_000_000, row.markouts@[i].after_1s)
        &&& comes_next(books, batches, ts + 5_000_000_000, row.markouts@[i].after_5s)
        &&& comes_next(books, batches, ts + 30_000_000_000, row.markouts@[i].after_30s)
    } by {
        assert(positions(row.trades@)[i] == row.trades@[i]);
        assert(at[i] == row.trades@[i]);
        assert(row.markouts@[i] == markout(messages, prices, trades[at[i]]));
        let ts: int = trades[at[i]].trade.ts as int;
        law_next_quote_is_found(books, batches, ts + 1_000_000_000);
        law_next_quote_is_found(books, batches, ts + 5_000_000_000);
        law_next_quote_is_found(books, batches, ts + 30_000_000_000);
    }
    assert forall|j: int| 0 <= j < row.sweeps@.len() && (#[trigger] row.sweeps@[j]).trades@.len() > 0 implies comes_next(
        books,
        batches,
        trades[row.sweeps@[j].trades@[0] as int].trade.ts + 5_000_000_000,
        row.sweeps@[j].after,
    ) by {
        assert(positions(row.sweeps@[j].trades@) == sweeps_among(trades, at)[j]);
        assert(positions(row.sweeps@[j].trades@)[0] == row.sweeps@[j].trades@[0]);
        law_next_quote_is_found(
            books,
            batches,
            trades[row.sweeps@[j].trades@[0] as int].trade.ts + 5_000_000_000,
        );
    }
}

/// One for each snapshot in the interval that quotes a price.
pub open spec fn book_counts(anchor: int, width: int, start: int) -> spec_fn(BookSnapshot) -> int {
    |s: BookSnapshot|
        if has_quote(s) && falls(s.ts as int, anchor, width, start) {
            1
        } else {
            0
        }
}

/// One for each clearing in the interval that found a price.
pub open spec fn batch_counts(anchor: int, width: int, start: int) -> spec_fn(BatchClearedEvent) -> int {
    |b: BatchClearedEvent|
        if b.clearing_price is Some && falls(b.ts as int, anchor, width, start) {
            1
        } else {
            0
        }
}

spec fn point_counts(anchor: int, width: int, start: int) -> spec_fn(PricePoint) -> int {
    |p: PricePoint|
        if bucket(p.ts as int, anchor, width) == start {
            1
        } else {
            0
        }
}

proof fn lemma_placed_total(s: Seq<PricePoint>, x: PricePoint, key: spec_fn(PricePoint) -> int, f: spec_fn(PricePoint) -> int)
    ensures
        total(placed_by(s, x, key), f) == total(s, f) + f(x),
    decreases s.len(),
{
    if s.len() == 0 || key(s.last()) <= key(x) {
        lemma_total_push(s, x, f);
    } else {
        lemma_placed_total(s.drop_last(), x, key, f);
        lemma_total_push(placed_by(s.drop_last(), x, key), s.last(), f);
    }
}

proof fn lemma_sorted_total(s: Seq<PricePoint>, key: spec_fn(PricePoint) -> int, f: spec_fn(PricePoint) -> int)
    ensures
        total(sorted_by(s, key), f) == total(s, f),
    decreases s.len(),
{
    if s.len() > 0 {
        lemma_sorted_total(s.drop_last(), key, f);
        lemma_placed_total(sorted_by(s.drop_last(), key), s.last(), key, f);
    }
}

proof fn lemma_points_counted(s: Seq<PricePoint>, anchor: int, width: int, start: int)
    ensures
        placed(point_times(s), anchor, width, start).len() == total(s, point_counts(anchor, width, start)),
    decreases s.len(),
{
    if s.len() > 0 {
        lemma_points_counted(s.drop_last(), anchor, width, start);
        assert(point_times(s).drop_last() =~= point_times(s.drop_last()));
    }
}

proof fn lemma_books_counted(books: Seq<BookSnapshot>, anchor: int, width: int, start: int)
    requires
        width > 0,
        on_grid(start, anchor, width),
    ensures
        total(book_points(books), point_counts(anchor, width, start)) == total(books, book_counts(anchor, width, start)),
    decreases books.len(),
{
    if books.len() > 0 {
        lemma_books_counted(books.drop_last(), anchor, width, start);
        lemma_falls(books.last().ts as int, anchor, width, start);
        if let Some(p) = book_point(books.last()) {
            lemma_total_push(book_points(books.drop_last()), p, point_counts(anchor, width, start));
        }
    }
}

proof fn lemma_batches_counted(batches: Seq<BatchClearedEvent>, anchor: int, width: int, start: int)
    requires
        width > 0,
        on_grid(start, anchor, width),
    ensures
        total(batch_points(batches), point_counts(anchor, width, start)) == total(
            batches,
            batch_counts(anchor, width, start),
        ),
    decreases batches.len(),
{
    if batches.len() > 0 {
        lemma_batches_counted(batches.drop_last(), anchor, width, start);
        lemma_falls(batches.last().ts as int, anchor, width, start);
        if let Some(p) = batch_point(batches.last()) {
            lemma_total_push(batch_points(batches.drop_last()), p, point_counts(anchor, width, start));
        }
    }
}

/// A row has one reference price for each snapshot with two sides and each
/// priced clearing in its interval, in order of time: each was quoted at the
/// moment given for it.
pub proof fn law_row_lists_its_quotes(
    row: IntervalFacts,
    messages: Seq<OrderMessage>,
    trades: Seq<TradeEvent>,
    batches: Seq<BatchClearedEvent>,
    books: Seq<BookSnapshot>,
    anchor: int,
    width: int,
    lo: int,
    n: int,
    carry: Carry,
    k: int,
) -> (times: Seq<int>)
    requires
        width > 0,
        on_grid(lo, anchor, width),
        0 <= k,
        row_holds(row, messages, trades, batches, books, anchor, width, lo, n, carry, k),
    ensures
        times.len() == row.points@.len(),
        row.points@.len() == total(books, book_counts(anchor, width, row.start as int)) + total(
            batches,
            batch_counts(anchor, width, row.start as int),
        ),
        forall|i: int|
            0 <= i < times.len() ==> falls(#[trigger] times[i], anchor, width, row.start as int) && quoted(
                books,
                batches,
                times[i],
                row.points@[i],
            ),
        forall|i: int, j: int| 0 <= i <= j < times.len() ==> #[trigger] times[i] <= #[trigger] times[j],
{
    lemma_on_grid_later(lo, k, anchor, width);
    let start: int = row.start as int;
    let prices: Seq<PricePoint> = series(books, batches);
    let all: Seq<PricePoint> = book_points(books) + batch_points(batches);
    let at: Seq<int> = placed(point_times(prices), anchor, width, start);
    let times: Seq<int> = Seq::new(at.len(), |i: int| prices[at[i]].ts as int);
    let f: spec_fn(PricePoint) -> int = point_counts(anchor, width, start);
    lemma_placed(point_times(prices), anchor, width, start);
    crate::metrics::row_laws::lemma_placed_all(point_times(prices), anchor, width, start);
    lemma_points_counted(prices, anchor, width, start);
    lemma_sorted_total(all, by_ts(), f);
    lemma_total_add(book_points(books), batch_points(batches), f);
    lemma_books_counted(books, anchor, width, start);
    lemma_batches_counted(batches, anchor, width, start);
    lemma_sorted_by_ascends(all, by_ts());
    lemma_sorted_members(all, by_ts());
    lemma_book_sources(books);
    lemma_batch_sources(batches);
    assert forall|i: int| 0 <= i < times.len() implies falls(#[trigger] times[i], anchor, width, start) && quoted(
        books,
        batches,
        times[i],
        row.points@[i],
    ) by {
        let p: PricePoint = prices[at[i]];
        lemma_falls(p.ts as int, anchor, width, start);
        assert(point_times(prices)[at[i]] == p.ts);
        assert(all.contains(p));
        let l: int = choose|l: int| 0 <= l < all.len() && all[l] == p;
        let nb: int = book_points(books).len() as int;
        if l < nb {
            assert(book_points(books)[l] == p);
            assert(book_quotes(books[book_sources(books)[l]], p.price));
        } else {
            assert(batch_points(batches)[l - nb] == p);
            assert(batch_quotes(batches[batch_sources(batches)[l - nb]], p.price));
        }
    }
    assert forall|i: int, j: int| 0 <= i <= j < times.len() implies #[trigger] times[i] <= #[trigger] times[j] by {
        if i < j {
            assert(at[i] < at[j]);
        }
        assert(by_ts()(prices[at[i]]) <= by_ts()(prices[at[j]]));
    }
    times
}

/// The close that a row goes on from is the last reference price of the row
/// before it, or if that has none, the close that one went on from. The first
/// row goes on from what is carried.
pub proof fn law_close_is_carried_on(
    earlier: IntervalFacts,
    row: IntervalFacts,
    messages: Seq<OrderMessage>,
    trades: Seq<TradeEvent>,
    batches: Seq<BatchClearedEvent>,
    books: Seq<BookSnapshot>,
    anchor: int,
    width: int,
    lo: int,
    n: int,
    carry: Carry,
    k: int,
)
    requires
        0 <= k,
        row_holds(row, messages, trades, batches, books, anchor, width, lo, n, carry, k),
        k > 0 ==> row_holds(earlier, messages, trades, batches, books, anchor, width, lo, n, carry, k - 1),
    ensures
        k == 0 ==> row.prev_close == carry.prev_close,
        k > 0 && earlier.points@.len() > 0 ==> row.prev_close == Some(earlier.points@.last()),
        k > 0 && earlier.points@.len() == 0 ==> row.prev_close == earlier.prev_close,
{
}

} // verus!
