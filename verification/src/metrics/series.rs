//! The reference prices of a run, in order of time, and look-ups in them.

use vstd::prelude::*;
use crate::metrics::events::{BatchClearedEvent, BookSnapshot};
use crate::seqs::{leading, lemma_leading};
use crate::sorting::{ascends_by, lemma_sorted_by, lemma_sorted_by_ascends, pick, positions, sort_positions, sorted_by};

verus! {

/// A price given as the midpoint of two: those of the best bid and ask, or
/// twice the same clearing price.
#[derive(Clone, Copy, Debug, PartialEq, Eq, Structural)]
pub struct RefPrice {
    pub low: u128,
    pub high: u128,
}

/// A reference price and when it was seen.
#[derive(Clone, Copy, Debug, PartialEq, Eq, Structural)]
pub struct PricePoint {
    pub ts: u64,
    pub price: RefPrice,
}

/// The midpoint of a book with both sides.
pub open spec fn book_point(s: BookSnapshot) -> Option<PricePoint> {
    match (s.best_bid, s.best_ask) {
        (Some(bid), Some(ask)) => Some(PricePoint { ts: s.ts, price: RefPrice { low: bid, high: ask } }),
        _ => None,
    }
}

/// The price of a batch that had one.
pub open spec fn batch_point(b: BatchClearedEvent) -> Option<PricePoint> {
    match b.clearing_price {
        Some(p) => Some(PricePoint { ts: b.ts, price: RefPrice { low: p, high: p } }),
        None => None,
    }
}

pub open spec fn book_points(books: Seq<BookSnapshot>) -> Seq<PricePoint>
    decreases books.len(),
{
    if books.len() == 0 {
        Seq::empty()
    } else {
        match book_point(books.last()) {
            Some(p) => book_points(books.drop_last()).push(p),
            None => book_points(books.drop_last()),
        }
    }
}

pub open spec fn batch_points(batches: Seq<BatchClearedEvent>) -> Seq<PricePoint>
    decreases batches.len(),
{
    if batches.len() == 0 {
        Seq::empty()
    } else {
        match batch_point(batches.last()) {
            Some(p) => batch_points(batches.drop_last()).push(p),
            None => batch_points(batches.drop_last()),
        }
    }
}

pub open spec fn by_ts() -> spec_fn(PricePoint) -> int {
    |p: PricePoint| p.ts as int
}

/// All reference prices in order of time. At the same moment a book comes
/// before a batch, and otherwise what was recorded first comes first.
pub open spec fn series(books: Seq<BookSnapshot>, batches: Seq<BatchClearedEvent>) -> Seq<PricePoint> {
    sorted_by(book_points(books) + batch_points(batches), by_ts())
}

pub open spec fn earlier_than(target: int) -> spec_fn(PricePoint) -> bool {
    |p: PricePoint| p.ts < target
}

/// The first price at or after a moment.
pub open spec fn price_from(series: Seq<PricePoint>, target: int) -> Option<RefPrice> {
    let k = leading(series, earlier_than(target)) as int;
    if k < series.len() {
        Some(series[k].price)
    } else {
        None
    }
}

fn points_of(books: &Vec<BookSnapshot>, batches: &Vec<BatchClearedEvent>) -> (r: Vec<PricePoint>)
    ensures
        r@ == book_points(books@) + batch_points(batches@),
{
    let mut r: Vec<PricePoint> = Vec::new();
    let mut i: usize = 0;
    assert(books@.take(0) =~= Seq::<BookSnapshot>::empty());
    while i < books.len()
        invariant
            i <= books.len(),
            r@ == book_points(books@.take(i as int)),
        decreases books.len() - i,
    {
        assert(books@.take(i + 1).drop_last() =~= books@.take(i as int));
        if let (Some(bid), Some(ask)) = (books[i].best_bid, books[i].best_ask) {
            r.push(PricePoint { ts: books[i].ts, price: RefPrice { low: bid, high: ask } });
        }
        i += 1;
    }
    assert(books@.take(i as int) =~= books@);
    let ghost first: Seq<PricePoint> = r@;
    let mut j: usize = 0;
    assert(batches@.take(0) =~= Seq::<BatchClearedEvent>::empty());
    assert(first =~= first + batch_points(batches@.take(0)));
    while j < batches.len()
        invariant
            j <= batches.len(),
            r@ == first + batch_points(batches@.take(j as int)),
        decreases batches.len() - j,
    {
        assert(batches@.take(j + 1).drop_last() =~= batches@.take(j as int));
        if let Some(p) = batches[j].clearing_price {
            let point: PricePoint = PricePoint { ts: batches[j].ts, price: RefPrice { low: p, high: p } };
            r.push(point);
            assert(r@ =~= first + batch_points(batches@.take(j as int)).push(point));
        }
        j += 1;
    }
    assert(batches@.take(j as int) =~= batches@);
    r
}

/// All reference prices in order of time.
pub fn price_series(books: &Vec<BookSnapshot>, batches: &Vec<BatchClearedEvent>) -> (r: Vec<PricePoint>)
    ensures
        r@ == series(books@, batches@),
        ascends_by(r@, by_ts()),
{
    let points: Vec<PricePoint> = points_of(books, batches);
    let mut keys: Vec<u128> = Vec::new();
    let mut i: usize = 0;
    while i < points.len()
        invariant
            i <= points.len(),
            keys@.len() == i,
            forall|k: int| 0 <= k < i ==> #[trigger] keys@[k] == points@[k].ts,
        decreases points.len() - i,
    {
        keys.push(points[i].ts as u128);
        i += 1;
    }
    let order: Vec<usize> = sort_positions(&keys);
    let ghost p: Seq<int> = positions(order@);
    let mut r: Vec<PricePoint> = Vec::new();
    let mut j: usize = 0;
    while j < order.len()
        invariant
            j <= order.len(),
            p == positions(order@),
            forall|k: int| 0 <= k < order@.len() ==> #[trigger] order@[k] < points@.len(),
            r@ =~= pick(points@, p).take(j as int),
        decreases order.len() - j,
    {
        let at: usize = order[j];
        r.push(points[at]);
        assert(pick(points@, p)[j as int] == points@[at as int]);
        j += 1;
    }
    proof {
        assert(r@ =~= pick(points@, p));
        assert forall|k: int| 0 <= k < points@.len() implies by_ts()(#[trigger] points@[k]) == keys@[k] by {
            assert(keys@[k] == points@[k].ts);
        }
        lemma_sorted_by(points@, keys@, order@, by_ts());
        lemma_sorted_by_ascends(points@, by_ts());
    }
    r
}

/// The first price at or after a moment.
pub fn price_at_or_after(series: &Vec<PricePoint>, target: u128) -> (r: Option<RefPrice>)
    requires
        ascends_by(series@, by_ts()),
    ensures
        r == price_from(series@, target as int),
{
    let ghost key = by_ts();
    let ghost early = earlier_than(target as int);
    let mut lo: usize = 0;
    let mut hi: usize = series.len();
    while lo < hi
        invariant
            lo <= hi <= series@.len(),
            ascends_by(series@, key),
            key == by_ts(),
            early == earlier_than(target as int),
            forall|i: int| 0 <= i < lo ==> early(#[trigger] series@[i]),
            forall|i: int| hi <= i < series@.len() ==> !early(#[trigger] series@[i]),
        decreases hi - lo,
    {
        let mid: usize = lo + (hi - lo) / 2;
        if (series[mid].ts as u128) < target {
            assert forall|i: int| 0 <= i < mid + 1 implies early(#[trigger] series@[i]) by {
                assert(key(series@[i]) <= key(series@[mid as int]));
            }
            lo = mid + 1;
        } else {
            assert forall|i: int| mid <= i < series@.len() implies !early(#[trigger] series@[i]) by {
                assert(key(series@[mid as int]) <= key(series@[i]));
            }
            hi = mid;
        }
    }
    proof {
        lemma_leading(series@, early, lo as int);
    }
    if lo < series.len() {
        Some(series[lo].price)
    } else {
        None
    }
}

} // verus!
