//! Continuous matching in several pairs, each on a book of its own.

use vstd::prelude::*;
use crate::multi_asset::matching::{match_on, Sides};
use crate::multi_asset::order_book::OrderBookState;
use crate::multi_asset::types::{AssetPair, Order, PairView, Trade};
use crate::tables::{lemma_table, lookup, put, Table};

verus! {

/// What rests in a pair; nothing, if it has never been traded.
pub open spec fn sides_of(books: Seq<(PairView, OrderBookState)>, pair: PairView) -> Sides {
    match lookup(books, pair) {
        Some(book) => book.sides(),
        None => Sides::empty(),
    }
}

/// A continuous engine with one book per pair.
#[derive(Debug)]
pub struct ContinuousEngine {
    pub books: Table<AssetPair, OrderBookState>,
    pub next_trade_id: u64,
}

impl ContinuousEngine {
    /// All books are in price-time order.
    pub open spec fn wf(&self) -> bool {
        &&& self.books.wf()
        &&& forall|pair: PairView| (#[trigger] sides_of(self.books.items(), pair)).ranked()
    }

    pub fn new() -> (r: Self)
        ensures
            r.wf(),
            r.books.items() == Seq::<(PairView, OrderBookState)>::empty(),
            r.next_trade_id == 1,
    {
        ContinuousEngine { books: Table::new(), next_trade_id: 1 }
    }

    /// Takes an order and returns the trades it causes. The first order of a
    /// pair opens its book; an order of nothing does nothing.
    pub fn process_order(&mut self, order: Order) -> (r: Vec<Trade>)
        requires
            old(self).wf(),
            old(self).next_trade_id + sides_of(old(self).books.items(), order.pair@).resting(
                order.side().opposite(),
            ).len() <= u64::MAX,
        ensures
            final(self).wf(),
            order.remaining == 0 ==> *final(self) == *old(self) && r@ == Seq::<Trade>::empty(),
            order.remaining > 0 ==> {
                let before = sides_of(old(self).books.items(), order.pair@);
                &&& r@ == before.trades_on(order, old(self).next_trade_id as int)
                &&& final(self).next_trade_id == old(self).next_trade_id + before.swept(order).fills.len()
                &&& exists|book: OrderBookState| #[trigger]
                    book.sides() == before.matched(order) && book.pair@ == (match lookup(
                        old(self).books.items(),
                        order.pair@,
                    ) {
                        Some(b) => b.pair@,
                        None => order.pair@,
                    }) && final(self).books.items() == put(old(self).books.items(), order.pair@, book)
            },
    {
        if order.remaining == 0 {
            return Vec::new();
        }
        let ghost items: Seq<(PairView, OrderBookState)> = self.books.items();
        let ghost key: PairView = order.pair@;
        let pair: AssetPair = order.pair.clone();
        let mut book: OrderBookState = match self.books.remove(&pair) {
            Some(book) => book,
            None => OrderBookState::new(order.pair.clone()),
        };
        assert(sides_of(items, key).ranked());
        assert(book.sides() =~= sides_of(items, key));
        let trades: Vec<Trade> = match_on(&mut book, order, &mut self.next_trade_id);
        proof {
            lemma_table(items, key, book);
            crate::tables::lemma_put_without(items, key, book);
        }
        self.books.set(pair, book);
        proof {
            assert forall|p: PairView| (#[trigger] sides_of(self.books.items(), p)).ranked() by {
                if p != key {
                    assert(lookup(put(items, key, book), p) == lookup(items, p));
                    assert(sides_of(items, p).ranked());
                }
            }
            assert(book.sides() == sides_of(items, key).matched(order));
        }
        trades
    }

    /// Nothing happens when an epoch ends.
    pub fn on_epoch_end(&mut self) -> (r: Vec<Trade>)
        ensures
            *final(self) == *old(self),
            r@ == Seq::<Trade>::empty(),
    {
        Vec::new()
    }

    /// The books of all pairs.
    pub fn book_state(&self) -> (r: &Table<AssetPair, OrderBookState>)
        ensures
            *r == self.books,
    {
        &self.books
    }
}

/// An order only touches the book of its own pair.
pub proof fn law_other_pairs_stay(
    books: Seq<(PairView, OrderBookState)>,
    pair: PairView,
    book: OrderBookState,
    other: PairView,
)
    requires
        crate::tables::ascending(books),
        other != pair,
    ensures
        sides_of(put(books, pair, book), other) == sides_of(books, other),
{
    lemma_table(books, pair, book);
    assert(lookup(put(books, pair, book), other) == lookup(books, other));
}

} // verus!
