//! Batch clearing in several pairs: each pair clears on its own, and all
//! trades are settled together.

use vstd::prelude::*;
use crate::engines::auction::{candidate_prices, clearing_price, limit_prices, select_price, sides_fit, Interest, TieRule};
use crate::engines::auction_laws::law_auction_trades_all_it_can;
use crate::engines::legs::Leg;
use crate::multi_asset::batches::{
    batch_trades, clear_at, clearable, interests, interests_of, is_result, legs, legs_of, residual, residual_orders,
    ClearingResult,
};
use crate::multi_asset::engine_traits::MatchingEngine;
use crate::multi_asset::optimizer::{
    are_edges, can_settle, netted, routes, tally, transfers, SettlementOptimizer, SettlementSummary,
};
use crate::multi_asset::order_book::{clone_orders, OrderBookState};
use crate::multi_asset::types::{AssetPair, Order, PairView, Trade};
use crate::seqs::total;
use crate::tables::{lemma_mapped, lemma_put_without, lookup, mapped, put, without, Table};
use crate::types::{Price, PRICE_SCALE};

verus! {

/// The orders of each pair, as a table.
pub type Batches = Table<AssetPair, Vec<Order>>;

pub open spec fn listed() -> spec_fn(Vec<Order>) -> Seq<Order> {
    |v: Vec<Order>| v@
}

/// The orders of each pair, in order of pair.
pub open spec fn shown(b: Batches) -> Seq<(PairView, Seq<Order>)> {
    mapped(b.items(), listed())
}

/// The orders of a pair; none, if it has none.
pub open spec fn orders_of(b: Seq<(PairView, Seq<Order>)>, pair: PairView) -> Seq<Order> {
    match lookup(b, pair) {
        Some(orders) => orders,
        None => Seq::empty(),
    }
}

/// An order has joined the batch of its pair.
pub open spec fn joined_by(b: Seq<(PairView, Seq<Order>)>, o: Order) -> Seq<(PairView, Seq<Order>)> {
    put(b, o.pair@, orders_of(b, o.pair@).push(o))
}

fn join_batch(batches: &mut Batches, order: Order)
    requires
        old(batches).wf(),
    ensures
        final(batches).wf(),
        shown(*final(batches)) == joined_by(shown(*old(batches)), order),
{
    let ghost items: Seq<(PairView, Vec<Order>)> = batches.items();
    let ghost key: PairView = order.pair@;
    let pair: AssetPair = order.pair.clone();
    let mut orders: Vec<Order> = match batches.remove(&pair) {
        Some(orders) => orders,
        None => Vec::new(),
    };
    proof {
        lemma_mapped(items, listed(), key, orders);
    }
    orders.push(order);
    proof {
        lemma_put_without(items, key, orders);
        lemma_mapped(items, listed(), key, orders);
        assert(orders@ =~= orders_of(mapped(items, listed()), key).push(order));
    }
    batches.set(pair, orders);
}

/// The prices that a batch can clear at: its limit prices, or without any the
/// price of one.
pub open spec fn candidates(orders: Seq<Order>) -> Set<Price> {
    let limits = limit_prices(interests(orders));
    if limits == Set::<Price>::empty() {
        Set::empty().insert(PRICE_SCALE)
    } else {
        limits
    }
}

/// The price that a batch clears at: of equally good ones the highest.
pub open spec fn pair_price(orders: Seq<Order>) -> Price {
    clearing_price(interests(orders), TieRule::Highest, candidates(orders))->0
}

/// The trades of a list of batches, numbered from `first_id`.
pub open spec fn run_trades(entries: Seq<(AssetPair, Vec<Order>)>, first_id: int) -> Seq<Trade>
    decreases entries.len(),
{
    if entries.len() == 0 {
        Seq::empty()
    } else {
        let before = run_trades(entries.drop_last(), first_id);
        let (pair, orders) = entries.last();
        before + batch_trades(orders@, pair, pair_price(orders@), first_id + before.len())
    }
}

pub open spec fn size() -> spec_fn((AssetPair, Vec<Order>)) -> int {
    |e: (AssetPair, Vec<Order>)| e.1@.len() as int
}

/// The machine limits within which batches can be cleared: the quantity of
/// either side of each, and all trade ids, must stay representable.
pub open spec fn all_clearable(entries: Seq<(AssetPair, Vec<Order>)>, first_id: int) -> bool {
    &&& forall|i: int| 0 <= i < entries.len() ==> sides_fit(interests((#[trigger] entries[i]).1@))
    &&& first_id + total(entries, size()) <= u64::MAX
}

/// Whether these are the results of a list of batches.
pub open spec fn are_results(results: Seq<ClearingResult>, entries: Seq<(AssetPair, Vec<Order>)>, first_id: int) -> bool {
    &&& results.len() == entries.len()
    &&& forall|i: int|
        0 <= i < results.len() ==> is_result(
            #[trigger] results[i],
            entries[i].1@,
            entries[i].0,
            pair_price(entries[i].1@),
            first_id + run_trades(entries.take(i), first_id).len(),
        )
}

/// A batch has at most as many trades as orders.
proof fn lemma_run_length(entries: Seq<(AssetPair, Vec<Order>)>, first_id: int)
    ensures
        run_trades(entries, first_id).len() <= total(entries, size()),
    decreases entries.len(),
{
    if entries.len() > 0 {
        lemma_run_length(entries.drop_last(), first_id);
        let orders: Seq<Order> = entries.last().1@;
        law_auction_trades_all_it_can(interests(orders), pair_price(orders));
    }
}

/// A batch engine with one batch per pair.
#[derive(Debug)]
pub struct BatchAuctionEngine {
    pub batches: Batches,
    /// Always empty: nothing rests here.
    pub book_viewer: OrderBookState,
    pub next_trade_id: u64,
}

impl Default for BatchAuctionEngine {
    fn default() -> (r: Self)
        ensures
            r.batches.wf(),
            r.batches.entries@.len() == 0,
            r.next_trade_id == 0,
    {
        BatchAuctionEngine { batches: Table::new(), book_viewer: OrderBookState::default(), next_trade_id: 0 }
    }
}

impl BatchAuctionEngine {
    pub fn new() -> (r: Self)
        ensures
            r.batches.wf(),
            r.batches.entries@.len() == 0,
            r.book_viewer.bids@ == Seq::<Order>::empty(),
            r.book_viewer.asks@ == Seq::<Order>::empty(),
            r.next_trade_id == 1,
    {
        BatchAuctionEngine { batches: Table::new(), book_viewer: OrderBookState::default(), next_trade_id: 1 }
    }

    /// Adds an order to the batch of its pair.
    pub fn submit(&mut self, order: Order)
        requires
            old(self).batches.wf(),
        ensures
            final(self).batches.wf(),
            shown(final(self).batches) == joined_by(shown(old(self).batches), order),
            final(self).book_viewer == old(self).book_viewer,
            final(self).next_trade_id == old(self).next_trade_id,
    {
        join_batch(&mut self.batches, order);
    }

    /// Clears the batch of a pair, which is then gone; nothing, if there is
    /// none.
    pub fn clear_pair(&mut self, pair: &AssetPair) -> (r: Option<ClearingResult>)
        requires
            old(self).batches.wf(),
            clearable(orders_of(shown(old(self).batches), pair@), old(self).next_trade_id as int),
        ensures
            final(self).batches.wf(),
            shown(final(self).batches) == without(shown(old(self).batches), pair@),
            final(self).book_viewer == old(self).book_viewer,
            match lookup(shown(old(self).batches), pair@) {
                Some(orders) => {
                    &&& r matches Some(c) && is_result(
                        c,
                        orders,
                        *pair,
                        pair_price(orders),
                        old(self).next_trade_id as int,
                    )
                    &&& final(self).next_trade_id == old(self).next_trade_id + r->0.trades@.len()
                },
                None => r is None && final(self).next_trade_id == old(self).next_trade_id,
            },
    {
        let ghost items: Seq<(PairView, Vec<Order>)> = self.batches.items();
        match self.batches.remove(pair) {
            Some(orders) => {
                proof {
                    lemma_mapped(items, listed(), pair@, orders);
                }
                self.clear_orders(pair, &orders)
            },
            None => {
                proof {
                    if items.len() > 0 {
                        lemma_mapped(items, listed(), pair@, items[0].1);
                    } else {
                        assert(shown(self.batches) =~= without(mapped(items, listed()), pair@));
                    }
                }
                None
            },
        }
    }

    /// Clears these orders at the price that trades the most.
    pub fn clear_orders(&mut self, pair: &AssetPair, orders: &Vec<Order>) -> (r: Option<ClearingResult>)
        requires
            clearable(orders@, old(self).next_trade_id as int),
        ensures
            r matches Some(c) && is_result(
                c,
                orders@,
                *pair,
                pair_price(orders@),
                old(self).next_trade_id as int,
            ),
            final(self).next_trade_id == old(self).next_trade_id + r->0.trades@.len(),
            final(self).batches == old(self).batches,
            final(self).book_viewer == old(self).book_viewer,
    {
        let book: Vec<Interest> = interests_of(orders);
        let mut prices: Vec<Price> = candidate_prices(&book);
        if prices.len() == 0 {
            assert(limit_prices(book@) =~= Set::<Price>::empty()) by {
                assert(prices@.to_set() =~= Set::<Price>::empty());
            }
            prices.push(PRICE_SCALE);
            assert(prices@.to_set() =~= Set::empty().insert(PRICE_SCALE)) by {
                assert(prices@[0] == PRICE_SCALE);
            }
        } else {
            assert(limit_prices(book@).contains(prices@[0])) by {
                assert(prices@.to_set().contains(prices@[0]));
            }
        }
        assert(prices@.to_set() == candidates(orders@));
        match select_price(&book, &prices, TieRule::Highest) {
            None => None,
            Some((price, demand, supply)) => {
                let result: ClearingResult = clear_at(
                    orders,
                    &book,
                    pair,
                    price,
                    demand,
                    supply,
                    self.next_trade_id,
                );
                self.next_trade_id = self.next_trade_id + result.trades.len() as u64;
                Some(result)
            },
        }
    }

    /// Clears the batches of all pairs, in order of pair.
    pub fn clear_all(&mut self) -> (r: Vec<ClearingResult>)
        requires
            old(self).batches.wf(),
            all_clearable(old(self).batches.entries@, old(self).next_trade_id as int),
        ensures
            final(self).batches.wf(),
            final(self).batches.entries@.len() == 0,
            final(self).book_viewer == old(self).book_viewer,
            are_results(r@, old(self).batches.entries@, old(self).next_trade_id as int),
            final(self).next_trade_id == old(self).next_trade_id + run_trades(
                old(self).batches.entries@,
                old(self).next_trade_id as int,
            ).len(),
    {
        let mut batches: Batches = Table::new();
        std::mem::swap(&mut batches, &mut self.batches);
        self.clear_entries(&batches)
    }

    /// Clears each of these batches.
    fn clear_entries(&mut self, batches: &Batches) -> (r: Vec<ClearingResult>)
        requires
            all_clearable(batches.entries@, old(self).next_trade_id as int),
        ensures
            final(self).batches == old(self).batches,
            final(self).book_viewer == old(self).book_viewer,
            are_results(r@, batches.entries@, old(self).next_trade_id as int),
            final(self).next_trade_id == old(self).next_trade_id + run_trades(
                batches.entries@,
                old(self).next_trade_id as int,
            ).len(),
    {
        let ghost first: int = self.next_trade_id as int;
        let ghost entries: Seq<(AssetPair, Vec<Order>)> = batches.entries@;
        let mut results: Vec<ClearingResult> = Vec::new();
        let mut i: usize = 0;
        assert(entries.take(0) =~= Seq::<(AssetPair, Vec<Order>)>::empty());
        while i < batches.entries.len()
            invariant
                i <= entries.len(),
                entries == batches.entries@,
                all_clearable(entries, first),
                self.batches == old(self).batches,
                self.book_viewer == old(self).book_viewer,
                self.next_trade_id == first + run_trades(entries.take(i as int), first).len(),
                results@.len() == i,
                forall|k: int|
                    0 <= k < i ==> is_result(
                        #[trigger] results@[k],
                        entries[k].1@,
                        entries[k].0,
                        pair_price(entries[k].1@),
                        first + run_trades(entries.take(k), first).len(),
                    ),
            decreases entries.len() - i,
        {
            proof {
                assert(entries.take(i + 1).drop_last() =~= entries.take(i as int));
                assert(entries.take(i + 1).last() == entries[i as int]);
                lemma_run_length(entries.take(i as int), first);
                crate::seqs::lemma_total_prefix(entries, i + 1, size());
                crate::seqs::lemma_total_take(entries, i as int, size());
                assert(sides_fit(interests(entries[i as int].1@)));
            }
            if let Some(result) = self.clear_orders(&batches.entries[i].0, &batches.entries[i].1) {
                results.push(result);
            }
            i += 1;
        }
        assert(entries.take(i as int) =~= entries);
        results
    }
}

/// The trades of a list of results, one after the other.
fn all_trades(results: &Vec<ClearingResult>, Ghost(entries): Ghost<Seq<(AssetPair, Vec<Order>)>>, Ghost(first_id): Ghost<int>) -> (r: Vec<Trade>)
    requires
        are_results(results@, entries, first_id),
    ensures
        r@ == run_trades(entries, first_id),
{
    let mut r: Vec<Trade> = Vec::new();
    let mut i: usize = 0;
    assert(entries.take(0) =~= Seq::<(AssetPair, Vec<Order>)>::empty());
    while i < results.len()
        invariant
            i <= results.len(),
            are_results(results@, entries, first_id),
            r@ == run_trades(entries.take(i as int), first_id),
        decreases results.len() - i,
    {
        proof {
            assert(entries.take(i + 1).drop_last() =~= entries.take(i as int));
            assert(entries.take(i + 1).last() == entries[i as int]);
            assert(is_result(
                results@[i as int],
                entries[i as int].1@,
                entries[i as int].0,
                pair_price(entries[i as int].1@),
                first_id + run_trades(entries.take(i as int), first_id).len(),
            ));
        }
        push_trades(&mut r, &results[i].trades);
        i += 1;
    }
    assert(entries.take(i as int) =~= entries);
    r
}

/// Appends copies of trades.
pub fn push_trades(to: &mut Vec<Trade>, trades: &Vec<Trade>)
    ensures
        final(to)@ == old(to)@ + trades@,
{
    let ghost before: Seq<Trade> = to@;
    let mut i: usize = 0;
    while i < trades.len()
        invariant
            i <= trades.len(),
            to@ =~= before + trades@.take(i as int),
        decreases trades.len() - i,
    {
        to.push(trades[i].clone());
        i += 1;
    }
    assert(trades@.take(i as int) =~= trades@);
}

impl MatchingEngine for BatchAuctionEngine {
    open spec fn ready(&self) -> bool {
        self.batches.wf()
    }

    open spec fn takes(&self, order: Order) -> bool {
        true
    }

    open spec fn can_end(&self) -> bool {
        all_clearable(self.batches.entries@, self.next_trade_id as int)
    }

    /// Collects the order; nothing trades before the epoch ends.
    fn process_order(&mut self, order: Order) -> (r: Vec<Trade>)
        ensures
            r@ == Seq::<Trade>::empty(),
            shown(final(self).batches) == joined_by(shown(old(self).batches), order),
            final(self).next_trade_id == old(self).next_trade_id,
    {
        self.submit(order);
        Vec::new()
    }

    /// Clears all batches and returns their trades.
    fn on_epoch_end(&mut self) -> (r: Vec<Trade>)
        ensures
            final(self).batches.entries@.len() == 0,
            r@ == run_trades(old(self).batches.entries@, old(self).next_trade_id as int),
            final(self).next_trade_id == old(self).next_trade_id + r@.len(),
    {
        let ghost entries: Seq<(AssetPair, Vec<Order>)> = self.batches.entries@;
        let ghost first: int = self.next_trade_id as int;
        let results: Vec<ClearingResult> = self.clear_all();
        all_trades(&results, Ghost(entries), Ghost(first))
    }

    fn book_state(&self) -> (r: &OrderBookState)
        ensures
            *r == self.book_viewer,
    {
        &self.book_viewer
    }
}

/// What is left of each pair's orders, without the pairs that are used up.
pub open spec fn left_over(b: Seq<(PairView, Seq<Order>)>, legs: Seq<Leg>) -> Seq<(PairView, Seq<Order>)>
    decreases b.len(),
{
    if b.len() == 0 {
        Seq::empty()
    } else {
        let before = left_over(b.drop_last(), legs);
        let rest = residual(b.last().1, legs);
        if rest.len() > 0 {
            before.push((b.last().0, rest))
        } else {
            before
        }
    }
}

/// The outcome of clearing all pairs.
#[derive(Debug)]
pub struct MultiAssetClearingResult {
    /// What each pair cleared at.
    pub pair_results: Vec<ClearingResult>,
    /// How all trades together are settled.
    pub settlement: SettlementSummary,
    /// The orders that were not filled.
    pub leftover_batches: Batches,
}

/// Clears all pairs, settles all trades together, and keeps what was not
/// filled.
#[derive(Debug)]
pub struct MultiAssetEngine {
    pub batches: Batches,
    pub inner: BatchAuctionEngine,
    pub optimizer: SettlementOptimizer,
}

impl Default for MultiAssetEngine {
    fn default() -> (r: Self)
        ensures
            r.batches.wf(),
            r.batches.entries@.len() == 0,
            r.inner.batches.wf(),
            r.inner.next_trade_id == 0,
    {
        MultiAssetEngine {
            batches: Table::new(),
            inner: BatchAuctionEngine::default(),
            optimizer: SettlementOptimizer::new(),
        }
    }
}

fn copy_batches(batches: &Batches) -> (r: Batches)
    requires
        batches.wf(),
    ensures
        r.wf(),
        shown(r) == shown(*batches),
{
    let mut r: Batches = Table::new();
    let mut i: usize = 0;
    assert(shown(r) =~= shown(*batches).take(0));
    while i < batches.entries.len()
        invariant
            i <= batches.entries.len(),
            batches.wf(),
            r.entries.len() == i,
            forall|k: int| 0 <= k < i ==> (#[trigger] r.entries@[k]).0 == batches.entries@[k].0,
            forall|k: int| 0 <= k < i ==> (#[trigger] r.entries@[k]).1@ == batches.entries@[k].1@,
        decreases batches.entries.len() - i,
    {
        r.entries.push((batches.entries[i].0.clone(), clone_orders(&batches.entries[i].1)));
        i += 1;
    }
    proof {
        assert forall|a: int, b: int| 0 <= a < b < r.items().len() implies crate::tables::Ranked::precedes(
            (#[trigger] r.items()[a]).0,
            (#[trigger] r.items()[b]).0,
        ) by {
            assert(batches.items()[a].0 == r.items()[a].0);
            assert(batches.items()[b].0 == r.items()[b].0);
        }
        assert(shown(r) =~= shown(*batches));
    }
    r
}

/// What is left of each pair's orders.
fn leftovers(batches: &Batches, fills: &Vec<Leg>) -> (r: Batches)
    requires
        batches.wf(),
    ensures
        r.wf(),
        shown(r) == left_over(shown(*batches), fills@),
{
    let ghost b: Seq<(PairView, Seq<Order>)> = shown(*batches);
    let mut r: Batches = Table::new();
    let mut i: usize = 0;
    assert(b.take(0) =~= Seq::<(PairView, Seq<Order>)>::empty());
    assert(shown(r) =~= Seq::<(PairView, Seq<Order>)>::empty());
    while i < batches.entries.len()
        invariant
            i <= batches.entries.len(),
            b == shown(*batches),
            batches.wf(),
            r.wf(),
            shown(r) == left_over(b.take(i as int), fills@),
            forall|k: int|
                0 <= k < r.items().len() ==> i < b.len() ==> crate::tables::Ranked::precedes(
                    (#[trigger] r.items()[k]).0,
                    b[i as int].0,
                ),
        decreases batches.entries.len() - i,
    {
        assert(b.take(i + 1).drop_last() =~= b.take(i as int));
        let rest: Vec<Order> = residual_orders(&batches.entries[i].1, fills);
        let ghost before: Seq<(PairView, Vec<Order>)> = r.items();
        let ghost key: PairView = b[i as int].0;
        assert(key == batches.items()[i as int].0);
        if rest.len() > 0 {
            let ghost kept: Vec<Order> = rest;
            let pair: AssetPair = batches.entries[i].0.clone();
            r.set(pair, rest);
            proof {
                crate::tables::lemma_put_new(before, key, kept, before.len() as int);
                assert(r.items() =~= before.push((key, kept)));
                assert(shown(r) =~= mapped(before, listed()).push((key, kept@)));
            }
        }
        proof {
            if i + 1 < b.len() {
                assert(crate::tables::Ranked::precedes(batches.items()[i as int].0, batches.items()[i + 1].0));
                assert forall|k: int| 0 <= k < r.items().len() implies crate::tables::Ranked::precedes(
                    (#[trigger] r.items()[k]).0,
                    b[i + 1].0,
                ) by {
                    if k < before.len() {
                        assert(r.items()[k] == before[k]);
                        crate::tables::Ranked::precedes_transitive(before[k].0, key, b[i + 1].0);
                    }
                }
            }
        }
        i += 1;
    }
    assert(b.take(i as int) =~= b);
    r
}

impl MultiAssetEngine {
    pub fn new() -> (r: Self)
        ensures
            r.batches.wf(),
            r.batches.entries@.len() == 0,
            r.inner.batches.wf(),
            r.inner.batches.entries@.len() == 0,
            r.inner.next_trade_id == 1,
    {
        MultiAssetEngine {
            batches: Table::new(),
            inner: BatchAuctionEngine::new(),
            optimizer: SettlementOptimizer::new(),
        }
    }

    /// Adds an order to the batch of its pair.
    pub fn submit(&mut self, order: Order)
        requires
            old(self).batches.wf(),
        ensures
            final(self).batches.wf(),
            shown(final(self).batches) == joined_by(shown(old(self).batches), order),
            final(self).inner == old(self).inner,
    {
        join_batch(&mut self.batches, order);
    }

    /// Clears all pairs and settles all trades together. What was not filled
    /// stays for the next time.
    pub fn clear_all(&mut self) -> (r: MultiAssetClearingResult)
        requires
            old(self).batches.wf(),
            all_clearable(old(self).batches.entries@, old(self).inner.next_trade_id as int),
            can_settle(run_trades(old(self).batches.entries@, old(self).inner.next_trade_id as int)),
        ensures
            ({
                let trades = run_trades(old(self).batches.entries@, old(self).inner.next_trade_id as int);
                let left = left_over(shown(old(self).batches), legs_of(trades));
                &&& are_results(
                    r.pair_results@,
                    old(self).batches.entries@,
                    old(self).inner.next_trade_id as int,
                )
                &&& r.settlement.plan.net_positions.items() == netted(trades)
                &&& are_edges(r.settlement.plan.edges@, transfers(netted(trades)))
                &&& r.settlement.plan.naive_transfer_count == 2 * trades.len()
                &&& r.settlement.plan.optimized_transfer_count == routes(transfers(netted(trades))).len()
                &&& r.settlement.asset_edges.items() == tally(transfers(netted(trades)))
                &&& r.leftover_batches.wf() && shown(r.leftover_batches) == left
                &&& final(self).batches.wf() && shown(final(self).batches) == left
                &&& final(self).inner.batches.wf() && shown(final(self).inner.batches) == left
                &&& final(self).inner.next_trade_id == old(self).inner.next_trade_id + trades.len()
            }),
    {
        let ghost entries: Seq<(AssetPair, Vec<Order>)> = self.batches.entries@;
        let ghost first: int = self.inner.next_trade_id as int;
        let pair_results: Vec<ClearingResult> = self.inner.clear_entries(&self.batches);
        let trades: Vec<Trade> = all_trades(&pair_results, Ghost(entries), Ghost(first));
        let left: Batches = leftovers(&self.batches, &legs(&trades));
        let settlement: SettlementSummary = self.optimizer.optimize_trades(&trades);
        self.batches = copy_batches(&left);
        self.inner.batches = copy_batches(&left);
        MultiAssetClearingResult { pair_results, settlement, leftover_batches: left }
    }
}

} // verus!
