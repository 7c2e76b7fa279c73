//! The two matching engines on concrete orders.

use market_sim::engines::cda::CdaOrderBook;
use market_sim::engines::fba::FbaOrderBook;
use market_sim::types::{Amount, EngineKind, Order, OrderKind, Price, Side};

/// A small generator of numbers that look random.
struct Lcg(u64);

impl Lcg {
    fn next(&mut self) -> u64 {
        self.0 = self.0.wrapping_mul(6364136223846793005).wrapping_add(1442695040888963407);
        self.0 >> 33
    }

    fn range(&mut self, n: u64) -> u64 {
        if n == 0 {
            0
        } else {
            self.next() % n
        }
    }
}

fn naive_bid_depth(book: &CdaOrderBook) -> Amount {
    book.bids_iter().iter().map(|o| o.remaining).sum()
}

fn naive_ask_depth(book: &CdaOrderBook) -> Amount {
    book.asks_iter().iter().map(|o| o.remaining).sum()
}

fn naive_bid_count(book: &CdaOrderBook) -> usize {
    book.bids_iter().len()
}

fn naive_ask_count(book: &CdaOrderBook) -> usize {
    book.asks_iter().len()
}

fn naive_best_bid(book: &CdaOrderBook) -> Option<Price> {
    book.bids_iter().iter().map(|o| o.limit_px).max()
}

fn naive_best_ask(book: &CdaOrderBook) -> Option<Price> {
    book.asks_iter().iter().map(|o| o.limit_px).min()
}

fn assert_no_dangling_levels(book: &CdaOrderBook, ctx: &str) {
    for i in 0..book.bid_ladder().level_count() {
        assert!(!book.bid_ladder().level_is_empty(i), "dangling empty bid level {ctx}");
    }
    for i in 0..book.ask_ladder().level_count() {
        assert!(!book.ask_ladder().level_is_empty(i), "dangling empty ask level {ctx}");
    }
}

#[test]
fn bid_ask_depth_matches_hand_computed_scenario() {
    let mut book = CdaOrderBook::new();

    // Two resting bids, nothing to cross yet.
    book.submit(Order::limit(1, "a", Side::Buy, 100, 10, 0));
    book.submit(Order::limit(2, "a", Side::Buy, 99, 5, 1));
    assert_eq!(book.bid_depth(), 15);
    assert_eq!(book.ask_depth(), 0);

    // A sell that takes 6 of the best bid.
    book.submit(Order::limit(3, "b", Side::Sell, 100, 6, 2));
    assert_eq!(book.bid_depth(), 9);
    assert_eq!(book.ask_depth(), 0);

    // An ask that crosses nothing.
    book.submit(Order::limit(4, "b", Side::Sell, 105, 7, 3));
    assert_eq!(book.bid_depth(), 9);
    assert_eq!(book.ask_depth(), 7);

    // The rest of the best bid goes.
    assert!(book.cancel(1));
    assert_eq!(book.bid_depth(), 5);
    assert_eq!(book.ask_depth(), 7);

    // An unknown id changes nothing.
    assert!(!book.cancel(999));
    assert_eq!(book.bid_depth(), 5);
    assert_eq!(book.ask_depth(), 7);

    assert_eq!(book.bid_depth(), naive_bid_depth(&book));
    assert_eq!(book.ask_depth(), naive_ask_depth(&book));
}

#[test]
fn matching_respects_price_then_time_priority_across_and_within_levels() {
    let mut book = CdaOrderBook::new();
    book.submit(Order::limit(1, "a1", Side::Sell, 100, 5, 0));
    book.submit(Order::limit(2, "a2", Side::Sell, 100, 5, 1));
    book.submit(Order::limit(3, "a3", Side::Sell, 101, 5, 2));

    let trades = book.submit(Order::market(4, "buyer", Side::Buy, 12, 3));
    assert_eq!(trades.len(), 3, "trades={trades:?}");
    assert_eq!((trades[0].sell_order_id, trades[0].quantity), (1, 5));
    assert_eq!((trades[1].sell_order_id, trades[1].quantity), (2, 5));
    assert_eq!((trades[2].sell_order_id, trades[2].quantity), (3, 2));
    assert_no_dangling_levels(&book, "after sweep");
}

#[test]
fn out_of_order_arrival_at_same_price_still_sorts_by_ts_not_submission_order() {
    let mut book = CdaOrderBook::new();
    book.submit(Order::limit(1, "later", Side::Sell, 100, 5, 100));
    book.submit(Order::limit(2, "earlier", Side::Sell, 100, 5, 50));

    let trades = book.submit(Order::market(3, "buyer", Side::Buy, 5, 200));
    assert_eq!(trades.len(), 1);
    assert_eq!(
        trades[0].sell_order_id, 2,
        "the ts=50 order should fill first despite arriving second: trades={trades:?}"
    );
}

#[test]
fn cancel_of_an_oid_that_already_fully_filled_is_a_harmless_no_op() {
    let mut book = CdaOrderBook::new();
    book.submit(Order::limit(1, "s", Side::Sell, 100, 5, 0));
    let trades = book.submit(Order::market(2, "b", Side::Buy, 5, 1));
    assert_eq!(trades.len(), 1);

    assert!(!book.cancel(1), "must be false, not panic, for an oid that already fully filled");
    assert_eq!(book.ask_depth(), 0);
    assert_eq!(book.bid_depth(), 0);
}

#[test]
fn fully_filled_or_canceled_price_level_leaves_no_dangling_entry() {
    let mut book = CdaOrderBook::new();
    book.submit(Order::limit(1, "s", Side::Sell, 100, 5, 0));
    assert!(!book.asks_is_empty());
    book.submit(Order::market(2, "b", Side::Buy, 5, 1));
    assert!(book.asks_is_empty());
    assert_eq!(book.ask_ladder().level_count(), 0, "no dangling empty level should remain after a full fill");

    book.submit(Order::limit(3, "s2", Side::Buy, 90, 4, 2));
    assert!(!book.bids_is_empty());
    assert!(book.cancel(3));
    assert!(book.bids_is_empty());
    assert_eq!(book.bid_ladder().level_count(), 0, "no dangling empty level should remain after a cancel");
}

#[test]
fn accessors_match_naive_scan_after_random_submit_cancel_sequence() {
    let mut rng = Lcg(0xB00C_5EED);
    let mut book = CdaOrderBook::new();
    let mut live_oids: Vec<u64> = Vec::new();
    let mut next_oid = 1u64;

    for step in 0..500u64 {
        let action = rng.range(4);
        if action < 3 || live_oids.is_empty() {
            let side = if rng.range(2) == 0 { Side::Buy } else { Side::Sell };
            let qty = (rng.range(20) + 1) as Amount;
            let oid = next_oid;
            next_oid += 1;
            if rng.range(6) == 0 {
                book.submit(Order::market(oid, "u", side, qty, step));
            } else {
                // A narrow range of prices and moments that sometimes go back:
                // orders at one price often arrive out of order.
                let price = (rng.range(10) + 80) as Price;
                let ts = step.saturating_sub(rng.range(5));
                book.submit(Order::limit(oid, "u", side, price, qty, ts));
                live_oids.push(oid);
            }
        } else {
            // Some of these are gone already.
            let idx = rng.range(live_oids.len() as u64) as usize;
            let oid = live_oids.remove(idx);
            book.cancel(oid);
        }

        assert_eq!(book.bid_depth(), naive_bid_depth(&book), "bid_depth mismatch at step {step}");
        assert_eq!(book.ask_depth(), naive_ask_depth(&book), "ask_depth mismatch at step {step}");
        assert_eq!(book.bid_count(), naive_bid_count(&book), "bid_count mismatch at step {step}");
        assert_eq!(book.ask_count(), naive_ask_count(&book), "ask_count mismatch at step {step}");
        assert_eq!(book.best_bid(), naive_best_bid(&book), "best_bid mismatch at step {step}");
        assert_eq!(book.best_ask(), naive_best_ask(&book), "best_ask mismatch at step {step}");
        assert_no_dangling_levels(&book, &format!("at step {step}"));
        // The book never stays crossed.
        if let (Some(bid), Some(ask)) = (book.best_bid(), book.best_ask()) {
            assert!(bid < ask, "crossed at step {step}");
        }
    }
}

#[test]
fn a_partly_filled_incoming_order_rests_with_what_is_left() {
    let mut book = CdaOrderBook::new();
    book.submit(Order::limit(1, "s", Side::Sell, 100, 5, 0));
    let trades = book.submit(Order::limit(2, "b", Side::Buy, 101, 8, 1));
    assert_eq!(trades.len(), 1);
    assert_eq!(trades[0].price, 100);
    assert_eq!(trades[0].trade_id, 1);
    assert_eq!(trades[0].ts, 1);
    assert_eq!(trades[0].engine_type, EngineKind::Cda);
    assert_eq!(trades[0].buyer_id, "b");
    assert_eq!(trades[0].seller_id, "s");
    assert_eq!(book.best_bid(), Some(101));
    assert_eq!(book.bid_depth(), 3);
    assert_eq!(book.depth_at_best(), 3);
    assert_eq!(book.trade_count(), 1);
    assert_eq!(book.executed_volume(), 5);
    assert_eq!(book.executed_notional(), 0);
    assert_eq!(book.fill_totals(), (10, 13));
}

#[test]
fn a_notional_is_in_whole_currency_units() {
    let price: Price = 127_500_000;
    let mut book = CdaOrderBook::new();
    book.submit(Order::limit(1, "s", Side::Sell, price, 3, 0));
    assert!(book.has_room(&Order::market(2, "b", Side::Buy, 3, 1)));
    book.submit(Order::market(2, "b", Side::Buy, 3, 1));
    assert_eq!(book.executed_notional(), 382);

    let mut batch = FbaOrderBook::new();
    batch.submit(Order::limit(1, "s", Side::Sell, price, 3, 0));
    batch.submit(Order::market(2, "b", Side::Buy, 3, 1));
    assert!(batch.clear().is_some());
    assert_eq!(batch.executed_notional(), 382);
}

fn naive_volume(orders: &[Order], side: Side, price: Price) -> Amount {
    orders
        .iter()
        .filter(|o| o.side() == side)
        .filter(|o| match o.kind() {
            OrderKind::Market => true,
            OrderKind::Limit { price: limit_price } => match side {
                Side::Buy => limit_price >= price,
                Side::Sell => limit_price <= price,
            },
        })
        .map(|o| o.remaining)
        .sum()
}

#[test]
fn demand_supply_evaluators_boundary_prices_match_filter_semantics() {
    let orders = vec![
        Order::limit(1, "a", Side::Buy, 100, 5, 0),
        Order::limit(2, "a", Side::Buy, 99, 5, 0),
        Order::limit(3, "a", Side::Buy, 101, 5, 0),
        Order::market(4, "a", Side::Buy, 7, 0),
        Order::limit(5, "a", Side::Sell, 100, 3, 0),
        Order::limit(6, "a", Side::Sell, 101, 3, 0),
        Order::limit(7, "a", Side::Sell, 99, 3, 0),
        Order::market(8, "a", Side::Sell, 2, 0),
    ];
    let book = FbaOrderBook::new();
    let (demand, supply) = book.demand_supply_evaluators(&orders);

    assert_eq!(demand.at(100), 5 + 5 + 7);
    assert_eq!(supply.at(100), 3 + 3 + 2);
    assert_eq!(demand.at(100), naive_volume(&orders, Side::Buy, 100));
    assert_eq!(supply.at(100), naive_volume(&orders, Side::Sell, 100));
}

#[test]
fn demand_supply_evaluators_handle_empty_and_all_market_batches() {
    let book = FbaOrderBook::new();

    let (demand, supply) = book.demand_supply_evaluators(&vec![]);
    assert_eq!(demand.at(50), 0);
    assert_eq!(supply.at(50), 0);

    let orders = vec![Order::market(1, "a", Side::Buy, 10, 0), Order::market(2, "a", Side::Sell, 4, 0)];
    let (demand, supply) = book.demand_supply_evaluators(&orders);
    assert_eq!(demand.at(0), 10);
    assert_eq!(demand.at(u128::MAX), 10);
    assert_eq!(supply.at(0), 4);
    assert_eq!(supply.at(u128::MAX), 4);
}

#[test]
fn demand_supply_evaluators_match_naive_scan_across_random_batches() {
    let mut rng = Lcg(0x5EED_1234);
    let book = FbaOrderBook::new();

    for _ in 0..200 {
        let n = rng.range(40) as usize;
        let mut orders = Vec::with_capacity(n);
        for i in 0..n {
            let side = if rng.range(2) == 0 { Side::Buy } else { Side::Sell };
            let qty = (rng.range(100) + 1) as Amount;
            if rng.range(5) == 0 {
                orders.push(Order::market(i as u64, "u", side, qty, i as u64));
            } else {
                let price = rng.range(50) as Price;
                orders.push(Order::limit(i as u64, "u", side, price, qty, i as u64));
            }
        }

        let (demand, supply) = book.demand_supply_evaluators(&orders);
        for _ in 0..20 {
            let p = rng.range(60) as Price;
            assert_eq!(demand.at(p), naive_volume(&orders, Side::Buy, p), "demand mismatch at p={p}, orders={orders:?}");
            assert_eq!(supply.at(p), naive_volume(&orders, Side::Sell, p), "supply mismatch at p={p}, orders={orders:?}");
        }
    }
}

#[test]
fn a_batch_clears_where_most_trades_and_keeps_the_rest() {
    let mut book = FbaOrderBook::new();
    book.submit(Order::limit(1, "b1", Side::Buy, 102, 10, 1));
    book.submit(Order::limit(2, "b2", Side::Buy, 100, 10, 2));
    book.submit(Order::limit(3, "s1", Side::Sell, 99, 8, 3));
    book.submit(Order::limit(4, "s2", Side::Sell, 101, 8, 4));
    // At 101 and 102 ten trade against sixteen; 101 is the lower.
    assert_eq!(book.discover_price(), Some((101, 10, 16)));
    assert!(book.can_clear());
    let result = book.clear().expect("a price is there");
    assert_eq!(result.clearing_price, 101);
    assert_eq!(result.traded_quantity, 10);
    assert_eq!(result.demand_at_price, 10);
    assert_eq!(result.supply_at_price, 16);
    let filled: Vec<(u64, u64, Amount, Price)> =
        result.trades.iter().map(|t| (t.buy_order_id, t.sell_order_id, t.quantity, t.price)).collect();
    assert_eq!(filled, vec![(1, 3, 8, 101), (1, 4, 2, 101)]);
    // The queue at a price: best price first, then by time.
    let orders = vec![
        Order::limit(5, "b", Side::Buy, 100, 1, 2),
        Order::limit(6, "b", Side::Buy, 103, 1, 9),
        Order::limit(7, "b", Side::Buy, 99, 1, 1),
        Order::limit(8, "b", Side::Buy, 100, 1, 1),
        Order::market(9, "b", Side::Buy, 1, 5),
    ];
    let queue: Vec<u64> = book.eligible_orders(&orders, Side::Buy, 100).iter().map(|o| o.oid).collect();
    assert_eq!(queue, vec![9, 6, 8, 5]);
    let left: Vec<(u64, Amount)> = book.pending().iter().map(|o| (o.oid, o.remaining)).collect();
    assert_eq!(left, vec![(2, 10), (4, 6)]);
    assert_eq!(book.last_price(), Some(101));
    assert_eq!(book.best_unfilled_buy(), Some(100));
    assert_eq!(book.best_unfilled_sell(), Some(101));
    assert_eq!(book.executed_volume(), 10);
    assert_eq!(book.trade_count(), 2);
}

#[test]
fn nobody_trades_beyond_the_own_limit_and_both_sides_fill_alike() {
    let mut rng = Lcg(7);
    for _ in 0..100 {
        let mut book = FbaOrderBook::new();
        let mut orders = Vec::new();
        for i in 0..rng.range(20) {
            let side = if rng.range(2) == 0 { Side::Buy } else { Side::Sell };
            let qty = (rng.range(9) + 1) as Amount;
            let order = if rng.range(6) == 0 {
                Order::market(i, "u", side, qty, i)
            } else {
                Order::limit(i, "u", side, (rng.range(9) + 95) as Price, qty, i)
            };
            orders.push(order.clone());
            book.submit(order);
        }
        let before: Amount = orders.iter().map(|o| o.remaining).sum();
        if let Some(result) = book.clear() {
            let traded: Amount = result.trades.iter().map(|t| t.quantity).sum();
            assert_eq!(traded, result.traded_quantity);
            assert_eq!(traded, result.demand_at_price.min(result.supply_at_price));
            for t in &result.trades {
                assert_eq!(t.price, result.clearing_price);
                assert!(orders[t.buy_order_id as usize].limit_price().map_or(true, |p| p >= t.price));
                assert!(orders[t.sell_order_id as usize].limit_price().map_or(true, |p| p <= t.price));
            }
            let after: Amount = book.pending().iter().map(|o| o.remaining).sum();
            assert_eq!(before, after + 2 * traded);
        } else {
            assert_eq!(book.pending().len(), orders.len());
        }
    }
}

#[test]
fn a_reduced_order_keeps_its_original_size() {
    let mut order = Order::limit(1, "a", Side::Buy, 100, 10, 0);
    order.reduce(4);
    assert_eq!(order.remaining, 6);
    assert_eq!(order.orig_sz, 10);
    order.reduce(40);
    assert_eq!(order.remaining, 0);
    assert_eq!(Side::Buy.opposite(), Side::Sell);
    assert_eq!(EngineKind::Fba.label(), "FBA");
}

#[test]
fn a_cancelled_batch_order_is_not_filled() {
    let mut book = FbaOrderBook::new();
    book.submit(Order::limit(1, "Alice", Side::Buy, 100, 10, 1));
    assert!(book.cancel(1));
    assert_eq!(book.executed_volume(), 0);
    assert_eq!(book.fill_totals(), (0, 10));

    book.submit(Order::limit(2, "Alice", Side::Buy, 100, 6, 2));
    book.submit(Order::limit(3, "Bob", Side::Sell, 100, 4, 3));
    assert_eq!(book.clear().unwrap().traded_quantity, 4);
    assert_eq!(book.fill_totals(), (8, 20));
    assert!(book.cancel(2));
    assert_eq!(book.fill_totals(), (8, 20));
}

#[test]
fn a_cleared_batch_is_not_crossed() {
    let mut rng = Lcg(0xC0FFEE);
    let mut both = 0;
    for round in 0..60u64 {
        let mut book = FbaOrderBook::new();
        for i in 0..12u64 {
            let side = if rng.range(2) == 0 { Side::Buy } else { Side::Sell };
            let price = 95 + rng.range(11) as u128;
            book.submit(Order::limit(i + 1, "u", side, price, 1 + rng.range(9) as u128, i));
        }
        if book.clear().is_some() {
            if let (Some(buy), Some(sell)) = (book.best_unfilled_buy(), book.best_unfilled_sell()) {
                assert!(buy < sell, "round {round}: {buy} against {sell}");
                both += 1;
            }
        }
        let (filled, submitted) = book.fill_totals();
        assert_eq!(filled, 2 * book.executed_volume());
        assert_eq!(submitted, filled + book.depth_at_best());
    }
    assert!(both > 0);
}
