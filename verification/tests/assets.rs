//! Several pairs: books, batches, pools, settlement and the simulators.

use market_sim::multi_asset::amm::AMMPool;
use market_sim::multi_asset::arbitrage::{u128_sqrt, AMMPool as PairPool, ArbitrageEngine, ArbitrageOracle};
use market_sim::multi_asset::clearing::{BatchAuctionEngine, MultiAssetEngine};
use market_sim::multi_asset::continuous::ContinuousEngine;
use market_sim::multi_asset::engine_traits::MatchingEngine;
use market_sim::multi_asset::lp::{LPBuilder, LPEncoder};
use market_sim::multi_asset::netting::BatchAuctionEngine as NettingEngine;
use market_sim::multi_asset::optimizer::SettlementOptimizer;
use market_sim::multi_asset::order_book::OrderBook;
use market_sim::multi_asset::types::{Account, AssetPair, Batch, Order, Trade};
use market_sim::simulation::cda_simulator::CdaSimulator;
use market_sim::simulation::display::split_ledger;
use market_sim::simulation::fba_simulator::FbaSimulator;
use market_sim::simulation::loader::{
    load_order_status_csv, parse_dataset_ts, parse_fixed_point, parse_row, round_to_unit,
};
use market_sim::single_pair::clearing::BatchAuctionEngine as PairAuction;
use market_sim::single_pair::continuous::ContinuousEngine as PairEngine;
use market_sim::types::{Side, PRICE_SCALE};

const ROW: &str = "2025-12-01 11:59:59.897401610,237,False,1,False,126.67,5175.0,254384947819,0,0.0,False,False,False,False,False,0,0,0.0,5175.0,open,Limit,Alo";

fn trade(id: u64, pair: &AssetPair, price: u128, quantity: u128, buyer: &str, seller: &str) -> Trade {
    Trade {
        trade_id: id,
        pair: pair.clone(),
        price,
        quantity,
        buyer_id: buyer.to_string(),
        seller_id: seller.to_string(),
        buy_order_id: 2 * id - 1,
        sell_order_id: 2 * id,
        ts: 0,
        trade_tx_hash: None,
        chain_id: None,
    }
}

#[test]
fn amm_price_and_execution() {
    let mut pool = AMMPool::new(1_000_000u128, 2_000_000u128);
    let p = pool.price();
    assert!(p > 0);
    assert_eq!(p, 2_000_000);

    let dy = pool.execute_sell(100_000u128);
    assert!(dy > 0);
    let p2 = pool.price();
    assert!(p2 > 0);
    assert_eq!(dy, 2_000_000 - 2_000_000_000_000 / 1_100_000);
    assert!(pool.reserve_x * pool.reserve_y <= 2_000_000_000_000);
}

#[test]
fn amm_linearize_breakpoints() {
    let pool = AMMPool::new(1000u128, 2000u128);
    let bps = vec![1u128, 10u128, 100u128];
    let pairs = pool.linearize(&bps);
    assert_eq!(pairs.len(), 3);
    for (dx, dy) in &pairs {
        assert!(*dy >= 0);
        assert!(*dx > 0);
    }
    assert_eq!(pairs[2], (100, 2000 - 2_000_000 / 1100));
}

#[test]
fn lp_encoder_emits_valid_fba_constraints() {
    let encoder = LPEncoder::new();
    let pair = AssetPair::new("X", "Y");

    let order1 = Order::market(1, "p1", pair.clone(), Side::Sell, 100u128, 0);
    let order2 = Order::market(2, "p2", pair.clone(), Side::Buy, 50u128, 0);

    let batch = Batch { id: 1, orders: vec![order1, order2] };

    let s = encoder.encode_batch(&batch);

    assert!(s.contains("Minimize"));
    assert!(s.contains("Subject To"));
    assert!(s.contains("-1 v_1"));
    assert!(s.contains("-1 v_2"));
    assert!(s.contains("v_1 <= 100"));
    assert!(s.contains("v_2 <= 50"));
    assert!(s.contains("conservation_base"));
}

#[test]
fn lp_builder_emits_basic_model() {
    let mut lp = LPBuilder::new();
    lp.set_objective("x1 + 2 x2");
    lp.add_constraint("c1", "x1 + x2 >= 10");
    lp.add_bound("x1 >= 0");
    lp.add_bound("x2 >= 0");
    lp.add_binary("z1");

    let s = lp.to_lp();
    assert!(s.contains("Minimize"));
    assert!(s.contains("Subject To"));
    assert!(s.contains("Bounds"));
    assert!(s.contains("Binaries"));
    assert!(s.contains("End"));
    assert!(s.contains("x1 + 2 x2"));
    assert!(s.contains("c1"));
}

#[test]
fn test_oracle_vwap_and_engine_sync() {
    let pair = AssetPair::new("ETH", "USDC");
    let mut pool = PairPool::new(pair.clone(), 1_000_000, 2_500_000);
    let mut arb_engine = ArbitrageEngine::new();

    let mut first = trade(1, &pair, 2_000_000, 100_000, "UserA", "UserB");
    first.buy_order_id = 101;
    first.sell_order_id = 201;
    let mut second = trade(2, &pair, 2_000_000, 50_000, "UserC", "UserD");
    second.buy_order_id = 102;
    second.sell_order_id = 202;
    let mock_batch_trades = vec![first, second];

    let detected_price = arb_engine.synchronize_amm(&mut pool, &mock_batch_trades);
    assert_eq!(detected_price, Some(2_000_000));

    let tolerance = 5;
    let final_amm_price = pool.price();
    assert!((final_amm_price as i128 - 2_000_000i128).abs() <= tolerance);
}

#[test]
fn test_empty_batch_retains_stale_price() {
    let pair = AssetPair::new("WBTC", "USDT");
    let mut arb_engine = ArbitrageEngine::new();
    arb_engine.oracle.seed_price(pair.clone(), 60_000_000);

    let empty_trades: Vec<Trade> = vec![];
    let price = arb_engine.oracle.observe_batch(&pair, &empty_trades);
    assert_eq!(price, Some(60_000_000));
}

#[test]
fn optimizer_reduces_cleared_transfer_count() {
    let pair = AssetPair::new("AAA", "BBB");
    let trades = vec![
        trade(1, &pair, PRICE_SCALE, 10, "A", "B"),
        trade(2, &pair, PRICE_SCALE, 10, "B", "C"),
        trade(3, &pair, PRICE_SCALE, 10, "C", "A"),
    ];

    let optimizer = SettlementOptimizer::new();
    let summary = optimizer.checked_optimize(&trades).expect("the amounts fit");

    assert_eq!(summary.plan.optimized_transfer_count, 0);
    assert!(summary.plan.naive_transfer_count > 0);
    let summary = optimizer.optimize_trades(&trades);
    assert_eq!(summary.plan.naive_transfer_count, 6);
    assert_eq!(summary.plan.edges.len(), 0);
}

#[test]
fn a_settlement_pays_what_everyone_is_owed() {
    let pair = AssetPair::new("AAA", "BBB");
    let trades = vec![trade(1, &pair, 2 * PRICE_SCALE, 10, "A", "B"), trade(2, &pair, 3 * PRICE_SCALE, 4, "B", "C")];
    let summary = SettlementOptimizer::new().checked_optimize(&trades).unwrap();
    let net = |user: &str, asset: &str| {
        summary.plan.net_positions.get(&(user.to_string(), asset.to_string())).copied().unwrap_or(0)
    };
    assert_eq!((net("A", "AAA"), net("B", "AAA"), net("C", "AAA")), (10, -6, -4));
    assert_eq!((net("A", "BBB"), net("B", "BBB"), net("C", "BBB")), (-20, 8, 12));
    let mut moved: Vec<(String, String, i128)> = Vec::new();
    for edge in &summary.plan.edges {
        for t in &edge.transfers {
            moved.push((edge.from.clone(), t.asset.clone(), -(t.amount as i128)));
            moved.push((edge.to.clone(), t.asset.clone(), t.amount as i128));
        }
    }
    for user in ["A", "B", "C"] {
        for asset in ["AAA", "BBB"] {
            let sum: i128 = moved.iter().filter(|(u, a, _)| u == user && a == asset).map(|(_, _, n)| n).sum();
            assert_eq!(sum, net(user, asset), "{user} {asset}");
        }
    }
    assert_eq!(summary.plan.optimized_transfer_count, summary.plan.edges.len());
    assert_eq!(summary.asset_edges.get(&"AAA".to_string()), Some(&2));

    let huge = vec![trade(1, &pair, u128::MAX, u128::MAX, "A", "B")];
    assert!(SettlementOptimizer::new().checked_optimize(&huge).is_none());
    assert!(SettlementOptimizer::new().checked_positions(&huge).is_none());
}

#[test]
fn an_account_adds_up_its_balances() {
    let mut account = Account::new("A");
    account.apply("AAA", 10);
    account.apply("AAA", -4);
    assert_eq!(account.balances.get(&"AAA".to_string()), Some(&6));
    assert_eq!(account.balances.get(&"BBB".to_string()), None);
    assert_eq!(AssetPair::new("SOL", "USD").label(), "SOL/USD");
    assert!(AssetPair::default().same(&AssetPair::new("SOL", "USD")));
}

#[test]
fn integer_roots_are_exact() {
    for n in [0u128, 1, 2, 3, 4, 15, 16, 17, u64::MAX as u128, u128::MAX] {
        let r = u128_sqrt(n);
        assert!(r.checked_mul(r).map_or(false, |sq| sq <= n));
        assert!((r + 1).checked_mul(r + 1).map_or(true, |sq| sq > n));
    }
}

#[test]
fn an_oracle_weighs_prices_by_quantity() {
    let pair = AssetPair::new("ETH", "USDC");
    let mut oracle = ArbitrageOracle::new();
    assert_eq!(oracle.get_price(&pair), None);
    let trades = vec![trade(1, &pair, 100, 3, "A", "B"), trade(2, &pair, 200, 1, "A", "B")];
    assert_eq!(oracle.observe_batch(&pair, &trades), Some(125));
    assert_eq!(oracle.get_price(&pair), Some(125));
}

#[test]
fn a_pool_fills_what_it_can_within_the_limits() {
    let pair = AssetPair::new("ETH", "USDC");
    let mut pool = PairPool::new(pair.clone(), 1_000_000, 2_000_000);
    let mut residual = vec![
        Order::limit(1, "A", pair.clone(), Side::Sell, 1_000_000, 1_000, 1),
        Order::limit(2, "B", pair.clone(), Side::Sell, 3_000_000, 1_000, 2),
        Order::limit(3, "C", pair.clone(), Side::Buy, 3_000_000, 500, 3),
    ];
    let before = pool.reserve_x * pool.reserve_y;
    let mut next_id = 7;
    let trades = ArbitrageEngine::new().fill_residual_orders(&mut pool, &mut residual, &mut next_id);
    assert_eq!(trades.len(), 2);
    assert_eq!(residual.len(), 1);
    assert_eq!(residual[0].oid, 2);
    assert!(pool.reserve_x * pool.reserve_y >= before);
    for t in &trades {
        assert!(t.buyer_id != t.seller_id);
    }
    let (people, with_pool) = split_ledger(&trades);
    assert_eq!(people.len() + with_pool.len(), 2);
}

#[test]
fn books_of_different_pairs_do_not_meet() {
    let eth = AssetPair::new("ETH", "USDC");
    let sol = AssetPair::new("SOL", "USD");
    let mut engine = ContinuousEngine::new();
    assert_eq!(engine.process_order(Order::limit(1, "a", eth.clone(), Side::Sell, 100, 5, 1)).len(), 0);
    assert_eq!(engine.process_order(Order::limit(2, "b", sol.clone(), Side::Buy, 100, 5, 2)).len(), 0);
    let trades = engine.process_order(Order::limit(3, "b", eth.clone(), Side::Buy, 101, 7, 3));
    assert_eq!(trades.len(), 1);
    assert_eq!((trades[0].price, trades[0].quantity), (100, 5));
    let book = engine.book_state().get(&eth).unwrap();
    assert_eq!(book.bids.len(), 1);
    assert_eq!(book.bids[0].remaining, 2);
    assert_eq!(engine.book_state().get(&sol).unwrap().bids.len(), 1);
    assert_eq!(engine.on_epoch_end().len(), 0);
}

#[test]
fn a_book_passes_over_own_orders() {
    let pair = AssetPair::new("ETH", "USDC");
    let mut book = OrderBook::new(pair.clone());
    book.submit(Order::limit(1, "a", pair.clone(), Side::Sell, 100, 5, 1));
    book.submit(Order::limit(2, "b", pair.clone(), Side::Sell, 101, 5, 2));
    let trades = book.submit(Order::limit(3, "a", pair.clone(), Side::Buy, 101, 5, 3));
    assert!(trades.iter().all(|t| t.buyer_id != t.seller_id));
    let (bids, asks) = book.snapshot();
    let total: u128 = bids.iter().chain(asks.iter()).map(|o| o.remaining).sum();
    let traded: u128 = trades.iter().map(|t| t.quantity).sum();
    assert_eq!(total + 2 * traded, 15);
}

#[test]
fn batches_clear_pair_by_pair_and_settle_together() {
    let eth = AssetPair::new("ETH", "USDC");
    let sol = AssetPair::new("SOL", "USDC");
    let mut engine = MultiAssetEngine::new();
    engine.submit(Order::limit(1, "a", eth.clone(), Side::Buy, 2 * PRICE_SCALE, 10, 1));
    engine.submit(Order::limit(2, "b", eth.clone(), Side::Sell, 2 * PRICE_SCALE, 4, 2));
    engine.submit(Order::limit(3, "b", sol.clone(), Side::Buy, PRICE_SCALE, 8, 3));
    engine.submit(Order::limit(4, "a", sol.clone(), Side::Sell, PRICE_SCALE, 8, 4));
    let result = engine.clear_all();
    assert_eq!(result.pair_results.len(), 2);
    let traded: Vec<u128> = result.pair_results.iter().map(|r| r.traded_quantity).collect();
    assert_eq!(traded, vec![4, 8]);
    // Both owe the other eight of the quote asset.
    assert_eq!(result.settlement.plan.optimized_transfer_count, 2);
    assert_eq!(result.settlement.plan.naive_transfer_count, 4);
    let left = result.leftover_batches.get(&eth).unwrap();
    assert_eq!((left[0].oid, left[0].remaining), (1, 6));

    let mut batch = BatchAuctionEngine::new();
    assert_eq!(batch.process_order(Order::limit(1, "a", eth.clone(), Side::Buy, 5, 1, 1)).len(), 0);
    batch.submit(Order::limit(2, "b", eth.clone(), Side::Sell, 5, 1, 2));
    let cleared = batch.clear_pair(&eth).unwrap();
    assert_eq!((cleared.clearing_price, cleared.traded_quantity), (5, 1));
    assert!(batch.clear_pair(&eth).is_none());
    assert_eq!(batch.clear_all().len(), 0);
}

#[test]
fn netting_adds_up_wants_by_participant() {
    let pair = AssetPair::new("ETH", "USDC");
    let mut engine = NettingEngine::new(SettlementOptimizer::new());
    engine.process_order(Order::limit(1, "a", pair.clone(), Side::Buy, 5, 3, 1));
    engine.process_order(Order::limit(2, "a", pair.clone(), Side::Buy, 5, 4, 2));
    engine.process_order(Order::limit(3, "b", pair.clone(), Side::Sell, 5, 1, 3));
    engine.process_order(Order::limit(4, "a", pair.clone(), Side::Sell, 5, 2, 4));
    let wants = engine.net_quantities();
    assert_eq!(wants.len(), 2);
    let (who, want) = wants.at(0);
    assert_eq!(who, "a");
    assert_eq!((want.buy, want.sell), (Some(7), Some(2)));
    let (who, want) = wants.at(1);
    assert_eq!(who, "b");
    assert_eq!((want.buy, want.sell), (None, Some(1)));

    let net = engine.net_orders();
    let sides: Vec<(&str, Side, u128)> =
        net.iter().map(|o| (o.participant_id.as_str(), o.side, o.remaining)).collect();
    assert_eq!(sides, vec![("a", Side::Buy, 7), ("a", Side::Sell, 2), ("b", Side::Sell, 1)]);
    for o in &net {
        assert_eq!((o.id, o.timestamp, o.limit_price), (0, 0, None));
        assert_eq!(o.pair.label(), "ETH/USDC");
    }
    let settled = engine.on_epoch_end(vec![trade(9, &pair, 5, 1, "a", "b")]);
    assert_eq!(settled.len(), 1);
    assert_eq!(settled[0].trade_id, 9);
    assert_eq!(engine.order_buffer.len(), 0);
    assert_eq!(engine.book_state().bids.len(), 0);

    // An epoch without orders settles nothing.
    assert_eq!(engine.net_orders().len(), 0);
    assert_eq!(engine.on_epoch_end(vec![trade(10, &pair, 5, 1, "a", "b")]).len(), 0);
}

#[test]
fn the_single_pair_engines_match_and_clear() {
    let pair = AssetPair::default();
    let mut engine = PairEngine::new();
    engine.process_order(Order::limit(1, "a", pair.clone(), Side::Sell, 100, 5, 1));
    let trades = engine.process_order(Order::limit(2, "b", pair.clone(), Side::Buy, 100, 3, 2));
    assert_eq!(trades.len(), 1);
    assert_eq!(engine.book_state().asks[0].remaining, 2);
    assert_eq!(engine.on_epoch_end().len(), 0);

    let mut auction = PairAuction::new();
    auction.submit(Order::limit(1, "a", pair.clone(), Side::Buy, 101, 5, 1));
    auction.submit(Order::limit(2, "b", pair.clone(), Side::Sell, 99, 5, 2));
    let result = auction.clear().unwrap();
    assert_eq!((result.clearing_price, result.traded_quantity), (99, 5));
    assert_eq!(auction.last_clearing_price, Some(99));
    assert!(auction.clear().is_none());
    auction.process_order(Order::limit(3, "a", pair.clone(), Side::Buy, 101, 5, 1));
    assert_eq!(auction.on_epoch_end().len(), 0);
}

#[test]
fn loader_parses_fixed_point_prices() {
    assert_eq!(parse_fixed_point("126.67"), Some(126_670_000));
    assert_eq!(parse_fixed_point("127"), Some(127_000_000));
    assert_eq!(parse_fixed_point("0.000001"), Some(1));
}

#[test]
fn loader_rounds_quantities_to_whole_units() {
    assert_eq!(round_to_unit("39.35"), Some(39));
    assert_eq!(round_to_unit("39.5"), Some(40));
    assert_eq!(round_to_unit("5175.0"), Some(5175));
}

#[test]
fn loader_parses_dataset_timestamps() {
    assert_eq!(parse_dataset_ts("2025-12-01 11:59:59.897401610"), Some(1_764_590_399_897_401_610));
    assert_eq!(parse_dataset_ts("2025-01-01 00:00:00.000000000"), Some(1_735_689_600_000_000_000));
}

#[test]
fn loader_parses_a_real_preview_row_end_to_end() {
    let order = parse_row(ROW).expect("row should parse");
    assert_eq!(order.oid, 254384947819);
    assert_eq!(order.user_id, "237");
    assert_eq!(order.status_id, 1);
    assert!(!order.is_ask);
    assert_eq!(order.limit_px, 126_670_000);
    assert_eq!(order.remaining, 5175);
    assert!(order.is_new_live_order());
}

#[test]
fn a_loaded_table_lists_the_lines_it_skips() {
    let loaded = load_order_status_csv(&format!("header\n{ROW}\nnonsense\n\n{ROW}\n"));
    assert_eq!(loaded.orders.len(), 2);
    assert_eq!(loaded.skipped, vec![3]);
}

#[test]
fn the_continuous_simulator_keeps_histories() {
    let mut sim = CdaSimulator::new(1_000_000_000);
    let sell = sim.add_order(Side::Sell, 100, 5, "a", 1).unwrap();
    for order in [sell] {
        let reference = sim.note(&order);
        assert_eq!(reference, None);
        let trades = sim.engine.process_order(order.clone());
        sim.record(&order, reference, &trades, 10);
    }
    let buy = sim.add_order(Side::Buy, 100, 5, "b", 2).unwrap();
    assert_eq!(buy.oid, 3);
    assert_eq!(buy.limit_px, 100 * PRICE_SCALE);
    let reference = sim.note(&buy);
    let trades = sim.engine.process_order(buy.clone());
    assert_eq!(trades.len(), 1);
    sim.record(&buy, reference, &trades, 10);
    assert_eq!(sim.global_order_history.len(), 2);
    assert_eq!(sim.global_trade_history.len(), 1);
    assert_eq!(sim.metrics_series().unwrap().len(), 1);
}

#[test]
fn the_batch_simulator_clears_and_rolls_over() {
    let mut sim = FbaSimulator::new(1_000_000_000);
    assert!(sim.close_window().is_none());
    assert_eq!(sim.add_order(Side::Buy, 100, 5, "a", 1), Some(1));
    assert_eq!(sim.add_order(Side::Sell, 100, 3, "b", 2), Some(2));
    let window = sim.close_window().unwrap();
    assert_eq!((window.open_ts, window.close_ts), (1, 2));
    let result = sim.batch_engine.clear();
    let report = sim.settle_window(window, result, 10);
    assert_eq!(report.trades.len(), 1);
    assert_eq!(report.trades[0].quantity, 3);
    assert_eq!(report.rolled_over, 1);
    assert_eq!(report.transfers, Some(2));
    assert_eq!(sim.pending_orders.len(), 1);
    assert_eq!(sim.pending_orders[0].remaining, 2);
    assert_eq!(sim.metrics_series().unwrap().len(), 1);
}

#[test]
fn clearing_all_pairs_keeps_what_was_not_traded() {
    let eth = AssetPair::new("ETH", "USDC");
    let sol = AssetPair::new("SOL", "USDC");
    let mut engine = MultiAssetEngine::new();
    let orders = vec![
        Order::limit(1, "a", eth.clone(), Side::Buy, 30, 7, 1),
        Order::limit(2, "b", eth.clone(), Side::Sell, 20, 5, 2),
        Order::limit(3, "c", eth.clone(), Side::Sell, 40, 9, 3),
        Order::limit(4, "a", sol.clone(), Side::Sell, 10, 6, 4),
        Order::limit(5, "b", sol.clone(), Side::Buy, 10, 2, 5),
    ];
    let before: u128 = orders.iter().map(|o| o.remaining).sum();
    for order in orders {
        engine.submit(order);
    }
    let result = engine.clear_all();
    let traded: u128 = result.pair_results.iter().flat_map(|r| r.trades.iter()).map(|t| t.quantity).sum();
    assert_eq!(traded, 7);
    let left = |pair: &AssetPair| -> Vec<(u64, u128)> {
        result.leftover_batches.get(pair).unwrap().iter().map(|o| (o.oid, o.remaining)).collect()
    };
    assert_eq!(left(&eth), vec![(1, 2), (3, 9)]);
    assert_eq!(left(&sol), vec![(4, 4)]);
    let after: u128 = left(&eth).iter().chain(left(&sol).iter()).map(|(_, q)| q).sum();
    assert_eq!(after, before - 2 * traded);
}

#[test]
fn a_batch_without_limits_clears_at_a_price_of_one() {
    let pair = AssetPair::new("ETH", "USDC");
    let mut engine = BatchAuctionEngine::new();
    engine.submit(Order::market(1, "a", pair.clone(), Side::Buy, 5, 1));
    engine.submit(Order::market(2, "b", pair.clone(), Side::Sell, 3, 2));
    let cleared = engine.clear_pair(&pair).unwrap();
    assert_eq!((cleared.clearing_price, cleared.traded_quantity), (PRICE_SCALE, 3));
}
