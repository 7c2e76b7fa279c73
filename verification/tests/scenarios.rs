//! The built-in checks of the engines.

use market_sim::engines::cda::CdaOrderBook;
use market_sim::inputs::shown::{Report, TradePart};
use market_sim::inputs::test_suite::{run_cda_tests, run_fba_tests};
use market_sim::types::{Order, Side};

#[test]
fn every_continuous_scenario_passes() {
    let cases = run_cda_tests();
    assert_eq!(cases.len(), 15);
    for case in &cases {
        assert!(case.passed, "{}: {}", case.name, case.detail);
    }
}

#[test]
fn every_batch_scenario_passes() {
    let cases = run_fba_tests();
    assert_eq!(cases.len(), 14);
    assert_eq!(cases[0].name, "fba_empty_batch_no_clear");
    assert_eq!(cases[13].name, "fba_tie_with_history_picks_closest_price");
    for case in &cases {
        assert!(case.passed, "{}: {}", case.name, case.detail);
    }
}

#[test]
fn scenarios_tell_what_they_came_to() {
    let details: Vec<String> = run_cda_tests().into_iter().map(|c| c.detail).collect();
    assert_eq!(details[0], "trades=0 bids=1 asks=0");
    assert_eq!(
        details[1],
        "trades=[Trade { trade_id: 1, price: 100, quantity: 10, buyer_id: \"Alice\", seller_id: \"Bob\", \
         buy_order_id: 2, sell_order_id: 1, engine_type: Cda, ts: 2, trade_tx_hash: None, chain_id: None }] \
         bids_left=0 asks_left=0"
    );
    assert!(details[2].ends_with("}] ask_remaining=Some(6)"));
    assert!(details[3].ends_with("}] bids=[(\"Buyer\", 3)]"));
    assert!(details[4].ends_with("}] remaining_asks=[\"S_worse\"]"));
    assert!(details[5].ends_with("}] remaining_bids=[\"B_late\"]"));
    assert_eq!(details[7], "trades=0 bids=0 asks=0 fill_rate=Some(0.0)");
    assert_eq!(details[8], "trade_count=1 volume=6 fill_rate=Some(0.8)");
    assert_eq!(details[9], "trades=0 bids=0 asks=0");
    assert!(details[10].ends_with("}] passive_trades=[] asks=[\"PassiveSeller\"]"));
    assert_eq!(details[11], "bids=0 asks=[\"Bob\"]");
    assert_eq!(details[12], "removed=false bids=1");
    assert_eq!(details[13], "bids=[(1, 10)]");
    let spread: f64 = (102e6 - 95e6) / ((95e6 + 102e6) / 2.0) * 10_000.0;
    assert_eq!(
        details[14],
        format!(
            "trade_count=1 volume=15 notional=1530 depth=45 spread={:?} imbalance={:?} fill_rate={:?}",
            Some(spread),
            Some((10.0 - 35.0) / 45.0),
            Some(30.0 / 75.0)
        )
    );

    let details: Vec<String> = run_fba_tests().into_iter().map(|c| c.detail).collect();
    assert_eq!(details[0], "expected clear() on an empty book to return None");
    assert_eq!(details[1], "price=100 qty=10 trades=1 pending_left=0");
    assert_eq!(details[2], "price=100 qty=15 trades=[(\"B1\", 10), (\"B2\", 5)] pending=[(\"B2\", 5), (\"B3\", 10)]");
    assert_eq!(
        details[3],
        "queued_without_executing=true price=105 qty=12 trades=[(\"S1\", 8, 105), (\"S2\", 4, 105)] pending=[(\"S2\", 16)]"
    );
    assert_eq!(details[4], "price=90 qty=0 trades=0 pending=2");
    assert_eq!(details[5], "result_is_some=false pending_left=2");
    assert_eq!(details[6], "result_is_some=false last_clearing_price=Some(100) pending=2");
    assert_eq!(details[7], "pending=0");
    assert_eq!(details[8], "pending=[\"Bob\"]");
    assert_eq!(details[9], "removed=false pending=1");
    assert_eq!(details[10], "pending=[(1, 10)]");
    assert_eq!(details[11], "qty=12 pending=[(\"Buyer\", 8)]");
    assert_eq!(details[12], "residual_share=Some(0.4) fill_rate=Some(0.75) spread=None depth=8");
    assert_eq!(details[13], "price=100 (expected 100, vs. 90 with no history)");
}

#[test]
fn a_shown_trade_looks_like_its_debug_form() {
    let mut book = CdaOrderBook::new();
    book.submit(Order::limit(1, "Seller", Side::Sell, 100, 10, 1));
    let trades = book.submit(Order::market(2, "Buyer", Side::Buy, 10, 2));
    let mut report = Report::new();
    report.trades("trades", &trades, TradePart::Whole);
    let shown: String = report.line().into_iter().collect();
    assert_eq!(shown, format!("trades={trades:?}"));
    assert_eq!(shown, run_cda_tests()[6].detail);

    let mut settled = trades;
    settled[0].trade_tx_hash = Some("0xab".to_string());
    settled[0].chain_id = Some(7);
    let mut report = Report::new();
    report.trades("trades", &settled, TradePart::Whole);
    let shown: String = report.line().into_iter().collect();
    assert_eq!(shown, format!("trades={settled:?}"));
}
