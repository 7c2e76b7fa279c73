//! What the commands mean.

use market_sim::inputs::cli::{format_price, parse_download_target, CliCommand, EngineMode};
use market_sim::inputs::download_cmd::{Coin, DownloadTarget};
use market_sim::simulation::asset_commands::CliCommand as AssetCommand;
use market_sim::simulation::commands::CliCommand as SessionCommand;
use market_sim::types::Side;

#[test]
fn parses_add_limit_order() {
    assert_eq!(
        CliCommand::parse("add buy 127 5 Alice"),
        Some(CliCommand::Add { side: Side::Buy, price: Some(127_000_000), qty: 5, user: "Alice".to_string() })
    );
    assert_eq!(
        CliCommand::parse("add sell 130 3 Bob"),
        Some(CliCommand::Add { side: Side::Sell, price: Some(130_000_000), qty: 3, user: "Bob".to_string() })
    );
}

#[test]
fn parses_add_with_decimal_price_and_quantity() {
    assert_eq!(
        CliCommand::parse("add buy 127.06 5.5 Alice"),
        Some(CliCommand::Add { side: Side::Buy, price: Some(127_060_000), qty: 6, user: "Alice".to_string() })
    );
    assert_eq!(
        CliCommand::parse("add sell 126.4 2.3 Bob"),
        Some(CliCommand::Add { side: Side::Sell, price: Some(126_400_000), qty: 2, user: "Bob".to_string() })
    );
}

#[test]
fn parses_add_market_order() {
    assert_eq!(
        CliCommand::parse("add buy market 15 999"),
        Some(CliCommand::Add { side: Side::Buy, price: None, qty: 15, user: "999".to_string() })
    );
    assert_eq!(
        CliCommand::parse("add sell MARKET 4 Charlie"),
        Some(CliCommand::Add { side: Side::Sell, price: None, qty: 4, user: "Charlie".to_string() })
    );
}

#[test]
fn rejects_malformed_add_commands() {
    assert_eq!(CliCommand::parse("add buy 127"), None);
    assert_eq!(CliCommand::parse("add hold 127 5 Alice"), None);
    assert_eq!(CliCommand::parse("add buy notanumber 5 Alice"), None);
    assert_eq!(CliCommand::parse("add buy 127 notanumber Alice"), None);
}

#[test]
fn parses_engine_switch_and_its_aliases() {
    assert_eq!(CliCommand::parse("engine continuous"), Some(CliCommand::Engine(EngineMode::Continuous)));
    assert_eq!(CliCommand::parse("engine cda"), Some(CliCommand::Engine(EngineMode::Continuous)));
    assert_eq!(CliCommand::parse("engine batch"), Some(CliCommand::Engine(EngineMode::Batch)));
    assert_eq!(CliCommand::parse("engine fba"), Some(CliCommand::Engine(EngineMode::Batch)));
    assert_eq!(CliCommand::parse("engine nonsense"), None);
    assert_eq!(CliCommand::parse("engine"), None);
}

#[test]
fn parses_simple_no_argument_commands() {
    assert_eq!(CliCommand::parse("batch"), Some(CliCommand::Batch));
    assert_eq!(CliCommand::parse("clear"), Some(CliCommand::Clear));
    assert_eq!(CliCommand::parse("log"), Some(CliCommand::Log));
    assert_eq!(CliCommand::parse("metrics"), Some(CliCommand::Metrics));
    assert_eq!(CliCommand::parse("stats"), Some(CliCommand::Metrics));
    assert_eq!(CliCommand::parse("orderbook"), Some(CliCommand::Orderbook));
    assert_eq!(CliCommand::parse("ob"), Some(CliCommand::Orderbook));
    assert_eq!(CliCommand::parse("help"), Some(CliCommand::Help));
    assert_eq!(CliCommand::parse("exit"), Some(CliCommand::Exit));
    assert_eq!(CliCommand::parse("quit"), Some(CliCommand::Exit));
}

#[test]
fn parses_load_with_one_or_more_paths() {
    assert_eq!(CliCommand::parse("load a.csv"), Some(CliCommand::Load { paths: vec!["a.csv".to_string()] }));
    assert_eq!(
        CliCommand::parse("load a.csv b.csv"),
        Some(CliCommand::Load { paths: vec!["a.csv".to_string(), "b.csv".to_string()] })
    );
    assert_eq!(CliCommand::parse("load"), None);
}

#[test]
fn parses_simulate_with_and_without_an_interval_override() {
    assert_eq!(
        CliCommand::parse("simulate ../data/order_statuses/20251201"),
        Some(CliCommand::Simulate { path: "../data/order_statuses/20251201".to_string(), interval_secs: None })
    );
    assert_eq!(
        CliCommand::parse("simulate ../data/order_statuses/20251201/sol_00.data.gz 60"),
        Some(CliCommand::Simulate { path: "../data/order_statuses/20251201/sol_00.data.gz".to_string(), interval_secs: Some(60) })
    );
    assert_eq!(CliCommand::parse("simulate"), None);
    assert_eq!(CliCommand::parse("simulate some/path notanumber"), None);
}

#[test]
fn parses_download_command_and_rejects_unknown_coins() {
    assert_eq!(CliCommand::parse("download btc"), Some(CliCommand::Download(DownloadTarget::Coin(Coin::Btc))));
    assert_eq!(CliCommand::parse("download eth"), Some(CliCommand::Download(DownloadTarget::Coin(Coin::Eth))));
    assert_eq!(CliCommand::parse("download sol"), Some(CliCommand::Download(DownloadTarget::Coin(Coin::Sol))));
    assert_eq!(CliCommand::parse("download all"), Some(CliCommand::Download(DownloadTarget::All)));
    assert_eq!(CliCommand::parse("download SOL"), Some(CliCommand::Download(DownloadTarget::Coin(Coin::Sol))));
    assert_eq!(CliCommand::parse("download doge"), None);
    assert_eq!(CliCommand::parse("download"), None);
}

#[test]
fn parses_extract_command_and_rejects_unknown_coins() {
    assert_eq!(CliCommand::parse("extract btc"), Some(CliCommand::Extract(DownloadTarget::Coin(Coin::Btc))));
    assert_eq!(CliCommand::parse("extract all"), Some(CliCommand::Extract(DownloadTarget::All)));
    assert_eq!(CliCommand::parse("extract SOL"), Some(CliCommand::Extract(DownloadTarget::Coin(Coin::Sol))));
    assert_eq!(CliCommand::parse("extract doge"), None);
    assert_eq!(CliCommand::parse("extract"), None);
}

#[test]
fn parses_test_engine_command_and_its_aliases() {
    assert_eq!(CliCommand::parse("test engine continuous"), Some(CliCommand::TestEngine(EngineMode::Continuous)));
    assert_eq!(CliCommand::parse("test engine cda"), Some(CliCommand::TestEngine(EngineMode::Continuous)));
    assert_eq!(CliCommand::parse("test engine batch"), Some(CliCommand::TestEngine(EngineMode::Batch)));
    assert_eq!(CliCommand::parse("test engine fba"), Some(CliCommand::TestEngine(EngineMode::Batch)));
    assert_eq!(CliCommand::parse("test"), None);
    assert_eq!(CliCommand::parse("test something continuous"), None);
}

#[test]
fn rejects_unknown_commands() {
    assert_eq!(CliCommand::parse("frobnicate"), None);
    assert_eq!(CliCommand::parse(""), None);
    assert_eq!(CliCommand::parse("   "), None);
}

#[test]
fn strips_leading_bom_before_matching_the_command_name() {
    assert_eq!(
        CliCommand::parse("\u{feff}load a.csv"),
        Some(CliCommand::Load { paths: vec!["a.csv".to_string()] })
    );
    assert_eq!(CliCommand::parse("\u{feff}clear"), Some(CliCommand::Clear));
}

#[test]
fn usage_hints_follow_the_command_word() {
    let hint = |line: &str| CliCommand::usage_hint(line).unwrap_or_default();
    assert_eq!(hint("add buy"), " Usage: add <buy|sell> <price|market> <qty> <user>");
    assert_eq!(hint("engine"), " Usage: engine <continuous|batch>");
    assert_eq!(hint("engine x"), " Unknown engine type. Choose 'continuous' or 'batch'.");
    assert_eq!(hint("test engine x"), " Unknown engine type. Choose 'continuous' or 'batch'.");
    assert_eq!(hint("test"), " Usage: test engine <continuous|batch>");
    assert_eq!(hint("load"), " Usage: load <path> [path...]");
    assert_eq!(hint("simulate"), " Usage: simulate <path> [interval_seconds]");
    assert_eq!(hint("simulate p x"), " Invalid interval_seconds: 'x'");
    assert_eq!(hint("download"), " Usage: download <btc|eth|sol|all>");
    assert_eq!(hint("extract doge"), " Unknown coin. Choose 'btc', 'eth', 'sol', or 'all'.");
    assert!(CliCommand::usage_hint("frobnicate").is_none());
    assert_eq!(SessionCommand::usage_hint("load"), Some(" Usage: load <path> [path...]".to_string()));
    assert!(SessionCommand::usage_hint("frobnicate").is_none());
    assert_eq!(parse_download_target("ETH"), Some(DownloadTarget::Coin(Coin::Eth)));
    assert_eq!(parse_download_target("x"), None);
}

#[test]
fn prices_print_with_six_decimals() {
    assert_eq!(format_price(127_060_000), "127.060000");
    assert_eq!(format_price(127_000_000), "127.000000");
    assert_eq!(format_price(1), "0.000001");
}

#[test]
fn session_commands_take_whole_numbers() {
    match SessionCommand::parse("add sell 130 3 Bob") {
        Some(SessionCommand::Add { side, price, qty, user }) => {
            assert_eq!(side, Side::Sell);
            assert_eq!(price, 130);
            assert_eq!(qty, 3);
            assert_eq!(user, "Bob");
        }
        other => panic!("{other:?}"),
    }
    assert!(matches!(SessionCommand::parse("engine batch"), Some(SessionCommand::Engine(EngineMode::Batch))));
    assert!(matches!(SessionCommand::parse("metrics"), Some(SessionCommand::Metrics)));
    assert!(SessionCommand::parse("add sell 1.5 3 Bob").is_none());
    assert!(SessionCommand::parse("nonsense").is_none());
}

#[test]
fn asset_names_are_put_in_capitals() {
    match AssetCommand::parse("add buy weth 2000 5 Alice") {
        Some(AssetCommand::Add { side, asset, price, qty, user }) => {
            assert_eq!(side, Side::Buy);
            assert_eq!(asset, "WETH");
            assert_eq!(price, 2000);
            assert_eq!(qty, 5);
            assert_eq!(user, "Alice");
        }
        other => panic!("{other:?}"),
    }
    // A capital can be more than one letter.
    match AssetCommand::parse("add buy stra\u{df}e 2000 5 Alice") {
        Some(AssetCommand::Add { asset, .. }) => assert_eq!(asset, "STRASSE"),
        other => panic!("{other:?}"),
    }
    assert!(matches!(AssetCommand::parse("amm"), Some(AssetCommand::Amm)));
    assert!(AssetCommand::parse("add buy weth").is_none());
    let words: Vec<Vec<char>> = ["add", "sell", "x", "7", "2", "Bob"].iter().map(|w| w.chars().collect()).collect();
    match AssetCommand::from_words(&words, "ANY".to_string()) {
        Some(AssetCommand::Add { side, asset, price, qty, user }) => {
            assert_eq!(side, Side::Sell);
            assert_eq!(asset, "ANY");
            assert_eq!(price, 7);
            assert_eq!(qty, 2);
            assert_eq!(user, "Bob");
        }
        other => panic!("{other:?}"),
    }
}
