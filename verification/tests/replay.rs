//! Replaying recorded orders, checkpoints and interactive sessions.

use market_sim::inputs::cli::EngineMode;
use market_sim::inputs::replay::Replay;
use market_sim::inputs::replay_checkpoint::{
    output_dir, slugify, truncate_data_rows, Checkpoint, CDA_CSV, CHECKPOINT_FILE, FBA_CSV, SUMMARY_FILE,
};
use market_sim::inputs::session::{display_order, ledger, Session};
use market_sim::inputs::simulate_cmd::{
    exit_code, flush_hi, midpoint, plan_run, resolve_source, start_run, worst_code, BatchClock, RunPlan, Source, Start,
    DEFAULT_INTERVAL_SECS, MARKOUT_GUARD_SECS,
};
use market_sim::inputs::summary_text::{is_never_there, name_of, scope_of, MetricAgg, Scope, SummaryRecord};
use market_sim::metrics::facts::IntervalFacts;
use market_sim::numerals::numeral;
use market_sim::types::{EngineKind, Order, Side};

const W: u64 = 1_000_000_000;

#[test]
fn slugify_takes_the_last_component_and_sanitizes() {
    assert_eq!(slugify("data/order_statuses/sol"), "sol");
    assert_eq!(slugify("../data/sample/order_statuses/20251201"), "20251201");
    assert_eq!(slugify("weird name/with spaces & stuff"), "with_spaces___stuff");
    assert_eq!(slugify(""), "run");
    assert_eq!(output_dir("data/order_statuses/sol"), "output/sol");
    assert_eq!(slugify("a/b/"), "b");
    assert_eq!(slugify("a/.."), "run");
}

#[test]
fn checkpoint_round_trips_through_text() {
    let mut c = Checkpoint::fresh("data/order_statuses/sol", 1_000_000_000, 3_660_000_000_000, 744);
    c.files_done = 12;
    c.last_file = "data/order_statuses/sol/20251201/sol_11.data.gz".to_string();
    c.anchor = Some(1_764_590_400_000_000_000);
    c.emitted_upto = 1_764_590_460_000_000_000;
    c.records_seen = 4_000_000;
    c.fba_rows_written = 720;
    c.cda_rows_written = 720;
    c.fba_prev_close = Some(126.5f64.to_string());
    c.cda_prev_close = None;
    c.fba_prev_clearing = Some(1_045_000.0f64.to_string());
    c.cda_prev_clearing = None;
    c.cda_late_dropped = 3;
    c.elapsed_secs = 812.5f64.to_string();

    // Two intervals with a spread of 2.5 and four trades each.
    c.fba_summary.intervals_total = 2;
    c.fba_summary.trade_count_sum = 8;
    c.fba_summary.executed_volume_sum = 20.0f64.to_string();
    c.fba_summary.executed_notional_sum = 2_520_000_000.0f64.to_string();
    c.fba_summary.aggs[0] =
        MetricAgg { n: 2, sum: 5.0f64.to_string(), min: 2.5f64.to_string(), max: 2.5f64.to_string() };

    let text = c.render();
    let back = Checkpoint::parse(&text).expect("round-trips");

    assert_eq!(back.source, c.source);
    assert_eq!(back.interval_ns, c.interval_ns);
    assert_eq!(back.files_done, 12);
    assert_eq!(back.anchor, c.anchor);
    assert_eq!(back.emitted_upto, c.emitted_upto);
    assert_eq!(back.fba_rows_written, 720);
    let number = |t: &Option<String>| t.as_ref().map(|s| s.parse::<f64>().unwrap());
    assert_eq!(number(&back.fba_prev_close), Some(126.5));
    assert_eq!(back.cda_prev_close, None);
    assert_eq!(number(&back.fba_prev_clearing), Some(1_045_000.0));
    assert_eq!(back.cda_prev_clearing, None);
    assert_eq!(back.cda_late_dropped, 3);
    assert_eq!(back.elapsed_secs.parse::<f64>().unwrap(), 812.5);
    assert_eq!(back.fba_summary.intervals_total, 2);
    assert_eq!(back.fba_summary.trade_count_sum, 8);
    assert_eq!(back.fba_summary.serialize(), c.fba_summary.serialize());
    assert_eq!(back.fba_summary.aggs[0].n, 2);
    assert_eq!(back.fba_summary.aggs[0].sum, "5");
    assert_eq!(back.render(), text);
}

#[test]
fn parse_rejects_a_foreign_version() {
    let text = "version 999\nsource x\n";
    assert!(Checkpoint::parse(text).is_err());
}

#[test]
fn parse_names_what_is_wrong() {
    let fail = |text: &str| Checkpoint::parse(text).err().unwrap_or_default();
    assert_eq!(fail("source x\n"), "missing version line");
    assert_eq!(fail("version x\n"), "bad version");
    assert_eq!(fail("version 999\n"), "unsupported checkpoint version 999 (this build writes 2)");
    assert_eq!(fail("version 2\nfiles_done x\n"), "bad files_done");
    assert_eq!(fail("version 2\nfba_summary 1\n"), "truncated summary blob");
    assert_eq!(fail("version 2\nelapsed_secs x\n"), "bad elapsed_secs");
    assert_eq!(fail("version 2\nfba_prev_close 1.2.3\n"), "bad f64 '1.2.3'");
    let c = Checkpoint::parse("version 2\nsomething new\n\ncomplete true\n").unwrap();
    assert!(c.complete);
    assert_eq!(c.source, "");
}

#[test]
fn a_summary_survives_its_text() {
    let mut s = SummaryRecord::new();
    s.intervals_total = 7;
    s.aggs[30] = MetricAgg { n: 3, sum: "1.5".to_string(), min: "0".to_string(), max: "1".to_string() };
    let text = s.serialize();
    assert!(text.starts_with("7;0;0;0;quoted_spread_bps=0:0:inf:-inf;"));
    assert!(text.ends_with(";unexecuted_residual_share=3:1.5:0:1"));
    let back = SummaryRecord::deserialize(&text).unwrap();
    assert_eq!(back.serialize(), text);
    assert_eq!(SummaryRecord::deserialize("x").err(), Some("bad intervals_total".to_string()));
    assert_eq!(SummaryRecord::deserialize("1;2;3;4;a").err(), Some("summary chunk missing '='".to_string()));
    assert_eq!(SummaryRecord::deserialize("1;2;3;4;a=x").err(), Some("bad agg n".to_string()));
    assert_eq!(SummaryRecord::deserialize("1;2;x;4").err(), Some("bad executed_volume_sum".to_string()));
    assert_eq!(SummaryRecord::deserialize("1;2;3;x").err(), Some("bad executed_notional_sum".to_string()));
    assert_eq!(SummaryRecord::deserialize("1;2;3").err(), Some("truncated summary blob".to_string()));
    assert_eq!(SummaryRecord::deserialize("1;2;3;4;a=1:x").err(), Some("bad agg sum".to_string()));
    assert_eq!(SummaryRecord::deserialize("1;2;3;4;a=1:2").err(), Some("summary chunk missing min".to_string()));
    assert_eq!(SummaryRecord::deserialize("1;2;3;4;a=1:2:3:").err(), Some("bad agg max".to_string()));
}

#[test]
fn numerals_are_what_the_standard_library_reads() {
    let mut texts: Vec<String> = ["", "+", "-", ".", "-.", "+inf", "INF", "infinit", "-Infinity", "NaN", "nan0", "NONE", " 1", "1 ", "1_0", "0x1"]
        .iter()
        .map(|t| t.to_string())
        .collect();
    // All short texts over the characters that matter.
    let letters = ['0', '7', '.', 'e', 'E', '+', '-', 'x'];
    let mut layer: Vec<String> = vec![String::new()];
    for _ in 0..5 {
        let mut next = Vec::new();
        for t in &layer {
            for c in letters {
                next.push(format!("{t}{c}"));
            }
        }
        texts.extend(next.iter().cloned());
        layer = next;
    }
    for t in texts {
        let chars: Vec<char> = t.chars().collect();
        assert_eq!(numeral(&chars), t.parse::<f64>().is_ok(), "{t:?}");
    }
}

#[test]
fn some_metrics_are_never_there_for_an_engine() {
    let at = |name: &str| (0..31).find(|i| name_of(*i) == name).unwrap();
    assert_eq!(scope_of(at("book_imbalance")), Scope::CdaOnly);
    assert!(is_never_there(at("book_imbalance"), EngineKind::Fba));
    assert!(!is_never_there(at("book_imbalance"), EngineKind::Cda));
    assert!(is_never_there(at("boundary_concentration"), EngineKind::Cda));
    assert!(is_never_there(at("pricing_error_bps"), EngineKind::Fba));
    assert!(!is_never_there(at("vwap"), EngineKind::Fba));
}

#[test]
fn extra_rows_are_cut_and_matching_files_left_alone() {
    let cut = truncate_data_rows("header\nr0\nr1\nr2\nr3\n", 2).unwrap();
    assert_eq!(cut, "header\nr0\nr1\n");
    assert_eq!(truncate_data_rows(&cut, 2), None);
    assert_eq!(truncate_data_rows("", 2), None);
    assert_eq!(truncate_data_rows("header\nr0", 5), Some("header\nr0\n".to_string()));
    assert_eq!((CHECKPOINT_FILE, SUMMARY_FILE), ("checkpoint.txt", "summary.txt"));
    assert_eq!((FBA_CSV, CDA_CSV), ("fba_timeseries.csv", "cda_timeseries.csv"));
}

#[test]
fn flush_hi_releases_up_to_the_next_files_start_minus_the_markout_guard() {
    let w = 1_000_000_000u64;
    let guard = 10 * w;
    let anchor = Some(1_000u64);

    assert_eq!(flush_hi(None, Some(999_999), 999_999, guard, w), 0);
    assert_eq!(flush_hi(anchor, Some(1_000 + 5 * w), 1_000 + 5 * w, guard, w), 1_000);

    let hi = flush_hi(anchor, Some(1_000 + 25 * w), 1_000 + 40 * w, guard, w);
    assert_eq!(hi, 1_000 + 15 * w);
    assert_eq!((hi - 1_000) % w, 0, "grid-aligned");

    let hi = flush_hi(anchor, Some(1_000 + 40 * w), 1_000 + 25 * w, guard, w);
    assert_eq!(hi, 1_000 + 15 * w);

    assert_eq!(flush_hi(anchor, None, 1_000 + 25 * w, guard, w), 1_000 + 15 * w);
}

#[test]
fn a_run_starts_goes_on_or_refuses() {
    let mut c = Checkpoint::fresh("s", W, 35 * W, 4);
    let plan = |c: &Option<Checkpoint>| plan_run(c, "s", W, 4);
    assert_eq!(plan(&None), RunPlan::Fresh);
    let prior = Some(Checkpoint::parse(&c.render()).unwrap());
    assert_eq!(plan(&prior), RunPlan::Restart);
    c.fba_rows_written = 1;
    let prior = Some(Checkpoint::parse(&c.render()).unwrap());
    assert_eq!(plan(&prior), RunPlan::Append);
    assert_eq!(plan_run(&prior, "other", W, 4), RunPlan::Refuse);
    assert_eq!(plan_run(&prior, "s", 2 * W, 4), RunPlan::Refuse);
    assert_eq!(plan_run(&prior, "s", W, 5), RunPlan::Refuse);
    c.complete = true;
    assert_eq!(plan(&Some(c)), RunPlan::Done);
    assert_eq!((DEFAULT_INTERVAL_SECS, MARKOUT_GUARD_SECS), (1, 35));
}

#[test]
fn an_exit_code_tells_how_a_run_ended() {
    let code = |files: usize, prior: &Result<Option<Checkpoint>, String>, failed: bool| {
        exit_code(start_run(files, prior, "s", W), failed)
    };
    assert_eq!(start_run(0, &Ok(None), "s", W), Start::NoFiles);
    assert_eq!(start_run(4, &Err("bad".to_string()), "s", W), Start::Unreadable);
    assert_eq!(start_run(4, &Ok(None), "s", W), Start::Planned(RunPlan::Fresh));
    assert_eq!(code(0, &Ok(None), false), 2);
    assert_eq!(code(4, &Err("bad".to_string()), false), 2);
    assert_eq!((code(4, &Ok(None), false), code(4, &Ok(None), true)), (0, 1));
    let other = Ok(Some(Checkpoint::fresh("other", W, 35 * W, 4)));
    assert_eq!(code(4, &other, false), 2);
    let begun = Ok(Some(Checkpoint::fresh("s", W, 35 * W, 4)));
    assert_eq!((code(4, &begun, false), code(4, &begun, true), code(5, &begun, false)), (0, 1, 2));
    let mut c = Checkpoint::fresh("s", W, 35 * W, 4);
    c.complete = true;
    let done = Ok(Some(c));
    assert_eq!(start_run(4, &done, "s", W), Start::Planned(RunPlan::Done));
    assert_eq!((code(4, &done, false), code(4, &done, true)), (0, 0));
    assert_eq!(worst_code(&vec![0, 2, 1]), 2);
    assert_eq!(worst_code(&vec![0, 1, 0]), 1);
    assert_eq!(worst_code(&Vec::new()), 0);
}

#[test]
fn a_coin_stands_for_its_directory() {
    assert!(matches!(resolve_source("ALL"), Source::All));
    match resolve_source("SOL") {
        Source::Coin(dir) => assert_eq!(dir, "data/order_statuses/sol"),
        other => panic!("{other:?}"),
    }
    match resolve_source("some/path") {
        Source::Path(path) => assert_eq!(path, "some/path"),
        other => panic!("{other:?}"),
    }
    assert_eq!(midpoint(Some(100), Some(103)), Some(101));
    assert_eq!(midpoint(None, Some(103)), Some(103));
    assert_eq!(midpoint(None, None), None);
}

#[test]
fn windows_follow_each_other_without_gaps() {
    let mut clock = BatchClock::new(10);
    assert_eq!(clock.over_at(100), None);
    clock.start(100);
    assert_eq!(clock.open_ts(), Some(100));
    assert_eq!(clock.over_at(109), None);
    let mut seen = Vec::new();
    while let Some(window) = clock.over_at(135) {
        seen.push(window);
        clock.turn();
    }
    assert_eq!(seen, vec![(100, 110), (110, 120), (120, 130)]);
    clock.start(500);
    assert_eq!(clock.open_ts(), Some(130));
    assert_eq!(clock.width(), 10);
}

fn clear_window(replay: &mut Replay, open: u64, close: u64) -> usize {
    match replay.batch(open, close) {
        Some(batch) => {
            assert!(replay.can_clear());
            let result = replay.clear();
            let trades = result.as_ref().map_or(0, |r| r.trades.len());
            replay.record_clearing(&batch, &result, 7);
            trades
        }
        None => 0,
    }
}

fn feed(replay: &mut Replay, order: Order) -> (usize, usize) {
    replay.observe(&order);
    let mut cleared = 0;
    while let Some((open, close)) = replay.window_over() {
        cleared += clear_window(replay, open, close);
        replay.next_window();
    }
    let step = replay.queue(&order);
    assert!(replay.has_room(&order));
    let trades = replay.match_order(order);
    replay.record_match(step, &trades, 3);
    (cleared, trades.len())
}

#[test]
fn a_replay_feeds_both_engines_on_one_grid() {
    let mut replay = Replay::new(W);
    assert_eq!(feed(&mut replay, Order::limit(1, "a", Side::Sell, 100, 5, 10)), (0, 0));
    assert_eq!(feed(&mut replay, Order::limit(2, "b", Side::Buy, 101, 5, 20)), (0, 1));
    // The window of the batch is over with the next record.
    assert_eq!(feed(&mut replay, Order::limit(3, "c", Side::Buy, 90, 1, 10 + W)), (1, 0));
    assert_eq!(replay.messages().len(), 3);
    assert_eq!(replay.last_seen(), Some(10 + W));
    assert_eq!(replay.anchor(), Some(10));
    assert_eq!(replay.fba_events().batches.len(), 1);
    assert_eq!(replay.fba_events().batches[0].clearing_price, Some(100));
    assert_eq!(replay.fba_events().batches[0].buy_flow, 5);
    assert_eq!(replay.fba_events().trades.len(), 1);
    assert_eq!(replay.cda_events().books.len(), 3);
    assert_eq!(replay.cda_events().trades.len(), 1);
    assert_eq!(replay.cda_events().trades[0].aggressor_side, Some(Side::Buy));

    // Nothing is settled yet.
    assert_eq!(replay.settled(Some(10 + 2 * W), 35 * W), 10);
    let (open, close) = replay.last_window();
    assert_eq!((open, close), (10 + W, 10 + W));
    clear_window(&mut replay, open, close);
    let (fba, cda): (Vec<IntervalFacts>, Vec<IntervalFacts>) = replay.finish(10 + W).unwrap();
    assert_eq!(fba.len(), 2);
    assert_eq!(cda.len(), 2);
    for (a, b) in fba.iter().zip(&cda) {
        assert_eq!(a.start, b.start);
    }
    assert_eq!(cda[0].trades.len(), 1);
    assert_eq!(fba[0].messages, 2);
    replay.prune();
    assert_eq!(replay.messages().len(), 0);
    assert_eq!(replay.late(), (0, 0));

    let mut c = Checkpoint::fresh("s", W, 35 * W, 1);
    c.count_file(0, "f", 3, 0, false);
    c.mark(&replay, 2, 2, true);
    assert_eq!(c.files_done, 1);
    assert_eq!(c.anchor, Some(10));
    assert_eq!(c.fba_rows_written, 2);
    assert!(c.complete);

    let (fba_carry, cda_carry) = replay.carries();
    let again = Replay::resume(W, 10, replay.emitted_upto(), fba_carry, cda_carry, 0, 0);
    assert_eq!(again.emitted_upto(), 10 + 2 * W);
    assert_eq!(again.messages().len(), 0);
}

#[test]
fn a_session_sends_orders_to_the_active_book() {
    let mut s = Session::new();
    assert_eq!(s.mode(), EngineMode::Batch);
    let order = s.enter(Side::Buy, Some(100), 5, "Alice", 1).unwrap();
    assert_eq!(order.oid, 1);
    assert_eq!(s.submit(order).unwrap().len(), 0);
    assert_eq!(s.fba().pending().len(), 1);
    s.switch(EngineMode::Continuous);
    let sell = s.enter(Side::Sell, Some(100), 5, "Bob", 2).unwrap();
    assert_eq!(sell.oid, 2);
    s.submit(sell).unwrap();
    let buy = s.enter(Side::Buy, None, 5, "Carol", 3).unwrap();
    let trades = s.submit(buy).unwrap();
    assert_eq!(trades.len(), 1);
    assert_eq!(s.cda().trade_count(), 1);
    let mut other = Order::limit(9, "x", Side::Sell, 90, 1, 4);
    other.status_id = 0;
    assert_eq!(s.load(vec![Order::limit(8, "x", Side::Sell, 120, 1, 4), other]), (2, 1));
    assert_eq!(s.cda().ask_count(), 1);
    assert!(s.can_clear());
    let result = s.clear().unwrap();
    assert_eq!(result.traded_quantity, 0);
    assert_eq!(s.fba().pending().len(), 1);
}

#[test]
fn orders_are_shown_best_first_and_trades_by_time() {
    let orders = vec![
        Order::limit(1, "a", Side::Buy, 100, 1, 3),
        Order::limit(2, "a", Side::Sell, 105, 1, 1),
        Order::limit(3, "a", Side::Buy, 102, 1, 2),
        Order::limit(4, "a", Side::Sell, 103, 1, 2),
    ];
    let ids = |side: Side| -> Vec<u64> { display_order(&orders, side).iter().map(|o| o.oid).collect() };
    assert_eq!(ids(Side::Buy), vec![3, 1]);
    assert_eq!(ids(Side::Sell), vec![4, 2]);

    let mut s = Session::new();
    s.switch(EngineMode::Continuous);
    s.submit(Order::limit(1, "a", Side::Sell, 100, 2, 1));
    let late = s.submit(Order::market(2, "b", Side::Buy, 1, 9)).unwrap();
    let early = s.submit(Order::market(3, "b", Side::Buy, 1, 5)).unwrap();
    let times: Vec<u64> = ledger(&late, &early).iter().map(|t| t.ts).collect();
    assert_eq!(times, vec![5, 9]);
}
