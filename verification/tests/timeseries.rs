//! The time series: metrics computed from the facts of each interval.

use market_sim::metrics::collector::MetricsCollector;
use market_sim::metrics::events::{
    depth_schedule, BatchClearedEvent, BookSnapshot, Level, OrderMessage, TradeEvent,
};
use market_sim::metrics::facts::{EventLog, IntervalFacts};
use market_sim::metrics::grid::bucket_of;
use market_sim::metrics::orders::{OrderBookkeeping, OrderState};
use market_sim::metrics::report::{csv_header as report_header, csv_line};
use market_sim::metrics::series::RefPrice;
use market_sim::metrics::timeseries::{csv_header, MetricsRecorder};
use market_sim::types::{EngineKind, Side, Trade, PRICE_SCALE};

/// One row of the time series. A metric that cannot be computed for an
/// interval is `None`, never a silent zero.
#[derive(Debug, Clone)]
pub struct IntervalMetrics {
    pub engine: &'static str,
    pub interval_start: u64,
    pub interval_width: u64,
    pub quoted_spread_bps: Option<f64>,
    pub depth_at_best: Option<f64>,
    pub depth_within_bps: [Option<f64>; 3],
    pub book_imbalance: Option<f64>,
    pub total_book_depth: Option<f64>,
    pub effective_spread_bps: Option<f64>,
    pub realized_spread_bps: [Option<f64>; 3],
    pub price_impact_bps: [Option<f64>; 3],
    pub amihud_illiquidity: Option<f64>,
    pub kyle_lambda: Option<f64>,
    pub realized_volatility: Option<f64>,
    pub intra_interval_price_dispersion: Option<f64>,
    /// Needs a feed of reference prices that the data does not have.
    pub pricing_error_bps: Option<f64>,
    pub executed_volume: f64,
    pub executed_notional: f64,
    pub vwap: Option<f64>,
    pub trade_count: u64,
    pub fill_rate: Option<f64>,
    pub avg_time_to_execution_secs: Option<f64>,
    pub trader_surplus: f64,
    pub order_size_inflation: Option<f64>,
    pub order_to_trade_ratio: Option<f64>,
    pub boundary_concentration: Option<f64>,
    pub throughput_orders_per_sec: Option<f64>,
    pub avg_clearing_latency_micros: Option<f64>,
    pub unexecuted_residual_share: Option<f64>,
}

fn mean(values: &[f64]) -> Option<f64> {
    if values.is_empty() {
        None
    } else {
        Some(values.iter().sum::<f64>() / values.len() as f64)
    }
}

fn stddev(values: &[f64], mean: f64) -> f64 {
    if values.len() < 2 {
        return 0.0;
    }
    let var = values.iter().map(|v| (v - mean).powi(2)).sum::<f64>() / values.len() as f64;
    var.sqrt()
}

fn middle(price: RefPrice) -> f64 {
    (price.low as f64 + price.high as f64) / 2.0
}

/// Twice the deviation of `price` from `from`, relative to `reference`: signed
/// by the side that caused the trade, unsigned without one.
fn spread_bps(price: f64, from: f64, reference: f64, aggressor_side: Option<Side>) -> f64 {
    let deviation = match aggressor_side {
        Some(Side::Buy) => price - from,
        Some(Side::Sell) => -(price - from),
        None => (price - from).abs(),
    };
    2.0 * deviation / reference * 10_000.0
}

/// The slope through the origin of `y` on `x`.
fn slope(observations: &[(f64, f64)]) -> Option<f64> {
    let mut sxx = 0.0;
    let mut sxy = 0.0;
    for (x, y) in observations {
        sxx += x * x;
        sxy += x * y;
    }
    if sxx > 0.0 {
        Some(sxy / sxx)
    } else {
        None
    }
}

fn trade_metrics(m: &mut IntervalMetrics, row: &IntervalFacts, log: &EventLog) {
    let mut prices: Vec<f64> = Vec::new();
    let mut effective = (0.0, 0.0);
    let mut realized = [(0.0, 0.0); 3];
    for (k, i) in row.trades.iter().enumerate() {
        let t = &log.trades[*i];
        let qty = t.trade.quantity as f64;
        let price = t.trade.price as f64;
        m.executed_volume += qty;
        m.executed_notional += qty * price;
        m.trade_count += 1;
        prices.push(price);
        let markout = &row.markouts[k];
        if let Some(limit) = markout.buy_limit {
            m.trader_surplus += (limit as f64 - price).max(0.0) * qty;
        }
        if let Some(limit) = markout.sell_limit {
            m.trader_surplus += (price - limit as f64).max(0.0) * qty;
        }
        if let Some(reference) = t.reference_price.filter(|r| *r > 0) {
            let reference = reference as f64;
            effective.0 += spread_bps(price, reference, reference, t.aggressor_side) * qty;
            effective.1 += qty;
            for (h, after) in [markout.after_1s, markout.after_5s, markout.after_30s].iter().enumerate() {
                if let Some(after) = after {
                    realized[h].0 += spread_bps(price, middle(*after), reference, t.aggressor_side) * qty;
                    realized[h].1 += qty;
                }
            }
        }
    }
    if effective.1 > 0.0 {
        m.effective_spread_bps = Some(effective.0 / effective.1);
    }
    for (h, (sum, weight)) in realized.iter().enumerate() {
        if *weight > 0.0 {
            let r = sum / weight;
            m.realized_spread_bps[h] = Some(r);
            m.price_impact_bps[h] = m.effective_spread_bps.map(|e| e - r);
        }
    }
    if let Some(average) = mean(&prices) {
        let relative = if average > 0.0 { stddev(&prices, average) / average * 10_000.0 } else { 0.0 };
        m.intra_interval_price_dispersion = Some(relative);
    }
    if m.executed_volume > 0.0 {
        m.vwap = Some(m.executed_notional / m.executed_volume);
    }
}

fn impact_metrics(m: &mut IntervalMetrics, row: &IntervalFacts, log: &EventLog) {
    let mut sweeps: Vec<(f64, f64)> = Vec::new();
    for sweep in &row.sweeps {
        let Some(after) = sweep.after else { continue };
        let mut signed = 0.0;
        let mut before = 0.0;
        for (k, i) in sweep.trades.iter().enumerate() {
            let t = &log.trades[*i];
            if k == 0 {
                before = t.reference_price.unwrap_or(0) as f64;
            }
            match t.aggressor_side {
                Some(Side::Buy) => signed += t.trade.quantity as f64,
                Some(Side::Sell) => signed -= t.trade.quantity as f64,
                None => {}
            }
        }
        sweeps.push((signed, (middle(after) - before) / before * 10_000.0));
    }
    m.kyle_lambda = slope(&sweeps);

    let mut batches: Vec<(f64, f64)> = Vec::new();
    for (k, i) in row.batches.iter().enumerate() {
        let b = &log.batches[*i];
        if let (Some(price), Some(prior)) = (b.clearing_price, row.prior_clearing[k].filter(|p| *p > 0)) {
            let flow = b.buy_flow as f64 - b.sell_flow as f64;
            batches.push((flow, (price as f64 - prior as f64) / prior as f64 * 10_000.0));
        }
    }
    if let Some(lambda) = slope(&batches) {
        m.kyle_lambda = Some(lambda);
    }

    let points: Vec<f64> = row.points.iter().map(|p| middle(*p)).collect();
    let returns: Vec<f64> =
        points.windows(2).filter(|w| w[0] > 0.0).map(|w| (w[1] - w[0]) / w[0]).collect();
    if !returns.is_empty() {
        m.realized_volatility = Some(returns.iter().map(|r| r * r).sum::<f64>().sqrt());
    }
    if let (Some(close), Some(prev)) = (points.last(), row.prev_close.map(middle).filter(|p| *p > 0.0)) {
        let volume = m.executed_notional / PRICE_SCALE as f64;
        if volume > 0.0 {
            m.amihud_illiquidity = Some(((close - prev) / prev).abs() / volume * 1e6);
        }
    }
}

fn order_metrics(m: &mut IntervalMetrics, row: &IntervalFacts, messages: &[OrderMessage], states: &[OrderState]) {
    if row.messages > 0 && m.trade_count > 0 {
        m.order_to_trade_ratio = Some(row.messages as f64 / m.trade_count as f64);
    }
    let sizes = |positions: &[usize]| {
        let mut submitted = 0.0;
        let mut filled = 0.0;
        for k in positions {
            submitted += messages[states[*k].message].quantity as f64;
            filled += states[*k].filled_qty as f64;
        }
        (submitted, filled)
    };
    let (submitted, filled) = sizes(&row.orders);
    if submitted > 0.0 {
        m.fill_rate = Some(filled / submitted);
    }
    let waits: Vec<f64> = row
        .orders
        .iter()
        .filter_map(|k| {
            let state = &states[*k];
            state.first_fill_ts.map(|ts| ts.saturating_sub(messages[state.message].ts) as f64 / 1e9)
        })
        .collect();
    m.avg_time_to_execution_secs = mean(&waits);
    let ratios: Vec<f64> = row
        .users
        .iter()
        .map(|positions| sizes(positions))
        .filter(|(submitted, filled)| *submitted > 0.0 && *filled > 0.0)
        .map(|(submitted, filled)| submitted / filled)
        .collect();
    m.order_size_inflation = mean(&ratios);
}

fn batch_metrics(m: &mut IntervalMetrics, row: &IntervalFacts, log: &EventLog) {
    let batches: Vec<_> = row.batches.iter().map(|i| &log.batches[*i]).collect();
    if batches.is_empty() {
        return;
    }
    let spreads: Vec<f64> = batches
        .iter()
        .filter_map(|b| match (b.best_unfilled_buy, b.best_unfilled_sell, b.clearing_price) {
            (Some(buy), Some(sell), Some(p)) if p > 0 => Some((sell as f64 - buy as f64) / p as f64 * 10_000.0),
            _ => None,
        })
        .collect();
    m.quoted_spread_bps = mean(&spreads);
    let depths: Vec<f64> =
        batches.iter().map(|b| (b.demand_at_price as f64 + b.supply_at_price as f64) / 2.0).collect();
    m.depth_at_best = mean(&depths);
    for h in 0..3 {
        let depths: Vec<f64> = batches
            .iter()
            .map(|b| (b.depth_schedule[h].0 as f64 + b.depth_schedule[h].1 as f64) / 2.0)
            .collect();
        m.depth_within_bps[h] = mean(&depths);
    }
    let larger: f64 = batches.iter().map(|b| b.demand_at_price.max(b.supply_at_price) as f64).sum();
    let unexecuted: f64 = batches.iter().map(|b| b.unexecuted_quantity as f64).sum();
    if larger > 0.0 {
        m.unexecuted_residual_share = Some(unexecuted / larger);
    }
    if row.window_messages > 0 {
        m.boundary_concentration = Some(row.boundary_messages as f64 / row.window_messages as f64);
    }
}

fn book_metrics(m: &mut IntervalMetrics, row: &IntervalFacts, log: &EventLog) {
    let books: Vec<_> = row.books.iter().map(|i| &log.books[*i]).collect();
    if books.is_empty() {
        return;
    }
    let spreads: Vec<f64> = books
        .iter()
        .filter_map(|s| match (s.best_bid, s.best_ask) {
            (Some(bid), Some(ask)) if bid > 0 || ask > 0 => {
                let mid = (bid as f64 + ask as f64) / 2.0;
                Some((ask as f64 - bid as f64) / mid * 10_000.0)
            }
            _ => None,
        })
        .collect();
    if let Some(spread) = mean(&spreads) {
        m.quoted_spread_bps = Some(spread);
    }
    let touch: Vec<f64> = books.iter().map(|s| (s.best_bid_qty as f64 + s.best_ask_qty as f64) / 2.0).collect();
    m.depth_at_best = mean(&touch);
    for h in 0..3 {
        let depths: Vec<f64> =
            books.iter().map(|s| (s.depth_schedule[h].0 as f64 + s.depth_schedule[h].1 as f64) / 2.0).collect();
        m.depth_within_bps[h] = mean(&depths);
    }
    let imbalances: Vec<f64> = books
        .iter()
        .map(|s| (s.best_bid_qty as f64, s.best_ask_qty as f64))
        .filter(|(bid, ask)| bid + ask > 0.0)
        .map(|(bid, ask)| (bid - ask) / (bid + ask))
        .collect();
    m.book_imbalance = mean(&imbalances);
    let totals: Vec<f64> = books.iter().map(|s| (s.bid_depth as f64 + s.ask_depth as f64) / 2.0).collect();
    m.total_book_depth = mean(&totals);
}

fn speed_metrics(m: &mut IntervalMetrics, row: &IntervalFacts) {
    let steps = row.books.len() + row.batches.len();
    if steps > 0 {
        m.avg_clearing_latency_micros = Some((row.compute_nanos / 1_000) as f64 / steps as f64);
    }
    let secs = row.compute_nanos as f64 / 1e9;
    if secs > 0.0 && row.messages > 0 {
        m.throughput_orders_per_sec = Some(row.messages as f64 / secs);
    }
}

/// The row of an interval, from the facts of that interval and the events that
/// their positions are in.
pub fn interval_metrics(
    engine: EngineKind,
    width: u64,
    row: &IntervalFacts,
    messages: &[OrderMessage],
    log: &EventLog,
    states: &[OrderState],
) -> IntervalMetrics {
    let mut m = IntervalMetrics {
        engine: engine.label(),
        interval_start: row.start,
        interval_width: width,
        quoted_spread_bps: None,
        depth_at_best: None,
        depth_within_bps: [None; 3],
        book_imbalance: None,
        total_book_depth: None,
        effective_spread_bps: None,
        realized_spread_bps: [None; 3],
        price_impact_bps: [None; 3],
        amihud_illiquidity: None,
        kyle_lambda: None,
        realized_volatility: None,
        intra_interval_price_dispersion: None,
        pricing_error_bps: None,
        executed_volume: 0.0,
        executed_notional: 0.0,
        vwap: None,
        trade_count: 0,
        fill_rate: None,
        avg_time_to_execution_secs: None,
        trader_surplus: 0.0,
        order_size_inflation: None,
        order_to_trade_ratio: None,
        boundary_concentration: None,
        throughput_orders_per_sec: None,
        avg_clearing_latency_micros: None,
        unexecuted_residual_share: None,
    };
    trade_metrics(&mut m, row, log);
    impact_metrics(&mut m, row, log);
    order_metrics(&mut m, row, messages, states);
    batch_metrics(&mut m, row, log);
    book_metrics(&mut m, row, log);
    speed_metrics(&mut m, row);
    m
}

fn optional(v: Option<f64>) -> String {
    v.map(|x| format!("{x:.6}")).unwrap_or_default()
}

/// The line of a row in a time series file.
pub fn csv_row(m: &IntervalMetrics) -> String {
    let mut fields = vec![
        m.engine.to_string(),
        m.interval_start.to_string(),
        m.interval_width.to_string(),
        optional(m.quoted_spread_bps),
        optional(m.depth_at_best),
    ];
    fields.extend(m.depth_within_bps.iter().map(|v| optional(*v)));
    fields.push(optional(m.book_imbalance));
    fields.push(optional(m.total_book_depth));
    fields.push(optional(m.effective_spread_bps));
    fields.extend(m.realized_spread_bps.iter().map(|v| optional(*v)));
    fields.extend(m.price_impact_bps.iter().map(|v| optional(*v)));
    fields.push(optional(m.amihud_illiquidity));
    fields.push(optional(m.kyle_lambda));
    fields.push(optional(m.realized_volatility));
    fields.push(optional(m.intra_interval_price_dispersion));
    fields.push(optional(m.pricing_error_bps));
    fields.push(format!("{:.6}", m.executed_volume));
    fields.push(format!("{:.6}", m.executed_notional));
    fields.push(optional(m.vwap));
    fields.push(m.trade_count.to_string());
    fields.push(optional(m.fill_rate));
    fields.push(optional(m.avg_time_to_execution_secs));
    fields.push(format!("{:.6}", m.trader_surplus));
    fields.push(optional(m.order_size_inflation));
    fields.push(optional(m.order_to_trade_ratio));
    fields.push(optional(m.boundary_concentration));
    fields.push(optional(m.throughput_orders_per_sec));
    fields.push(optional(m.avg_clearing_latency_micros));
    fields.push(optional(m.unexecuted_residual_share));
    csv_line(&fields)
}

fn rows_of(
    engine: EngineKind,
    width: u64,
    facts: &[IntervalFacts],
    messages: &Vec<OrderMessage>,
    log: &EventLog,
) -> Vec<IntervalMetrics> {
    let orders = OrderBookkeeping::build(messages, &log.trades);
    facts.iter().map(|f| interval_metrics(engine, width, f, messages, log, &orders.states)).collect()
}

fn finalized(rec: &mut MetricsRecorder, engine: EngineKind, width: u64, messages: &Vec<OrderMessage>) -> Vec<IntervalMetrics> {
    let facts = rec.finalize(messages);
    rows_of(engine, width, &facts, messages, rec.events())
}

fn csv_rows(rows: &[IntervalMetrics]) -> String {
    rows.iter().map(|r| csv_row(r) + "\n").collect()
}

fn msg(ts: u64, oid: u64) -> OrderMessage {
    OrderMessage { ts, oid, user_id: "u".to_string(), side: Side::Buy, limit_price: None, quantity: 1, accepted: true }
}

fn batch(batch_open_ts: u64, ts: u64) -> BatchClearedEvent {
    BatchClearedEvent {
        ts,
        batch_open_ts,
        clearing_price: None,
        demand_at_price: 0,
        supply_at_price: 0,
        buy_flow: 0,
        sell_flow: 0,
        traded_quantity: 0,
        unexecuted_quantity: 0,
        best_unfilled_buy: None,
        best_unfilled_sell: None,
        depth_schedule: [(0, 0); 3],
        compute_nanos: 0,
    }
}

fn book(ts: u64, best_bid: Option<u128>, best_ask: Option<u128>) -> BookSnapshot {
    BookSnapshot {
        ts,
        best_bid,
        best_ask,
        best_bid_qty: 0,
        best_ask_qty: 0,
        bid_depth: 0,
        ask_depth: 0,
        depth_schedule: [(0, 0); 3],
        compute_nanos: 0,
    }
}

/// A small generator of numbers that look random.
struct Lcg(u64);

impl Lcg {
    fn next(&mut self) -> u64 {
        self.0 = self.0.wrapping_mul(6364136223846793005).wrapping_add(1442695040888963407);
        self.0 >> 33
    }

    fn range(&mut self, n: u64) -> u64 {
        if n == 0 {
            0
        } else {
            self.next() % n
        }
    }
}

#[test]
fn boundary_concentration_matches_hand_computed_value() {
    let mut rec = MetricsRecorder::new(EngineKind::Fba, 1_000_000_000);
    // The last tenth of the window starts at 90.
    let messages: Vec<OrderMessage> =
        [0u64, 50, 90, 99, 100, 101].into_iter().enumerate().map(|(i, ts)| msg(ts, i as u64)).collect();
    rec.record_batch(batch(0, 100));

    let series = finalized(&mut rec, EngineKind::Fba, 1_000_000_000, &messages);
    assert_eq!(series.len(), 1);
    assert_eq!(series[0].boundary_concentration, Some(3.0 / 5.0));
}

#[test]
fn boundary_concentration_respects_inclusive_window_boundaries() {
    let mut rec = MetricsRecorder::new(EngineKind::Fba, 1_000_000_000);
    let messages = vec![
        msg(999, 1),  // before the window
        msg(1000, 2), // at its start
        msg(1899, 3), // just before its last tenth
        msg(1900, 4), // at the start of its last tenth
        msg(2000, 5), // at its end
        msg(2001, 6), // after the window
    ];
    rec.record_batch(batch(1000, 2000));

    let series = finalized(&mut rec, EngineKind::Fba, 1_000_000_000, &messages);
    assert_eq!(series.len(), 1);
    assert_eq!(series[0].boundary_concentration, Some(2.0 / 4.0));
}

#[test]
fn boundary_concentration_is_none_for_a_zero_width_batch() {
    let mut rec = MetricsRecorder::new(EngineKind::Fba, 1_000_000_000);
    let messages = vec![msg(500, 1)];
    rec.record_batch(batch(500, 500));

    let series = finalized(&mut rec, EngineKind::Fba, 1_000_000_000, &messages);
    assert_eq!(series.len(), 1);
    assert_eq!(series[0].boundary_concentration, None);
}

#[test]
fn boundary_concentration_matches_naive_scan_across_random_batches() {
    let mut rng = Lcg(0xC0FFEE);
    for _ in 0..200 {
        let batch_open_ts = rng.range(1000);
        let extra = rng.range(1000) + 1;
        let ts = batch_open_ts + extra;

        let n_msgs = rng.range(30) as usize;
        let msg_tss: Vec<u64> = (0..n_msgs).map(|_| rng.range(2500)).collect();

        let mut rec = MetricsRecorder::new(EngineKind::Fba, 1_000_000_000);
        let messages: Vec<OrderMessage> = msg_tss.iter().enumerate().map(|(i, &t)| msg(t, i as u64)).collect();
        rec.record_batch(batch(batch_open_ts, ts));

        let window = ts - batch_open_ts;
        let boundary_start = ts.saturating_sub(window / 10);
        let mut total = 0u64;
        let mut boundary = 0u64;
        for &t in &msg_tss {
            if t >= batch_open_ts && t <= ts {
                total += 1;
                if t >= boundary_start {
                    boundary += 1;
                }
            }
        }
        let expected = if total > 0 { Some(boundary as f64 / total as f64) } else { None };

        let series = finalized(&mut rec, EngineKind::Fba, 1_000_000_000, &messages);
        assert_eq!(series.len(), 1);
        assert_eq!(
            series[0].boundary_concentration, expected,
            "batch_open_ts={batch_open_ts} ts={ts} msgs={msg_tss:?}"
        );
    }
}

fn trade_at(ts: u64, price: u128) -> Trade {
    Trade {
        trade_id: 1,
        price,
        quantity: 1,
        buyer_id: "b".to_string(),
        seller_id: "s".to_string(),
        buy_order_id: 1,
        sell_order_id: 2,
        engine_type: EngineKind::Cda,
        ts,
        trade_tx_hash: None,
        chain_id: None,
    }
}

#[test]
fn price_at_or_after_ties_prefer_book_snapshot_over_batch_at_same_ts() {
    let mut rec = MetricsRecorder::new(EngineKind::Cda, 10_000_000_000);
    rec.record_trade(TradeEvent {
        trade: trade_at(0, 100),
        reference_price: Some(100),
        aggressor_side: Some(Side::Buy),
    });

    // Both are one second later, with different prices.
    rec.record_book_snapshot(book(1_000_000_000, Some(90), Some(110)));
    let mut tied_batch = batch(0, 1_000_000_000);
    tied_batch.clearing_price = Some(300);
    rec.record_batch(tied_batch);

    let series = finalized(&mut rec, EngineKind::Cda, 10_000_000_000, &vec![]);
    assert_eq!(series.len(), 1);
    assert_eq!(series[0].realized_spread_bps[0], Some(0.0));
}

#[test]
fn price_at_or_after_returns_none_past_the_last_entry() {
    let mut rec = MetricsRecorder::new(EngineKind::Cda, 100_000_000_000);
    rec.record_trade(TradeEvent {
        trade: trade_at(0, 100),
        reference_price: Some(100),
        aggressor_side: Some(Side::Buy),
    });
    // Well before thirty seconds later.
    rec.record_book_snapshot(book(2_000_000_000, Some(90), Some(110)));

    let series = finalized(&mut rec, EngineKind::Cda, 100_000_000_000, &vec![]);
    assert_eq!(series.len(), 1);
    assert_eq!(series[0].realized_spread_bps[2], None);
}

const W: u64 = 1_000_000_000;

fn cda_trade(ts: u64, oid: u64, price: u128) -> TradeEvent {
    TradeEvent {
        trade: Trade {
            trade_id: oid,
            price,
            quantity: 1,
            buyer_id: "b".to_string(),
            seller_id: "s".to_string(),
            buy_order_id: oid,
            sell_order_id: oid + 1_000_000,
            engine_type: EngineKind::Cda,
            ts,
            trade_tx_hash: None,
            chain_id: None,
        },
        reference_price: Some(price),
        aggressor_side: Some(Side::Buy),
    }
}

enum EventKind {
    Book(BookSnapshot),
    Trade(TradeEvent),
    Batch(BatchClearedEvent),
}

fn record(rec: &mut MetricsRecorder, event: &EventKind) {
    match event {
        EventKind::Book(b) => rec.record_book_snapshot(b.clone()),
        EventKind::Trade(t) => rec.record_trade(t.clone()),
        EventKind::Batch(b) => rec.record_batch(b.clone()),
    }
}

/// The rows of one recorder that sees everything, and of one that hands rows
/// out second by second as soon as they are settled.
fn in_one_and_in_pieces(
    engine: EngineKind,
    seconds: u64,
    settle: u64,
    all_msgs: &Vec<OrderMessage>,
    events: &[(u64, EventKind)],
) -> (Vec<IntervalMetrics>, Vec<IntervalMetrics>) {
    let final_max_ts = seconds * W;
    let mut one = MetricsRecorder::new(engine, W);
    for (_, event) in events {
        record(&mut one, event);
    }
    let facts = one.finish(all_msgs, final_max_ts);
    let one_rows = rows_of(engine, W, &facts, all_msgs, one.events());

    let mut strm = MetricsRecorder::new(engine, W);
    let mut msgs_seen: Vec<OrderMessage> = Vec::new();
    let mut strm_rows: Vec<IntervalMetrics> = Vec::new();
    for s in 0..seconds {
        let sec_lo = s * W;
        let sec_hi = sec_lo + W;
        for (ts, event) in events {
            if *ts >= sec_lo && *ts < sec_hi {
                record(&mut strm, event);
            }
        }
        for m in all_msgs.iter().filter(|m| m.ts >= sec_lo && m.ts < sec_hi) {
            msgs_seen.push(m.clone());
        }
        let watermark = sec_hi.saturating_sub(1);
        if let Some(a) = strm.anchor() {
            let safe = watermark.saturating_sub(settle);
            if safe > a {
                let safe_bucket = a + ((safe - a) / W) * W;
                let facts = strm.emit(&msgs_seen, safe_bucket);
                strm_rows.extend(rows_of(engine, W, &facts, &msgs_seen, strm.events()));
                strm.prune();
                let cutoff = strm.emitted_upto();
                msgs_seen.retain(|m| bucket_of(m.ts, a, W) >= cutoff);
            }
        }
    }
    let facts = strm.finish(&msgs_seen, final_max_ts);
    strm_rows.extend(rows_of(engine, W, &facts, &msgs_seen, strm.events()));
    (one_rows, strm_rows)
}

#[test]
fn streaming_emit_in_pieces_matches_one_shot_finish() {
    let settle = 35 * W;
    let seconds = 140u64;

    let mut all_msgs: Vec<OrderMessage> = Vec::new();
    let mut events: Vec<(u64, EventKind)> = Vec::new();
    let mut rng = Lcg(0x5EED);
    for s in 0..seconds {
        let base = s * W + 1;
        let mid = 100 + (rng.range(7) as u128);
        all_msgs.push(msg(base, s));
        events.push((base, EventKind::Book(book(base, Some(mid.saturating_sub(1)), Some(mid + 1)))));
        if s % 3 == 0 {
            events.push((base + 10, EventKind::Trade(cda_trade(base + 10, s, mid))));
            // A second flow, the other way, in the same second.
            let mut sell = cda_trade(base + 20, s + 100_000, mid + 2);
            sell.aggressor_side = Some(Side::Sell);
            events.push((base + 20, EventKind::Trade(sell)));
        }
    }

    let (one_rows, strm_rows) = in_one_and_in_pieces(EngineKind::Cda, seconds, settle, &all_msgs, &events);
    assert_eq!(
        csv_rows(&strm_rows),
        csv_rows(&one_rows),
        "streaming flush must reproduce the one-shot series exactly"
    );
    assert!(strm_rows.len() as u64 >= seconds, "expected one row per second, got {}", strm_rows.len());
}

#[test]
fn emit_fills_gaps_with_empty_rows_for_a_contiguous_grid() {
    let mut rec = MetricsRecorder::new(EngineKind::Cda, W);
    rec.record_book_snapshot(book(0, Some(99), Some(101)));
    rec.record_book_snapshot(book(10 * W + 1, Some(99), Some(101)));

    let facts = rec.finish(&vec![], 10 * W + 1);
    let rows = rows_of(EngineKind::Cda, W, &facts, &vec![], rec.events());
    assert_eq!(rows.len(), 11, "buckets 0..=10 inclusive");
    for (i, r) in rows.iter().enumerate() {
        assert_eq!(r.interval_start, i as u64 * W, "row {i} sits on the grid");
    }
    assert!(rows[0].quoted_spread_bps.is_some());
    assert!(rows[10].quoted_spread_bps.is_some());
    assert!(rows[5].quoted_spread_bps.is_none());
}

#[test]
fn events_for_an_already_emitted_bucket_are_counted_not_stored() {
    let mut rec = MetricsRecorder::new(EngineKind::Cda, W);
    for s in 0..6u64 {
        rec.record_book_snapshot(book(s * W + 1, Some(99), Some(101)));
    }
    let flushed = rec.emit(&vec![], 4 * W);
    assert_eq!(flushed.len(), 4);
    rec.prune();
    assert_eq!(rec.late_events_dropped(), 0);

    rec.record_book_snapshot(book(1 * W + 500, Some(1), Some(3)));
    assert_eq!(rec.late_events_dropped(), 1);

    let rest = rec.finish(&vec![], 6 * W);
    assert!(rest.iter().all(|r| r.start >= 4 * W));
}

fn cda_flow(ts: u64, side: Side, qty: u128, reference: u128) -> TradeEvent {
    let mut trade = trade_at(ts, reference);
    trade.quantity = qty;
    TradeEvent { trade, reference_price: Some(reference), aggressor_side: Some(side) }
}

fn fba_clear(
    ts: u64,
    batch_open_ts: u64,
    clearing_price: Option<u128>,
    net_flow: i64,
    demand: u128,
    supply: u128,
) -> BatchClearedEvent {
    let mut b = batch(batch_open_ts, ts);
    b.clearing_price = clearing_price;
    b.demand_at_price = demand;
    b.supply_at_price = supply;
    b.buy_flow = net_flow.max(0) as u128;
    b.sell_flow = (-net_flow).max(0) as u128;
    b.traded_quantity = demand.min(supply);
    b.unexecuted_quantity = demand.abs_diff(supply);
    b
}

#[test]
fn kyle_lambda_cda_recovers_a_known_slope() {
    let big = 10 * W;
    let pre = 1_000_000u128;
    let lambda = 2.0;
    let post = |x: i128| -> u128 { (pre as f64 * (1.0 + lambda * x as f64 / 10_000.0)).round() as u128 };

    let mut rec = MetricsRecorder::new(EngineKind::Cda, big);
    // One buy of 5.
    rec.record_trade(cda_flow(1_000_000, Side::Buy, 5, pre));
    rec.record_book_snapshot(book(1_000_000 + 5 * W, Some(post(5)), Some(post(5))));
    // One sell of 3.
    rec.record_trade(cda_flow(2_000_000, Side::Sell, 3, pre));
    rec.record_book_snapshot(book(2_000_000 + 5 * W, Some(post(-3)), Some(post(-3))));
    // A buy of 5 that fills in two parts.
    rec.record_trade(cda_flow(3_000_000, Side::Buy, 2, pre));
    rec.record_trade(cda_flow(3_000_000, Side::Buy, 3, pre));
    rec.record_book_snapshot(book(3_000_000 + 5 * W, Some(post(5)), Some(post(5))));
    // A flow of zero in sum.
    rec.record_trade(cda_flow(4_000_000, Side::Buy, 3, pre));
    rec.record_trade(cda_flow(4_000_000, Side::Sell, 3, pre));

    let series = finalized(&mut rec, EngineKind::Cda, big, &vec![]);
    assert_eq!(series.len(), 1);
    let got = series[0].kyle_lambda.expect("lambda computable");
    assert!((got - lambda).abs() < 1e-9, "recovered lambda {got}, expected {lambda}");
}

#[test]
fn kyle_lambda_cda_is_none_when_the_markout_mid_is_missing() {
    let mut rec = MetricsRecorder::new(EngineKind::Cda, 10 * W);
    rec.record_trade(cda_flow(1_000_000, Side::Buy, 5, 1_000_000));
    rec.record_book_snapshot(book(2_000_000, Some(1_000_000), Some(1_000_000)));

    let series = finalized(&mut rec, EngineKind::Cda, 10 * W, &vec![]);
    assert_eq!(series.len(), 1);
    assert_eq!(series[0].kyle_lambda, None);
}

#[test]
fn kyle_lambda_fba_from_net_order_flow() {
    let big = 100 * W;
    let lambda = 125.0;
    let mut rec = MetricsRecorder::new(EngineKind::Fba, big);
    rec.record_batch(fba_clear(1_000_000, 0, Some(1_000_000), 0, 0, 0));
    rec.record_batch(fba_clear(2_000_000, 1_000_000, Some(1_100_000), 8, 0, 0));
    rec.record_batch(fba_clear(3_000_000, 2_000_000, Some(1_045_000), -4, 0, 0));
    // Without a price it counts for nothing.
    rec.record_batch(fba_clear(4_000_000, 3_000_000, None, 99, 0, 0));
    rec.record_batch(fba_clear(5_000_000, 4_000_000, Some(1_071_125), 2, 0, 0));

    let series = finalized(&mut rec, EngineKind::Fba, big, &vec![]);
    assert_eq!(series.len(), 1);
    let got = series[0].kyle_lambda.expect("lambda computable");
    assert!((got - lambda).abs() < 1e-6, "recovered lambda {got}, expected {lambda}");
}

#[test]
fn kyle_lambda_fba_carries_prev_clearing_across_a_flush() {
    let mut rec = MetricsRecorder::new(EngineKind::Fba, W);
    rec.record_batch(fba_clear(1, 0, Some(1_000_000), 0, 0, 0));
    rec.record_batch(fba_clear(W + 1, W, Some(1_100_000), 8, 0, 0));

    let facts = rec.emit(&vec![], W);
    let r0 = rows_of(EngineKind::Fba, W, &facts, &vec![], rec.events());
    assert_eq!(r0.len(), 1);
    assert_eq!(r0[0].kyle_lambda, None);
    rec.prune();

    let facts = rec.finish(&vec![], W + 1);
    let r1 = rows_of(EngineKind::Fba, W, &facts, &vec![], rec.events());
    assert_eq!(r1.len(), 1);
    let got = r1[0].kyle_lambda.expect("lambda computable after the flush boundary");
    assert!((got - 125.0).abs() < 1e-6, "carried lambda {got}, expected 125");
}

#[test]
fn streaming_fba_batches_emit_in_pieces_matches_one_shot() {
    let settle = 35 * W;
    let seconds = 140u64;

    let mut all_msgs: Vec<OrderMessage> = Vec::new();
    let mut events: Vec<(u64, EventKind)> = Vec::new();
    let mut rng = Lcg(0xBA7C1A);
    for s in 0..seconds {
        let ts = s * W + 1;
        all_msgs.push(msg(ts, s));
        let cp = if s % 11 == 5 { None } else { Some(1_000_000 + rng.range(4000) as u128) };
        let net_flow = rng.range(400) as i64 - 200;
        let b = fba_clear(ts, s * W, cp, net_flow, rng.range(50) as u128, rng.range(50) as u128);
        events.push((ts, EventKind::Batch(b)));
    }

    let (one_rows, strm_rows) = in_one_and_in_pieces(EngineKind::Fba, seconds, settle, &all_msgs, &events);
    assert_eq!(
        csv_rows(&strm_rows),
        csv_rows(&one_rows),
        "FBA streaming flush must reproduce the one-shot series exactly"
    );
    assert!(strm_rows.len() as u64 >= seconds, "expected at least one row per second, got {}", strm_rows.len());
}

#[test]
fn realized_volatility_is_root_sum_of_squared_returns() {
    let mut rec = MetricsRecorder::new(EngineKind::Cda, 10 * W);
    rec.record_book_snapshot(book(1_000_000, Some(100), Some(100)));
    rec.record_book_snapshot(book(2_000_000, Some(110), Some(110)));
    rec.record_book_snapshot(book(3_000_000, Some(99), Some(99)));
    let series = finalized(&mut rec, EngineKind::Cda, 10 * W, &vec![]);
    assert_eq!(series.len(), 1);
    let got = series[0].realized_volatility.expect("rv computable");
    assert!((got - 0.02_f64.sqrt()).abs() < 1e-9, "rv {got}, expected {}", 0.02_f64.sqrt());

    let mut rec = MetricsRecorder::new(EngineKind::Cda, 10 * W);
    rec.record_book_snapshot(book(1_000_000, Some(100), Some(100)));
    rec.record_book_snapshot(book(2_000_000, Some(105), Some(105)));
    let series = finalized(&mut rec, EngineKind::Cda, 10 * W, &vec![]);
    assert_eq!(series[0].realized_volatility, Some(0.05));
}

#[test]
fn amihud_illiquidity_divides_the_return_by_dollar_volume() {
    let p = |x: u128| x * PRICE_SCALE;
    let mut rec = MetricsRecorder::new(EngineKind::Cda, W);
    rec.record_book_snapshot(book(1, Some(p(100)), Some(p(100))));
    rec.record_book_snapshot(book(1_000_000_001, Some(p(110)), Some(p(110))));
    rec.record_trade(cda_flow(1_000_000_100, Side::Buy, 5, p(200)));
    let series = finalized(&mut rec, EngineKind::Cda, W, &vec![]);
    assert_eq!(series.len(), 2);
    assert_eq!(series[0].amihud_illiquidity, None, "no prev_close for the first bucket");
    let got = series[1].amihud_illiquidity.expect("amihud computable");
    assert!((got - 100.0).abs() < 1e-6, "amihud {got}, expected 100");
}

#[test]
fn intra_interval_price_dispersion_is_relative_in_bps() {
    let mut rec = MetricsRecorder::new(EngineKind::Cda, 10 * W);
    rec.record_trade(cda_flow(1_000_000, Side::Buy, 1, 100));
    rec.record_trade(cda_flow(2_000_000, Side::Buy, 1, 102));
    let series = finalized(&mut rec, EngineKind::Cda, 10 * W, &vec![]);
    assert_eq!(series.len(), 1);
    let got = series[0].intra_interval_price_dispersion.expect("dispersion computable");
    assert!((got - (1.0 / 101.0 * 10_000.0)).abs() < 1e-9, "dispersion {got}");
}

#[test]
fn a_recorder_that_is_resumed_keeps_grid_and_carry() {
    let mut rec = MetricsRecorder::new(EngineKind::Fba, W);
    rec.set_anchor(5);
    rec.record_batch(fba_clear(6, 0, Some(1_000_000), 0, 0, 0));
    let first = rec.emit(&vec![], 5 + W);
    assert_eq!(first.len(), 1);
    assert_eq!(rec.carry().prev_clearing, Some(1_000_000));
    let mut next =
        MetricsRecorder::resume(EngineKind::Fba, W, rec.anchor().unwrap(), rec.emitted_upto(), rec.carry(), 0);
    next.record_batch(fba_clear(7 + W, W, Some(1_100_000), 8, 0, 0));
    let facts = next.finish(&vec![], 7 + W);
    assert_eq!(facts.len(), 1);
    assert_eq!(facts[0].start, 5 + W);
    assert_eq!(facts[0].prior_clearing, vec![Some(1_000_000)]);
    assert_eq!(next.rows_due(&vec![], 5 + 3 * W), 1);
}

#[test]
fn the_depth_schedule_counts_within_each_threshold() {
    let level = |price: u128, side: Side, quantity: u128| Level { price, side, quantity };
    let levels = vec![
        level(100_000, Side::Buy, 1),
        level(99_900, Side::Buy, 2),   // 10 basis points
        level(99_600, Side::Buy, 4),   // 40
        level(101_000, Side::Sell, 8), // 100
        level(101_100, Side::Sell, 16),
    ];
    assert_eq!(depth_schedule(100_000, &levels), [(3, 0), (7, 0), (7, 8)]);
    assert_eq!(depth_schedule(0, &levels), [(0, 0); 3]);
}

#[test]
fn a_collector_reports_everything_at_once() {
    let mut c = MetricsCollector::new(EngineKind::Cda, W);
    c.record_message(msg(1, 1));
    c.record_book_snapshot(book(1, Some(99), Some(101)));
    c.record_trade(cda_trade(W + 5, 1, 100));
    assert_eq!(c.row_count(), 2);
    let facts = c.finalize();
    let rows = rows_of(EngineKind::Cda, W, &facts, c.messages(), c.events());
    assert_eq!(rows.len(), 2);
    assert_eq!(rows[0].fill_rate, Some(1.0));
    assert_eq!(rows[1].trade_count, 1);
    assert_eq!(rows[0].quoted_spread_bps, Some(200.0));
    assert_eq!(report_header().split(',').count(), 32);
    assert_eq!(csv_header().split(',').count(), csv_row(&rows[0]).split(',').count());
}

fn approx_eq(a: f64, b: f64) -> bool {
    (a - b).abs() < 0.01
}

fn approx_rel(a: f64, b: f64) -> bool {
    (a - b).abs() <= 1e-9 * b.abs().max(1.0)
}

const TS_W: u64 = 1_000_000_000;
const TS_WIDE: u64 = 100_000_000_000;
const NO_SCHED: [(u128, u128); 3] = [(0, 0); 3];

fn finished(
    rec: &mut MetricsRecorder,
    engine: EngineKind,
    width: u64,
    messages: &Vec<OrderMessage>,
    max_ts: u64,
) -> Vec<IntervalMetrics> {
    let facts = rec.finish(messages, max_ts);
    rows_of(engine, width, &facts, messages, rec.events())
}

fn tmsg(ts: u64, oid: u64, user: &str, side: Side, limit_price: Option<u128>, qty: u128) -> OrderMessage {
    OrderMessage { ts, oid, user_id: user.to_string(), side, limit_price, quantity: qty, accepted: true }
}

fn ttrade(ts: u64, price: u128, qty: u128, buy_oid: u64, sell_oid: u64, engine: EngineKind) -> Trade {
    Trade {
        trade_id: buy_oid,
        price,
        quantity: qty,
        buyer_id: "b".to_string(),
        seller_id: "s".to_string(),
        buy_order_id: buy_oid,
        sell_order_id: sell_oid,
        engine_type: engine,
        ts,
        trade_tx_hash: None,
        chain_id: None,
    }
}

fn tcda_trade(
    ts: u64,
    price: u128,
    qty: u128,
    buy_oid: u64,
    sell_oid: u64,
    reference: Option<u128>,
    side: Option<Side>,
) -> TradeEvent {
    TradeEvent {
        trade: ttrade(ts, price, qty, buy_oid, sell_oid, EngineKind::Cda),
        reference_price: reference,
        aggressor_side: side,
    }
}

fn tfba_trade(ts: u64, price: u128, qty: u128, buy_oid: u64, sell_oid: u64, reference: Option<u128>) -> TradeEvent {
    TradeEvent {
        trade: ttrade(ts, price, qty, buy_oid, sell_oid, EngineKind::Fba),
        reference_price: reference,
        aggressor_side: None,
    }
}

fn tbook(
    ts: u64,
    best_bid: Option<u128>,
    best_ask: Option<u128>,
    best_bid_qty: u128,
    best_ask_qty: u128,
    bid_depth: u128,
    ask_depth: u128,
    depth_schedule: [(u128, u128); 3],
    micros: u128,
) -> BookSnapshot {
    BookSnapshot {
        ts,
        best_bid,
        best_ask,
        best_bid_qty,
        best_ask_qty,
        bid_depth,
        ask_depth,
        depth_schedule,
        compute_nanos: micros * 1_000,
    }
}

fn tbook_px(ts: u64, mid: u128) -> BookSnapshot {
    tbook(ts, Some(mid), Some(mid), 0, 0, 0, 0, NO_SCHED, 0)
}

fn tbatch(
    ts: u64,
    batch_open_ts: u64,
    clearing_price: Option<u128>,
    demand: u128,
    supply: u128,
    net_order_flow: i64,
    unexecuted: u128,
    best_buy: Option<u128>,
    best_sell: Option<u128>,
    depth_schedule: [(u128, u128); 3],
    micros: u128,
) -> BatchClearedEvent {
    BatchClearedEvent {
        ts,
        batch_open_ts,
        clearing_price,
        demand_at_price: demand,
        supply_at_price: supply,
        buy_flow: net_order_flow.max(0) as u128,
        sell_flow: (-net_order_flow).max(0) as u128,
        traded_quantity: demand.min(supply),
        unexecuted_quantity: unexecuted,
        best_unfilled_buy: best_buy,
        best_unfilled_sell: best_sell,
        depth_schedule,
        compute_nanos: micros * 1_000,
    }
}

fn tbatch_px(ts: u64, batch_open_ts: u64, clearing_price: u128) -> BatchClearedEvent {
    tbatch(ts, batch_open_ts, Some(clearing_price), 0, 0, 0, 0, None, None, NO_SCHED, 0)
}

/// Spread, depth and imbalance of the book, and the speed of the engine.
#[test]
fn ts_cda_liquidity_and_book_metrics() {
    let mut rec = MetricsRecorder::new(EngineKind::Cda, TS_W);
    rec.set_anchor(0);
    let messages = vec![
        tmsg(1, 1, "m", Side::Buy, None, 1),
        tmsg(2, 2, "m", Side::Buy, None, 1),
        tmsg(3, 3, "m", Side::Buy, None, 1),
    ];
    // S1: bid 100 / ask 102, touch 8/12, book 40/60, bands (5,7)/(20,25)/(40,60), 200us
    rec.record_book_snapshot(tbook(1, Some(100), Some(102), 8, 12, 40, 60, [(5, 7), (20, 25), (40, 60)], 200));
    // S2: bid 100 / ask 104, touch 10/10, book 50/50, bands (6,6)/(20,20)/(55,45), 400us
    rec.record_book_snapshot(tbook(2, Some(100), Some(104), 10, 10, 50, 50, [(6, 6), (20, 20), (55, 45)], 400));
    let series = finished(&mut rec, EngineKind::Cda, TS_W, &messages, 3);
    assert_eq!(series.len(), 1);
    let r = &series[0];
    // spread: (2/101 + 4/102)/2 * 1e4 = 295.088332 bps
    // depth_at_best: ((8+12)/2 + (10+10)/2)/2 = 10 ; imbalance: (-0.2 + 0)/2 = -0.1
    // total_book_depth: (50 + 50)/2 = 50
    // d10 = (6 + 6)/2 = 6 ; d50 = (22.5 + 20)/2 = 21.25 ; d100 = (50 + 50)/2 = 50
    // latency = (200 + 400)/2 = 300 us ; throughput = 3 msgs / 0.0006 s = 5000
    // fill_rate = 0 filled / 3 orig = 0
    let ok = r.quoted_spread_bps.is_some_and(|v| approx_eq(v, 295.088332))
        && r.depth_at_best.is_some_and(|v| approx_eq(v, 10.0))
        && r.book_imbalance.is_some_and(|v| approx_eq(v, -0.1))
        && r.total_book_depth.is_some_and(|v| approx_eq(v, 50.0))
        && r.depth_within_bps[0].is_some_and(|v| approx_eq(v, 6.0))
        && r.depth_within_bps[1].is_some_and(|v| approx_eq(v, 21.25))
        && r.depth_within_bps[2].is_some_and(|v| approx_eq(v, 50.0))
        && r.avg_clearing_latency_micros.is_some_and(|v| approx_eq(v, 300.0))
        && r.throughput_orders_per_sec.is_some_and(|v| approx_eq(v, 5000.0))
        && r.fill_rate.is_some_and(|v| approx_eq(v, 0.0));
    assert!(ok, "{series:?}");
}

/// The parts of the spread, and what was executed.
#[test]
fn ts_cda_effective_realized_impact() {
    let p = |x: u128| x * PRICE_SCALE;
    let mut rec = MetricsRecorder::new(EngineKind::Cda, TS_WIDE);
    rec.set_anchor(0);
    let messages = vec![
        tmsg(500_000, 10, "u", Side::Buy, Some(p(102)), 4),
        tmsg(500_000, 20, "u", Side::Sell, Some(p(100)), 4),
        tmsg(500_000, 11, "u", Side::Buy, Some(p(104)), 6),
        tmsg(500_000, 21, "u", Side::Sell, Some(p(100)), 6),
    ];
    // Two buyer-initiated trades, pre-trade mid p(100).
    rec.record_trade(tcda_trade(1_000_000, p(101), 4, 10, 20, Some(p(100)), Some(Side::Buy)));
    rec.record_trade(tcda_trade(2_000_000, p(103), 6, 11, 21, Some(p(100)), Some(Side::Buy)));
    // Forward mids at +1 s / +5 s / +30 s (first series point at/after each target).
    rec.record_book_snapshot(tbook_px(1_500_000_000, p(100)));
    rec.record_book_snapshot(tbook_px(5_500_000_000, p(101)));
    rec.record_book_snapshot(tbook_px(30_500_000_000, p(98)));
    let series = finished(&mut rec, EngineKind::Cda, TS_WIDE, &messages, 30_500_000_000);
    assert_eq!(series.len(), 1);
    let r = &series[0];
    // effective: (200*4 + 600*6)/10 = 440
    // realized_1s (mid p100): (200*4 + 600*6)/10 = 440 -> impact_1s = 0
    // realized_5s (mid p101): (0*4 + 400*6)/10 = 240 -> impact_5s = 200
    // realized_30s (mid p98): (600*4 + 1000*6)/10 = 840 -> impact_30s = -400
    // executed_volume 10 ; executed_notional 4*p(101)+6*p(103) = 1_022_000_000
    // vwap = 102_200_000 ; trade_count 2
    // trader_surplus = 4e6 + 4e6 + 6e6 + 18e6 = 32_000_000
    // dispersion = stddev([p101,p103])/mean * 1e4 = 1e6 / 102e6 * 1e4 bps
    // order_to_trade_ratio = 4 msgs / 2 trades = 2
    let ok = r.effective_spread_bps.is_some_and(|v| approx_eq(v, 440.0))
        && r.realized_spread_bps[0].is_some_and(|v| approx_eq(v, 440.0))
        && r.realized_spread_bps[1].is_some_and(|v| approx_eq(v, 240.0))
        && r.realized_spread_bps[2].is_some_and(|v| approx_eq(v, 840.0))
        && r.price_impact_bps[0].is_some_and(|v| approx_eq(v, 0.0))
        && r.price_impact_bps[1].is_some_and(|v| approx_eq(v, 200.0))
        && r.price_impact_bps[2].is_some_and(|v| approx_eq(v, -400.0))
        && r.executed_volume == 10.0
        && approx_rel(r.executed_notional, 1_022_000_000.0)
        && r.vwap.is_some_and(|v| approx_rel(v, 102_200_000.0))
        && r.trade_count == 2
        && approx_rel(r.trader_surplus, 32_000_000.0)
        && r.intra_interval_price_dispersion.is_some_and(|v| approx_eq(v, 1.0 / 102.0 * 10_000.0))
        && r.order_to_trade_ratio.is_some_and(|v| approx_eq(v, 2.0));
    assert!(ok, "{series:?}");
}

/// Volatility, and the return for each dollar traded.
#[test]
fn ts_cda_volatility_and_amihud() {
    let p = |x: u128| x * PRICE_SCALE;
    let mut rec = MetricsRecorder::new(EngineKind::Cda, TS_W);
    rec.set_anchor(0);
    // Bucket 0: three mids -> returns +0.2 and -0.2 ; close p(96).
    rec.record_book_snapshot(tbook_px(1_000_000, p(100)));
    rec.record_book_snapshot(tbook_px(2_000_000, p(120)));
    rec.record_book_snapshot(tbook_px(3_000_000, p(96)));
    // Bucket 1: close p(120) and a trade of 5 @ p(200) -> dollar volume 1000.
    rec.record_book_snapshot(tbook_px(1_500_000_000, p(120)));
    rec.record_trade(tcda_trade(1_001_000_000, p(200), 5, 900, 901, None, None));
    let series = finished(&mut rec, EngineKind::Cda, TS_W, &vec![], 1_500_000_000);
    assert_eq!(series.len(), 2);
    // row 0: rv = sqrt(0.2^2 + 0.2^2) = sqrt(0.08) ; amihud None (no prev close)
    // row 1: ret (p120 from p96) = 0.25 ; dollar vol = 5*200 = 1000
    //        amihud = 0.25 / 1000 * 1e6 = 250 (ILLIQ x 1e6)
    let ok = series[0].realized_volatility.is_some_and(|v| approx_eq(v, 0.08_f64.sqrt()))
        && series[0].amihud_illiquidity.is_none()
        && series[1].amihud_illiquidity.is_some_and(|v| approx_eq(v, 250.0))
        && series[1].executed_volume == 5.0
        && series[1].trade_count == 1;
    assert!(ok, "{series:?}");
}

/// What became of the orders.
#[test]
fn ts_cda_execution_allocation() {
    let mut rec = MetricsRecorder::new(EngineKind::Cda, TS_WIDE);
    rec.set_anchor(0);
    let messages = vec![
        tmsg(0, 1, "Whale", Side::Buy, Some(100), 10),
        tmsg(0, 2, "Whale", Side::Buy, Some(100), 10), // never fills
        tmsg(1_000_000, 3, "Minnow", Side::Buy, Some(100), 4),
    ];
    rec.record_trade(tcda_trade(500_000_000, 100, 6, 1, 900, None, None)); // fills oid 1: 6 of 10
    rec.record_trade(tcda_trade(1_500_000_000, 100, 4, 3, 901, None, None)); // fills oid 3: 4 of 4
    let series = finished(&mut rec, EngineKind::Cda, TS_WIDE, &messages, 1_500_000_000);
    assert_eq!(series.len(), 1);
    let r = &series[0];
    // fill_rate = (6 + 0 + 4) / (10 + 10 + 4) = 10/24
    // ttf: oid1 0.5 s ; oid3 (1_500_000_000 - 1_000_000)/1e9 = 1.499 s ; mean 0.9995
    // inflation: Whale 20/6 ; Minnow 4/4 = 1 ; mean (20/6 + 1)/2
    // order_to_trade_ratio = 3 msgs / 2 trades = 1.5
    let ok = r.fill_rate.is_some_and(|v| approx_eq(v, 10.0 / 24.0))
        && r.avg_time_to_execution_secs.is_some_and(|v| approx_eq(v, 0.9995))
        && r.order_size_inflation.is_some_and(|v| approx_eq(v, (20.0 / 6.0 + 1.0) / 2.0))
        && r.order_to_trade_ratio.is_some_and(|v| approx_eq(v, 1.5));
    assert!(ok, "{series:?}");
}

/// The slope of price moves on order flow, for single orders.
#[test]
fn ts_cda_kyle_lambda_known_slope() {
    let pre = 1_000_000u128;
    let lambda = 2.0;
    let post = |x: i128| -> u128 { (pre as f64 * (1.0 + lambda * x as f64 / 10_000.0)).round() as u128 };
    let mut rec = MetricsRecorder::new(EngineKind::Cda, 10 * TS_W);
    rec.set_anchor(0);
    // Obs 1: net +5.
    rec.record_trade(tcda_trade(1_000_000, pre, 5, 1, 2, Some(pre), Some(Side::Buy)));
    rec.record_book_snapshot(tbook_px(1_000_000 + 5 * TS_W, post(5)));
    // Obs 2: net -3.
    rec.record_trade(tcda_trade(2_000_000, pre, 3, 3, 4, Some(pre), Some(Side::Sell)));
    rec.record_book_snapshot(tbook_px(2_000_000 + 5 * TS_W, post(-3)));
    // Obs 3: same-ts sweep, net +5.
    rec.record_trade(tcda_trade(3_000_000, pre, 2, 5, 6, Some(pre), Some(Side::Buy)));
    rec.record_trade(tcda_trade(3_000_000, pre, 3, 7, 8, Some(pre), Some(Side::Buy)));
    rec.record_book_snapshot(tbook_px(3_000_000 + 5 * TS_W, post(5)));
    // Obs 4: net-zero sweep, inert.
    rec.record_trade(tcda_trade(4_000_000, pre, 3, 9, 10, Some(pre), Some(Side::Buy)));
    rec.record_trade(tcda_trade(4_000_000, pre, 3, 11, 12, Some(pre), Some(Side::Sell)));
    let series = finished(&mut rec, EngineKind::Cda, 10 * TS_W, &vec![], 3_000_000 + 5 * TS_W);
    assert_eq!(series.len(), 1);
    // Sxx = 25 + 9 + 25 = 59 ; Sxy = 50 + 18 + 50 = 118 ; lambda = 2.0
    let ok = series[0].kyle_lambda.is_some_and(|v| (v - 2.0).abs() < 1e-9) && series[0].pricing_error_bps.is_none();
    assert!(ok, "{series:?}");
}

/// Spread, depth and remainder of the batches.
#[test]
fn ts_fba_batch_liquidity_metrics() {
    let mut rec = MetricsRecorder::new(EngineKind::Fba, TS_W);
    rec.set_anchor(0);
    let messages: Vec<OrderMessage> = [0u64, 50, 95, 100, 150, 195, 200]
        .iter()
        .enumerate()
        .map(|(i, &ts)| tmsg(ts, i as u64 + 1, "m", Side::Buy, None, 1))
        .collect();
    // B1: window [0,100], cleared 100, demand/supply 30/20, unexec 10, book 98/103.
    rec.record_batch(tbatch(100, 0, Some(100), 30, 20, 0, 10, Some(98), Some(103), [(4, 6), (10, 14), (30, 20)], 600));
    // B2: window [100,200], cleared 100, demand/supply 10/25, unexec 15, book 99/101.
    rec.record_batch(tbatch(200, 100, Some(100), 10, 25, 0, 15, Some(99), Some(101), [(6, 4), (12, 12), (10, 25)], 800));
    let series = finished(&mut rec, EngineKind::Fba, TS_W, &messages, 200);
    assert_eq!(series.len(), 1);
    let r = &series[0];
    // spread: ((103-98)/100 + (101-99)/100)/2 * 1e4 = (500 + 200)/2 = 350
    // depth_at_best: ((30+20)/2 + (10+25)/2)/2 = (25 + 17.5)/2 = 21.25
    // d10 = (5 + 5)/2 = 5 ; d50 = (12 + 12)/2 = 12 ; d100 = (25 + 17.5)/2 = 21.25
    // residual = (10 + 15) / (30 + 25) = 25/55
    // boundary_concentration: B1 {95,100}/{0,50,95,100} + B2 {195,200}/{100,150,195,200}
    //                         = (2 + 2) / (4 + 4) = 0.5
    // latency = (600 + 800)/2 = 700 us ; throughput = 7 msgs / 0.0014 s = 5000
    let ok = r.quoted_spread_bps.is_some_and(|v| approx_eq(v, 350.0))
        && r.depth_at_best.is_some_and(|v| approx_eq(v, 21.25))
        && r.depth_within_bps[0].is_some_and(|v| approx_eq(v, 5.0))
        && r.depth_within_bps[1].is_some_and(|v| approx_eq(v, 12.0))
        && r.depth_within_bps[2].is_some_and(|v| approx_eq(v, 21.25))
        && r.unexecuted_residual_share.is_some_and(|v| approx_eq(v, 25.0 / 55.0))
        && r.boundary_concentration.is_some_and(|v| approx_eq(v, 0.5))
        && r.avg_clearing_latency_micros.is_some_and(|v| approx_eq(v, 700.0))
        && r.throughput_orders_per_sec.is_some_and(|v| approx_eq(v, 5000.0));
    assert!(ok, "{series:?}");
}

/// The parts of the spread without a side that caused a trade.
#[test]
fn ts_fba_effective_realized_impact() {
    let mut rec = MetricsRecorder::new(EngineKind::Fba, TS_WIDE);
    rec.set_anchor(0);
    rec.record_trade(tfba_trade(1_000_000, 102, 10, 1, 2, Some(100)));
    // Forward clearing prices at +1 s / +5 s / +30 s.
    rec.record_batch(tbatch_px(1_500_000_000, 0, 100));
    rec.record_batch(tbatch_px(5_500_000_000, 0, 105));
    rec.record_batch(tbatch_px(30_500_000_000, 0, 97));
    let series = finished(&mut rec, EngineKind::Fba, TS_WIDE, &vec![], 30_500_000_000);
    assert_eq!(series.len(), 1);
    let r = &series[0];
    // unsigned: eff = 2*|102-100|/100 * 1e4 = 400
    // realized_1s (cp 100) = 400 -> impact_1s = 0
    // realized_5s (cp 105) = 2*|102-105|/100 * 1e4 = 600 -> impact_5s = -200
    // realized_30s (cp 97) = 2*|102-97|/100 * 1e4 = 1000 -> impact_30s = -600
    let ok = r.effective_spread_bps.is_some_and(|v| approx_eq(v, 400.0))
        && r.realized_spread_bps[0].is_some_and(|v| approx_eq(v, 400.0))
        && r.realized_spread_bps[1].is_some_and(|v| approx_eq(v, 600.0))
        && r.realized_spread_bps[2].is_some_and(|v| approx_eq(v, 1000.0))
        && r.price_impact_bps[0].is_some_and(|v| approx_eq(v, 0.0))
        && r.price_impact_bps[1].is_some_and(|v| approx_eq(v, -200.0))
        && r.price_impact_bps[2].is_some_and(|v| approx_eq(v, -600.0));
    assert!(ok, "{series:?}");
}

/// The slope of price moves on order flow, for batches.
#[test]
fn ts_fba_kyle_lambda_net_order_flow() {
    let mut rec = MetricsRecorder::new(EngineKind::Fba, TS_WIDE);
    rec.set_anchor(0);
    // b0 seeds prev_clearing.
    rec.record_batch(tbatch(1_000_000, 0, Some(1_000_000), 0, 0, 0, 0, None, None, NO_SCHED, 0));
    // b1: x=8,  y = (1_100_000-1_000_000)/1_000_000 * 1e4 = 1000
    rec.record_batch(tbatch(2_000_000, 0, Some(1_100_000), 0, 0, 8, 0, None, None, NO_SCHED, 0));
    // b2: x=-4, y = (1_045_000-1_100_000)/1_100_000 * 1e4 = -500
    rec.record_batch(tbatch(3_000_000, 0, Some(1_045_000), 0, 0, -4, 0, None, None, NO_SCHED, 0));
    // b3: unpriced -> inert, does not advance the carry.
    rec.record_batch(tbatch(4_000_000, 0, None, 0, 0, 99, 0, None, None, NO_SCHED, 0));
    // b4: x=2,  y = (1_071_125-1_045_000)/1_045_000 * 1e4 = 250
    rec.record_batch(tbatch(5_000_000, 0, Some(1_071_125), 0, 0, 2, 0, None, None, NO_SCHED, 0));
    let series = finished(&mut rec, EngineKind::Fba, TS_WIDE, &vec![], 5_000_000);
    assert_eq!(series.len(), 1);
    // Sxx = 64 + 16 + 4 = 84 ; Sxy = 8000 + 2000 + 500 = 10500 ; lambda = 125.0
    let ok = series[0].kyle_lambda.is_some_and(|v| (v - 125.0).abs() < 1e-6) && series[0].pricing_error_bps.is_none();
    assert!(ok, "{series:?}");
}
