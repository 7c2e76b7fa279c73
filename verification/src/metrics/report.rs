//! The columns of the reports.

use vstd::prelude::*;
use crate::text::{chars_of, join, joined, string_of, texts, views};

verus! {

/// The columns of a report on everything collected.
pub fn csv_header() -> (r: String)
    ensures
        r@ == "engine,interval_start_ns,interval_width_ns,quoted_spread_bps,depth_at_best,depth_within_10bps,depth_within_50bps,depth_within_100bps,book_imbalance,effective_spread_bps,realized_spread_bps_1s,realized_spread_bps_5s,realized_spread_bps_30s,price_impact_bps_1s,price_impact_bps_5s,price_impact_bps_30s,amihud_illiquidity,realized_volatility,intra_interval_price_dispersion,pricing_error_bps,executed_volume,executed_notional,trade_count,fill_rate,avg_time_to_execution_secs,trader_surplus,order_size_inflation,order_to_trade_ratio,boundary_concentration,throughput_orders_per_sec,avg_clearing_latency_micros,unexecuted_residual_share"@,
{
    "engine,interval_start_ns,interval_width_ns,quoted_spread_bps,depth_at_best,depth_within_10bps,depth_within_50bps,depth_within_100bps,book_imbalance,effective_spread_bps,realized_spread_bps_1s,realized_spread_bps_5s,realized_spread_bps_30s,price_impact_bps_1s,price_impact_bps_5s,price_impact_bps_30s,amihud_illiquidity,realized_volatility,intra_interval_price_dispersion,pricing_error_bps,executed_volume,executed_notional,trade_count,fill_rate,avg_time_to_execution_secs,trader_surplus,order_size_inflation,order_to_trade_ratio,boundary_concentration,throughput_orders_per_sec,avg_clearing_latency_micros,unexecuted_residual_share".to_owned()
}

/// One line of a report: the fields with commas between them.
pub fn csv_line(fields: &Vec<String>) -> (r: String)
    ensures
        r@ == joined(texts(fields@), ','),
{
    let mut parts: Vec<Vec<char>> = Vec::new();
    let mut i: usize = 0;
    while i < fields.len()
        invariant
            i <= fields.len(),
            views(parts@) =~= texts(fields@).take(i as int),
        decreases fields.len() - i,
    {
        let ghost before: Seq<Vec<char>> = parts@;
        parts.push(chars_of(fields[i].as_str()));
        assert(views(parts@) =~= views(before).push(fields@[i as int]@));
        i += 1;
    }
    assert(views(parts@) =~= texts(fields@));
    string_of(&join(&parts, ','))
}

} // verus!
