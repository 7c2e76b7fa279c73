//! The events that the metrics are computed from.

use vstd::prelude::*;
use crate::seqs::{distance, lemma_total_nonneg, saturated, total};
use crate::types::{Price, Side, Trade};

verus! {

/// Basis-point offsets at which depth is reported.
pub const DEPTH_BPS_THRESHOLDS: [u32; 3] = [10, 50, 100];

/// A record of the order stream, before any engine has accepted it.
#[derive(Debug)]
pub struct OrderMessage {
    pub ts: u64,
    pub oid: u64,
    pub user_id: String,
    pub side: Side,
    pub limit_price: Option<u128>,
    pub quantity: u128,
    /// Whether it became a live order.
    pub accepted: bool,
}

impl Clone for OrderMessage {
    fn clone(&self) -> (r: Self)
        ensures
            r == *self,
    {
        OrderMessage {
            ts: self.ts,
            oid: self.oid,
            user_id: self.user_id.clone(),
            side: self.side,
            limit_price: self.limit_price,
            quantity: self.quantity,
            accepted: self.accepted,
        }
    }
}

/// A trade and what it is measured against: the midpoint before it (or the
/// last clearing price), and the side of the order that caused it, where
/// there is one.
#[derive(Debug)]
pub struct TradeEvent {
    pub trade: Trade,
    pub reference_price: Option<u128>,
    pub aggressor_side: Option<Side>,
}

impl Clone for TradeEvent {
    fn clone(&self) -> (r: Self)
        ensures
            r == *self,
    {
        TradeEvent {
            trade: self.trade.clone(),
            reference_price: self.reference_price,
            aggressor_side: self.aggressor_side,
        }
    }
}

/// One batch clearing, whether or not it traded.
#[derive(Clone, Copy, Debug)]
pub struct BatchClearedEvent {
    pub ts: u64,
    pub batch_open_ts: u64,
    pub clearing_price: Option<u128>,
    pub demand_at_price: u128,
    pub supply_at_price: u128,
    /// Quantity of all buys of the batch, before a price was selected.
    pub buy_flow: u128,
    /// Quantity of all sells of the batch, before a price was selected.
    pub sell_flow: u128,
    pub traded_quantity: u128,
    pub unexecuted_quantity: u128,
    pub best_unfilled_buy: Option<u128>,
    pub best_unfilled_sell: Option<u128>,
    pub depth_schedule: [(u128, u128); 3],
    /// What the clearing took, in nanoseconds.
    pub compute_nanos: u128,
}

/// The continuous book after one record.
#[derive(Clone, Copy, Debug)]
pub struct BookSnapshot {
    pub ts: u64,
    pub best_bid: Option<u128>,
    pub best_ask: Option<u128>,
    /// Quantity of the single best bid and ask.
    pub best_bid_qty: u128,
    pub best_ask_qty: u128,
    /// Quantity of all bids and asks.
    pub bid_depth: u128,
    pub ask_depth: u128,
    pub depth_schedule: [(u128, u128); 3],
    /// What the record took, in nanoseconds.
    pub compute_nanos: u128,
}

/// A price, a side and the quantity there.
#[derive(Clone, Copy, Debug)]
pub struct Level {
    pub price: Price,
    pub side: Side,
    pub quantity: u128,
}

/// How far a price is from a reference, in whole basis points.
pub open spec fn bps_from(reference: int, price: int) -> int {
    saturated(distance(price, reference) * 10_000) / reference
}

/// The quantity of a level that counts for one side within `threshold` basis
/// points.
pub open spec fn within_part(reference: Price, side: Side, threshold: int) -> spec_fn(Level) -> int {
    |l: Level|
        if l.side == side && bps_from(reference as int, l.price as int) <= threshold {
            l.quantity as int
        } else {
            0
        }
}

/// The quantity on one side within `threshold` basis points of a reference;
/// none of a reference of zero.
pub open spec fn depth_within(reference: Price, levels: Seq<Level>, side: Side, threshold: int) -> int {
    if reference == 0 {
        0
    } else {
        saturated(total(levels, within_part(reference, side, threshold)))
    }
}

fn added(sum: u128, level: &Level, side: Side, bps: u128, threshold: u32, Ghost(reference): Ghost<Price>, Ghost(before): Ghost<Seq<Level>>) -> (r: u128)
    requires
        bps == bps_from(reference as int, level.price as int),
        sum == saturated(total(before, within_part(reference, side, threshold as int))),
    ensures
        r == saturated(total(before.push(*level), within_part(reference, side, threshold as int))),
{
    proof {
        crate::seqs::lemma_total_push(before, *level, within_part(reference, side, threshold as int));
        lemma_total_nonneg(before, within_part(reference, side, threshold as int));
    }
    if level.side == side && bps <= threshold as u128 {
        sum.saturating_add(level.quantity)
    } else {
        sum
    }
}

/// The bid and ask quantity within each of the reported distances of a
/// reference price.
pub fn depth_schedule(reference: u128, levels: &Vec<Level>) -> (r: [(u128, u128); 3])
    ensures
        r@[0].0 == depth_within(reference, levels@, Side::Buy, 10),
        r@[0].1 == depth_within(reference, levels@, Side::Sell, 10),
        r@[1].0 == depth_within(reference, levels@, Side::Buy, 50),
        r@[1].1 == depth_within(reference, levels@, Side::Sell, 50),
        r@[2].0 == depth_within(reference, levels@, Side::Buy, 100),
        r@[2].1 == depth_within(reference, levels@, Side::Sell, 100),
{
    if reference == 0 {
        return [(0u128, 0u128), (0u128, 0u128), (0u128, 0u128)];
    }
    let (mut b10, mut s10): (u128, u128) = (0, 0);
    let (mut b50, mut s50): (u128, u128) = (0, 0);
    let (mut b100, mut s100): (u128, u128) = (0, 0);
    let mut i: usize = 0;
    assert(levels@.take(0) =~= Seq::<Level>::empty());
    while i < levels.len()
        invariant
            i <= levels.len(),
            reference > 0,
            b10 == depth_within(reference, levels@.take(i as int), Side::Buy, 10),
            s10 == depth_within(reference, levels@.take(i as int), Side::Sell, 10),
            b50 == depth_within(reference, levels@.take(i as int), Side::Buy, 50),
            s50 == depth_within(reference, levels@.take(i as int), Side::Sell, 50),
            b100 == depth_within(reference, levels@.take(i as int), Side::Buy, 100),
            s100 == depth_within(reference, levels@.take(i as int), Side::Sell, 100),
        decreases levels.len() - i,
    {
        let level: Level = levels[i];
        let diff: u128 = if level.price > reference {
            level.price - reference
        } else {
            reference - level.price
        };
        let bps: u128 = crate::trades::saturating_product(diff, 10_000) / reference;
        let ghost before: Seq<Level> = levels@.take(i as int);
        b10 = added(b10, &level, Side::Buy, bps, 10, Ghost(reference), Ghost(before));
        s10 = added(s10, &level, Side::Sell, bps, 10, Ghost(reference), Ghost(before));
        b50 = added(b50, &level, Side::Buy, bps, 50, Ghost(reference), Ghost(before));
        s50 = added(s50, &level, Side::Sell, bps, 50, Ghost(reference), Ghost(before));
        b100 = added(b100, &level, Side::Buy, bps, 100, Ghost(reference), Ghost(before));
        s100 = added(s100, &level, Side::Sell, bps, 100, Ghost(reference), Ghost(before));
        assert(levels@.take(i + 1) =~= before.push(level));
        i += 1;
    }
    assert(levels@.take(i as int) =~= levels@);
    [(b10, s10), (b50, s50), (b100, s100)]
}

/// Depth only grows with distance: what lies within fewer basis points also
/// lies within more.
pub proof fn law_depth_grows_with_distance(reference: Price, levels: Seq<Level>, side: Side, near: int, far: int)
    requires
        near <= far,
    ensures
        depth_within(reference, levels, side, near) <= depth_within(reference, levels, side, far),
{
    crate::seqs::lemma_total_bounds(levels, within_part(reference, side, near), within_part(reference, side, far));
}

} // verus!
