//! The values that both engines trade in: sides, order kinds, orders, trades.

use vstd::prelude::*;

verus! {

/// Fixed-point scaling factor for prices: a price of one unit is this number.
pub const PRICE_SCALE: u128 = 1_000_000;

pub type Amount = u128;

pub type Price = u128;

#[derive(Clone, Copy, Debug, PartialEq, Eq, Structural)]
pub enum Side {
    Buy,
    Sell,
}

impl Side {
    pub open spec fn spec_opposite(self) -> Side {
        match self {
            Side::Buy => Side::Sell,
            Side::Sell => Side::Buy,
        }
    }

    #[verifier::when_used_as_spec(spec_opposite)]
    pub fn opposite(self) -> (r: Side)
        ensures
            r == self.spec_opposite(),
    {
        match self {
            Side::Buy => Side::Sell,
            Side::Sell => Side::Buy,
        }
    }
}

/// How an order executes once it is live.
#[derive(Clone, Copy, Debug, PartialEq, Eq, Structural)]
pub enum OrderKind {
    Limit { price: Price },
    Market,
}

/// Which engine produced a trade.
#[derive(Clone, Copy, Debug, PartialEq, Eq, Structural)]
pub enum EngineKind {
    Fba,
    Cda,
}

impl EngineKind {
    pub open spec fn label_chars(self) -> Seq<char> {
        match self {
            EngineKind::Fba => "FBA"@,
            EngineKind::Cda => "CDA"@,
        }
    }

    pub fn label(&self) -> (r: &'static str)
        ensures
            r@ == self.label_chars(),
    {
        match self {
            EngineKind::Fba => "FBA",
            EngineKind::Cda => "CDA",
        }
    }
}

/// One record of the order-status stream, with the live fill state that the
/// engines keep on it.
#[derive(Debug)]
pub struct Order {
    /// Event timestamp in nanoseconds since the Unix epoch.
    pub ts: u64,
    /// Pseudonymous participant id.
    pub user_id: String,
    pub is_builder: bool,
    /// Raw status code of the record.
    pub status_id: u8,
    /// True for an ask (sell), false for a bid (buy).
    pub is_ask: bool,
    /// Limit price in `PRICE_SCALE` fixed point.
    pub limit_px: Price,
    /// Size at the time of this record; not the same as `remaining`.
    pub sz: Amount,
    /// Order id assigned by the venue.
    pub oid: u64,
    /// Milliseconds from the order's submission to this record.
    pub timestamp_diff: u32,
    /// Signed trigger condition in `PRICE_SCALE` fixed point.
    pub trigger_condition: i128,
    pub triggered: bool,
    /// Whether this is a conditional order.
    pub is_trigger: bool,
    pub has_children: bool,
    pub is_position_tpsl: bool,
    pub reduce_only: bool,
    /// Raw order type code.
    pub order_type_id: u8,
    /// Raw time-in-force code.
    pub tif_id: u8,
    pub trigger_px: Price,
    /// Size at the original submission.
    pub orig_sz: Amount,
    /// When the order was closed, in nanoseconds since the Unix epoch.
    pub closed_ts: Amount,
    pub status: Option<String>,
    pub order_type: Option<String>,
    pub tif: Option<String>,
    /// The unfilled part, reduced by the engines as they fill the order.
    pub remaining: Amount,
}

/// A copy of an optional label.
pub fn clone_label(label: &Option<String>) -> (r: Option<String>)
    ensures
        r == *label,
{
    match label {
        Some(text) => Some(text.clone()),
        None => None,
    }
}

impl Clone for Order {
    fn clone(&self) -> (r: Self)
        ensures
            r == *self,
    {
        Order {
            ts: self.ts,
            user_id: self.user_id.clone(),
            is_builder: self.is_builder,
            status_id: self.status_id,
            is_ask: self.is_ask,
            limit_px: self.limit_px,
            sz: self.sz,
            oid: self.oid,
            timestamp_diff: self.timestamp_diff,
            trigger_condition: self.trigger_condition,
            triggered: self.triggered,
            is_trigger: self.is_trigger,
            has_children: self.has_children,
            is_position_tpsl: self.is_position_tpsl,
            reduce_only: self.reduce_only,
            order_type_id: self.order_type_id,
            tif_id: self.tif_id,
            trigger_px: self.trigger_px,
            orig_sz: self.orig_sz,
            closed_ts: self.closed_ts,
            status: clone_label(&self.status),
            order_type: clone_label(&self.order_type),
            tif: clone_label(&self.tif),
            remaining: self.remaining,
        }
    }
}

impl Order {
    /// A live, good-till-cancelled limit order with every optional field at
    /// rest, and `user_id` for its owner.
    pub open spec fn plain_limit(
        id: u64,
        user_id: String,
        side: Side,
        price: Price,
        quantity: Amount,
        timestamp: u64,
    ) -> Order {
        Order {
            ts: timestamp,
            user_id,
            is_builder: false,
            status_id: 1,
            is_ask: side == Side::Sell,
            limit_px: price,
            sz: quantity,
            oid: id,
            timestamp_diff: 0,
            trigger_condition: 0,
            triggered: false,
            is_trigger: false,
            has_children: false,
            is_position_tpsl: false,
            reduce_only: false,
            order_type_id: 0,
            tif_id: 1,
            trigger_px: 0,
            orig_sz: quantity,
            closed_ts: 0,
            status: None,
            order_type: None,
            tif: None,
            remaining: quantity,
        }
    }

    /// A live, immediate-or-cancel market order, otherwise like
    /// `plain_limit`.
    pub open spec fn plain_market(
        id: u64,
        user_id: String,
        side: Side,
        quantity: Amount,
        timestamp: u64,
    ) -> Order {
        Order {
            limit_px: 0,
            order_type_id: 1,
            tif_id: 2,
            ..Order::plain_limit(id, user_id, side, 0, quantity, timestamp)
        }
    }

    /// A limit order: open, good till cancelled, no trigger, no labels.
    pub fn limit(
        id: u64,
        participant_id: &str,
        side: Side,
        price: Price,
        quantity: Amount,
        timestamp: u64,
    ) -> (r: Self)
        ensures
            r.user_id@ == participant_id@,
            r == Order::plain_limit(id, r.user_id, side, price, quantity, timestamp),
    {
        Order {
            ts: timestamp,
            user_id: participant_id.to_owned(),
            is_builder: false,
            status_id: 1,
            is_ask: side == Side::Sell,
            limit_px: price,
            sz: quantity,
            oid: id,
            timestamp_diff: 0,
            trigger_condition: 0,
            triggered: false,
            is_trigger: false,
            has_children: false,
            is_position_tpsl: false,
            reduce_only: false,
            order_type_id: 0,
            tif_id: 1,
            trigger_px: 0,
            orig_sz: quantity,
            closed_ts: 0,
            status: None,
            order_type: None,
            tif: None,
            remaining: quantity,
        }
    }

    /// A market order: open, immediate or cancel, no trigger, no labels.
    pub fn market(id: u64, participant_id: &str, side: Side, quantity: Amount, timestamp: u64) -> (r: Self)
        ensures
            r.user_id@ == participant_id@,
            r == Order::plain_market(id, r.user_id, side, quantity, timestamp),
    {
        Order {
            ts: timestamp,
            user_id: participant_id.to_owned(),
            is_builder: false,
            status_id: 1,
            is_ask: side == Side::Sell,
            limit_px: 0,
            sz: quantity,
            oid: id,
            timestamp_diff: 0,
            trigger_condition: 0,
            triggered: false,
            is_trigger: false,
            has_children: false,
            is_position_tpsl: false,
            reduce_only: false,
            order_type_id: 1,
            tif_id: 2,
            trigger_px: 0,
            orig_sz: quantity,
            closed_ts: 0,
            status: None,
            order_type: None,
            tif: None,
            remaining: quantity,
        }
    }

    pub open spec fn spec_side(&self) -> Side {
        if self.is_ask {
            Side::Sell
        } else {
            Side::Buy
        }
    }

    /// The side, from the record's `is_ask` flag.
    #[verifier::when_used_as_spec(spec_side)]
    pub fn side(&self) -> (r: Side)
        ensures
            r == self.spec_side(),
    {
        if self.is_ask {
            Side::Sell
        } else {
            Side::Buy
        }
    }

    pub open spec fn spec_kind(&self) -> OrderKind {
        if self.order_type_id == 1 || self.order_type_id == 2 || self.order_type_id == 3 || self.order_type_id
            == 6 {
            OrderKind::Market
        } else {
            OrderKind::Limit { price: self.limit_px }
        }
    }

    /// The kind, from the record's type code. Market (1), stop market (2),
    /// take-profit market (3) and vault close (6) execute at market; every
    /// other code, known or not, is a limit order at `limit_px`.
    #[verifier::when_used_as_spec(spec_kind)]
    pub fn kind(&self) -> (r: OrderKind)
        ensures
            r == self.spec_kind(),
    {
        match self.order_type_id {
            1 | 2 | 3 | 6 => OrderKind::Market,
            _ => OrderKind::Limit { price: self.limit_px },
        }
    }

    pub open spec fn spec_limit_price(&self) -> Option<Price> {
        match self.spec_kind() {
            OrderKind::Limit { price } => Some(price),
            OrderKind::Market => None,
        }
    }

    /// The limit price, unless the order executes at market.
    #[verifier::when_used_as_spec(spec_limit_price)]
    pub fn limit_price(&self) -> (r: Option<Price>)
        ensures
            r == self.spec_limit_price(),
    {
        match self.kind() {
            OrderKind::Limit { price } => Some(price),
            OrderKind::Market => None,
        }
    }

    pub open spec fn spec_is_new_live_order(&self) -> bool {
        (self.status_id == 1 && !self.is_trigger) || self.status_id == 9
    }

    /// Whether the record is an order becoming live: an `open` (1) record of
    /// an unconditional order, or a `triggered` (9) record.
    #[verifier::when_used_as_spec(spec_is_new_live_order)]
    pub fn is_new_live_order(&self) -> (r: bool)
        ensures
            r == self.spec_is_new_live_order(),
    {
        match self.status_id {
            1 => !self.is_trigger,
            9 => true,
            _ => false,
        }
    }

    pub open spec fn spec_is_cancellation(&self) -> bool {
        ||| self.status_id == 2
        ||| self.status_id == 7
        ||| 10 <= self.status_id <= 14
        ||| self.status_id == 16
    }

    /// Whether the record withdraws an order. A `filled` (5) record does
    /// not: the engines here decide fills on their own.
    #[verifier::when_used_as_spec(spec_is_cancellation)]
    pub fn is_cancellation(&self) -> (r: bool)
        ensures
            r == self.spec_is_cancellation(),
    {
        match self.status_id {
            2 | 7 | 10 | 11 | 12 | 13 | 14 | 16 => true,
            _ => false,
        }
    }

    /// The order after `fill` units of it have been filled.
    pub open spec fn filled_by(self, fill: int) -> Order {
        Order { remaining: crate::seqs::clamped_sub(self.remaining as int, fill) as u128, ..self }
    }

    /// Takes `fill` off the unfilled part, stopping at zero.
    pub fn reduce(&mut self, fill: Amount)
        ensures
            *final(self) == old(self).filled_by(fill as int),
    {
        self.remaining = self.remaining.saturating_sub(fill);
    }
}

/// An executed trade.
#[derive(Debug)]
pub struct Trade {
    pub trade_id: u64,
    pub price: Price,
    pub quantity: Amount,
    pub buyer_id: String,
    pub seller_id: String,
    pub buy_order_id: u64,
    pub sell_order_id: u64,
    pub engine_type: EngineKind,
    /// Execution time in nanoseconds since the Unix epoch.
    pub ts: u64,
    pub trade_tx_hash: Option<String>,
    pub chain_id: Option<u64>,
}

impl Clone for Trade {
    fn clone(&self) -> (r: Self)
        ensures
            r == *self,
    {
        Trade {
            trade_id: self.trade_id,
            price: self.price,
            quantity: self.quantity,
            buyer_id: self.buyer_id.clone(),
            seller_id: self.seller_id.clone(),
            buy_order_id: self.buy_order_id,
            sell_order_id: self.sell_order_id,
            engine_type: self.engine_type,
            ts: self.ts,
            trade_tx_hash: clone_label(&self.trade_tx_hash),
            chain_id: self.chain_id,
        }
    }
}

/// A copy of the trades from position `from` on.
pub fn clone_trades(trades: &Vec<Trade>, from: usize) -> (r: Vec<Trade>)
    requires
        from <= trades.len(),
    ensures
        r@ == trades@.skip(from as int),
{
    let mut r: Vec<Trade> = Vec::new();
    let mut i: usize = from;
    while i < trades.len()
        invariant
            from <= i <= trades.len(),
            r@ == trades@.subrange(from as int, i as int),
        decreases trades.len() - i,
    {
        r.push(trades[i].clone());
        i += 1;
    }
    r
}

} // verus!
