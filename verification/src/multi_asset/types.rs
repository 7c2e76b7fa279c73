//! The values that are traded in several pairs: pairs, orders, trades,
//! accounts and what settles them.

use vstd::prelude::*;
use crate::seqs::clamped_sub;
use crate::tables::{lookup, place_of_text, put, Place, Ranked, Table, TableKey};
use crate::text::{chars_of, push_chars, same_text, string_of};
use crate::types::{clone_label, Amount, OrderKind, Price, Side};

verus! {

/// Two assets, one of which is priced in the other.
#[derive(Debug)]
pub struct AssetPair {
    pub base: String,
    pub quote: String,
    pub base_contract: Option<String>,
    pub quote_contract: Option<String>,
    pub base_decimals: Option<u8>,
    pub quote_decimals: Option<u8>,
}

/// A pair, as plain values.
#[verifier::ext_equal]
pub struct PairView {
    pub base: Seq<char>,
    pub quote: Seq<char>,
    pub base_contract: Option<Seq<char>>,
    pub quote_contract: Option<Seq<char>>,
    pub base_decimals: Option<u8>,
    pub quote_decimals: Option<u8>,
}

/// An optional text, as plain values.
pub open spec fn label_chars(label: Option<String>) -> Option<Seq<char>> {
    match label {
        Some(s) => Some(s@),
        None => None,
    }
}

impl View for AssetPair {
    type V = PairView;

    open spec fn view(&self) -> PairView {
        PairView {
            base: self.base@,
            quote: self.quote@,
            base_contract: label_chars(self.base_contract),
            quote_contract: label_chars(self.quote_contract),
            base_decimals: self.base_decimals,
            quote_decimals: self.quote_decimals,
        }
    }
}

impl PairView {
    /// The pair of two assets that nothing else is known of.
    pub open spec fn plain(base: Seq<char>, quote: Seq<char>) -> PairView {
        PairView {
            base,
            quote,
            base_contract: None,
            quote_contract: None,
            base_decimals: None,
            quote_decimals: None,
        }
    }
}

impl Clone for AssetPair {
    fn clone(&self) -> (r: Self)
        ensures
            r == *self,
    {
        AssetPair {
            base: self.base.clone(),
            quote: self.quote.clone(),
            base_contract: clone_label(&self.base_contract),
            quote_contract: clone_label(&self.quote_contract),
            base_decimals: self.base_decimals,
            quote_decimals: self.quote_decimals,
        }
    }
}

/// Whether two optional texts are the same.
pub fn same_label(a: &Option<String>, b: &Option<String>) -> (r: bool)
    ensures
        r == (label_chars(*a) == label_chars(*b)),
{
    match (a, b) {
        (Some(x), Some(y)) => same_text(x.as_str(), y.as_str()),
        (None, None) => true,
        _ => false,
    }
}

fn same_decimals(a: Option<u8>, b: Option<u8>) -> (r: bool)
    ensures
        r == (a == b),
{
    match (a, b) {
        (Some(x), Some(y)) => x == y,
        (None, None) => true,
        _ => false,
    }
}

impl AssetPair {
    /// The pair of two assets that nothing else is known of.
    pub fn new(base: &str, quote: &str) -> (r: Self)
        ensures
            r@ == PairView::plain(base@, quote@),
    {
        AssetPair {
            base: base.to_string(),
            quote: quote.to_string(),
            base_contract: None,
            quote_contract: None,
            base_decimals: None,
            quote_decimals: None,
        }
    }

    /// Both assets, with a slash between them.
    pub fn label(&self) -> (r: String)
        ensures
            r@ == self@.base + "/"@ + self@.quote,
    {
        let mut out: Vec<char> = chars_of(self.base.as_str());
        push_chars(&mut out, &chars_of("/"));
        push_chars(&mut out, &chars_of(self.quote.as_str()));
        string_of(&out)
    }

    /// Whether two pairs are the same in every respect.
    pub fn same(&self, other: &AssetPair) -> (r: bool)
        ensures
            r == (self@ == other@),
    {
        same_text(self.base.as_str(), other.base.as_str()) && same_text(self.quote.as_str(), other.quote.as_str())
            && same_label(&self.base_contract, &other.base_contract) && same_label(
            &self.quote_contract,
            &other.quote_contract,
        ) && same_decimals(self.base_decimals, other.base_decimals) && same_decimals(
            self.quote_decimals,
            other.quote_decimals,
        )
    }
}

impl PairView {
    /// The parts of a pair, in the order in which they count.
    pub open spec fn parts(self) -> (
        (Seq<char>, Seq<char>),
        ((Option<Seq<char>>, Option<Seq<char>>), (Option<u8>, Option<u8>)),
    ) {
        (
            (self.base, self.quote),
            ((self.base_contract, self.quote_contract), (self.base_decimals, self.quote_decimals)),
        )
    }
}

/// Pairs go by their assets first.
impl Ranked for PairView {
    open spec fn precedes(self, other: Self) -> bool {
        self.parts().precedes(other.parts())
    }

    proof fn precedes_irreflexive(a: Self) {
        Ranked::precedes_irreflexive(a.parts());
    }

    proof fn precedes_transitive(a: Self, b: Self, c: Self) {
        Ranked::precedes_transitive(a.parts(), b.parts(), c.parts());
    }

    proof fn precedes_total(a: Self, b: Self) {
        Ranked::precedes_total(a.parts(), b.parts());
    }
}

/// The first part that differs decides.
proof fn lemma_precedes(a: PairView, b: PairView)
    ensures
        a.precedes(b) == (a.base.precedes(b.base) || (a.base == b.base && (a.quote.precedes(b.quote) || (a.quote
            == b.quote && (a.base_contract.precedes(b.base_contract) || (a.base_contract == b.base_contract && (
        a.quote_contract.precedes(b.quote_contract) || (a.quote_contract == b.quote_contract && (
        a.base_decimals.precedes(b.base_decimals) || (a.base_decimals == b.base_decimals
            && a.quote_decimals.precedes(b.quote_decimals))))))))))),
{
}

fn place_of_label(a: &Option<String>, b: &Option<String>) -> (r: Place)
    ensures
        match r {
            Place::Before => label_chars(*a).precedes(label_chars(*b)),
            Place::Same => label_chars(*a) == label_chars(*b),
            Place::After => label_chars(*b).precedes(label_chars(*a)),
        },
{
    match (a, b) {
        (Some(x), Some(y)) => place_of_text(x.as_str(), y.as_str()),
        (None, None) => Place::Same,
        (None, Some(_)) => Place::Before,
        (Some(_), None) => Place::After,
    }
}

fn place_of_decimals(a: Option<u8>, b: Option<u8>) -> (r: Place)
    ensures
        match r {
            Place::Before => a.precedes(b),
            Place::Same => a == b,
            Place::After => b.precedes(a),
        },
{
    match (a, b) {
        (Some(x), Some(y)) => if x < y {
            Place::Before
        } else if x == y {
            Place::Same
        } else {
            Place::After
        },
        (None, None) => Place::Same,
        (None, Some(_)) => Place::Before,
        (Some(_), None) => Place::After,
    }
}

impl TableKey for AssetPair {
    type Rank = PairView;

    open spec fn rank(&self) -> PairView {
        self@
    }

    fn place(&self, other: &Self) -> (r: Place) {
        proof {
            lemma_precedes(self@, other@);
            lemma_precedes(other@, self@);
        }
        match place_of_text(self.base.as_str(), other.base.as_str()) {
            Place::Same => {},
            decided => {
                return decided;
            },
        }
        match place_of_text(self.quote.as_str(), other.quote.as_str()) {
            Place::Same => {},
            decided => {
                return decided;
            },
        }
        match place_of_label(&self.base_contract, &other.base_contract) {
            Place::Same => {},
            decided => {
                return decided;
            },
        }
        match place_of_label(&self.quote_contract, &other.quote_contract) {
            Place::Same => {},
            decided => {
                return decided;
            },
        }
        match place_of_decimals(self.base_decimals, other.base_decimals) {
            Place::Same => {},
            decided => {
                return decided;
            },
        }
        place_of_decimals(self.quote_decimals, other.quote_decimals)
    }
}

impl Default for AssetPair {
    fn default() -> (r: Self)
        ensures
            r@ == PairView::plain("SOL"@, "USD"@),
    {
        AssetPair::new("SOL", "USD")
    }
}

/// One record of the order-status stream of a pair, with the live fill state
/// that the engines keep on it.
#[derive(Debug)]
pub struct Order {
    /// Event timestamp in nanoseconds since the Unix epoch.
    pub ts: u64,
    /// Pseudonymous participant id.
    pub user_id: String,
    pub is_builder: bool,
    /// Raw status code of the record.
    pub status_id: u8,
    /// True for an ask (sell), false for a bid (buy).
    pub is_ask: bool,
    /// Limit price in `PRICE_SCALE` fixed point.
    pub limit_px: Price,
    /// Size at the time of this record; not the same as `remaining`.
    pub sz: Amount,
    /// Order id assigned by the venue.
    pub oid: u64,
    /// Milliseconds from the order's submission to this record.
    pub timestamp_diff: u32,
    /// Signed trigger condition in `PRICE_SCALE` fixed point.
    pub trigger_condition: i128,
    pub triggered: bool,
    /// Whether this is a conditional order.
    pub is_trigger: bool,
    pub has_children: bool,
    pub is_position_tpsl: bool,
    pub reduce_only: bool,
    /// Raw order type code.
    pub order_type_id: u8,
    /// Raw time-in-force code.
    pub tif_id: u8,
    pub trigger_px: Price,
    /// Size at the original submission.
    pub orig_sz: Amount,
    pub status: Option<String>,
    pub order_type: Option<String>,
    pub tif: Option<String>,
    /// The pair that is traded.
    pub pair: AssetPair,
    /// The unfilled part, reduced by the engines as they fill the order.
    pub remaining: Amount,
    pub wallet: Option<String>,
    pub client_order_id: Option<String>,
    pub chain_id: Option<u64>,
}

impl Clone for Order {
    fn clone(&self) -> (r: Self)
        ensures
            r == *self,
    {
        Order {
            ts: self.ts,
            user_id: self.user_id.clone(),
            is_builder: self.is_builder,
            status_id: self.status_id,
            is_ask: self.is_ask,
            limit_px: self.limit_px,
            sz: self.sz,
            oid: self.oid,
            timestamp_diff: self.timestamp_diff,
            trigger_condition: self.trigger_condition,
            triggered: self.triggered,
            is_trigger: self.is_trigger,
            has_children: self.has_children,
            is_position_tpsl: self.is_position_tpsl,
            reduce_only: self.reduce_only,
            order_type_id: self.order_type_id,
            tif_id: self.tif_id,
            trigger_px: self.trigger_px,
            orig_sz: self.orig_sz,
            status: clone_label(&self.status),
            order_type: clone_label(&self.order_type),
            tif: clone_label(&self.tif),
            pair: self.pair.clone(),
            remaining: self.remaining,
            wallet: clone_label(&self.wallet),
            client_order_id: clone_label(&self.client_order_id),
            chain_id: self.chain_id,
        }
    }
}

impl Order {
    /// A live, good-till-cancelled limit order with every optional field at
    /// rest, and `user_id` for its owner.
    pub open spec fn plain_limit(
        id: u64,
        user_id: String,
        pair: AssetPair,
        side: Side,
        price: Price,
        quantity: Amount,
        timestamp: u64,
    ) -> Order {
        Order {
            ts: timestamp,
            user_id,
            is_builder: false,
            status_id: 1,
            is_ask: side == Side::Sell,
            limit_px: price,
            sz: quantity,
            oid: id,
            timestamp_diff: 0,
            trigger_condition: 0,
            triggered: false,
            is_trigger: false,
            has_children: false,
            is_position_tpsl: false,
            reduce_only: false,
            order_type_id: 0,
            tif_id: 1,
            trigger_px: 0,
            orig_sz: quantity,
            status: None,
            order_type: None,
            tif: None,
            pair,
            remaining: quantity,
            wallet: None,
            client_order_id: None,
            chain_id: None,
        }
    }

    /// A live, immediate-or-cancel market order, otherwise like
    /// `plain_limit`.
    pub open spec fn plain_market(
        id: u64,
        user_id: String,
        pair: AssetPair,
        side: Side,
        quantity: Amount,
        timestamp: u64,
    ) -> Order {
        Order {
            limit_px: 0,
            order_type_id: 1,
            tif_id: 2,
            ..Order::plain_limit(id, user_id, pair, side, 0, quantity, timestamp)
        }
    }

    /// A limit order: open, good till cancelled, no trigger, no labels.
    pub fn limit(
        id: u64,
        participant_id: &str,
        pair: AssetPair,
        side: Side,
        price: Price,
        quantity: Amount,
        timestamp: u64,
    ) -> (r: Self)
        ensures
            r.user_id@ == participant_id@,
            r == Order::plain_limit(id, r.user_id, pair, side, price, quantity, timestamp),
    {
        Order {
            ts: timestamp,
            user_id: participant_id.to_string(),
            is_builder: false,
            status_id: 1,
            is_ask: side == Side::Sell,
            limit_px: price,
            sz: quantity,
            oid: id,
            timestamp_diff: 0,
            trigger_condition: 0,
            triggered: false,
            is_trigger: false,
            has_children: false,
            is_position_tpsl: false,
            reduce_only: false,
            order_type_id: 0,
            tif_id: 1,
            trigger_px: 0,
            orig_sz: quantity,
            status: None,
            order_type: None,
            tif: None,
            pair,
            remaining: quantity,
            wallet: None,
            client_order_id: None,
            chain_id: None,
        }
    }

    /// A market order: open, immediate or cancel, no trigger, no labels.
    pub fn market(
        id: u64,
        participant_id: &str,
        pair: AssetPair,
        side: Side,
        quantity: Amount,
        timestamp: u64,
    ) -> (r: Self)
        ensures
            r.user_id@ == participant_id@,
            r == Order::plain_market(id, r.user_id, pair, side, quantity, timestamp),
    {
        Order {
            ts: timestamp,
            user_id: participant_id.to_string(),
            is_builder: false,
            status_id: 1,
            is_ask: side == Side::Sell,
            limit_px: 0,
            sz: quantity,
            oid: id,
            timestamp_diff: 0,
            trigger_condition: 0,
            triggered: false,
            is_trigger: false,
            has_children: false,
            is_position_tpsl: false,
            reduce_only: false,
            order_type_id: 1,
            tif_id: 2,
            trigger_px: 0,
            orig_sz: quantity,
            status: None,
            order_type: None,
            tif: None,
            pair,
            remaining: quantity,
            wallet: None,
            client_order_id: None,
            chain_id: None,
        }
    }

    pub open spec fn spec_side(&self) -> Side {
        if self.is_ask {
            Side::Sell
        } else {
            Side::Buy
        }
    }

    /// The side, from the record's `is_ask` flag.
    #[verifier::when_used_as_spec(spec_side)]
    pub fn side(&self) -> (r: Side)
        ensures
            r == self.spec_side(),
    {
        if self.is_ask {
            Side::Sell
        } else {
            Side::Buy
        }
    }

    pub open spec fn spec_kind(&self) -> OrderKind {
        if self.order_type_id == 1 || self.order_type_id == 2 || self.order_type_id == 3 || self.order_type_id == 6 {
            OrderKind::Market
        } else {
            OrderKind::Limit { price: self.limit_px }
        }
    }

    /// The kind, from the record's type code: market (1), stop market (2),
    /// take-profit market (3) and vault close (6) execute at market, every
    /// other code is a limit order at `limit_px`.
    #[verifier::when_used_as_spec(spec_kind)]
    pub fn kind(&self) -> (r: OrderKind)
        ensures
            r == self.spec_kind(),
    {
        match self.order_type_id {
            1 | 2 | 3 | 6 => OrderKind::Market,
            _ => OrderKind::Limit { price: self.limit_px },
        }
    }

    pub open spec fn spec_limit_price(&self) -> Option<Price> {
        match self.spec_kind() {
            OrderKind::Limit { price } => Some(price),
            OrderKind::Market => None,
        }
    }

    /// The limit price, unless the order executes at market.
    #[verifier::when_used_as_spec(spec_limit_price)]
    pub fn limit_price(&self) -> (r: Option<Price>)
        ensures
            r == self.spec_limit_price(),
    {
        match self.kind() {
            OrderKind::Limit { price } => Some(price),
            OrderKind::Market => None,
        }
    }

    pub open spec fn spec_is_new_live_order(&self) -> bool {
        (self.status_id == 1 && !self.is_trigger) || self.status_id == 9
    }

    /// Whether the record is an order becoming live: an `open` (1) record of
    /// an unconditional order, or a `triggered` (9) record.
    #[verifier::when_used_as_spec(spec_is_new_live_order)]
    pub fn is_new_live_order(&self) -> (r: bool)
        ensures
            r == self.spec_is_new_live_order(),
    {
        match self.status_id {
            1 => !self.is_trigger,
            9 => true,
            _ => false,
        }
    }

    /// The order after `fill` units of it have been filled.
    pub open spec fn filled_by(self, fill: int) -> Order {
        Order { remaining: clamped_sub(self.remaining as int, fill) as u128, ..self }
    }

    /// Takes `fill` off the unfilled part, stopping at zero.
    pub fn reduce(&mut self, fill: Amount)
        ensures
            *final(self) == old(self).filled_by(fill as int),
    {
        self.remaining = self.remaining.saturating_sub(fill);
    }
}

/// Orders that are cleared together.
#[derive(Debug)]
pub struct Batch {
    pub id: u64,
    pub orders: Vec<Order>,
}

/// An executed trade of a pair.
#[derive(Debug)]
pub struct Trade {
    pub trade_id: u64,
    pub pair: AssetPair,
    pub price: Price,
    pub quantity: Amount,
    pub buyer_id: String,
    pub seller_id: String,
    pub buy_order_id: u64,
    pub sell_order_id: u64,
    /// Execution time in nanoseconds since the Unix epoch.
    pub ts: u64,
    pub trade_tx_hash: Option<String>,
    pub chain_id: Option<u64>,
}

impl Clone for Trade {
    fn clone(&self) -> (r: Self)
        ensures
            r == *self,
    {
        Trade {
            trade_id: self.trade_id,
            pair: self.pair.clone(),
            price: self.price,
            quantity: self.quantity,
            buyer_id: self.buyer_id.clone(),
            seller_id: self.seller_id.clone(),
            buy_order_id: self.buy_order_id,
            sell_order_id: self.sell_order_id,
            ts: self.ts,
            trade_tx_hash: clone_label(&self.trade_tx_hash),
            chain_id: self.chain_id,
        }
    }
}

/// What is under a key, or zero.
pub open spec fn balance_of<R: Ranked>(items: Seq<(R, i128)>, k: R) -> int {
    match lookup(items, k) {
        Some(b) => b as int,
        None => 0,
    }
}

/// What one participant holds of each asset.
#[derive(Debug)]
pub struct Account {
    pub id: String,
    pub wallet: Option<String>,
    pub balances: Table<String, i128>,
}

impl Account {
    /// An account that holds nothing.
    pub fn new(id: &str) -> (r: Self)
        ensures
            r.id@ == id@,
            r.wallet is None,
            r.balances.wf(),
            r.balances.items() == Seq::<(Seq<char>, i128)>::empty(),
    {
        Account { id: id.to_string(), wallet: None, balances: Table::new() }
    }

    /// Adds to what is held of an asset.
    pub fn apply(&mut self, asset: &str, delta: i128)
        requires
            old(self).balances.wf(),
            i128::MIN <= balance_of(old(self).balances.items(), asset@) + delta <= i128::MAX,
        ensures
            final(self).id == old(self).id,
            final(self).wallet == old(self).wallet,
            final(self).balances.wf(),
            final(self).balances.items() == put(
                old(self).balances.items(),
                asset@,
                (balance_of(old(self).balances.items(), asset@) + delta) as i128,
            ),
    {
        let key: String = asset.to_string();
        let held: i128 = match self.balances.get(&key) {
            Some(b) => *b,
            None => 0,
        };
        self.balances.set(key, held + delta);
    }
}

/// An amount of an asset that changes hands.
#[derive(Debug)]
pub struct AssetTransfer {
    pub asset: String,
    pub amount: Amount,
    pub asset_contract: Option<String>,
}

/// What one participant sends to another, in one bundle.
#[derive(Debug)]
pub struct SettlementEdge {
    pub from: String,
    pub to: String,
    pub transfers: Vec<AssetTransfer>,
}

impl SettlementEdge {
    /// A bundle without transfers.
    pub fn new(from: &str, to: &str) -> (r: Self)
        ensures
            r.from@ == from@,
            r.to@ == to@,
            r.transfers@.len() == 0,
    {
        SettlementEdge { from: from.to_string(), to: to.to_string(), transfers: Vec::new() }
    }
}

/// What each participant is owed (or owes, if negative) of each asset.
pub type NetPositions = Table<(String, String), i128>;

/// Who sends what to whom, and how many transfers that saves.
#[derive(Debug)]
pub struct SettlementPlan {
    pub net_positions: NetPositions,
    pub edges: Vec<SettlementEdge>,
    pub naive_transfer_count: usize,
    pub optimized_transfer_count: usize,
}

} // verus!
