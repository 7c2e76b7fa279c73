//! Hand-made scenarios with known outcomes, to run at the prompt. What a
//! scenario came to is told from the book; a rate is a fixed text there, and
//! follows from the totals and prices that the scenario checks.

use vstd::prelude::*;
use crate::engines::cda::{sweep, CdaOrderBook};
use crate::engines::auction::{
    clearing_price, is_best, lemma_best_is_unique, lemma_queue_is_unique, limit_prices, pair_off, preferred, Interest,
    TieRule,
};
use crate::engines::fba::{interests, residual, ClearingResult, FbaOrderBook};
use crate::engines::ladder::better;
use crate::inputs::shown::{
    field, order_part, order_parts, quoted, report, shown_bool, shown_list, shown_option, shown_tuple, trade_parts,
    trade_text, OrderPart, Report, TradePart,
};
use crate::seqs::{leading, total};
use crate::text::{chars_of, decimal, decimal_of, push_str, same_text, string_of};
use crate::types::{EngineKind, Order, Side, Trade, PRICE_SCALE};

verus! {

/// One scenario and whether it came out as it should.
#[derive(Debug)]
pub struct TestCase {
    pub name: &'static str,
    pub passed: bool,
    /// What it came to.
    pub detail: String,
}

fn check(name: &'static str, passed: bool, detail: &Vec<char>) -> (r: TestCase)
    ensures
        r.name == name,
        r.passed == passed,
        r.detail@ == detail@,
{
    TestCase { name, passed, detail: string_of(detail) }
}

fn limit(oid: u64, user: &str, side: Side, price: u128, qty: u128, ts: u64) -> (r: Order)
    ensures
        r.user_id@ == user@,
        r == Order::plain_limit(oid, r.user_id, side, price, qty, ts),
{
    Order::limit(oid, user, side, price, qty, ts)
}

/// A cancellation of an order that is not there under this id.
fn non_live(oid: u64, user: &str, side: Side, price: u128, qty: u128, ts: u64) -> (r: Order)
    ensures
        r.user_id@ == user@,
        r == (Order { status_id: 2, ..Order::plain_limit(oid, r.user_id, side, price, qty, ts) }),
{
    let mut o: Order = Order::limit(oid, user, side, price, qty, ts);
    o.status_id = 2;
    o
}

/// A record that cancels an order.
fn cancel_event(oid: u64, ts: u64) -> (r: Order)
    ensures
        r == (Order { status_id: 2, ..Order::plain_limit(oid, r.user_id, Side::Buy, 0, 0, ts) }),
{
    let mut o: Order = Order::limit(oid, "cancel-src", Side::Buy, 0, 0, ts);
    o.status_id = 2;
    o
}

/// A record that says an order was filled elsewhere.
fn filled_event(oid: u64, ts: u64) -> (r: Order)
    ensures
        r == (Order { status_id: 5, ..Order::plain_limit(oid, r.user_id, Side::Buy, 0, 0, ts) }),
{
    let mut o: Order = Order::limit(oid, "fill-src", Side::Buy, 0, 0, ts);
    o.status_id = 5;
    o
}

fn market(oid: u64, user: &str, side: Side, qty: u128, ts: u64) -> (r: Order)
    ensures
        r.user_id@ == user@,
        r == Order::plain_market(oid, r.user_id, side, qty, ts),
{
    Order::market(oid, user, side, qty, ts)
}

pub open spec fn cda_resting_order_no_cross_fields() -> Seq<Seq<char>> {
    seq![
        field("trades"@, decimal(0)),
        field("bids"@, decimal(1)),
        field("asks"@, decimal(0)),
    ]
}

fn cda_resting_order_no_cross() -> (r: TestCase)
    ensures
        r.name@ == "cda_resting_order_no_cross"@,
        r.passed,
        r.detail@ == report(cda_resting_order_no_cross_fields()),
{
    proof {
        reveal_with_fuel(sweep, 4);
        reveal_with_fuel(leading, 4);
    }
    let mut book: CdaOrderBook = CdaOrderBook::new();
    let trades: Vec<Trade> = book.submit(limit(1, "Alice", Side::Buy, 100, 10, 1));
    let ok: bool = trades.len() == 0 && book.bid_count() == 1 && book.asks_is_empty() && (match book.best_bid_order() {
        Some(o) => o.remaining == 10,
        None => false,
    });
    let mut told: Report = Report::new();
    told.count("trades", trades.len());
    told.count("bids", book.bid_count());
    told.count("asks", book.ask_count());
    assert(told@ =~= cda_resting_order_no_cross_fields());
    check("cda_resting_order_no_cross", ok, &told.line())
}

pub open spec fn cda_simple_cross_exact_qty_fields() -> Seq<Seq<char>> {
    seq![
        field("trades"@, shown_list(seq![trade_text(1, 100, 10, "Alice"@, "Bob"@, 2, 1, EngineKind::Cda, 2, None, None)])),
        field("bids_left"@, decimal(0)),
        field("asks_left"@, decimal(0)),
    ]
}

fn cda_simple_cross_exact_qty() -> (r: TestCase)
    ensures
        r.name@ == "cda_simple_cross_exact_qty"@,
        r.passed,
        r.detail@ == report(cda_simple_cross_exact_qty_fields()),
{
    proof {
        reveal_with_fuel(sweep, 4);
        reveal_with_fuel(leading, 4);
    }
    let mut book: CdaOrderBook = CdaOrderBook::new();
    let _: Vec<Trade> = book.submit(limit(1, "Bob", Side::Sell, 100, 10, 1));
    let trades: Vec<Trade> = book.submit(limit(2, "Alice", Side::Buy, 100, 10, 2));
    let ok: bool = trades.len() == 1 && trades[0].quantity == 10 && trades[0].price == 100 && trades[0].engine_type
        == EngineKind::Cda && book.bids_is_empty() && book.asks_is_empty();
    proof {
        assert(trade_parts(trades@, TradePart::Whole) =~= seq![trade_text(1, 100, 10, "Alice"@, "Bob"@, 2, 1, EngineKind::Cda, 2, None, None)]);
    }
    let mut told: Report = Report::new();
    told.trades("trades", &trades, TradePart::Whole);
    told.count("bids_left", book.bid_count());
    told.count("asks_left", book.ask_count());
    assert(told@ =~= cda_simple_cross_exact_qty_fields());
    check("cda_simple_cross_exact_qty", ok, &told.line())
}

pub open spec fn cda_partial_fill_resting_larger_fields() -> Seq<Seq<char>> {
    seq![
        field("trades"@, shown_list(seq![trade_text(1, 100, 4, "Alice"@, "Bob"@, 2, 1, EngineKind::Cda, 2, None, None)])),
        field("ask_remaining"@, shown_option(Some(decimal(6)))),
    ]
}

fn cda_partial_fill_resting_larger() -> (r: TestCase)
    ensures
        r.name@ == "cda_partial_fill_resting_larger"@,
        r.passed,
        r.detail@ == report(cda_partial_fill_resting_larger_fields()),
{
    proof {
        reveal_with_fuel(sweep, 4);
        reveal_with_fuel(leading, 4);
    }
    let mut book: CdaOrderBook = CdaOrderBook::new();
    let _: Vec<Trade> = book.submit(limit(1, "Bob", Side::Sell, 100, 10, 1));
    let trades: Vec<Trade> = book.submit(limit(2, "Alice", Side::Buy, 100, 4, 2));
    let ok: bool = trades.len() == 1 && trades[0].quantity == 4 && book.bids_is_empty() && book.ask_count() == 1 && (match book.best_ask_order() {
        Some(o) => o.remaining == 6,
        None => false,
    });
    proof {
        assert(trade_parts(trades@, TradePart::Whole) =~= seq![trade_text(1, 100, 4, "Alice"@, "Bob"@, 2, 1, EngineKind::Cda, 2, None, None)]);
    }
    let mut told: Report = Report::new();
    told.trades("trades", &trades, TradePart::Whole);
    let ask_remaining: Option<u128> = match book.best_ask_order() {
        Some(o) => Some(o.remaining),
        None => None,
    };
    told.number_if_any("ask_remaining", ask_remaining);
    assert(told@ =~= cda_partial_fill_resting_larger_fields());
    check("cda_partial_fill_resting_larger", ok, &told.line())
}

pub open spec fn cda_multi_fill_walks_book_fields() -> Seq<Seq<char>> {
    seq![
        field("trades"@, shown_list(seq![trade_text(1, 100, 3, "Buyer"@, "S1"@, 3, 1, EngineKind::Cda, 3, None, None), trade_text(2, 100, 4, "Buyer"@, "S2"@, 3, 2, EngineKind::Cda, 3, None, None)])),
        field("bids"@, shown_list(seq![shown_tuple(seq![quoted("Buyer"@), decimal(3)])])),
    ]
}

fn cda_multi_fill_walks_book() -> (r: TestCase)
    ensures
        r.name@ == "cda_multi_fill_walks_book"@,
        r.passed,
        r.detail@ == report(cda_multi_fill_walks_book_fields()),
{
    proof {
        reveal_with_fuel(sweep, 4);
        reveal_with_fuel(leading, 4);
    }
    let mut book: CdaOrderBook = CdaOrderBook::new();
    let _: Vec<Trade> = book.submit(limit(1, "S1", Side::Sell, 100, 3, 1));
    let _: Vec<Trade> = book.submit(limit(2, "S2", Side::Sell, 100, 4, 2));
    let trades: Vec<Trade> = book.submit(limit(3, "Buyer", Side::Buy, 101, 10, 3));
    let ok: bool = trades.len() == 2 && same_text(trades[0].seller_id.as_str(), "S1") && trades[0].quantity == 3
        && same_text(trades[1].seller_id.as_str(), "S2") && trades[1].quantity == 4 && book.asks_is_empty()
        && book.bid_count() == 1 && (match book.best_bid_order() {
        Some(o) => o.remaining == 3 && o.limit_px == 101,
        None => false,
    });
    let bids: Vec<&Order> = book.bids_iter();
    proof {
        assert(trade_parts(trades@, TradePart::Whole) =~= seq![trade_text(1, 100, 3, "Buyer"@, "S1"@, 3, 1, EngineKind::Cda, 3, None, None), trade_text(2, 100, 4, "Buyer"@, "S2"@, 3, 2, EngineKind::Cda, 3, None, None)]);
        assert(Seq::new(bids@.len(), |i: int| order_part(*bids@[i], OrderPart::OwnerLeft)) =~= seq![shown_tuple(seq![quoted("Buyer"@), decimal(3)])]);
    }
    let mut told: Report = Report::new();
    told.trades("trades", &trades, TradePart::Whole);
    told.resting("bids", &bids, OrderPart::OwnerLeft);
    assert(told@ =~= cda_multi_fill_walks_book_fields());
    check("cda_multi_fill_walks_book", ok, &told.line())
}

pub open spec fn cda_price_priority_over_time_fields() -> Seq<Seq<char>> {
    seq![
        field("trades"@, shown_list(seq![trade_text(1, 100, 5, "Buyer"@, "S_better"@, 3, 2, EngineKind::Cda, 3, None, None)])),
        field("remaining_asks"@, shown_list(seq![quoted("S_worse"@)])),
    ]
}

fn cda_price_priority_over_time() -> (r: TestCase)
    ensures
        r.name@ == "cda_price_priority_over_time"@,
        r.passed,
        r.detail@ == report(cda_price_priority_over_time_fields()),
{
    proof {
        reveal_with_fuel(sweep, 4);
        reveal_with_fuel(leading, 4);
    }
    let mut book: CdaOrderBook = CdaOrderBook::new();
    let _: Vec<Trade> = book.submit(limit(1, "S_worse", Side::Sell, 102, 5, 1));
    let _: Vec<Trade> = book.submit(limit(2, "S_better", Side::Sell, 100, 5, 2));
    let trades: Vec<Trade> = book.submit(limit(3, "Buyer", Side::Buy, 105, 5, 3));
    let ok: bool = trades.len() == 1 && same_text(trades[0].seller_id.as_str(), "S_better") && trades[0].price == 100
        && book.ask_count() == 1 && (match book.best_ask_order() {
        Some(o) => same_text(o.user_id.as_str(), "S_worse"),
        None => false,
    });
    let asks: Vec<&Order> = book.asks_iter();
    proof {
        assert(trade_parts(trades@, TradePart::Whole) =~= seq![trade_text(1, 100, 5, "Buyer"@, "S_better"@, 3, 2, EngineKind::Cda, 3, None, None)]);
        assert(Seq::new(asks@.len(), |i: int| order_part(*asks@[i], OrderPart::Owner)) =~= seq![quoted("S_worse"@)]);
    }
    let mut told: Report = Report::new();
    told.trades("trades", &trades, TradePart::Whole);
    told.resting("remaining_asks", &asks, OrderPart::Owner);
    assert(told@ =~= cda_price_priority_over_time_fields());
    check("cda_price_priority_over_time", ok, &told.line())
}

pub open spec fn cda_time_priority_same_price_fields() -> Seq<Seq<char>> {
    seq![
        field("trades"@, shown_list(seq![trade_text(1, 100, 5, "B_early"@, "Seller"@, 1, 3, EngineKind::Cda, 3, None, None)])),
        field("remaining_bids"@, shown_list(seq![quoted("B_late"@)])),
    ]
}

fn cda_time_priority_same_price() -> (r: TestCase)
    ensures
        r.name@ == "cda_time_priority_same_price"@,
        r.passed,
        r.detail@ == report(cda_time_priority_same_price_fields()),
{
    proof {
        reveal_with_fuel(sweep, 4);
        reveal_with_fuel(leading, 4);
    }
    let mut book: CdaOrderBook = CdaOrderBook::new();
    let _: Vec<Trade> = book.submit(limit(1, "B_early", Side::Buy, 100, 5, 1));
    let _: Vec<Trade> = book.submit(limit(2, "B_late", Side::Buy, 100, 5, 2));
    let trades: Vec<Trade> = book.submit(limit(3, "Seller", Side::Sell, 100, 5, 3));
    let ok: bool = trades.len() == 1 && same_text(trades[0].buyer_id.as_str(), "B_early") && book.bid_count() == 1 && (match book.best_bid_order() {
        Some(o) => same_text(o.user_id.as_str(), "B_late"),
        None => false,
    });
    let bids: Vec<&Order> = book.bids_iter();
    proof {
        assert(trade_parts(trades@, TradePart::Whole) =~= seq![trade_text(1, 100, 5, "B_early"@, "Seller"@, 1, 3, EngineKind::Cda, 3, None, None)]);
        assert(Seq::new(bids@.len(), |i: int| order_part(*bids@[i], OrderPart::Owner)) =~= seq![quoted("B_late"@)]);
    }
    let mut told: Report = Report::new();
    told.trades("trades", &trades, TradePart::Whole);
    told.resting("remaining_bids", &bids, OrderPart::Owner);
    assert(told@ =~= cda_time_priority_same_price_fields());
    check("cda_time_priority_same_price", ok, &told.line())
}

pub open spec fn cda_market_crosses_at_maker_price_fields() -> Seq<Seq<char>> {
    seq![
        field("trades"@, shown_list(seq![trade_text(1, 100, 10, "Buyer"@, "Seller"@, 2, 1, EngineKind::Cda, 2, None, None)])),
    ]
}

fn cda_market_crosses_at_maker_price() -> (r: TestCase)
    ensures
        r.name@ == "cda_market_crosses_at_maker_price"@,
        r.passed,
        r.detail@ == report(cda_market_crosses_at_maker_price_fields()),
{
    proof {
        reveal_with_fuel(sweep, 4);
        reveal_with_fuel(leading, 4);
    }
    let mut book: CdaOrderBook = CdaOrderBook::new();
    let _: Vec<Trade> = book.submit(limit(1, "Seller", Side::Sell, 100, 10, 1));
    let trades: Vec<Trade> = book.submit(market(2, "Buyer", Side::Buy, 10, 2));
    let ok: bool = trades.len() == 1 && trades[0].price == 100 && trades[0].quantity == 10 && book.asks_is_empty()
        && book.bids_is_empty();
    proof {
        assert(trade_parts(trades@, TradePart::Whole) =~= seq![trade_text(1, 100, 10, "Buyer"@, "Seller"@, 2, 1, EngineKind::Cda, 2, None, None)]);
    }
    let mut told: Report = Report::new();
    told.trades("trades", &trades, TradePart::Whole);
    assert(told@ =~= cda_market_crosses_at_maker_price_fields());
    check("cda_market_crosses_at_maker_price", ok, &told.line())
}

pub open spec fn cda_market_no_liquidity_no_rest_fields() -> Seq<Seq<char>> {
    seq![
        field("trades"@, decimal(0)),
        field("bids"@, decimal(0)),
        field("asks"@, decimal(0)),
        field("fill_rate"@, "Some(0.0)"@),
    ]
}

fn cda_market_no_liquidity_no_rest() -> (r: TestCase)
    ensures
        r.name@ == "cda_market_no_liquidity_no_rest"@,
        r.passed,
        r.detail@ == report(cda_market_no_liquidity_no_rest_fields()),
{
    proof {
        reveal_with_fuel(sweep, 4);
        reveal_with_fuel(leading, 4);
    }
    let mut book: CdaOrderBook = CdaOrderBook::new();
    let trades: Vec<Trade> = book.submit(market(1, "Buyer", Side::Buy, 10, 1));
    let (filled, submitted): (u128, u128) = book.fill_totals();
    let ok: bool = trades.len() == 0 && book.bids_is_empty() && book.asks_is_empty() && filled == 0 && submitted == 10;
    let mut told: Report = Report::new();
    told.count("trades", trades.len());
    told.count("bids", book.bid_count());
    told.count("asks", book.ask_count());
    told.word("fill_rate", "Some(0.0)");
    assert(told@ =~= cda_market_no_liquidity_no_rest_fields());
    check("cda_market_no_liquidity_no_rest", ok, &told.line())
}

pub open spec fn cda_market_order_partial_liquidity_fill_rate_fields() -> Seq<Seq<char>> {
    seq![
        field("trade_count"@, decimal(1)),
        field("volume"@, decimal(6)),
        field("fill_rate"@, "Some(0.8)"@),
    ]
}

fn cda_market_order_partial_liquidity_fill_rate() -> (r: TestCase)
    ensures
        r.name@ == "cda_market_order_partial_liquidity_fill_rate"@,
        r.passed,
        r.detail@ == report(cda_market_order_partial_liquidity_fill_rate_fields()),
{
    proof {
        reveal_with_fuel(sweep, 4);
        reveal_with_fuel(leading, 4);
    }
    let mut book: CdaOrderBook = CdaOrderBook::new();
    let _: Vec<Trade> = book.submit(limit(1, "Frank", Side::Sell, 130, 6, 1));
    let _: Vec<Trade> = book.submit(market(2, "Eve", Side::Buy, 6, 2));
    let _: Vec<Trade> = book.submit(market(3, "Zed", Side::Buy, 3, 3));
    let (filled, submitted): (u128, u128) = book.fill_totals();
    proof {
        reveal_with_fuel(total, 3);
    }
    let ok: bool = book.trade_count() == 1 && book.executed_volume() == 6 && filled == 12 && submitted == 15;
    let mut told: Report = Report::new();
    told.count("trade_count", book.trade_count());
    told.number("volume", book.executed_volume());
    told.word("fill_rate", "Some(0.8)");
    assert(told@ =~= cda_market_order_partial_liquidity_fill_rate_fields());
    check("cda_market_order_partial_liquidity_fill_rate", ok, &told.line())
}

pub open spec fn cda_non_live_order_filtered_fields() -> Seq<Seq<char>> {
    seq![
        field("trades"@, decimal(0)),
        field("bids"@, decimal(0)),
        field("asks"@, decimal(0)),
    ]
}

fn cda_non_live_order_filtered() -> (r: TestCase)
    ensures
        r.name@ == "cda_non_live_order_filtered"@,
        r.passed,
        r.detail@ == report(cda_non_live_order_filtered_fields()),
{
    proof {
        reveal_with_fuel(sweep, 4);
        reveal_with_fuel(leading, 4);
    }
    let mut book: CdaOrderBook = CdaOrderBook::new();
    let trades: Vec<Trade> = book.submit(non_live(1, "X", Side::Buy, 100, 10, 1));
    let ok: bool = trades.len() == 0 && book.bids_is_empty() && book.asks_is_empty();
    let mut told: Report = Report::new();
    told.count("trades", trades.len());
    told.count("bids", book.bid_count());
    told.count("asks", book.ask_count());
    assert(told@ =~= cda_non_live_order_filtered_fields());
    check("cda_non_live_order_filtered", ok, &told.line())
}

pub open spec fn cda_sell_crosses_bid_only_at_or_below_bid_price_fields() -> Seq<Seq<char>> {
    seq![
        field("aggressive_trades"@, shown_list(seq![trade_text(1, 100, 4, "Buyer"@, "AggressiveSeller"@, 1, 2, EngineKind::Cda, 2, None, None)])),
        field("passive_trades"@, shown_list(Seq::empty())),
        field("asks"@, shown_list(seq![quoted("PassiveSeller"@)])),
    ]
}

fn cda_sell_crosses_bid_only_at_or_below_bid_price() -> (r: TestCase)
    ensures
        r.name@ == "cda_sell_crosses_bid_only_at_or_below_bid_price"@,
        r.passed,
        r.detail@ == report(cda_sell_crosses_bid_only_at_or_below_bid_price_fields()),
{
    proof {
        reveal_with_fuel(sweep, 4);
        reveal_with_fuel(leading, 4);
    }
    let mut book: CdaOrderBook = CdaOrderBook::new();
    let _: Vec<Trade> = book.submit(limit(1, "Buyer", Side::Buy, 100, 10, 1));
    let aggressive: Vec<Trade> = book.submit(limit(2, "AggressiveSeller", Side::Sell, 90, 4, 2));
    let passive: Vec<Trade> = book.submit(limit(3, "PassiveSeller", Side::Sell, 105, 3, 3));
    let ok: bool = aggressive.len() == 1 && aggressive[0].quantity == 4 && aggressive[0].price == 100 && passive.len() == 0
        && book.ask_count() == 1 && (match book.best_ask_order() {
        Some(o) => same_text(o.user_id.as_str(), "PassiveSeller"),
        None => false,
    });
    let asks: Vec<&Order> = book.asks_iter();
    proof {
        assert(trade_parts(aggressive@, TradePart::Whole) =~= seq![trade_text(1, 100, 4, "Buyer"@, "AggressiveSeller"@, 1, 2, EngineKind::Cda, 2, None, None)]);
        assert(trade_parts(passive@, TradePart::Whole) =~= Seq::empty());
        assert(Seq::new(asks@.len(), |i: int| order_part(*asks@[i], OrderPart::Owner)) =~= seq![quoted("PassiveSeller"@)]);
    }
    let mut told: Report = Report::new();
    told.trades("aggressive_trades", &aggressive, TradePart::Whole);
    told.trades("passive_trades", &passive, TradePart::Whole);
    told.resting("asks", &asks, OrderPart::Owner);
    assert(told@ =~= cda_sell_crosses_bid_only_at_or_below_bid_price_fields());
    check("cda_sell_crosses_bid_only_at_or_below_bid_price", ok, &told.line())
}

pub open spec fn cda_cancellation_removes_resting_order_fields() -> Seq<Seq<char>> {
    seq![
        field("bids"@, decimal(0)),
        field("asks"@, shown_list(seq![quoted("Bob"@)])),
    ]
}

fn cda_cancellation_removes_resting_order() -> (r: TestCase)
    ensures
        r.name@ == "cda_cancellation_removes_resting_order"@,
        r.passed,
        r.detail@ == report(cda_cancellation_removes_resting_order_fields()),
{
    proof {
        reveal_with_fuel(sweep, 4);
        reveal_with_fuel(leading, 4);
    }
    let mut book: CdaOrderBook = CdaOrderBook::new();
    let _: Vec<Trade> = book.submit(limit(1, "Alice", Side::Buy, 100, 10, 1));
    let _: Vec<Trade> = book.submit(limit(2, "Bob", Side::Sell, 105, 5, 2));
    let _: Vec<Trade> = book.submit(cancel_event(1, 3));
    let ok: bool = book.bids_is_empty() && book.ask_count() == 1 && (match book.best_ask_order() {
        Some(o) => same_text(o.user_id.as_str(), "Bob"),
        None => false,
    });
    let asks: Vec<&Order> = book.asks_iter();
    proof {
        assert(Seq::new(asks@.len(), |i: int| order_part(*asks@[i], OrderPart::Owner)) =~= seq![quoted("Bob"@)]);
    }
    let mut told: Report = Report::new();
    told.count("bids", book.bid_count());
    told.resting("asks", &asks, OrderPart::Owner);
    assert(told@ =~= cda_cancellation_removes_resting_order_fields());
    check("cda_cancellation_removes_resting_order", ok, &told.line())
}

pub open spec fn cda_cancellation_of_unknown_oid_is_harmless_fields() -> Seq<Seq<char>> {
    seq![
        field("removed"@, shown_bool(false)),
        field("bids"@, decimal(1)),
    ]
}

fn cda_cancellation_of_unknown_oid_is_harmless() -> (r: TestCase)
    ensures
        r.name@ == "cda_cancellation_of_unknown_oid_is_harmless"@,
        r.passed,
        r.detail@ == report(cda_cancellation_of_unknown_oid_is_harmless_fields()),
{
    proof {
        reveal_with_fuel(sweep, 4);
        reveal_with_fuel(leading, 4);
    }
    let mut book: CdaOrderBook = CdaOrderBook::new();
    let _: Vec<Trade> = book.submit(limit(1, "Alice", Side::Buy, 100, 10, 1));
    let removed: bool = book.cancel(999);
    let ok: bool = !removed && book.bid_count() == 1 && (match book.best_bid_order() {
        Some(o) => o.oid == 1,
        None => false,
    });
    let mut told: Report = Report::new();
    told.flag("removed", removed);
    told.count("bids", book.bid_count());
    assert(told@ =~= cda_cancellation_of_unknown_oid_is_harmless_fields());
    check("cda_cancellation_of_unknown_oid_is_harmless", ok, &told.line())
}

pub open spec fn cda_filled_status_does_not_touch_resting_order_fields() -> Seq<Seq<char>> {
    seq![
        field("bids"@, shown_list(seq![shown_tuple(seq![decimal(1), decimal(10)])])),
    ]
}

fn cda_filled_status_does_not_touch_resting_order() -> (r: TestCase)
    ensures
        r.name@ == "cda_filled_status_does_not_touch_resting_order"@,
        r.passed,
        r.detail@ == report(cda_filled_status_does_not_touch_resting_order_fields()),
{
    proof {
        reveal_with_fuel(sweep, 4);
        reveal_with_fuel(leading, 4);
    }
    let mut book: CdaOrderBook = CdaOrderBook::new();
    let _: Vec<Trade> = book.submit(limit(1, "Alice", Side::Buy, 100, 10, 1));
    let _: Vec<Trade> = book.submit(filled_event(1, 2));
    let ok: bool = book.bid_count() == 1 && (match book.best_bid_order() {
        Some(o) => o.oid == 1 && o.remaining == 10,
        None => false,
    });
    let bids: Vec<&Order> = book.bids_iter();
    proof {
        assert(Seq::new(bids@.len(), |i: int| order_part(*bids@[i], OrderPart::IdLeft)) =~= seq![shown_tuple(seq![decimal(1), decimal(10)])]);
    }
    let mut told: Report = Report::new();
    told.resting("bids", &bids, OrderPart::IdLeft);
    assert(told@ =~= cda_filled_status_does_not_touch_resting_order_fields());
    check("cda_filled_status_does_not_touch_resting_order", ok, &told.line())
}

pub open spec fn cda_metrics_known_scenario_fields() -> Seq<Seq<char>> {
    seq![
        field("trade_count"@, decimal(1)),
        field("volume"@, decimal(15)),
        field("notional"@, decimal(1530)),
        field("depth"@, decimal(45)),
        field("spread"@, "Some(710.6598984771574)"@),
        field("imbalance"@, "Some(-0.5555555555555556)"@),
        field("fill_rate"@, "Some(0.4)"@),
    ]
}

fn cda_metrics_known_scenario() -> (r: TestCase)
    ensures
        r.name@ == "cda_metrics_known_scenario"@,
        r.passed,
        r.detail@ == report(cda_metrics_known_scenario_fields()),
{
    proof {
        reveal_with_fuel(sweep, 4);
        reveal_with_fuel(leading, 4);
    }
    let mut book: CdaOrderBook = CdaOrderBook::new();
    let _: Vec<Trade> = book.submit(limit(1, "S1", Side::Sell, 102 * PRICE_SCALE, 20, 1));
    let _: Vec<Trade> = book.submit(limit(2, "S2", Side::Sell, 105 * PRICE_SCALE, 30, 2));
    let _: Vec<Trade> = book.submit(limit(3, "Buyer", Side::Buy, 110 * PRICE_SCALE, 15, 3));
    let _: Vec<Trade> = book.submit(limit(4, "B1", Side::Buy, 95 * PRICE_SCALE, 10, 4));
    let (filled, submitted): (u128, u128) = book.fill_totals();
    proof {
        reveal_with_fuel(total, 3);
    }
    let ok: bool = book.trade_count() == 1 && book.executed_volume() == 15 && book.executed_notional() == 15 * 102
        && book.depth_at_best() == 45 && book.best_bid() == Some(95 * PRICE_SCALE) && book.best_ask() == Some(102 * PRICE_SCALE)
        && book.bid_depth() == 10 && book.ask_depth() == 35 && filled == 30 && submitted == 75;
    let mut told: Report = Report::new();
    told.count("trade_count", book.trade_count());
    told.number("volume", book.executed_volume());
    told.number("notional", book.executed_notional());
    told.number("depth", book.depth_at_best());
    told.word("spread", "Some(710.6598984771574)");
    told.word("imbalance", "Some(-0.5555555555555556)");
    told.word("fill_rate", "Some(0.4)");
    assert(told@ =~= cda_metrics_known_scenario_fields());
    check("cda_metrics_known_scenario", ok, &told.line())
}

/// The names of the scenarios of the continuous engine.
pub open spec fn cda_names() -> Seq<Seq<char>> {
    seq![
        "cda_resting_order_no_cross"@,
        "cda_simple_cross_exact_qty"@,
        "cda_partial_fill_resting_larger"@,
        "cda_multi_fill_walks_book"@,
        "cda_price_priority_over_time"@,
        "cda_time_priority_same_price"@,
        "cda_market_crosses_at_maker_price"@,
        "cda_market_no_liquidity_no_rest"@,
        "cda_market_order_partial_liquidity_fill_rate"@,
        "cda_non_live_order_filtered"@,
        "cda_sell_crosses_bid_only_at_or_below_bid_price"@,
        "cda_cancellation_removes_resting_order"@,
        "cda_cancellation_of_unknown_oid_is_harmless"@,
        "cda_filled_status_does_not_touch_resting_order"@,
        "cda_metrics_known_scenario"@,
    ]
}

pub open spec fn details(cases: Seq<TestCase>) -> Seq<Seq<char>> {
    Seq::new(cases.len(), |i: int| cases[i].detail@)
}

pub open spec fn names(cases: Seq<TestCase>) -> Seq<Seq<char>> {
    Seq::new(cases.len(), |i: int| cases[i].name@)
}

/// What the scenarios of the continuous engine come to.
pub open spec fn cda_details() -> Seq<Seq<char>> {
    seq![
        report(cda_resting_order_no_cross_fields()),
        report(cda_simple_cross_exact_qty_fields()),
        report(cda_partial_fill_resting_larger_fields()),
        report(cda_multi_fill_walks_book_fields()),
        report(cda_price_priority_over_time_fields()),
        report(cda_time_priority_same_price_fields()),
        report(cda_market_crosses_at_maker_price_fields()),
        report(cda_market_no_liquidity_no_rest_fields()),
        report(cda_market_order_partial_liquidity_fill_rate_fields()),
        report(cda_non_live_order_filtered_fields()),
        report(cda_sell_crosses_bid_only_at_or_below_bid_price_fields()),
        report(cda_cancellation_removes_resting_order_fields()),
        report(cda_cancellation_of_unknown_oid_is_harmless_fields()),
        report(cda_filled_status_does_not_touch_resting_order_fields()),
        report(cda_metrics_known_scenario_fields()),
    ]
}

/// Runs all scenarios of the continuous engine: every one comes out as it
/// should.
pub fn run_cda_tests() -> (r: Vec<TestCase>)
    ensures
        names(r@) == cda_names(),
        details(r@) == cda_details(),
        forall|i: int| 0 <= i < r@.len() ==> (#[trigger] r@[i]).passed,
{
    let mut r: Vec<TestCase> = Vec::new();
    r.push(cda_resting_order_no_cross());
    r.push(cda_simple_cross_exact_qty());
    r.push(cda_partial_fill_resting_larger());
    r.push(cda_multi_fill_walks_book());
    r.push(cda_price_priority_over_time());
    r.push(cda_time_priority_same_price());
    r.push(cda_market_crosses_at_maker_price());
    r.push(cda_market_no_liquidity_no_rest());
    r.push(cda_market_order_partial_liquidity_fill_rate());
    r.push(cda_non_live_order_filtered());
    r.push(cda_sell_crosses_bid_only_at_or_below_bid_price());
    r.push(cda_cancellation_removes_resting_order());
    r.push(cda_cancellation_of_unknown_oid_is_harmless());
    r.push(cda_filled_status_does_not_touch_resting_order());
    r.push(cda_metrics_known_scenario());
    assert(names(r@) =~= cda_names());
    assert(details(r@) =~= cda_details());
    r
}

/// Without a limit there is no price.
proof fn lemma_no_price(book: Seq<Interest>, rule: TieRule)
    requires
        forall|j: int| 0 <= j < book.len() ==> (#[trigger] book[j]).limit is None,
    ensures
        clearing_price(book, rule, limit_prices(book)) is None,
{
    assert forall|p: u128| !is_best(book, rule, limit_prices(book), p) by {
        if is_best(book, rule, limit_prices(book), p) {
            let j: int = choose|j: int| 0 <= j < book.len() && (#[trigger] book[j]).limit == Some(p);
            assert(book[j].limit is None);
        }
    }
}

/// A price that every other limit loses to is the clearing price.
proof fn lemma_price_is(book: Seq<Interest>, rule: TieRule, i: int)
    requires
        0 <= i < book.len(),
        book[i].limit is Some,
        forall|j: int|
            0 <= j < book.len() && (#[trigger] book[j]).limit is Some && book[j].limit != book[i].limit ==> preferred(
                book,
                rule,
                book[i].limit->0,
                book[j].limit->0,
            ),
    ensures
        clearing_price(book, rule, limit_prices(book)) == book[i].limit,
{
    let p: u128 = book[i].limit->0;
    assert(limit_prices(book).contains(p));
    assert forall|q: u128| #[trigger] limit_prices(book).contains(q) && q != p implies preferred(book, rule, p, q) by {
        let j: int = choose|j: int| 0 <= j < book.len() && (#[trigger] book[j]).limit == Some(q);
        assert(book[j].limit is Some);
    }
    lemma_best_is_unique(book, rule, limit_prices(book), p);
}

pub open spec fn fba_empty_batch_no_clear_detail() -> Seq<char> {
    "expected clear() on an empty book to return None"@
}

fn fba_empty_batch_no_clear() -> (r: TestCase)
    ensures
        r.name@ == "fba_empty_batch_no_clear"@,
        r.passed,
        r.detail@ == fba_empty_batch_no_clear_detail(),
{
    proof {
        reveal_with_fuel(total, 6);
        reveal_with_fuel(pair_off, 5);
        reveal_with_fuel(residual, 6);
        reveal_with_fuel(Seq::filter, 4);
    }
    let mut book: FbaOrderBook = FbaOrderBook::new();
    proof {
        lemma_no_price(interests(book@.pending), TieRule::Nearest { reference: None });
    }
    let ok: bool = book.clear().is_none();
    check("fba_empty_batch_no_clear", ok, &chars_of("expected clear() on an empty book to return None"))
}

pub open spec fn fba_simple_full_match_fields() -> Seq<Seq<char>> {
    seq![
        field("price"@, decimal(100)),
        field("qty"@, decimal(10)),
        field("trades"@, decimal(1)),
        field("pending_left"@, decimal(0)),
    ]
}

fn fba_simple_full_match() -> (r: TestCase)
    ensures
        r.name@ == "fba_simple_full_match"@,
        r.passed,
        r.detail@ == report(fba_simple_full_match_fields()),
{
    proof {
        reveal_with_fuel(total, 6);
        reveal_with_fuel(pair_off, 5);
        reveal_with_fuel(residual, 6);
        reveal_with_fuel(Seq::filter, 4);
    }
    let mut book: FbaOrderBook = FbaOrderBook::new();
    book.submit(limit(1, "Alice", Side::Buy, 100, 10, 1));
    book.submit(limit(2, "Bob", Side::Sell, 100, 10, 1));
    proof {
        let all: Seq<Interest> = interests(book@.pending);
        lemma_price_is(all, TieRule::Nearest { reference: None }, 0);
        let b: Seq<int> = seq![0int];
        assert(b[0] == 0);
        let s: Seq<int> = seq![1int];
        assert(s[0] == 1);
        lemma_queue_is_unique(all, Side::Buy, 100, b);
        lemma_queue_is_unique(all, Side::Sell, 100, s);
    }
    let result: ClearingResult = match book.clear() {
        Some(result) => result,
        None => {
            return check("fba_simple_full_match", false, &chars_of("clear() returned None, expected a full match at 100"));
        },
    };
    let ok: bool = result.clearing_price == 100 && result.traded_quantity == 10 && result.trades.len() == 1
            && result.trades[0].engine_type == EngineKind::Fba && book.pending().len() == 0 && book.last_price()
            == Some(100u128);
    let mut told: Report = Report::new();
    told.number("price", result.clearing_price);
    told.number("qty", result.traded_quantity);
    told.count("trades", result.trades.len());
    told.count("pending_left", book.pending().len());
    assert(told@ =~= fba_simple_full_match_fields());
    check("fba_simple_full_match", ok, &told.line())
}

pub open spec fn fba_rationing_price_time_priority_fields() -> Seq<Seq<char>> {
    seq![
        field("price"@, decimal(100)),
        field("qty"@, decimal(15)),
        field("trades"@, shown_list(seq![shown_tuple(seq![quoted("B1"@), decimal(10)]), shown_tuple(seq![quoted("B2"@), decimal(5)])])),
        field("pending"@, shown_list(seq![shown_tuple(seq![quoted("B2"@), decimal(5)]), shown_tuple(seq![quoted("B3"@), decimal(10)])])),
    ]
}

fn fba_rationing_price_time_priority() -> (r: TestCase)
    ensures
        r.name@ == "fba_rationing_price_time_priority"@,
        r.passed,
        r.detail@ == report(fba_rationing_price_time_priority_fields()),
{
    proof {
        reveal_with_fuel(total, 6);
        reveal_with_fuel(pair_off, 5);
        reveal_with_fuel(residual, 6);
        reveal_with_fuel(Seq::filter, 4);
    }
    let mut book: FbaOrderBook = FbaOrderBook::new();
    book.submit(limit(1, "B1", Side::Buy, 105, 10, 1));
    book.submit(limit(2, "B2", Side::Buy, 100, 10, 2));
    book.submit(limit(3, "B3", Side::Buy, 100, 10, 3));
    book.submit(limit(4, "S1", Side::Sell, 100, 15, 1));
    proof {
        let all: Seq<Interest> = interests(book@.pending);
        lemma_price_is(all, TieRule::Nearest { reference: None }, 1);
        let b: Seq<int> = seq![0int, 1int, 2int];
        assert(b[0] == 0 && b[1] == 1 && b[2] == 2);
        let s: Seq<int> = seq![3int];
        assert(s[0] == 3);
        lemma_queue_is_unique(all, Side::Buy, 100, b);
        lemma_queue_is_unique(all, Side::Sell, 100, s);
    }
    let result: ClearingResult = match book.clear() {
        Some(result) => result,
        None => {
            return check("fba_rationing_price_time_priority", false, &chars_of("clear() returned None, expected a match at 100"));
        },
    };
    let ok: bool = result.clearing_price == 100 && result.traded_quantity == 15 && result.trades.len() == 2
            && same_text(result.trades[0].buyer_id.as_str(), "B1") && result.trades[0].quantity == 10
            && same_text(result.trades[1].buyer_id.as_str(), "B2") && result.trades[1].quantity == 5
            && book.pending().len() == 2 && same_text(book.pending()[0].user_id.as_str(), "B2")
            && book.pending()[0].remaining == 5 && same_text(book.pending()[1].user_id.as_str(), "B3")
            && book.pending()[1].remaining == 10;
    proof {
        assert(trade_parts(result.trades@, TradePart::Bought) =~= seq![shown_tuple(seq![quoted("B1"@), decimal(10)]), shown_tuple(seq![quoted("B2"@), decimal(5)])]);
        assert(order_parts(book@.pending, OrderPart::OwnerLeft) =~= seq![shown_tuple(seq![quoted("B2"@), decimal(5)]), shown_tuple(seq![quoted("B3"@), decimal(10)])]);
    }
    let mut told: Report = Report::new();
    told.number("price", result.clearing_price);
    told.number("qty", result.traded_quantity);
    told.trades("trades", &result.trades, TradePart::Bought);
    told.orders("pending", book.pending(), OrderPart::OwnerLeft);
    assert(told@ =~= fba_rationing_price_time_priority_fields());
    check("fba_rationing_price_time_priority", ok, &told.line())
}

pub open spec fn fba_market_order_queues_then_clears_at_uniform_price_fields() -> Seq<Seq<char>> {
    seq![
        field("queued_without_executing"@, shown_bool(true)),
        field("price"@, decimal(105)),
        field("qty"@, decimal(12)),
        field("trades"@, shown_list(seq![shown_tuple(seq![quoted("S1"@), decimal(8), decimal(105)]), shown_tuple(seq![quoted("S2"@), decimal(4), decimal(105)])])),
        field("pending"@, shown_list(seq![shown_tuple(seq![quoted("S2"@), decimal(16)])])),
    ]
}

fn fba_market_order_queues_then_clears_at_uniform_price() -> (r: TestCase)
    ensures
        r.name@ == "fba_market_order_queues_then_clears_at_uniform_price"@,
        r.passed,
        r.detail@ == report(fba_market_order_queues_then_clears_at_uniform_price_fields()),
{
    proof {
        reveal_with_fuel(total, 6);
        reveal_with_fuel(pair_off, 5);
        reveal_with_fuel(residual, 6);
        reveal_with_fuel(Seq::filter, 4);
    }
    let mut book: FbaOrderBook = FbaOrderBook::new();
    book.submit(limit(1, "S1", Side::Sell, 100, 8, 1));
    book.submit(limit(2, "S2", Side::Sell, 105, 20, 1));
    let trades_before: usize = book.trade_count();
    book.submit(market(3, "Buyer", Side::Buy, 12, 2));
    let queued: bool = book.trade_count() == trades_before && book.pending().len() == 3;
    proof {
        let all: Seq<Interest> = interests(book@.pending);
        lemma_price_is(all, TieRule::Nearest { reference: None }, 1);
        let b: Seq<int> = seq![2int];
        assert(b[0] == 2);
        let s: Seq<int> = seq![0int, 1int];
        assert(s[0] == 0 && s[1] == 1);
        lemma_queue_is_unique(all, Side::Buy, 105, b);
        lemma_queue_is_unique(all, Side::Sell, 105, s);
    }
    let result: ClearingResult = match book.clear() {
        Some(result) => result,
        None => {
            return check("fba_market_order_queues_then_clears_at_uniform_price", false, &chars_of("clear() returned None, expected a match at 105"));
        },
    };
    let ok: bool = queued && result.clearing_price == 105 && result.traded_quantity == 12 && result.trades.len() == 2
            && same_text(result.trades[0].seller_id.as_str(), "S1") && result.trades[0].quantity == 8
            && result.trades[0].price == 105 && same_text(result.trades[1].seller_id.as_str(), "S2")
            && result.trades[1].quantity == 4 && result.trades[1].price == 105 && book.pending().len() == 1
            && same_text(book.pending()[0].user_id.as_str(), "S2") && book.pending()[0].remaining == 16;
    proof {
        assert(trade_parts(result.trades@, TradePart::Sold) =~= seq![shown_tuple(seq![quoted("S1"@), decimal(8), decimal(105)]), shown_tuple(seq![quoted("S2"@), decimal(4), decimal(105)])]);
        assert(order_parts(book@.pending, OrderPart::OwnerLeft) =~= seq![shown_tuple(seq![quoted("S2"@), decimal(16)])]);
    }
    let mut told: Report = Report::new();
    told.flag("queued_without_executing", queued);
    told.number("price", result.clearing_price);
    told.number("qty", result.traded_quantity);
    told.trades("trades", &result.trades, TradePart::Sold);
    told.orders("pending", book.pending(), OrderPart::OwnerLeft);
    assert(told@ =~= fba_market_order_queues_then_clears_at_uniform_price_fields());
    check("fba_market_order_queues_then_clears_at_uniform_price", ok, &told.line())
}

pub open spec fn fba_tie_no_history_picks_lower_price_fields() -> Seq<Seq<char>> {
    seq![
        field("price"@, decimal(90)),
        field("qty"@, decimal(0)),
        field("trades"@, decimal(0)),
        field("pending"@, decimal(2)),
    ]
}

fn fba_tie_no_history_picks_lower_price() -> (r: TestCase)
    ensures
        r.name@ == "fba_tie_no_history_picks_lower_price"@,
        r.passed,
        r.detail@ == report(fba_tie_no_history_picks_lower_price_fields()),
{
    proof {
        reveal_with_fuel(total, 6);
        reveal_with_fuel(pair_off, 5);
        reveal_with_fuel(residual, 6);
        reveal_with_fuel(Seq::filter, 4);
    }
    let mut book: FbaOrderBook = FbaOrderBook::new();
    book.submit(limit(1, "Buyer", Side::Buy, 90, 10, 1));
    book.submit(limit(2, "Seller", Side::Sell, 100, 10, 1));
    proof {
        let all: Seq<Interest> = interests(book@.pending);
        lemma_price_is(all, TieRule::Nearest { reference: None }, 0);
        let b: Seq<int> = seq![0int];
        assert(b[0] == 0);
        let s: Seq<int> = Seq::empty();
        lemma_queue_is_unique(all, Side::Buy, 90, b);
        lemma_queue_is_unique(all, Side::Sell, 90, s);
    }
    let result: ClearingResult = match book.clear() {
        Some(result) => result,
        None => {
            return check("fba_tie_no_history_picks_lower_price", false, &chars_of("clear() returned None, expected Some with 0 trades"));
        },
    };
    let ok: bool = result.clearing_price == 90 && result.traded_quantity == 0 && result.trades.len() == 0
            && book.pending().len() == 2;
    let mut told: Report = Report::new();
    told.number("price", result.clearing_price);
    told.number("qty", result.traded_quantity);
    told.count("trades", result.trades.len());
    told.count("pending", book.pending().len());
    assert(told@ =~= fba_tie_no_history_picks_lower_price_fields());
    check("fba_tie_no_history_picks_lower_price", ok, &told.line())
}

pub open spec fn fba_all_market_no_history_preserves_orders_fields() -> Seq<Seq<char>> {
    seq![
        field("result_is_some"@, shown_bool(false)),
        field("pending_left"@, decimal(2)),
    ]
}

fn fba_all_market_no_history_preserves_orders() -> (r: TestCase)
    ensures
        r.name@ == "fba_all_market_no_history_preserves_orders"@,
        r.passed,
        r.detail@ == report(fba_all_market_no_history_preserves_orders_fields()),
{
    proof {
        reveal_with_fuel(total, 6);
        reveal_with_fuel(pair_off, 5);
        reveal_with_fuel(residual, 6);
        reveal_with_fuel(Seq::filter, 4);
    }
    let mut book: FbaOrderBook = FbaOrderBook::new();
    book.submit(market(1, "Buyer", Side::Buy, 10, 1));
    book.submit(market(2, "Seller", Side::Sell, 10, 1));
    proof {
        lemma_no_price(interests(book@.pending), TieRule::Nearest { reference: None });
    }
    let result: Option<ClearingResult> = book.clear();
    let ok: bool = result.is_none() && book.pending().len() == 2;
    let mut told: Report = Report::new();
    told.flag("result_is_some", result.is_some());
    told.count("pending_left", book.pending().len());
    assert(told@ =~= fba_all_market_no_history_preserves_orders_fields());
    check("fba_all_market_no_history_preserves_orders", ok, &told.line())
}

pub open spec fn fba_all_market_with_history_still_rolls_over_fields() -> Seq<Seq<char>> {
    seq![
        field("result_is_some"@, shown_bool(false)),
        field("last_clearing_price"@, shown_option(Some(decimal(100)))),
        field("pending"@, decimal(2)),
    ]
}

fn fba_all_market_with_history_still_rolls_over() -> (r: TestCase)
    ensures
        r.name@ == "fba_all_market_with_history_still_rolls_over"@,
        r.passed,
        r.detail@ == report(fba_all_market_with_history_still_rolls_over_fields()),
{
    proof {
        reveal_with_fuel(total, 6);
        reveal_with_fuel(pair_off, 5);
        reveal_with_fuel(residual, 6);
        reveal_with_fuel(Seq::filter, 4);
    }
    let mut book: FbaOrderBook = FbaOrderBook::new();
    book.submit(limit(1, "A", Side::Buy, 100, 5, 1));
    book.submit(limit(2, "B", Side::Sell, 100, 5, 1));
    proof {
        let all: Seq<Interest> = interests(book@.pending);
        lemma_price_is(all, TieRule::Nearest { reference: None }, 0);
        let b: Seq<int> = seq![0int];
        assert(b[0] == 0);
        let s: Seq<int> = seq![1int];
        assert(s[0] == 1);
        lemma_queue_is_unique(all, Side::Buy, 100, b);
        lemma_queue_is_unique(all, Side::Sell, 100, s);
    }
    let _: Option<ClearingResult> = book.clear();
    book.submit(market(3, "C", Side::Buy, 8, 2));
    book.submit(market(4, "D", Side::Sell, 8, 2));
    proof {
        lemma_no_price(interests(book@.pending), TieRule::Nearest { reference: Some(100) });
    }
    let result: Option<ClearingResult> = book.clear();
    let ok: bool = result.is_none() && book.last_price() == Some(100u128) && book.pending().len() == 2;
    let mut told: Report = Report::new();
    told.flag("result_is_some", result.is_some());
    told.number_if_any("last_clearing_price", book.last_price());
    told.count("pending", book.pending().len());
    assert(told@ =~= fba_all_market_with_history_still_rolls_over_fields());
    check("fba_all_market_with_history_still_rolls_over", ok, &told.line())
}

pub open spec fn fba_non_live_order_filtered_fields() -> Seq<Seq<char>> {
    seq![
        field("pending"@, decimal(0)),
    ]
}

fn fba_non_live_order_filtered() -> (r: TestCase)
    ensures
        r.name@ == "fba_non_live_order_filtered"@,
        r.passed,
        r.detail@ == report(fba_non_live_order_filtered_fields()),
{
    proof {
        reveal_with_fuel(total, 6);
        reveal_with_fuel(pair_off, 5);
        reveal_with_fuel(residual, 6);
        reveal_with_fuel(Seq::filter, 4);
    }
    let mut book: FbaOrderBook = FbaOrderBook::new();
    book.submit(non_live(1, "X", Side::Buy, 100, 10, 1));
    proof {
        lemma_no_price(interests(book@.pending), TieRule::Nearest { reference: None });
    }
    let ok: bool = book.pending().len() == 0 && book.clear().is_none();
    let mut told: Report = Report::new();
    told.count("pending", book.pending().len());
    assert(told@ =~= fba_non_live_order_filtered_fields());
    check("fba_non_live_order_filtered", ok, &told.line())
}

pub open spec fn fba_cancellation_removes_pending_order_fields() -> Seq<Seq<char>> {
    seq![
        field("pending"@, shown_list(seq![quoted("Bob"@)])),
    ]
}

fn fba_cancellation_removes_pending_order() -> (r: TestCase)
    ensures
        r.name@ == "fba_cancellation_removes_pending_order"@,
        r.passed,
        r.detail@ == report(fba_cancellation_removes_pending_order_fields()),
{
    proof {
        reveal_with_fuel(total, 6);
        reveal_with_fuel(pair_off, 5);
        reveal_with_fuel(residual, 6);
        reveal_with_fuel(Seq::filter, 4);
    }
    let mut book: FbaOrderBook = FbaOrderBook::new();
    book.submit(limit(1, "Alice", Side::Buy, 100, 10, 1));
    book.submit(limit(2, "Bob", Side::Buy, 95, 5, 2));
    book.submit(cancel_event(1, 3));
    let ok: bool = book.pending().len() == 1 && same_text(book.pending()[0].user_id.as_str(), "Bob");
    proof {
        assert(order_parts(book@.pending, OrderPart::Owner) =~= seq![quoted("Bob"@)]);
    }
    let mut told: Report = Report::new();
    told.orders("pending", book.pending(), OrderPart::Owner);
    assert(told@ =~= fba_cancellation_removes_pending_order_fields());
    check("fba_cancellation_removes_pending_order", ok, &told.line())
}

pub open spec fn fba_cancellation_of_unknown_oid_is_harmless_fields() -> Seq<Seq<char>> {
    seq![
        field("removed"@, shown_bool(false)),
        field("pending"@, decimal(1)),
    ]
}

fn fba_cancellation_of_unknown_oid_is_harmless() -> (r: TestCase)
    ensures
        r.name@ == "fba_cancellation_of_unknown_oid_is_harmless"@,
        r.passed,
        r.detail@ == report(fba_cancellation_of_unknown_oid_is_harmless_fields()),
{
    proof {
        reveal_with_fuel(total, 6);
        reveal_with_fuel(pair_off, 5);
        reveal_with_fuel(residual, 6);
        reveal_with_fuel(Seq::filter, 4);
    }
    let mut book: FbaOrderBook = FbaOrderBook::new();
    book.submit(limit(1, "Alice", Side::Buy, 100, 10, 1));
    let removed: bool = book.cancel(999);
    let ok: bool = !removed && book.pending().len() == 1 && book.pending()[0].oid == 1;
    let mut told: Report = Report::new();
    told.flag("removed", removed);
    told.count("pending", book.pending().len());
    assert(told@ =~= fba_cancellation_of_unknown_oid_is_harmless_fields());
    check("fba_cancellation_of_unknown_oid_is_harmless", ok, &told.line())
}

pub open spec fn fba_filled_status_does_not_touch_pending_order_fields() -> Seq<Seq<char>> {
    seq![
        field("pending"@, shown_list(seq![shown_tuple(seq![decimal(1), decimal(10)])])),
    ]
}

fn fba_filled_status_does_not_touch_pending_order() -> (r: TestCase)
    ensures
        r.name@ == "fba_filled_status_does_not_touch_pending_order"@,
        r.passed,
        r.detail@ == report(fba_filled_status_does_not_touch_pending_order_fields()),
{
    proof {
        reveal_with_fuel(total, 6);
        reveal_with_fuel(pair_off, 5);
        reveal_with_fuel(residual, 6);
        reveal_with_fuel(Seq::filter, 4);
    }
    let mut book: FbaOrderBook = FbaOrderBook::new();
    book.submit(limit(1, "Alice", Side::Buy, 100, 10, 1));
    book.submit(filled_event(1, 2));
    let ok: bool = book.pending().len() == 1 && book.pending()[0].oid == 1 && book.pending()[0].remaining == 10;
    proof {
        assert(order_parts(book@.pending, OrderPart::IdLeft) =~= seq![shown_tuple(seq![decimal(1), decimal(10)])]);
    }
    let mut told: Report = Report::new();
    told.orders("pending", book.pending(), OrderPart::IdLeft);
    assert(told@ =~= fba_filled_status_does_not_touch_pending_order_fields());
    check("fba_filled_status_does_not_touch_pending_order", ok, &told.line())
}

pub open spec fn fba_residual_rolls_into_pending_fields() -> Seq<Seq<char>> {
    seq![
        field("qty"@, decimal(12)),
        field("pending"@, shown_list(seq![shown_tuple(seq![quoted("Buyer"@), decimal(8)])])),
    ]
}

fn fba_residual_rolls_into_pending() -> (r: TestCase)
    ensures
        r.name@ == "fba_residual_rolls_into_pending"@,
        r.passed,
        r.detail@ == report(fba_residual_rolls_into_pending_fields()),
{
    proof {
        reveal_with_fuel(total, 6);
        reveal_with_fuel(pair_off, 5);
        reveal_with_fuel(residual, 6);
        reveal_with_fuel(Seq::filter, 4);
    }
    let mut book: FbaOrderBook = FbaOrderBook::new();
    book.submit(limit(1, "Buyer", Side::Buy, 100, 20, 1));
    book.submit(limit(2, "Seller", Side::Sell, 100, 12, 1));
    proof {
        let all: Seq<Interest> = interests(book@.pending);
        lemma_price_is(all, TieRule::Nearest { reference: None }, 0);
        let b: Seq<int> = seq![0int];
        assert(b[0] == 0);
        let s: Seq<int> = seq![1int];
        assert(s[0] == 1);
        lemma_queue_is_unique(all, Side::Buy, 100, b);
        lemma_queue_is_unique(all, Side::Sell, 100, s);
    }
    let result: ClearingResult = match book.clear() {
        Some(result) => result,
        None => {
            return check("fba_residual_rolls_into_pending", false, &chars_of("clear() returned None, expected a match at 100"));
        },
    };
    let ok: bool = result.traded_quantity == 12 && result.trades.len() == 1 && book.pending().len() == 1
            && same_text(book.pending()[0].user_id.as_str(), "Buyer") && book.pending()[0].remaining == 8;
    proof {
        assert(order_parts(book@.pending, OrderPart::OwnerLeft) =~= seq![shown_tuple(seq![quoted("Buyer"@), decimal(8)])]);
    }
    let mut told: Report = Report::new();
    told.number("qty", result.traded_quantity);
    told.orders("pending", book.pending(), OrderPart::OwnerLeft);
    assert(told@ =~= fba_residual_rolls_into_pending_fields());
    check("fba_residual_rolls_into_pending", ok, &told.line())
}

pub open spec fn fba_metrics_after_partial_clear_fields() -> Seq<Seq<char>> {
    seq![
        field("residual_share"@, "Some(0.4)"@),
        field("fill_rate"@, "Some(0.75)"@),
        field("spread"@, "None"@),
        field("depth"@, decimal(8)),
    ]
}

fn fba_metrics_after_partial_clear() -> (r: TestCase)
    ensures
        r.name@ == "fba_metrics_after_partial_clear"@,
        r.passed,
        r.detail@ == report(fba_metrics_after_partial_clear_fields()),
{
    proof {
        reveal_with_fuel(total, 6);
        reveal_with_fuel(pair_off, 5);
        reveal_with_fuel(residual, 6);
        reveal_with_fuel(Seq::filter, 4);
    }
    let mut book: FbaOrderBook = FbaOrderBook::new();
    book.submit(limit(1, "Buyer", Side::Buy, 100, 20, 1));
    book.submit(limit(2, "Seller", Side::Sell, 100, 12, 1));
    proof {
        let all: Seq<Interest> = interests(book@.pending);
        lemma_price_is(all, TieRule::Nearest { reference: None }, 0);
        let b: Seq<int> = seq![0int];
        assert(b[0] == 0);
        let s: Seq<int> = seq![1int];
        assert(s[0] == 1);
        lemma_queue_is_unique(all, Side::Buy, 100, b);
        lemma_queue_is_unique(all, Side::Sell, 100, s);
    }
    let _: Option<ClearingResult> = book.clear();
    let (unexecuted, heavier): (u128, u128) = book.residual_totals();
    let (filled, submitted): (u128, u128) = book.fill_totals();
    let ok: bool = unexecuted == 8 && heavier == 20 && filled == 24 && submitted == 32 && book.best_unfilled_sell().is_none()
        && book.depth_at_best() == 8;
    let mut told: Report = Report::new();
    told.word("residual_share", "Some(0.4)");
    told.word("fill_rate", "Some(0.75)");
    told.word("spread", "None");
    told.number("depth", book.depth_at_best());
    assert(told@ =~= fba_metrics_after_partial_clear_fields());
    check("fba_metrics_after_partial_clear", ok, &told.line())
}

pub open spec fn fba_tie_with_history_picks_closest_price_fields() -> Seq<Seq<char>> {
    seq![
        field("price"@, decimal(100) + " (expected 100, vs. 90 with no history)"@),
    ]
}

fn fba_tie_with_history_picks_closest_price() -> (r: TestCase)
    ensures
        r.name@ == "fba_tie_with_history_picks_closest_price"@,
        r.passed,
        r.detail@ == report(fba_tie_with_history_picks_closest_price_fields()),
{
    proof {
        reveal_with_fuel(total, 6);
        reveal_with_fuel(pair_off, 5);
        reveal_with_fuel(residual, 6);
        reveal_with_fuel(Seq::filter, 4);
    }
    let mut book: FbaOrderBook = FbaOrderBook::new();
    book.submit(limit(1, "P1", Side::Buy, 97, 3, 1));
    book.submit(limit(2, "P2", Side::Sell, 97, 3, 1));
    proof {
        let all: Seq<Interest> = interests(book@.pending);
        lemma_price_is(all, TieRule::Nearest { reference: None }, 0);
        let b: Seq<int> = seq![0int];
        assert(b[0] == 0);
        let s: Seq<int> = seq![1int];
        assert(s[0] == 1);
        lemma_queue_is_unique(all, Side::Buy, 97, b);
        lemma_queue_is_unique(all, Side::Sell, 97, s);
    }
    let _: Option<ClearingResult> = book.clear();
    book.submit(limit(3, "Buyer", Side::Buy, 90, 10, 2));
    book.submit(limit(4, "Seller", Side::Sell, 100, 10, 2));
    proof {
        let all: Seq<Interest> = interests(book@.pending);
        lemma_price_is(all, TieRule::Nearest { reference: Some(97) }, 1);
        let b: Seq<int> = Seq::empty();
        let s: Seq<int> = seq![1int];
        assert(s[0] == 1);
        lemma_queue_is_unique(all, Side::Buy, 100, b);
        lemma_queue_is_unique(all, Side::Sell, 100, s);
    }
    let result: ClearingResult = match book.clear() {
        Some(result) => result,
        None => {
            return check("fba_tie_with_history_picks_closest_price", false, &chars_of("clear() returned None, expected Some with 0 trades"));
        },
    };
    let ok: bool = result.clearing_price == 100 && result.traded_quantity == 0;
    let mut told: Report = Report::new();
    let mut price: Vec<char> = decimal_of(result.clearing_price);
    push_str(&mut price, " (expected 100, vs. 90 with no history)");
    told.text("price", &price);
    assert(told@ =~= fba_tie_with_history_picks_closest_price_fields());
    check("fba_tie_with_history_picks_closest_price", ok, &told.line())
}

/// The names of the scenarios of the batch engine.
pub open spec fn fba_names() -> Seq<Seq<char>> {
    seq![
        "fba_empty_batch_no_clear"@,
        "fba_simple_full_match"@,
        "fba_rationing_price_time_priority"@,
        "fba_market_order_queues_then_clears_at_uniform_price"@,
        "fba_tie_no_history_picks_lower_price"@,
        "fba_all_market_no_history_preserves_orders"@,
        "fba_all_market_with_history_still_rolls_over"@,
        "fba_non_live_order_filtered"@,
        "fba_cancellation_removes_pending_order"@,
        "fba_cancellation_of_unknown_oid_is_harmless"@,
        "fba_filled_status_does_not_touch_pending_order"@,
        "fba_residual_rolls_into_pending"@,
        "fba_metrics_after_partial_clear"@,
        "fba_tie_with_history_picks_closest_price"@,
    ]
}

/// What the scenarios of the batch engine come to.
pub open spec fn fba_details() -> Seq<Seq<char>> {
    seq![
        fba_empty_batch_no_clear_detail(),
        report(fba_simple_full_match_fields()),
        report(fba_rationing_price_time_priority_fields()),
        report(fba_market_order_queues_then_clears_at_uniform_price_fields()),
        report(fba_tie_no_history_picks_lower_price_fields()),
        report(fba_all_market_no_history_preserves_orders_fields()),
        report(fba_all_market_with_history_still_rolls_over_fields()),
        report(fba_non_live_order_filtered_fields()),
        report(fba_cancellation_removes_pending_order_fields()),
        report(fba_cancellation_of_unknown_oid_is_harmless_fields()),
        report(fba_filled_status_does_not_touch_pending_order_fields()),
        report(fba_residual_rolls_into_pending_fields()),
        report(fba_metrics_after_partial_clear_fields()),
        report(fba_tie_with_history_picks_closest_price_fields()),
    ]
}

/// Runs all scenarios of the batch engine: every one comes out as it should.
pub fn run_fba_tests() -> (r: Vec<TestCase>)
    ensures
        names(r@) == fba_names(),
        details(r@) == fba_details(),
        forall|i: int| 0 <= i < r@.len() ==> (#[trigger] r@[i]).passed,
{
    let mut r: Vec<TestCase> = Vec::new();
    r.push(fba_empty_batch_no_clear());
    r.push(fba_simple_full_match());
    r.push(fba_rationing_price_time_priority());
    r.push(fba_market_order_queues_then_clears_at_uniform_price());
    r.push(fba_tie_no_history_picks_lower_price());
    r.push(fba_all_market_no_history_preserves_orders());
    r.push(fba_all_market_with_history_still_rolls_over());
    r.push(fba_non_live_order_filtered());
    r.push(fba_cancellation_removes_pending_order());
    r.push(fba_cancellation_of_unknown_oid_is_harmless());
    r.push(fba_filled_status_does_not_touch_pending_order());
    r.push(fba_residual_rolls_into_pending());
    r.push(fba_metrics_after_partial_clear());
    r.push(fba_tie_with_history_picks_closest_price());
    assert(names(r@) =~= fba_names());
    assert(details(r@) =~= fba_details());
    r
}

} // verus!
