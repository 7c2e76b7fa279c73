//! What the continuous book does with a record, in terms of the orders that
//! rest before and after it and the trades between.

use vstd::prelude::*;
use crate::engines::cda::{crosses, fill_trade, sweep, BookState, Sweep};
use crate::engines::cda_laws::{depths_exact, distinct_ids, index_in_sync, lemma_sweep, ranked, rests};
use crate::engines::ladder::{
    arrived_before, arrived_by, better, can_rest, find_resting, outranks, rest_index, well_ranked,
};
use crate::engines::plain::{ahead, at_market, law_codes_tell_the_order, left_in, lesser, opens, sold_in, withdraws};
use crate::seqs::{leading, lemma_leading_run, lemma_total_first, lemma_total_nonneg, lemma_total_same, min_of, total};
use crate::types::{EngineKind, Order, Side, Trade};

verus! {

/// The resting orders that an incoming one meets: those of the other side.
pub open spec fn facing(b: BookState, o: Order) -> Seq<Order> {
    if o.is_ask {
        b.bids
    } else {
        b.asks
    }
}

/// The resting orders of an incoming one's own side.
pub open spec fn beside(b: BookState, o: Order) -> Seq<Order> {
    if o.is_ask {
        b.asks
    } else {
        b.bids
    }
}

/// The incoming order would trade with this resting one: it executes at any
/// price, or the resting limit is at its own limit or on the better side of it.
pub open spec fn reaches(o: Order, maker: Order) -> bool {
    at_market(o) || (if o.is_ask {
        maker.limit_px >= o.limit_px
    } else {
        maker.limit_px <= o.limit_px
    })
}

/// What of a resting order is within an incoming one's reach.
pub open spec fn reach_part(o: Order) -> spec_fn(Order) -> int {
    |maker: Order|
        if reaches(o, maker) {
            maker.remaining as int
        } else {
            0
        }
}

/// All that is within an incoming order's reach.
pub open spec fn within_reach(o: Order, makers: Seq<Order>) -> int {
    total(makers, reach_part(o))
}

/// One side of a book: limit orders of that side with something left, the best
/// limit first, and at one limit the earliest first.
pub open spec fn in_order(ask: bool, s: Seq<Order>) -> bool {
    &&& forall|i: int|
        0 <= i < s.len() ==> (#[trigger] s[i]).is_ask == ask && !at_market(s[i]) && s[i].remaining > 0
    &&& forall|i: int, j: int|
        0 <= i < j < s.len() ==> ahead(#[trigger] s[i], #[trigger] s[j]) || (s[i].limit_px == s[j].limit_px && s[i].ts
            == s[j].ts && s[i].oid == s[j].oid)
}

proof fn lemma_in_order(side: Side, s: Seq<Order>)
    requires
        well_ranked(side, s),
    ensures
        in_order(side == Side::Sell, s),
{
    assert forall|i: int| 0 <= i < s.len() implies (#[trigger] s[i]).is_ask == (side == Side::Sell) && !at_market(s[i])
        && s[i].remaining > 0 by {
        assert(can_rest(side, s[i]));
        law_codes_tell_the_order(s[i]);
    }
    assert forall|i: int, j: int| 0 <= i < j < s.len() implies ahead(#[trigger] s[i], #[trigger] s[j]) || (s[i].limit_px
        == s[j].limit_px && s[i].ts == s[j].ts && s[i].oid == s[j].oid) by {
        assert(outranks(side, s[i], s[j]));
        assert(can_rest(side, s[i]) && can_rest(side, s[j]));
        law_codes_tell_the_order(s[i]);
        law_codes_tell_the_order(s[j]);
    }
}

/// A ranked book holds bids and asks with something left, the highest bid and
/// the lowest ask first, and the earliest first at each limit.
pub proof fn law_best_orders_come_first(b: BookState)
    requires
        ranked(b),
    ensures
        in_order(false, b.bids),
        in_order(true, b.asks),
        forall|i: int| 0 <= i < b.bids.len() ==> (#[trigger] b.bids[i]).limit_px <= b.bids[0].limit_px,
        forall|i: int| 0 <= i < b.asks.len() ==> (#[trigger] b.asks[i]).limit_px >= b.asks[0].limit_px,
{
    lemma_in_order(Side::Buy, b.bids);
    lemma_in_order(Side::Sell, b.asks);
    assert forall|i: int| 0 <= i < b.bids.len() implies (#[trigger] b.bids[i]).limit_px <= b.bids[0].limit_px by {
        if i > 0 {
            assert(b.bids[0].is_ask == false);
            assert(ahead(b.bids[0], b.bids[i]) || b.bids[0].limit_px == b.bids[i].limit_px);
        }
    }
    assert forall|i: int| 0 <= i < b.asks.len() implies (#[trigger] b.asks[i]).limit_px >= b.asks[0].limit_px by {
        if i > 0 {
            assert(b.asks[0].is_ask);
            assert(ahead(b.asks[0], b.asks[i]) || b.asks[0].limit_px == b.asks[i].limit_px);
        }
    }
}

proof fn lemma_out_of_reach(o: Order, makers: Seq<Order>)
    requires
        in_order(!o.is_ask, makers),
        makers.len() > 0,
        !reaches(o, makers[0]),
    ensures
        within_reach(o, makers) == 0,
{
    let none = |m: Order| 0int;
    assert forall|i: int| 0 <= i < makers.len() implies reach_part(o)(#[trigger] makers[i]) == none(makers[i]) by {
        assert(makers[0].is_ask == !o.is_ask && makers[i].is_ask == !o.is_ask);
        if i > 0 {
            assert(ahead(makers[0], makers[i]) || makers[0].limit_px == makers[i].limit_px);
        }
    }
    lemma_total_same(makers, makers, reach_part(o), none);
    lemma_zero(makers, none);
}

proof fn lemma_zero(s: Seq<Order>, f: spec_fn(Order) -> int)
    requires
        forall|o: Order| #[trigger] f(o) == 0,
    ensures
        total(s, f) == 0,
    decreases s.len(),
{
    if s.len() > 0 {
        lemma_zero(s.drop_last(), f);
    }
}

proof fn lemma_tail_in_order(ask: bool, s: Seq<Order>)
    requires
        in_order(ask, s),
        s.len() > 0,
    ensures
        in_order(ask, s.drop_first()),
{
    let t: Seq<Order> = s.drop_first();
    assert forall|i: int| 0 <= i < t.len() implies (#[trigger] t[i]).is_ask == ask && !at_market(t[i]) && t[i].remaining
        > 0 by {
        assert(s[i + 1].remaining > 0);
    }
    assert forall|i: int, j: int| 0 <= i < j < t.len() implies ahead(#[trigger] t[i], #[trigger] t[j]) || (t[i].limit_px
        == t[j].limit_px && t[i].ts == t[j].ts && t[i].oid == t[j].oid) by {
        assert(t[i] == s[i + 1] && t[j] == s[j + 1]);
    }
}

pub proof fn lemma_sweeps_its_reach(o: Order, makers: Seq<Order>)
    requires
        in_order(!o.is_ask, makers),
    ensures
        o.remaining - sweep(o, makers).left == lesser(o.remaining as int, within_reach(o, makers)),
        within_reach(o, makers) >= 0,
    decreases makers.len(),
{
    lemma_total_nonneg(makers, reach_part(o));
    if o.remaining > 0 && makers.len() > 0 {
        let first: Order = makers[0];
        assert(first.remaining > 0 && !at_market(first));
        law_codes_tell_the_order(o);
        law_codes_tell_the_order(first);
        if !reaches(o, first) {
            lemma_out_of_reach(o, makers);
            assert(!crosses(o.kind(), first.kind(), o.side()));
        } else {
            assert(crosses(o.kind(), first.kind(), o.side()));
            let qty: int = min_of(o.remaining as int, first.remaining as int);
            let tail: Seq<Order> = makers.drop_first();
            lemma_total_first(makers, reach_part(o));
            lemma_tail_in_order(!o.is_ask, makers);
            lemma_total_nonneg(tail, reach_part(o));
            if qty == first.remaining {
                let next: Order = o.filled_by(qty);
                lemma_sweeps_its_reach(next, tail);
                lemma_total_same(tail, tail, reach_part(next), reach_part(o));
            }
        }
    }
}

/// An incoming order trades the least of what it wants and what rests within
/// its reach. One that executes at any price reaches all that rests on the
/// other side; one with a limit reaches what rests at its limit or better.
pub proof fn law_trades_all_within_reach(b: BookState, o: Order)
    requires
        ranked(b),
        opens(o),
    ensures
        sold_in(b.trades_on(o)) == lesser(o.remaining as int, within_reach(o, facing(b, o))),
        at_market(o) ==> within_reach(o, facing(b, o)) == left_in(facing(b, o)),
{
    law_codes_tell_the_order(o);
    law_best_orders_come_first(b);
    let makers: Seq<Order> = facing(b, o);
    assert(makers == b.resting(o.side().opposite()));
    lemma_sweeps_its_reach(o, makers);
    if at_market(o) {
        lemma_total_same(makers, makers, reach_part(o), |m: Order| m.remaining as int);
    }
    if o.remaining > 0 {
        assert forall|i: int| 0 <= i < makers.len() implies (#[trigger] makers[i]).remaining > 0 by {}
        lemma_sweep(o, makers);
        let fills: Seq<(Order, int)> = sweep(o, makers).fills;
        assert forall|i: int| 0 <= i < fills.len() implies (#[trigger] b.trades_on(o)[i]).quantity as int == fills[i].1 by {
            assert(fills[i].0 == makers[i]);
        }
        lemma_total_same(b.trades_on(o), fills, |t: Trade| t.quantity as int, |f: (Order, int)| f.1);
    }
}

/// This trade is between the incoming order and the resting one, at the
/// resting limit.
pub open spec fn hits(t: Trade, o: Order, maker: Order) -> bool {
    &&& t.price == maker.limit_px
    &&& reaches(o, maker)
    &&& t.ts == o.ts
    &&& t.engine_type == EngineKind::Cda
    &&& t.trade_tx_hash is None
    &&& t.chain_id is None
    &&& if o.is_ask {
        &&& t.sell_order_id == o.oid
        &&& t.seller_id == o.user_id
        &&& t.buy_order_id == maker.oid
        &&& t.buyer_id == maker.user_id
    } else {
        &&& t.buy_order_id == o.oid
        &&& t.buyer_id == o.user_id
        &&& t.sell_order_id == maker.oid
        &&& t.seller_id == maker.user_id
    }
}

/// What an incoming order trades, it trades with the resting orders from the
/// best on, each at its own limit and each but the last one whole. Those that
/// it has not used up stay as they were, the last one hit less what it sold.
pub proof fn law_resting_orders_are_hit_in_turn(b: BookState, o: Order)
    requires
        ranked(b),
        opens(o),
        b.has_room_for(o),
        b.next_trade_id >= 0,
    ensures
        ({
            let makers = facing(b, o);
            let trades = b.trades_on(o);
            let after = facing(b.submitted(o), o);
            let gone = makers.len() - after.len();
            &&& trades.len() <= makers.len()
            &&& 0 <= gone <= trades.len() <= gone + 1
            &&& forall|i: int|
                0 <= i < trades.len() ==> {
                    &&& hits(#[trigger] trades[i], o, makers[i])
                    &&& trades[i].trade_id == b.next_trade_id + i
                    &&& 0 < trades[i].quantity <= makers[i].remaining
                    &&& i < gone ==> trades[i].quantity == makers[i].remaining
                }
            &&& forall|i: int|
                0 <= i < after.len() ==> #[trigger] after[i] == (Order {
                    remaining: (makers[gone + i].remaining - if gone + i < trades.len() {
                        trades[gone + i].quantity as int
                    } else {
                        0
                    }) as u128,
                    ..makers[gone + i]
                }) && after[i].remaining > 0
            &&& b.submitted(o).trades == b.trades + trades
            &&& b.submitted(o).next_trade_id == b.next_trade_id + trades.len()
        }),
{
    law_codes_tell_the_order(o);
    law_best_orders_come_first(b);
    let makers: Seq<Order> = facing(b, o);
    let trades: Seq<Trade> = b.trades_on(o);
    assert(makers == b.resting(o.side().opposite()));
    if o.remaining > 0 {
        assert forall|i: int| 0 <= i < makers.len() implies (#[trigger] makers[i]).remaining > 0 by {}
        lemma_sweep(o, makers);
        let swept: Sweep = sweep(o, makers);
        let gone: int = makers.len() - swept.makers.len();
        lemma_total_left(o, makers);
        assert(facing(b.submitted(o), o) == swept.makers);
        assert forall|i: int| 0 <= i < trades.len() implies {
            &&& hits(#[trigger] trades[i], o, makers[i])
            &&& trades[i].trade_id == b.next_trade_id + i
            &&& 0 < trades[i].quantity <= makers[i].remaining
            &&& i < gone ==> trades[i].quantity == makers[i].remaining
        } by {
            assert(swept.fills[i].0 == makers[i]);
            law_codes_tell_the_order(makers[i]);
            assert(trades[i] == fill_trade(o, makers[i], swept.fills[i].1, b.next_trade_id + i));
        }
    } else {
        assert(trades =~= Seq::empty());
        assert(b.trades + trades =~= b.trades);
    }
}

/// The resting order that an incoming one has used in part.
pub proof fn lemma_total_left(o: Order, makers: Seq<Order>)
    requires
        forall|i: int| 0 <= i < makers.len() ==> (#[trigger] makers[i]).remaining > 0,
    ensures
        ({
            let swept = sweep(o, makers);
            let gone = makers.len() - swept.makers.len();
            &&& swept.fills.len() == gone + 1 ==> swept.makers.len() > 0 && swept.makers[0].remaining == makers[gone].remaining
                - swept.fills[gone].1
            &&& swept.fills.len() == gone && swept.makers.len() > 0 ==> swept.makers[0] == makers[gone]
        }),
    decreases makers.len(),
{
    lemma_sweep(o, makers);
    if o.remaining > 0 && makers.len() > 0 && crosses(o.kind(), makers[0].kind(), o.side()) {
        let qty: int = min_of(o.remaining as int, makers[0].remaining as int);
        assert(makers[0].remaining > 0);
        let swept: Sweep = sweep(o, makers);
        if qty == makers[0].remaining {
            let tail: Seq<Order> = makers.drop_first();
            let next: Order = o.filled_by(qty);
            assert forall|i: int| 0 <= i < tail.len() implies (#[trigger] tail[i]).remaining > 0 by {
                assert(makers[i + 1].remaining > 0);
            }
            lemma_total_left(next, tail);
            lemma_sweep(next, tail);
            let rest: Sweep = sweep(next, tail);
            let gone: int = makers.len() - swept.makers.len();
            assert(swept.fills =~= seq![(makers[0], qty)] + rest.fills);
            if swept.fills.len() == gone + 1 {
                assert(swept.fills[gone] == rest.fills[gone - 1]);
                assert(tail[gone - 1] == makers[gone]);
            }
        } else {
            assert(swept.fills =~= seq![(makers[0], qty)]);
        }
    }
}

proof fn lemma_its_place(side: Side, s: Seq<Order>, o: Order)
    requires
        well_ranked(side, s),
    ensures
        0 <= rest_index(side, s, o) <= s.len(),
        forall|i: int| 0 <= i < rest_index(side, s, o) ==> outranks(side, #[trigger] s[i], o),
        forall|i: int| rest_index(side, s, o) <= i < s.len() ==> outranks(side, o, #[trigger] s[i]),
{
    let ahead_of = |x: Order| better(side, x.limit_px, o.limit_px);
    let not_behind = |x: Order| !better(side, o.limit_px, x.limit_px);
    let before = |x: Order| better(side, x.limit_px, o.limit_px) || (x.limit_px == o.limit_px && arrived_before(x, o));
    lemma_leading_run(s, ahead_of);
    lemma_leading_run(s, not_behind);
    lemma_leading_run(s, before);
    let start: int = leading(s, ahead_of) as int;
    let end: int = leading(s, not_behind) as int;
    let k: int = rest_index(side, s, o);
    if start == end || arrived_by(s[end - 1], o) {
        assert forall|i: int| 0 <= i < k implies outranks(side, #[trigger] s[i], o) by {
            assert(not_behind(s[i]));
            if start == end {
                assert(ahead_of(s[i]));
            } else if i < end - 1 {
                assert(not_behind(s[end - 1]));
                assert(outranks(side, s[i], s[end - 1]));
            }
        }
        assert forall|i: int| k <= i < s.len() implies outranks(side, o, #[trigger] s[i]) by {
            assert(!not_behind(s[k]));
            if i > k {
                assert(outranks(side, s[k], s[i]));
            }
        }
    } else {
        assert forall|i: int| 0 <= i < k implies outranks(side, #[trigger] s[i], o) by {
            assert(before(s[i]));
        }
        assert forall|i: int| k <= i < s.len() implies outranks(side, o, #[trigger] s[i]) by {
            assert(!before(s[k]));
            if i > k {
                assert(outranks(side, s[k], s[i]));
            }
        }
    }
}

/// What is left of an incoming limit order rests on its own side, behind those
/// that go before it and in front of those that go after it; the others there
/// stay as they are. What is left of an order that executes at any price is
/// gone.
pub proof fn law_rest_takes_its_place(b: BookState, o: Order) -> (at: int)
    requires
        ranked(b),
        opens(o),
    ensures
        ({
            let own = beside(b, o);
            let after = beside(b.submitted(o), o);
            let left = o.remaining - sold_in(b.trades_on(o));
            let rest = Order { remaining: left as u128, ..o };
            &&& 0 <= left <= o.remaining
            &&& at_market(o) || left == 0 ==> after == own
            &&& !at_market(o) && left > 0 ==> {
                &&& 0 <= at <= own.len()
                &&& after == own.insert(at, rest)
                &&& forall|i: int| 0 <= i < at ==> !ahead(rest, #[trigger] own[i])
                &&& forall|i: int| at <= i < own.len() ==> !ahead(#[trigger] own[i], rest)
            }
        }),
{
    law_codes_tell_the_order(o);
    law_best_orders_come_first(b);
    law_trades_all_within_reach(b, o);
    let makers: Seq<Order> = facing(b, o);
    let own: Seq<Order> = beside(b, o);
    lemma_total_nonneg(makers, reach_part(o));
    lemma_sweeps_its_reach(o, makers);
    let left: int = o.remaining - sold_in(b.trades_on(o));
    let rest: Order = Order { remaining: left as u128, ..o };
    let side: Side = o.side();
    let at: int = rest_index(side, own, rest);
    lemma_its_place(side, own, rest);
    law_codes_tell_the_order(rest);
    assert forall|i: int| 0 <= i < at && !at_market(o) implies !ahead(rest, #[trigger] own[i]) by {
        assert(outranks(side, own[i], rest));
        assert(own[i].is_ask == o.is_ask && !at_market(own[i]));
    }
    assert forall|i: int| at <= i < own.len() && !at_market(o) implies !ahead(#[trigger] own[i], rest) by {
        assert(outranks(side, rest, own[i]));
        assert(own[i].is_ask == o.is_ask && !at_market(own[i]));
    }
    at
}

/// The counters follow the trades: what was submitted grows by the order, what
/// was filled by twice what it trades, and each depth is what rests there.
pub proof fn law_counters_follow_the_trades(b: BookState, o: Order)
    requires
        ranked(b),
        opens(o),
        b.submitted >= 0,
        b.filled >= 0,
    ensures
        b.submitted(o).submitted == lesser(b.submitted + o.remaining, u128::MAX as int) || o.remaining == 0
            && b.submitted(o).submitted == b.submitted,
        b.submitted(o).filled == lesser(b.filled + 2 * sold_in(b.trades_on(o)), u128::MAX as int) || o.remaining == 0
            && b.submitted(o).filled == b.filled,
        depths_exact(b) ==> b.bid_depth == left_in(b.bids) && b.ask_depth == left_in(b.asks),
{
    law_codes_tell_the_order(o);
    law_best_orders_come_first(b);
    law_trades_all_within_reach(b, o);
    lemma_sweeps_its_reach(o, facing(b, o));
    assert(facing(b, o) == b.resting(o.side().opposite()));
}

proof fn lemma_all_others(s: Seq<Order>, oid: u64, at: int)
    requires
        distinct_ids(s),
        0 <= at <= s.len(),
        at < s.len() ==> s[at].oid == oid,
        at == s.len() ==> forall|i: int| 0 <= i < s.len() ==> (#[trigger] s[i]).oid != oid,
    ensures
        s.filter(|x: Order| x.oid != oid) == (if at < s.len() {
            s.remove(at)
        } else {
            s
        }),
    decreases s.len(),
{
    reveal(Seq::filter);
    let keep = |x: Order| x.oid != oid;
    if s.len() > 0 {
        let short: Seq<Order> = s.drop_last();
        assert forall|i: int, j: int| 0 <= i < short.len() && 0 <= j < short.len() && i != j implies (
        #[trigger] short[i]).oid != (#[trigger] short[j]).oid by {
            assert(s[i].oid != s[j].oid);
        }
        let n: int = short.len() as int;
        if at == n {
            assert forall|i: int| 0 <= i < short.len() implies (#[trigger] short[i]).oid != oid by {
                assert(s[i].oid != s[at].oid);
            }
            lemma_all_others(short, oid, n);
            assert(s.remove(at) =~= short);
        } else if at < n {
            lemma_all_others(short, oid, at);
            assert(s[n].oid != s[at].oid);
            assert(s.remove(at) =~= short.remove(at).push(s.last()));
        } else {
            assert forall|i: int| 0 <= i < short.len() implies (#[trigger] short[i]).oid != oid by {
                assert(s[i].oid != oid);
            }
            assert(s[n].oid != oid);
            lemma_all_others(short, oid, n);
            assert(s =~= short.push(s.last()));
        }
    }
}

/// A record that withdraws an order takes the resting order of that id off the
/// book, whichever side it is on, and leaves every other one where it was. It
/// trades and counts nothing. A record that neither opens nor withdraws an
/// order changes nothing at all.
pub proof fn law_withdrawing_takes_one_order_off(b: BookState, o: Order)
    requires
        index_in_sync(b),
        !opens(o),
    ensures
        b.trades_on(o) == Seq::<Trade>::empty(),
        b.submitted(o).trades == b.trades,
        b.submitted(o).next_trade_id == b.next_trade_id,
        b.submitted(o).submitted == b.submitted,
        b.submitted(o).filled == b.filled,
        withdraws(o) ==> b.submitted(o).bids == b.bids.filter(|x: Order| x.oid != o.oid),
        withdraws(o) ==> b.submitted(o).asks == b.asks.filter(|x: Order| x.oid != o.oid),
        !withdraws(o) ==> b.submitted(o) == b,
{
    law_codes_tell_the_order(o);
    if withdraws(o) {
        let oid: u64 = o.oid;
        if b.index.contains_key(oid) {
            let (side, price) = b.index[oid];
            let s: Seq<Order> = b.resting(side);
            let t: Seq<Order> = b.resting(side.opposite());
            let misses = |x: Order| !(x.limit_px == price && x.oid == oid);
            let at: int = find_resting(s, price, oid);
            lemma_leading_run(s, misses);
            assert(rests(s, price, oid));
            let w: int = choose|w: int| 0 <= w < s.len() && (#[trigger] s[w]).oid == oid && s[w].limit_px == price;
            if w < at {
                assert(misses(s[w]));
            }
            lemma_all_others(s, oid, at);
            assert forall|i: int| 0 <= i < t.len() implies (#[trigger] t[i]).oid != oid by {
                assert(b.index[t[i].oid].0 == side.opposite());
            }
            lemma_all_others(t, oid, t.len() as int);
        } else {
            assert forall|i: int| 0 <= i < b.bids.len() implies (#[trigger] b.bids[i]).oid != oid by {
                assert(b.index.contains_key(b.bids[i].oid));
            }
            assert forall|i: int| 0 <= i < b.asks.len() implies (#[trigger] b.asks[i]).oid != oid by {
                assert(b.index.contains_key(b.asks[i].oid));
            }
            lemma_all_others(b.bids, oid, b.bids.len() as int);
            lemma_all_others(b.asks, oid, b.asks.len() as int);
        }
    }
}

} // verus!
