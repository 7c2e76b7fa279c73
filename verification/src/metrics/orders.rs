//! What became of each order: its first message, its fills, and when it was
//! first filled.

use std::collections::HashMap;
use vstd::prelude::*;
use crate::engines::legs::{filled_under, FillTotals, Leg};
use crate::metrics::events::{OrderMessage, TradeEvent};
use crate::seqs::saturated;

verus! {

broadcast use vstd::std_specs::hash::group_hash_axioms;

/// The position of the first accepted message of an order.
pub open spec fn opening_of(messages: Seq<OrderMessage>, oid: u64) -> Option<int>
    decreases messages.len(),
{
    if messages.len() == 0 {
        None
    } else {
        match opening_of(messages.drop_last(), oid) {
            Some(i) => Some(i),
            None => if messages.last().accepted && messages.last().oid == oid {
                Some(messages.len() - 1)
            } else {
                None
            },
        }
    }
}

/// The positions of the messages that are the first accepted one of their
/// order.
pub open spec fn openings(messages: Seq<OrderMessage>) -> Seq<int>
    decreases messages.len(),
{
    if messages.len() == 0 {
        Seq::empty()
    } else {
        let earlier = openings(messages.drop_last());
        if messages.last().accepted && opening_of(messages.drop_last(), messages.last().oid) is None {
            earlier.push(messages.len() - 1)
        } else {
            earlier
        }
    }
}

/// The limit price of an order, if it has been seen and has one.
pub open spec fn limit_of(messages: Seq<OrderMessage>, oid: u64) -> Option<u128> {
    match opening_of(messages, oid) {
        Some(i) => messages[i].limit_price,
        None => None,
    }
}

pub open spec fn leg(t: TradeEvent) -> Leg {
    Leg { buy_oid: t.trade.buy_order_id, sell_oid: t.trade.sell_order_id, qty: t.trade.quantity }
}

pub open spec fn trade_legs(trades: Seq<TradeEvent>) -> Seq<Leg> {
    Seq::new(trades.len(), |i: int| leg(trades[i]))
}

/// The time of the earliest trade of an order.
pub open spec fn first_fill(trades: Seq<TradeEvent>, oid: u64) -> Option<u64>
    decreases trades.len(),
{
    if trades.len() == 0 {
        None
    } else {
        let t = trades.last().trade;
        let earlier = first_fill(trades.drop_last(), oid);
        if t.buy_order_id == oid || t.sell_order_id == oid {
            match earlier {
                Some(ts) if ts <= t.ts => Some(ts),
                _ => Some(t.ts),
            }
        } else {
            earlier
        }
    }
}

/// What became of one order.
#[derive(Clone, Copy, Debug)]
pub struct OrderState {
    /// The position of its first accepted message.
    pub message: usize,
    pub filled_qty: u128,
    pub first_fill_ts: Option<u64>,
}

/// What became of the order that was opened by message `i`.
pub open spec fn outcome(messages: Seq<OrderMessage>, trades: Seq<TradeEvent>, i: int) -> OrderState {
    OrderState {
        message: i as usize,
        filled_qty: saturated(filled_under(trade_legs(trades), messages[i].oid)) as u128,
        first_fill_ts: first_fill(trades, messages[i].oid),
    }
}

/// What became of every order, in the order of their first messages.
pub open spec fn outcomes(messages: Seq<OrderMessage>, trades: Seq<TradeEvent>) -> Seq<OrderState> {
    let opened = openings(messages);
    Seq::new(opened.len(), |k: int| outcome(messages, trades, opened[k]))
}

pub proof fn lemma_openings(messages: Seq<OrderMessage>)
    ensures
        openings(messages).len() <= messages.len(),
        forall|k: int|
            0 <= k < openings(messages).len() ==> 0 <= #[trigger] openings(messages)[k] < messages.len(),
        forall|oid: u64|
            (#[trigger] opening_of(messages, oid)) is Some ==> 0 <= opening_of(messages, oid)->0 < messages.len(),
    decreases messages.len(),
{
    if messages.len() > 0 {
        lemma_openings(messages.drop_last());
        assert forall|oid: u64| (#[trigger] opening_of(messages, oid)) is Some implies 0 <= opening_of(messages, oid)->0
            < messages.len() by {
            assert(opening_of(messages.drop_last(), oid) is Some ==> opening_of(messages.drop_last(), oid)->0
                < messages.drop_last().len());
        }
    }
}

/// When each order was first filled.
struct FirstFills {
    by_oid: HashMap<u64, u64>,
}

impl FirstFills {
    spec fn spec_get(&self, oid: u64) -> Option<u64> {
        if self.by_oid@.contains_key(oid) {
            Some(self.by_oid@[oid])
        } else {
            None
        }
    }

    fn get(&self, oid: u64) -> (r: Option<u64>)
        ensures
            r == self.spec_get(oid),
    {
        match self.by_oid.get(&oid) {
            Some(ts) => Some(*ts),
            None => None,
        }
    }

    fn note(&mut self, oid: u64, ts: u64)
        ensures
            forall|x: u64| #[trigger] final(self).spec_get(x) == if x != oid {
                old(self).spec_get(x)
            } else {
                match old(self).spec_get(x) {
                    Some(seen) if seen <= ts => Some(seen),
                    _ => Some(ts),
                }
            },
    {
        let first: u64 = match self.by_oid.get(&oid) {
            Some(seen) => if *seen <= ts {
                *seen
            } else {
                ts
            },
            None => ts,
        };
        self.by_oid.insert(oid, first);
    }

    fn of(trades: &Vec<TradeEvent>) -> (r: Self)
        ensures
            forall|oid: u64| #[trigger] r.spec_get(oid) == first_fill(trades@, oid),
    {
        let mut r: FirstFills = FirstFills { by_oid: HashMap::new() };
        let mut i: usize = 0;
        assert(trades@.take(0) =~= Seq::<TradeEvent>::empty());
        while i < trades.len()
            invariant
                i <= trades.len(),
                forall|oid: u64| #[trigger] r.spec_get(oid) == first_fill(trades@.take(i as int), oid),
            decreases trades.len() - i,
        {
            let ts: u64 = trades[i].trade.ts;
            assert(trades@.take(i + 1).drop_last() =~= trades@.take(i as int));
            r.note(trades[i].trade.buy_order_id, ts);
            r.note(trades[i].trade.sell_order_id, ts);
            i += 1;
        }
        assert(trades@.take(i as int) =~= trades@);
        r
    }
}

fn legs_of(trades: &Vec<TradeEvent>) -> (r: Vec<Leg>)
    ensures
        r@ == trade_legs(trades@),
{
    let mut r: Vec<Leg> = Vec::new();
    let mut i: usize = 0;
    while i < trades.len()
        invariant
            i <= trades.len(),
            r@ =~= trade_legs(trades@).take(i as int),
        decreases trades.len() - i,
    {
        r.push(
            Leg {
                buy_oid: trades[i].trade.buy_order_id,
                sell_oid: trades[i].trade.sell_order_id,
                qty: trades[i].trade.quantity,
            },
        );
        i += 1;
    }
    assert(r@ =~= trade_legs(trades@));
    r
}

/// What became of every order.
pub struct OrderBookkeeping {
    /// In the order of first messages.
    pub states: Vec<OrderState>,
    /// The position of the first message of each order.
    pub openings: HashMap<u64, usize>,
}

impl OrderBookkeeping {
    /// Whether this is what became of the orders of these messages.
    pub open spec fn keeps(&self, messages: Seq<OrderMessage>) -> bool {
        forall|oid: u64|
            match #[trigger] opening_of(messages, oid) {
                Some(i) => self.openings@.contains_key(oid) && self.openings@[oid] == i,
                None => !self.openings@.contains_key(oid),
            }
    }

    /// Follows the orders of `messages` through `trades`.
    pub fn build(messages: &Vec<OrderMessage>, trades: &Vec<TradeEvent>) -> (r: Self)
        ensures
            r.states@ == outcomes(messages@, trades@),
            r.keeps(messages@),
    {
        let fills: FillTotals = FillTotals::of(&legs_of(trades));
        let first: FirstFills = FirstFills::of(trades);
        let mut r: OrderBookkeeping = OrderBookkeeping { states: Vec::new(), openings: HashMap::new() };
        let mut i: usize = 0;
        proof {
            assert(messages@.take(0) =~= Seq::<OrderMessage>::empty());
            assert(r.states@ =~= outcomes(messages@.take(0), trades@));
        }
        while i < messages.len()
            invariant
                i <= messages.len(),
                forall|oid: u64| #[trigger] fills.spec_get(oid) == saturated(filled_under(trade_legs(trades@), oid)),
                forall|oid: u64| #[trigger] first.spec_get(oid) == first_fill(trades@, oid),
                r.states@ == outcomes(messages@.take(i as int), trades@),
                r.keeps(messages@.take(i as int)),
            decreases messages.len() - i,
        {
            let ghost before: Seq<OrderMessage> = messages@.take(i as int);
            let ghost now: Seq<OrderMessage> = messages@.take(i + 1);
            let oid: u64 = messages[i].oid;
            proof {
                assert(now.drop_last() =~= before);
                lemma_openings(before);
                assert(opening_of(before, oid) is Some || opening_of(before, oid) is None);
                assert forall|k: int| 0 <= k < openings(before).len() implies #[trigger] outcome(
                    now,
                    trades@,
                    openings(before)[k],
                ) == outcome(before, trades@, openings(before)[k]) by {
                    assert(openings(before)[k] < before.len());
                }
                assert forall|x: u64| x != oid implies #[trigger] opening_of(now, x) == opening_of(before, x) by {
                }
            }
            if messages[i].accepted && !r.openings.contains_key(&oid) {
                let ghost states: Seq<OrderState> = r.states@;
                let state: OrderState = OrderState {
                    message: i,
                    filled_qty: fills.get(oid),
                    first_fill_ts: first.get(oid),
                };
                r.openings.insert(oid, i);
                r.states.push(state);
                proof {
                    assert(opening_of(before, oid) is None);
                    assert(opening_of(now, oid) == Some(i as int));
                    assert(state == outcome(now, trades@, i as int));
                    assert(r.states@ =~= outcomes(now, trades@));
                }
            } else {
                proof {
                    assert(opening_of(now, oid) == opening_of(before, oid));
                    assert(r.states@ =~= outcomes(now, trades@));
                }
            }
            i += 1;
        }
        assert(messages@.take(i as int) =~= messages@);
        r
    }

    /// The limit price of an order, if it has been seen and has one.
    pub fn limit(&self, messages: &Vec<OrderMessage>, oid: u64) -> (r: Option<u128>)
        requires
            self.keeps(messages@),
        ensures
            r == limit_of(messages@, oid),
    {
        proof {
            lemma_openings(messages@);
            assert(opening_of(messages@, oid) is Some || opening_of(messages@, oid) is None);
        }
        match self.openings.get(&oid) {
            Some(i) => messages[*i].limit_price,
            None => None,
        }
    }
}

} // verus!
