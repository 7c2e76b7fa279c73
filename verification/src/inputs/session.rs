//! An interactive session: one book of either kind, of which one takes the
//! orders at a time.

use vstd::prelude::*;
use crate::engines::cda::{BookState, CdaOrderBook};
use crate::engines::fba::{BatchState, ClearingResult, FbaOrderBook};
use crate::inputs::cli::EngineMode;
use crate::seqs::total;
use crate::sorting::{lemma_sorted_by, pick, positions, sort_positions, sorted_by};
use crate::trades::volume_of;
use crate::types::{Order, Price, Side, Trade};

verus! {

/// The state of a session.
pub struct SessionState {
    pub fba: BatchState,
    pub cda: BookState,
    /// The id of the next order that is entered.
    pub next_id: int,
    pub mode: EngineMode,
}

impl SessionState {
    /// A record has gone to the active book; one that the continuous book has
    /// no room for has gone nowhere.
    pub open spec fn took(self, o: Order) -> SessionState {
        match self.mode {
            EngineMode::Batch => SessionState { fba: self.fba.submitted(o), ..self },
            EngineMode::Continuous => if self.cda.has_room_for(o) {
                SessionState { cda: self.cda.submitted(o), ..self }
            } else {
                self
            },
        }
    }

    /// Records have gone to the active book one by one.
    pub open spec fn took_all(self, orders: Seq<Order>) -> SessionState
        decreases orders.len(),
    {
        if orders.len() == 0 {
            self
        } else {
            self.took_all(orders.drop_last()).took(orders.last())
        }
    }
}

/// The order that is entered with this id: at market without a price.
pub open spec fn is_entered(
    o: Order,
    id: u64,
    user: Seq<char>,
    side: Side,
    price: Option<Price>,
    quantity: u128,
    ts: u64,
) -> bool {
    &&& o.user_id@ == user
    &&& o == match price {
        Some(p) => Order::plain_limit(id, o.user_id, side, p, quantity, ts),
        None => Order::plain_market(id, o.user_id, side, quantity, ts),
    }
}

/// How many of these records are new live orders.
pub open spec fn live_count(orders: Seq<Order>) -> int {
    total(orders, |o: Order| if o.is_new_live_order() { 1int } else { 0int })
}

/// The rank of an order in a list of its side: the better the limit, the
/// earlier, and orders at market last.
pub open spec fn display_rank(side: Side) -> spec_fn(Order) -> int {
    |o: Order|
        match side {
            Side::Buy => u128::MAX - (match o.limit_price() {
                Some(p) => p as int,
                None => 0,
            }),
            Side::Sell => match o.limit_price() {
                Some(p) => p as int,
                None => u128::MAX as int,
            },
        }
}

pub open spec fn on_side(side: Side) -> spec_fn(Order) -> bool {
    |o: Order| o.side() == side
}

/// The orders of one side, best first; orders of the same rank in the order
/// they came in.
pub open spec fn displayed(orders: Seq<Order>, side: Side) -> Seq<Order> {
    sorted_by(orders.filter(on_side(side)), display_rank(side))
}

/// The orders of one side, best first.
pub fn display_order(orders: &Vec<Order>, side: Side) -> (r: Vec<Order>)
    ensures
        r@ == displayed(orders@, side),
{
    let mut mine: Vec<Order> = Vec::new();
    let mut keys: Vec<u128> = Vec::new();
    let mut i: usize = 0;
    proof {
        reveal(Seq::filter);
        assert(orders@.take(0) =~= Seq::<Order>::empty());
    }
    while i < orders.len()
        invariant
            i <= orders.len(),
            mine@ == orders@.take(i as int).filter(on_side(side)),
            keys@.len() == mine@.len(),
            forall|k: int| 0 <= k < mine@.len() ==> display_rank(side)(#[trigger] mine@[k]) == keys@[k],
        decreases orders.len() - i,
    {
        let o: &Order = &orders[i];
        proof {
            reveal(Seq::filter);
            assert(orders@.take(i + 1).drop_last() =~= orders@.take(i as int));
        }
        if o.side() == side {
            let key: u128 = match (side, o.limit_price()) {
                (Side::Buy, Some(p)) => u128::MAX - p,
                (Side::Buy, None) => u128::MAX,
                (Side::Sell, Some(p)) => p,
                (Side::Sell, None) => u128::MAX,
            };
            mine.push(o.clone());
            keys.push(key);
        }
        i += 1;
    }
    assert(orders@.take(i as int) =~= orders@);
    let at: Vec<usize> = sort_positions(&keys);
    proof {
        lemma_sorted_by(mine@, keys@, at@, display_rank(side));
    }
    let mut r: Vec<Order> = Vec::new();
    let mut k: usize = 0;
    while k < at.len()
        invariant
            k <= at.len(),
            at@.len() == mine@.len(),
            forall|j: int| 0 <= j < at@.len() ==> #[trigger] at@[j] < mine@.len(),
            r@ =~= pick(mine@, positions(at@)).take(k as int),
        decreases at.len() - k,
    {
        r.push(mine[at[k]].clone());
        k += 1;
    }
    assert(r@ =~= pick(mine@, positions(at@)));
    r
}

pub open spec fn trade_time() -> spec_fn(Trade) -> int {
    |t: Trade| t.ts as int
}

/// The trades of both engines in the order of time; at the same time those of
/// the first come first.
pub fn ledger(first: &Vec<Trade>, second: &Vec<Trade>) -> (r: Vec<Trade>)
    requires
        first.len() + second.len() <= usize::MAX,
    ensures
        r@ == sorted_by(first@ + second@, trade_time()),
{
    let mut all: Vec<Trade> = Vec::new();
    let mut keys: Vec<u128> = Vec::new();
    let ghost whole: Seq<Trade> = first@ + second@;
    let mut i: usize = 0;
    while i < first.len() + second.len()
        invariant
            i <= first.len() + second.len() <= usize::MAX,
            whole == first@ + second@,
            all@ =~= whole.take(i as int),
            keys@.len() == i,
            forall|k: int| 0 <= k < keys@.len() ==> trade_time()(#[trigger] whole[k]) == keys@[k],
        decreases first.len() + second.len() - i,
    {
        let t: &Trade = if i < first.len() {
            &first[i]
        } else {
            &second[i - first.len()]
        };
        keys.push(t.ts as u128);
        all.push(t.clone());
        i += 1;
    }
    assert(all@ =~= whole);
    let at: Vec<usize> = sort_positions(&keys);
    proof {
        lemma_sorted_by(whole, keys@, at@, trade_time());
    }
    let mut r: Vec<Trade> = Vec::new();
    let mut k: usize = 0;
    while k < at.len()
        invariant
            k <= at.len(),
            at@.len() == all@.len(),
            forall|j: int| 0 <= j < at@.len() ==> #[trigger] at@[j] < all@.len(),
            r@ =~= pick(all@, positions(at@)).take(k as int),
        decreases at.len() - k,
    {
        r.push(all[at[k]].clone());
        k += 1;
    }
    assert(r@ =~= pick(all@, positions(at@)));
    r
}

/// One book of either kind, and which of them takes the orders.
#[derive(Debug)]
pub struct Session {
    fba: FbaOrderBook,
    cda: CdaOrderBook,
    next_id: u64,
    mode: EngineMode,
}

impl View for Session {
    type V = SessionState;

    closed spec fn view(&self) -> SessionState {
        SessionState { fba: self.fba@, cda: self.cda@, next_id: self.next_id as int, mode: self.mode }
    }
}

impl Session {
    pub closed spec fn wf(&self) -> bool {
        self.cda.wf()
    }

    /// Two empty books; orders go to the batch book.
    pub fn new() -> (r: Self)
        ensures
            r.wf(),
            r@ == (SessionState {
                fba: BatchState::empty(),
                cda: BookState::empty(),
                next_id: 1,
                mode: EngineMode::Batch,
            }),
    {
        Session { fba: FbaOrderBook::new(), cda: CdaOrderBook::new(), next_id: 1, mode: EngineMode::Batch }
    }

    /// Which book takes the orders.
    pub fn mode(&self) -> (r: EngineMode)
        ensures
            r == self@.mode,
    {
        self.mode
    }

    /// Lets the other kind of book take the orders.
    pub fn switch(&mut self, mode: EngineMode)
        requires
            old(self).wf(),
        ensures
            final(self).wf(),
            final(self)@ == (SessionState { mode, ..old(self)@ }),
    {
        self.mode = mode;
    }

    /// Makes an order under the next id; nothing once the ids are used up.
    pub fn enter(
        &mut self,
        side: Side,
        price: Option<Price>,
        quantity: u128,
        user: &str,
        ts: u64,
    ) -> (r: Option<Order>)
        requires
            old(self).wf(),
        ensures
            final(self).wf(),
            match r {
                Some(o) => {
                    &&& old(self)@.next_id < u64::MAX
                    &&& is_entered(o, old(self)@.next_id as u64, user@, side, price, quantity, ts)
                    &&& final(self)@ == (SessionState { next_id: old(self)@.next_id + 1, ..old(self)@ })
                },
                None => old(self)@.next_id == u64::MAX && final(self)@ == old(self)@,
            },
    {
        if self.next_id == u64::MAX {
            return None;
        }
        let id: u64 = self.next_id;
        self.next_id = id + 1;
        match price {
            Some(p) => Some(Order::limit(id, user, side, p, quantity, ts)),
            None => Some(Order::market(id, user, side, quantity, ts)),
        }
    }

    /// Hands a record to the active book and returns the trades it causes at
    /// once; none if the continuous book has no room for it.
    pub fn submit(&mut self, order: Order) -> (r: Option<Vec<Trade>>)
        requires
            old(self).wf(),
        ensures
            final(self).wf(),
            final(self)@ == old(self)@.took(order),
            match old(self)@.mode {
                EngineMode::Batch => r matches Some(trades) && trades@ == Seq::<Trade>::empty(),
                EngineMode::Continuous => match r {
                    Some(trades) => old(self)@.cda.has_room_for(order) && trades@ == old(self)@.cda.trades_on(order),
                    None => !old(self)@.cda.has_room_for(order),
                },
            },
    {
        match self.mode {
            EngineMode::Batch => {
                self.fba.submit(order);
                Some(Vec::new())
            },
            EngineMode::Continuous => {
                if self.cda.has_room(&order) {
                    Some(self.cda.submit(order))
                } else {
                    None
                }
            },
        }
    }

    /// Hands records to the active book and returns how many there were, and
    /// how many of them were new live orders.
    pub fn load(&mut self, orders: Vec<Order>) -> (r: (usize, usize))
        requires
            old(self).wf(),
        ensures
            final(self).wf(),
            final(self)@ == old(self)@.took_all(orders@),
            r.0 == orders@.len(),
            r.1 == live_count(orders@),
    {
        let ghost start: SessionState = self@;
        let ghost all: Seq<Order> = orders@;
        let count: usize = orders.len();
        let mut live: usize = 0;
        assert(all.take(0) =~= Seq::<Order>::empty());
        for o in iter: orders
            invariant
                iter.seq() == all,
                all.len() <= usize::MAX,
                self.wf(),
                self@ == start.took_all(all.take(iter.index() as int)),
                live == live_count(all.take(iter.index() as int)),
                live <= iter.index(),
        {
            proof {
                assert(all.take(iter.index() + 1).drop_last() =~= all.take(iter.index() as int));
                assert(all.take(iter.index() + 1).last() == o);
            }
            if o.is_new_live_order() {
                live = live + 1;
            }
            let _: Option<Vec<Trade>> = self.submit(o);
        }
        assert(all.take(all.len() as int) =~= all);
        (count, live)
    }

    /// Whether the batch can be cleared within the limits of the integer
    /// types.
    pub fn can_clear(&self) -> (r: bool)
        ensures
            r == self@.fba.can_clear(),
    {
        self.fba.can_clear()
    }

    /// Clears the batch book, whichever book is active.
    pub fn clear(&mut self) -> (r: Option<ClearingResult>)
        requires
            old(self).wf(),
            old(self)@.fba.can_clear(),
        ensures
            final(self).wf(),
            final(self)@ == (SessionState { fba: old(self)@.fba.cleared(), ..old(self)@ }),
            match r {
                Some(c) => {
                    &&& old(self)@.fba.price() == Some(c.clearing_price)
                    &&& c.trades@ == old(self)@.fba.batch()
                    &&& c.traded_quantity == volume_of(old(self)@.fba.batch())
                    &&& c.demand_at_price == final(self)@.fba.last_demand
                    &&& c.supply_at_price == final(self)@.fba.last_supply
                },
                None => old(self)@.fba.price() is None,
            },
    {
        self.fba.clear()
    }

    pub fn fba(&self) -> (r: &FbaOrderBook)
        ensures
            r@ == self@.fba,
    {
        &self.fba
    }

    pub fn cda(&self) -> (r: &CdaOrderBook)
        requires
            self.wf(),
        ensures
            r.wf(),
            r@ == self@.cda,
    {
        &self.cda
    }
}

/// Orders go to the active book alone: the other one stays as it is.
pub proof fn law_idle_book_stays(state: SessionState, orders: Seq<Order>)
    ensures
        state.took_all(orders).mode == state.mode,
        state.took_all(orders).next_id == state.next_id,
        state.mode == EngineMode::Batch ==> state.took_all(orders).cda == state.cda,
        state.mode == EngineMode::Continuous ==> state.took_all(orders).fba == state.fba,
    decreases orders.len(),
{
    if orders.len() > 0 {
        law_idle_book_stays(state, orders.drop_last());
    }
}

} // verus!
