//! How much each order id was filled by a list of trades.

use std::collections::HashMap;
use vstd::prelude::*;
use crate::seqs::{lemma_total_nonneg, lemma_total_take, saturated, total};
use crate::types::Amount;

verus! {

broadcast use vstd::std_specs::hash::group_hash_axioms;

/// The order ids on either side of a trade, and its quantity.
#[derive(Clone, Copy, Debug)]
pub struct Leg {
    pub buy_oid: u64,
    pub sell_oid: u64,
    pub qty: Amount,
}

/// What one trade fills under `oid`; a trade of an id with itself fills it
/// on both sides.
pub open spec fn leg_part(oid: u64) -> spec_fn(Leg) -> int {
    |l: Leg|
        (if l.buy_oid == oid {
            l.qty as int
        } else {
            0
        }) + (if l.sell_oid == oid {
            l.qty as int
        } else {
            0
        })
}

/// What all trades fill under `oid`.
pub open spec fn filled_under(legs: Seq<Leg>, oid: u64) -> int {
    total(legs, leg_part(oid))
}

/// The fills by order id, added up.
#[derive(Debug)]
pub struct FillTotals {
    by_oid: HashMap<u64, Amount>,
}

impl FillTotals {
    pub closed spec fn spec_get(&self, oid: u64) -> int {
        if self.by_oid@.contains_key(oid) {
            self.by_oid@[oid] as int
        } else {
            0
        }
    }

    fn credit(&mut self, oid: u64, qty: Amount)
        ensures
            forall|x: u64| #[trigger] final(self).spec_get(x) == if x == oid {
                saturated(old(self).spec_get(x) + qty)
            } else {
                old(self).spec_get(x)
            },
    {
        let before: Amount = match self.by_oid.get(&oid) {
            Some(sum) => *sum,
            None => 0,
        };
        self.by_oid.insert(oid, before.saturating_add(qty));
    }

    /// Adds up the fills of a list of trades.
    pub fn of(legs: &Vec<Leg>) -> (r: Self)
        ensures
            forall|oid: u64| #[trigger] r.spec_get(oid) == saturated(filled_under(legs@, oid)),
    {
        let mut r: FillTotals = FillTotals { by_oid: HashMap::new() };
        let mut i: usize = 0;
        assert(legs@.take(0) =~= Seq::<Leg>::empty());
        while i < legs.len()
            invariant
                i <= legs.len(),
                forall|oid: u64| #[trigger] r.spec_get(oid) == saturated(filled_under(legs@.take(i as int), oid)),
            decreases legs.len() - i,
        {
            let leg: Leg = legs[i];
            r.credit(leg.buy_oid, leg.qty);
            r.credit(leg.sell_oid, leg.qty);
            proof {
                assert forall|oid: u64| #[trigger] r.spec_get(oid) == saturated(
                    filled_under(legs@.take(i + 1), oid),
                ) by {
                    lemma_total_take(legs@, i as int, leg_part(oid));
                    lemma_total_nonneg(legs@.take(i as int), leg_part(oid));
                }
            }
            i += 1;
        }
        assert(legs@.take(i as int) =~= legs@);
        r
    }

    /// What was filled under `oid`.
    pub fn get(&self, oid: u64) -> (r: Amount)
        ensures
            r == self.spec_get(oid),
    {
        match self.by_oid.get(&oid) {
            Some(sum) => *sum,
            None => 0,
        }
    }
}

} // verus!
