//! Sums over executed trades.

use vstd::prelude::*;
use crate::seqs::{lemma_total_prefix, lemma_total_take, saturated, total};
use crate::types::{Amount, Trade, PRICE_SCALE};

verus! {

/// The quantity of all trades.
pub open spec fn volume_of(trades: Seq<Trade>) -> int {
    total(trades, |t: Trade| t.quantity as int)
}

/// The value of one trade, rounded down to a whole unit.
pub open spec fn notional(t: Trade) -> int {
    saturated(t.quantity * t.price) / PRICE_SCALE as int
}

/// The value of all trades, each rounded down to a whole unit.
pub open spec fn notional_of(trades: Seq<Trade>) -> int {
    total(trades, |t: Trade| notional(t))
}

/// Multiplication that stops at the largest value.
pub fn saturating_product(a: u128, b: u128) -> (r: u128)
    ensures
        r == saturated(a * b),
{
    match a.checked_mul(b) {
        Some(p) => p,
        None => u128::MAX,
    }
}

pub fn sum_quantities(trades: &Vec<Trade>) -> (r: Amount)
    requires
        volume_of(trades@) <= u128::MAX,
    ensures
        r == volume_of(trades@),
{
    let ghost f = |t: Trade| t.quantity as int;
    let mut sum: Amount = 0;
    let mut i: usize = 0;
    assert(trades@.take(0) =~= Seq::<Trade>::empty());
    while i < trades.len()
        invariant
            i <= trades.len(),
            f == (|t: Trade| t.quantity as int),
            sum == total(trades@.take(i as int), f),
            total(trades@, f) <= u128::MAX,
        decreases trades.len() - i,
    {
        proof {
            lemma_total_take(trades@, i as int, f);
            lemma_total_prefix(trades@, i + 1, f);
        }
        sum = sum + trades[i].quantity;
        i += 1;
    }
    assert(trades@.take(i as int) =~= trades@);
    sum
}

pub fn sum_notionals(trades: &Vec<Trade>) -> (r: Amount)
    requires
        notional_of(trades@) <= u128::MAX,
    ensures
        r == notional_of(trades@),
{
    let ghost f = |t: Trade| notional(t);
    let mut sum: Amount = 0;
    let mut i: usize = 0;
    assert(trades@.take(0) =~= Seq::<Trade>::empty());
    while i < trades.len()
        invariant
            i <= trades.len(),
            f == (|t: Trade| notional(t)),
            sum == total(trades@.take(i as int), f),
            total(trades@, f) <= u128::MAX,
        decreases trades.len() - i,
    {
        proof {
            assert forall|j: int| 0 <= j < trades@.len() implies 0 <= f(#[trigger] trades@[j]) by {
                assert(trades@[j].quantity * trades@[j].price >= 0) by (nonlinear_arith);
            }
            lemma_total_take(trades@, i as int, f);
            lemma_total_prefix(trades@, i + 1, f);
        }
        sum = sum + saturating_product(trades[i].quantity, trades[i].price) / PRICE_SCALE;
        i += 1;
    }
    assert(trades@.take(i as int) =~= trades@);
    sum
}

} // verus!
