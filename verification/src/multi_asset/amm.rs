//! A constant-product pool of two assets.

use vstd::prelude::*;
use crate::seqs::{clamped_sub, saturated};
use crate::trades::saturating_product;
use crate::types::{Price, PRICE_SCALE};

verus! {

/// What one unit of the first reserve costs in the second, in fixed point.
pub open spec fn pool_price(x: int, y: int) -> int {
    if x == 0 {
        u128::MAX as int
    } else {
        saturated(y * PRICE_SCALE) / x
    }
}

/// The second reserve after `dx` has been added to the first.
pub open spec fn reserve_after(x: int, y: int, dx: int) -> int {
    saturated(x * y) / saturated(x + dx)
}

/// What the pool pays for `dx`.
pub open spec fn paid_for(x: int, y: int, dx: int) -> int {
    if saturated(x + dx) == 0 {
        0
    } else {
        clamped_sub(y, reserve_after(x, y, dx))
    }
}

/// A pool of two reserves whose product stays the same.
#[derive(Clone, Copy, Debug)]
pub struct AMMPool {
    /// Reserve of the base asset.
    pub reserve_x: u128,
    /// Reserve of the quote asset.
    pub reserve_y: u128,
}

impl AMMPool {
    pub fn new(reserve_x: u128, reserve_y: u128) -> (r: Self)
        ensures
            r == (AMMPool { reserve_x, reserve_y }),
    {
        AMMPool { reserve_x, reserve_y }
    }

    /// The marginal price of the base asset; without any, the highest there
    /// is.
    pub fn price(&self) -> (r: Price)
        ensures
            r == pool_price(self.reserve_x as int, self.reserve_y as int),
    {
        if self.reserve_x == 0 {
            return u128::MAX;
        }
        saturating_product(self.reserve_y, PRICE_SCALE) / self.reserve_x
    }

    /// Sells `dx` of the base asset to the pool and returns what it pays.
    pub fn execute_sell(&mut self, dx: u128) -> (r: u128)
        ensures
            dx == 0 ==> r == 0 && *final(self) == *old(self),
            dx > 0 ==> {
                &&& r == paid_for(old(self).reserve_x as int, old(self).reserve_y as int, dx as int)
                &&& final(self).reserve_x == saturated(old(self).reserve_x + dx)
                &&& final(self).reserve_y == reserve_after(
                    old(self).reserve_x as int,
                    old(self).reserve_y as int,
                    dx as int,
                )
            },
    {
        if dx == 0 {
            return 0;
        }
        let k: u128 = saturating_product(self.reserve_x, self.reserve_y);
        let x_new: u128 = self.reserve_x.saturating_add(dx);
        let y_new: u128 = k / x_new;
        let dy: u128 = self.reserve_y.saturating_sub(y_new);
        self.reserve_x = x_new;
        self.reserve_y = y_new;
        dy
    }

    /// What the pool would pay for each of these amounts.
    pub fn linearize(&self, breakpoints: &Vec<u128>) -> (r: Vec<(u128, u128)>)
        ensures
            r@.len() == breakpoints@.len(),
            forall|i: int|
                0 <= i < r@.len() ==> {
                    &&& (#[trigger] r@[i]).0 == breakpoints@[i]
                    &&& r@[i].1 == paid_for(
                        self.reserve_x as int,
                        self.reserve_y as int,
                        breakpoints@[i] as int,
                    )
                },
    {
        let mut pairs: Vec<(u128, u128)> = Vec::new();
        let k: u128 = saturating_product(self.reserve_x, self.reserve_y);
        let mut i: usize = 0;
        while i < breakpoints.len()
            invariant
                i <= breakpoints.len(),
                k == saturated(self.reserve_x * self.reserve_y),
                pairs@.len() == i,
                forall|j: int|
                    0 <= j < i ==> {
                        &&& (#[trigger] pairs@[j]).0 == breakpoints@[j]
                        &&& pairs@[j].1 == paid_for(
                            self.reserve_x as int,
                            self.reserve_y as int,
                            breakpoints@[j] as int,
                        )
                    },
            decreases breakpoints.len() - i,
        {
            let dx: u128 = breakpoints[i];
            let x_new: u128 = self.reserve_x.saturating_add(dx);
            if x_new == 0 {
                pairs.push((dx, 0));
            } else {
                let y_new: u128 = k / x_new;
                pairs.push((dx, self.reserve_y.saturating_sub(y_new)));
            }
            i += 1;
        }
        pairs
    }
}

/// The product of the reserves is kept, but for the rounding of one of them:
/// a sale neither raises it nor lowers it by as much as the new first reserve.
pub proof fn law_sale_keeps_the_product(x: int, y: int, dx: int)
    requires
        0 <= x,
        0 <= y,
        0 < dx,
        x * y <= u128::MAX,
        x + dx <= u128::MAX,
    ensures
        (x + dx) * reserve_after(x, y, dx) <= x * y,
        x * y < (x + dx) * reserve_after(x, y, dx) + (x + dx),
        reserve_after(x, y, dx) <= y,
{
    assert(x * y >= 0) by (nonlinear_arith)
        requires
            x >= 0,
            y >= 0,
    ;
    let k: int = x * y;
    let d: int = x + dx;
    vstd::arithmetic::div_mod::lemma_fundamental_div_mod(k, d);
    assert(0 <= k % d < d);
    assert(k / d <= y) by (nonlinear_arith)
        requires
            k == x * y,
            d == x + dx,
            dx > 0,
            x >= 0,
            y >= 0,
            k == d * (k / d) + k % d,
            0 <= k % d < d,
    ;
}

/// Selling more never pays less.
pub proof fn law_larger_sales_pay_more(x: int, y: int, less: int, more: int)
    requires
        0 <= x <= u128::MAX,
        0 <= y <= u128::MAX,
        0 < less <= more,
    ensures
        paid_for(x, y, less) <= paid_for(x, y, more),
{
    assert(x * y >= 0) by (nonlinear_arith)
        requires
            x >= 0,
            y >= 0,
    ;
    let k: int = saturated(x * y);
    vstd::arithmetic::div_mod::lemma_div_is_ordered_by_denominator(k, saturated(x + less), saturated(x + more));
}

} // verus!
