//! What a scan over recorded data counts, and which data a command means.

use vstd::prelude::*;
use crate::types::Order;

verus! {

/// What the engines would do with a record.
#[derive(Clone, Copy, Debug, PartialEq, Eq, Structural)]
pub enum Category {
    /// Becomes a live order.
    NewLiveOrder,
    /// Withdraws a resting order.
    Cancellation,
    /// Nothing.
    Other,
}

pub open spec fn category_of(order: Order) -> Category {
    if order.is_new_live_order() {
        Category::NewLiveOrder
    } else if order.is_cancellation() {
        Category::Cancellation
    } else {
        Category::Other
    }
}

/// What the engines would do with a record.
pub fn classify(order: &Order) -> (r: Category)
    ensures
        r == category_of(*order),
{
    if order.is_new_live_order() {
        Category::NewLiveOrder
    } else if order.is_cancellation() {
        Category::Cancellation
    } else {
        Category::Other
    }
}

/// Is a record of this category.
pub open spec fn is_in(category: Category) -> spec_fn(Order) -> bool {
    |order: Order| category_of(order) == category
}

/// How many records of each category there are.
#[derive(Clone, Copy, Debug, PartialEq, Eq, Structural)]
pub struct Tally {
    pub new_live_orders: usize,
    pub cancellations: usize,
    pub other_events: usize,
}

/// Counts the records of each category.
pub fn tally(orders: &Vec<Order>) -> (r: Tally)
    ensures
        r.new_live_orders == orders@.filter(is_in(Category::NewLiveOrder)).len(),
        r.cancellations == orders@.filter(is_in(Category::Cancellation)).len(),
        r.other_events == orders@.filter(is_in(Category::Other)).len(),
        r.new_live_orders + r.cancellations + r.other_events == orders@.len(),
{
    let mut r: Tally = Tally { new_live_orders: 0, cancellations: 0, other_events: 0 };
    let mut i: usize = 0;
    proof {
        reveal(Seq::filter);
        assert(orders@.take(0) =~= Seq::<Order>::empty());
    }
    while i < orders.len()
        invariant
            i <= orders.len(),
            r.new_live_orders == orders@.take(i as int).filter(is_in(Category::NewLiveOrder)).len(),
            r.cancellations == orders@.take(i as int).filter(is_in(Category::Cancellation)).len(),
            r.other_events == orders@.take(i as int).filter(is_in(Category::Other)).len(),
            r.new_live_orders + r.cancellations + r.other_events == i,
        decreases orders.len() - i,
    {
        proof {
            reveal(Seq::filter);
            assert(orders@.take(i + 1).drop_last() =~= orders@.take(i as int));
            assert(orders@.take(i + 1).last() == orders@[i as int]);
        }
        match classify(&orders[i]) {
            Category::NewLiveOrder => {
                r.new_live_orders += 1;
            },
            Category::Cancellation => {
                r.cancellations += 1;
            },
            Category::Other => {
                r.other_events += 1;
            },
        }
        i += 1;
    }
    assert(orders@.take(i as int) =~= orders@);
    r
}

/// The categories are exclusive: no record is both a new live order and a
/// cancellation.
pub proof fn law_categories_are_exclusive(order: Order)
    ensures
        !(order.is_new_live_order() && order.is_cancellation()),
{
}

/// The counts of two files add up, whichever is read first.
pub proof fn law_counts_add_up(first: Seq<Order>, second: Seq<Order>, category: Category)
    ensures
        (first + second).filter(is_in(category)).len() == first.filter(is_in(category)).len() + second.filter(
            is_in(category),
        ).len(),
        (second + first).filter(is_in(category)).len() == (first + second).filter(is_in(category)).len(),
{
    Seq::filter_distributes_over_add(first, second, is_in(category));
    Seq::filter_distributes_over_add(second, first, is_in(category));
}

} // verus!
