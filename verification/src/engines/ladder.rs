//! One side of a resting book: price levels in order, each a queue in order
//! of arrival.

use std::collections::VecDeque;
use vstd::prelude::*;
use crate::seqs::{leading, lemma_leading};
use crate::types::{Order, Price, Side};

verus! {

broadcast use vstd::std_specs::vecdeque::group_vec_dequeue_axioms;

/// Price `a` is strictly better than price `b` for an order resting on `side`.
pub open spec fn better(side: Side, a: Price, b: Price) -> bool {
    match side {
        Side::Buy => a > b,
        Side::Sell => a < b,
    }
}

/// `a` arrived no later than `b`, ties going by order id.
pub open spec fn arrived_by(a: Order, b: Order) -> bool {
    a.ts < b.ts || (a.ts == b.ts && a.oid <= b.oid)
}

/// `a` arrived strictly before `b`, ties going by order id.
pub open spec fn arrived_before(a: Order, b: Order) -> bool {
    a.ts < b.ts || (a.ts == b.ts && a.oid < b.oid)
}

/// `o` is an order that can rest on `side`: a limit order of that side with
/// something left to fill.
pub open spec fn can_rest(side: Side, o: Order) -> bool {
    o.side() == side && o.limit_price() == Some(o.limit_px) && o.remaining > 0
}

/// `a` has price-time priority over `b`, or ties with it.
pub open spec fn outranks(side: Side, a: Order, b: Order) -> bool {
    better(side, a.limit_px, b.limit_px) || (a.limit_px == b.limit_px && arrived_by(a, b))
}

/// The resting orders of one side, best first.
pub open spec fn well_ranked(side: Side, s: Seq<Order>) -> bool {
    &&& forall|i: int| 0 <= i < s.len() ==> can_rest(side, #[trigger] s[i])
    &&& forall|i: int, j: int| 0 <= i < j < s.len() ==> outranks(side, #[trigger] s[i], #[trigger] s[j])
}

/// Where `o` goes among the resting orders `s`: behind every better price
/// and, at its own price, behind the whole queue if the last order there
/// arrived no later, else in front of the first that did not arrive before.
pub open spec fn rest_index(side: Side, s: Seq<Order>, o: Order) -> int {
    let start = leading(s, |x: Order| better(side, x.limit_px, o.limit_px)) as int;
    let end = leading(s, |x: Order| !better(side, o.limit_px, x.limit_px)) as int;
    if start == end || arrived_by(s[end - 1], o) {
        end
    } else {
        leading(
            s,
            |x: Order| better(side, x.limit_px, o.limit_px) || (x.limit_px == o.limit_px && arrived_before(x, o)),
        ) as int
    }
}

/// The position of the first order with this price and id, or the length.
pub open spec fn find_resting(s: Seq<Order>, price: Price, oid: u64) -> int {
    leading(s, |x: Order| !(x.limit_px == price && x.oid == oid)) as int
}

pub fn is_better(side: Side, a: Price, b: Price) -> (r: bool)
    ensures
        r == better(side, a, b),
{
    match side {
        Side::Buy => a > b,
        Side::Sell => a < b,
    }
}

fn has_arrived_by(a: &Order, b: &Order) -> (r: bool)
    ensures
        r == arrived_by(*a, *b),
{
    a.ts < b.ts || (a.ts == b.ts && a.oid <= b.oid)
}

/// All orders resting at one price, in order of arrival.
#[derive(Debug)]
pub struct PriceLevel {
    pub price: Price,
    pub orders: VecDeque<Order>,
}

/// The orders of a list of levels, from the last level to the first.
pub open spec fn flat(levels: Seq<PriceLevel>) -> Seq<Order>
    decreases levels.len(),
{
    if levels.len() == 0 {
        Seq::empty()
    } else {
        levels.last().orders@ + flat(levels.drop_last())
    }
}

pub open spec fn level_ok(side: Side, l: PriceLevel) -> bool {
    &&& l.orders@.len() > 0
    &&& forall|k: int| 0 <= k < l.orders@.len() ==> can_rest(side, #[trigger] l.orders@[k])
    &&& forall|k: int| 0 <= k < l.orders@.len() ==> (#[trigger] l.orders@[k]).limit_px == l.price
    &&& forall|k: int, m: int|
        0 <= k < m < l.orders@.len() ==> arrived_by(#[trigger] l.orders@[k], #[trigger] l.orders@[m])
}

proof fn lemma_flat_add(a: Seq<PriceLevel>, b: Seq<PriceLevel>)
    ensures
        flat(a + b) == flat(b) + flat(a),
    decreases b.len(),
{
    if b.len() == 0 {
        assert(a + b =~= a);
        assert(flat(b) + flat(a) =~= flat(a));
    } else {
        assert((a + b).drop_last() =~= a + b.drop_last());
        lemma_flat_add(a, b.drop_last());
        assert(flat(a + b) =~= flat(b) + flat(a));
    }
}

/// The orders ahead of level `i`, those at it, and those behind it.
proof fn lemma_flat_split(levels: Seq<PriceLevel>, i: int)
    requires
        0 <= i < levels.len(),
    ensures
        flat(levels) == flat(levels.skip(i + 1)) + (levels[i].orders@ + flat(levels.take(i))),
{
    assert(levels =~= levels.take(i + 1) + levels.skip(i + 1));
    lemma_flat_add(levels.take(i + 1), levels.skip(i + 1));
    assert(levels.take(i + 1).drop_last() =~= levels.take(i));
}

proof fn lemma_flat_member(levels: Seq<PriceLevel>, k: int)
    requires
        0 <= k < flat(levels).len(),
    ensures
        exists|i: int, m: int|
            0 <= i < levels.len() && 0 <= m < (#[trigger] levels[i]).orders@.len() && flat(levels)[k]
                == #[trigger] levels[i].orders@[m],
    decreases levels.len(),
{
    if levels.len() > 0 {
        let n: int = levels.last().orders@.len() as int;
        if k < n {
            assert(flat(levels)[k] == levels[levels.len() - 1].orders@[k]);
        } else {
            lemma_flat_member(levels.drop_last(), k - n);
            let (i, m): (int, int) = choose|i: int, m: int|
                0 <= i < levels.drop_last().len() && 0 <= m < (#[trigger] levels.drop_last()[i]).orders@.len()
                    && flat(levels.drop_last())[k - n] == #[trigger] levels.drop_last()[i].orders@[m];
            assert(levels.drop_last()[i] == levels[i]);
            assert(flat(levels)[k] == levels[i].orders@[m]);
        }
    }
}

pub open spec fn levels_ok(side: Side, levels: Seq<PriceLevel>) -> bool {
    &&& forall|i: int| 0 <= i < levels.len() ==> level_ok(side, #[trigger] levels[i])
    &&& forall|i: int, j: int|
        0 <= i < j < levels.len() ==> better(side, (#[trigger] levels[j]).price, (#[trigger] levels[i]).price)
}

proof fn lemma_flat_ranked(side: Side, levels: Seq<PriceLevel>)
    requires
        levels_ok(side, levels),
    ensures
        well_ranked(side, flat(levels)),
    decreases levels.len(),
{
    if levels.len() > 0 {
        let rest: Seq<PriceLevel> = levels.drop_last();
        assert forall|i: int| 0 <= i < rest.len() implies level_ok(side, #[trigger] rest[i]) by {
            assert(level_ok(side, levels[i]));
        }
        lemma_flat_ranked(side, rest);
        let l: PriceLevel = levels.last();
        assert(level_ok(side, levels[levels.len() - 1]));
        let s: Seq<Order> = flat(levels);
        let n: int = l.orders@.len() as int;
        assert forall|i: int| 0 <= i < s.len() implies can_rest(side, #[trigger] s[i]) by {
            if i < n {
                assert(s[i] == l.orders@[i]);
            } else {
                assert(s[i] == flat(rest)[i - n]);
            }
        }
        assert forall|i: int, j: int| 0 <= i < j < s.len() implies outranks(side, #[trigger] s[i], #[trigger] s[j]) by {
            if j < n {
                assert(s[i] == l.orders@[i] && s[j] == l.orders@[j]);
            } else if i >= n {
                assert(s[i] == flat(rest)[i - n] && s[j] == flat(rest)[j - n]);
            } else {
                assert(s[i] == l.orders@[i]);
                assert(s[j] == flat(rest)[j - n]);
                lemma_flat_member(rest, j - n);
                let (a, m): (int, int) = choose|a: int, m: int|
                    0 <= a < rest.len() && 0 <= m < (#[trigger] rest[a]).orders@.len() && flat(rest)[j - n]
                        == #[trigger] rest[a].orders@[m];
                assert(level_ok(side, levels[a]));
                assert(rest[a] == levels[a]);
                assert(better(side, levels[levels.len() - 1].price, levels[a].price));
            }
        }
    }
}

/// Every order of `flat(levels)` has the price of one of the levels.
proof fn lemma_flat_prices(side: Side, levels: Seq<PriceLevel>, k: int)
    requires
        forall|i: int| 0 <= i < levels.len() ==> level_ok(side, #[trigger] levels[i]),
        0 <= k < flat(levels).len(),
    ensures
        exists|i: int| 0 <= i < levels.len() && flat(levels)[k].limit_px == (#[trigger] levels[i]).price,
{
    lemma_flat_member(levels, k);
    let (i, m): (int, int) = choose|i: int, m: int|
        0 <= i < levels.len() && 0 <= m < (#[trigger] levels[i]).orders@.len() && flat(levels)[k]
            == #[trigger] levels[i].orders@[m];
    assert(level_ok(side, levels[i]));
    assert(levels[i].orders@[m].limit_px == levels[i].price);
}

/// Where a queue in order of arrival takes `order`: at the end if the last
/// one arrived no later, else in front of the first that did not arrive
/// before it.
fn arrival_slot(queue: &VecDeque<Order>, order: &Order) -> (r: usize)
    requires
        forall|k: int, m: int|
            0 <= k < m < queue@.len() ==> arrived_by(#[trigger] queue@[k], #[trigger] queue@[m]),
    ensures
        r <= queue@.len(),
        forall|k: int| 0 <= k < r ==> arrived_by(#[trigger] queue@[k], *order),
        forall|k: int| r <= k < queue@.len() ==> !arrived_before(#[trigger] queue@[k], *order),
        queue@.len() == 0 || arrived_by(queue@[queue@.len() - 1], *order) ==> r == queue@.len(),
        queue@.len() > 0 && !arrived_by(queue@[queue@.len() - 1], *order) ==> forall|k: int|
            0 <= k < r ==> arrived_before(#[trigger] queue@[k], *order),
{
    let n: usize = queue.len();
    if n == 0 || has_arrived_by(&queue[n - 1], order) {
        proof {
            assert forall|k: int| 0 <= k < n implies arrived_by(#[trigger] queue@[k], *order) by {
                if k < n - 1 {
                    assert(arrived_by(queue@[k], queue@[n - 1]));
                }
            }
        }
        return n;
    }
    let mut lo: usize = 0;
    let mut hi: usize = n;
    while lo < hi
        invariant
            lo <= hi <= n,
            n == queue@.len(),
            forall|k: int, m: int|
                0 <= k < m < queue@.len() ==> arrived_by(#[trigger] queue@[k], #[trigger] queue@[m]),
            forall|k: int| 0 <= k < lo ==> arrived_before(#[trigger] queue@[k], *order),
            forall|k: int| hi <= k < queue@.len() ==> !arrived_before(#[trigger] queue@[k], *order),
        decreases hi - lo,
    {
        let mid: usize = lo + (hi - lo) / 2;
        if has_arrived_by(order, &queue[mid]) {
            assert forall|k: int| mid <= k < queue@.len() implies !arrived_before(#[trigger] queue@[k], *order) by {
                if k > mid {
                    assert(arrived_by(queue@[mid as int], queue@[k]));
                }
            }
            hi = mid;
        } else {
            assert forall|k: int| 0 <= k < mid + 1 implies arrived_before(#[trigger] queue@[k], *order) by {
                if k < mid {
                    assert(arrived_by(queue@[k], queue@[mid as int]));
                }
            }
            lo = mid + 1;
        }
    }
    lo
}

/// The orders ahead of level `i` have better prices than it, those behind it
/// worse ones.
proof fn lemma_sides_of_level(side: Side, levels: Seq<PriceLevel>, i: int)
    requires
        levels_ok(side, levels),
        0 <= i < levels.len(),
    ensures
        forall|k: int|
            0 <= k < flat(levels.skip(i + 1)).len() ==> better(
                side,
                (#[trigger] flat(levels.skip(i + 1))[k]).limit_px,
                levels[i].price,
            ),
        forall|k: int|
            0 <= k < flat(levels.take(i)).len() ==> better(
                side,
                levels[i].price,
                (#[trigger] flat(levels.take(i))[k]).limit_px,
            ),
{
    let hi: Seq<PriceLevel> = levels.skip(i + 1);
    let lo: Seq<PriceLevel> = levels.take(i);
    assert forall|j: int| 0 <= j < hi.len() implies level_ok(side, #[trigger] hi[j]) by {
        assert(level_ok(side, levels[j + i + 1]));
    }
    assert forall|j: int| 0 <= j < lo.len() implies level_ok(side, #[trigger] lo[j]) by {
        assert(level_ok(side, levels[j]));
    }
    assert forall|k: int| 0 <= k < flat(hi).len() implies better(side, (#[trigger] flat(hi)[k]).limit_px, levels[i].price) by {
        lemma_flat_prices(side, hi, k);
        let j: int = choose|j: int| 0 <= j < hi.len() && flat(hi)[k].limit_px == (#[trigger] hi[j]).price;
        assert(better(side, levels[j + i + 1].price, levels[i].price));
    }
    assert forall|k: int| 0 <= k < flat(lo).len() implies better(side, levels[i].price, (#[trigger] flat(lo)[k]).limit_px) by {
        lemma_flat_prices(side, lo, k);
        let j: int = choose|j: int| 0 <= j < lo.len() && flat(lo)[k].limit_px == (#[trigger] lo[j]).price;
        assert(better(side, levels[i].price, levels[j].price));
    }
}

proof fn lemma_rest_index_in_level(side: Side, levels: Seq<PriceLevel>, i: int, o: Order, slot: int)
    requires
        levels_ok(side, levels),
        0 <= i < levels.len(),
        levels[i].price == o.limit_px,
        0 <= slot <= levels[i].orders@.len(),
        arrived_by(levels[i].orders@.last(), o) ==> slot == levels[i].orders@.len(),
        !arrived_by(levels[i].orders@.last(), o) ==> (forall|k: int|
            0 <= k < slot ==> arrived_before(#[trigger] levels[i].orders@[k], o)) && (forall|k: int|
            slot <= k < levels[i].orders@.len() ==> !arrived_before(#[trigger] levels[i].orders@[k], o)),
    ensures
        rest_index(side, flat(levels), o) == flat(levels.skip(i + 1)).len() + slot,
{
    let s: Seq<Order> = flat(levels);
    let queue: Seq<Order> = levels[i].orders@;
    let a: Seq<Order> = flat(levels.skip(i + 1));
    let b: Seq<Order> = flat(levels.take(i));
    assert(level_ok(side, levels[i]));
    lemma_flat_split(levels, i);
    lemma_sides_of_level(side, levels, i);
    let start = |x: Order| better(side, x.limit_px, o.limit_px);
    let end = |x: Order| !better(side, o.limit_px, x.limit_px);
    let early = |x: Order| better(side, x.limit_px, o.limit_px) || (x.limit_px == o.limit_px && arrived_before(x, o));
    let n: int = a.len() as int;
    let m: int = n + queue.len();
    assert forall|k: int| 0 <= k < n implies #[trigger] s[k] == a[k] by {}
    assert forall|k: int| n <= k < m implies #[trigger] s[k] == queue[k - n] && s[k].limit_px == o.limit_px by {
        assert(queue[k - n].limit_px == levels[i].price);
    }
    assert forall|k: int| m <= k < s.len() implies #[trigger] s[k] == b[k - m] by {}
    assert forall|k: int| 0 <= k < n implies start(#[trigger] s[k]) && end(s[k]) && early(s[k]) by {
        assert(better(side, a[k].limit_px, levels[i].price));
    }
    assert forall|k: int| n <= k < m implies !start(#[trigger] s[k]) && end(s[k]) by {
    }
    assert forall|k: int| m <= k < s.len() implies !start(#[trigger] s[k]) && !end(s[k]) && !early(s[k]) by {
        assert(better(side, levels[i].price, b[k - m].limit_px));
    }
    lemma_leading(s, start, n);
    lemma_leading(s, end, m);
    if !arrived_by(queue.last(), o) {
        assert forall|k: int| n <= k < n + slot implies early(#[trigger] s[k]) by {
            assert(arrived_before(queue[k - n], o));
        }
        if slot < queue.len() {
            assert(!arrived_before(queue[slot], o));
            assert(s[n + slot] == queue[slot]);
        }
        lemma_leading(s, early, n + slot);
    }
    assert(s[m - 1] == queue.last());
}

proof fn lemma_rest_index_new_level(side: Side, levels: Seq<PriceLevel>, i: int, o: Order)
    requires
        levels_ok(side, levels),
        0 <= i <= levels.len(),
        forall|j: int| 0 <= j < i ==> better(side, o.limit_px, (#[trigger] levels[j]).price),
        forall|j: int| i <= j < levels.len() ==> better(side, (#[trigger] levels[j]).price, o.limit_px),
    ensures
        rest_index(side, flat(levels), o) == flat(levels.skip(i)).len(),
{
    let s: Seq<Order> = flat(levels);
    let hi: Seq<PriceLevel> = levels.skip(i);
    let lo: Seq<PriceLevel> = levels.take(i);
    assert(levels =~= lo + hi);
    lemma_flat_add(lo, hi);
    assert forall|j: int| 0 <= j < hi.len() implies level_ok(side, #[trigger] hi[j]) by {
        assert(level_ok(side, levels[j + i]));
    }
    assert forall|j: int| 0 <= j < lo.len() implies level_ok(side, #[trigger] lo[j]) by {
        assert(level_ok(side, levels[j]));
    }
    let start = |x: Order| better(side, x.limit_px, o.limit_px);
    let end = |x: Order| !better(side, o.limit_px, x.limit_px);
    let n: int = flat(hi).len() as int;
    assert forall|k: int| 0 <= k < n implies start(#[trigger] s[k]) && end(s[k]) by {
        assert(s[k] == flat(hi)[k]);
        lemma_flat_prices(side, hi, k);
        let j: int = choose|j: int| 0 <= j < hi.len() && flat(hi)[k].limit_px == (#[trigger] hi[j]).price;
        assert(better(side, levels[j + i].price, o.limit_px));
    }
    assert forall|k: int| n <= k < s.len() implies !start(#[trigger] s[k]) && !end(s[k]) by {
        assert(s[k] == flat(lo)[k - n]);
        lemma_flat_prices(side, lo, k - n);
        let j: int = choose|j: int| 0 <= j < lo.len() && flat(lo)[k - n].limit_px == (#[trigger] lo[j]).price;
        assert(better(side, o.limit_px, levels[j].price));
    }
    lemma_leading(s, start, n);
    lemma_leading(s, end, n);
}

proof fn lemma_find_in_level(side: Side, levels: Seq<PriceLevel>, i: int, oid: u64, k: int)
    requires
        levels_ok(side, levels),
        0 <= i < levels.len(),
        0 <= k <= levels[i].orders@.len(),
        forall|m: int| 0 <= m < k ==> (#[trigger] levels[i].orders@[m]).oid != oid,
        k < levels[i].orders@.len() ==> levels[i].orders@[k].oid == oid,
    ensures
        find_resting(flat(levels), levels[i].price, oid) == if k < levels[i].orders@.len() {
            flat(levels.skip(i + 1)).len() + k
        } else {
            flat(levels).len() as int
        },
{
    let price: Price = levels[i].price;
    let s: Seq<Order> = flat(levels);
    let queue: Seq<Order> = levels[i].orders@;
    let a: Seq<Order> = flat(levels.skip(i + 1));
    let b: Seq<Order> = flat(levels.take(i));
    assert(level_ok(side, levels[i]));
    lemma_flat_split(levels, i);
    lemma_sides_of_level(side, levels, i);
    let misses = |x: Order| !(x.limit_px == price && x.oid == oid);
    let n: int = a.len() as int;
    let m: int = n + queue.len();
    assert forall|j: int| 0 <= j < n implies misses(#[trigger] s[j]) by {
        assert(s[j] == a[j]);
        assert(better(side, a[j].limit_px, price));
    }
    assert forall|j: int| n <= j < n + k implies misses(#[trigger] s[j]) by {
        assert(s[j] == queue[j - n]);
    }
    assert forall|j: int| m <= j < s.len() implies misses(#[trigger] s[j]) by {
        assert(s[j] == b[j - m]);
        assert(better(side, price, b[j - m].limit_px));
    }
    if k < queue.len() {
        assert(s[n + k] == queue[k]);
        assert(queue[k].limit_px == price);
        lemma_leading(s, misses, n + k);
    } else {
        lemma_leading(s, misses, s.len() as int);
    }
}

proof fn lemma_grown_level(side: Side, before: PriceLevel, after: PriceLevel, slot: int, o: Order)
    requires
        level_ok(side, before),
        can_rest(side, o),
        o.limit_px == before.price,
        after.price == before.price,
        0 <= slot <= before.orders@.len(),
        after.orders@ == before.orders@.insert(slot, o),
        forall|k: int| 0 <= k < slot ==> arrived_by(#[trigger] before.orders@[k], o),
        forall|k: int| slot <= k < before.orders@.len() ==> !arrived_before(#[trigger] before.orders@[k], o),
    ensures
        level_ok(side, after),
{
    let queue: Seq<Order> = before.orders@;
    let grown: Seq<Order> = after.orders@;
    assert forall|k: int| 0 <= k < grown.len() implies can_rest(side, #[trigger] grown[k]) && grown[k].limit_px
        == after.price by {
        if k < slot {
            assert(can_rest(side, queue[k]));
        } else if k > slot {
            assert(can_rest(side, queue[k - 1]));
        }
    }
    assert forall|k: int, m: int| 0 <= k < m < grown.len() implies arrived_by(#[trigger] grown[k], #[trigger] grown[m]) by {
        let k0: int = if k < slot { k } else { k - 1 };
        let m0: int = if m < slot { m } else { m - 1 };
        if k != slot && m != slot {
            assert(arrived_by(queue[k0], queue[m0]));
        } else if k == slot {
            assert(!arrived_before(queue[m0], o));
        } else {
            assert(arrived_by(queue[k0], o));
        }
    }
}

proof fn lemma_new_level(side: Side, before: Seq<PriceLevel>, i: int, fresh: PriceLevel)
    requires
        levels_ok(side, before),
        0 <= i <= before.len(),
        level_ok(side, fresh),
        forall|j: int| 0 <= j < i ==> better(side, fresh.price, (#[trigger] before[j]).price),
        forall|j: int| i <= j < before.len() ==> better(side, (#[trigger] before[j]).price, fresh.price),
    ensures
        levels_ok(side, before.insert(i, fresh)),
        flat(before) == flat(before.skip(i)) + flat(before.take(i)),
        flat(before.insert(i, fresh)) == flat(before.skip(i)) + (fresh.orders@ + flat(before.take(i))),
{
    let after: Seq<PriceLevel> = before.insert(i, fresh);
    assert forall|j: int| 0 <= j < after.len() implies level_ok(side, #[trigger] after[j]) by {
        if j < i {
            assert(level_ok(side, before[j]));
        } else if j > i {
            assert(level_ok(side, before[j - 1]));
        }
    }
    assert forall|j: int, k: int| 0 <= j < k < after.len() implies better(
        side,
        (#[trigger] after[k]).price,
        (#[trigger] after[j]).price,
    ) by {
        let j0: int = if j < i { j } else { j - 1 };
        let k0: int = if k < i { k } else { k - 1 };
        if j != i && k != i {
            assert(better(side, before[k0].price, before[j0].price));
        } else if j == i {
            assert(better(side, before[k0].price, fresh.price));
        } else {
            assert(better(side, fresh.price, before[j0].price));
        }
    }
    assert(before =~= before.take(i) + before.skip(i));
    lemma_flat_add(before.take(i), before.skip(i));
    lemma_flat_split(after, i);
    assert(after.skip(i + 1) =~= before.skip(i));
    assert(after.take(i) =~= before.take(i));
}

proof fn lemma_dropped_level(side: Side, before: Seq<PriceLevel>, i: int)
    requires
        levels_ok(side, before),
        0 <= i < before.len(),
    ensures
        levels_ok(side, before.remove(i)),
        flat(before.remove(i)) == flat(before.skip(i + 1)) + flat(before.take(i)),
{
    let after: Seq<PriceLevel> = before.remove(i);
    assert forall|j: int| 0 <= j < after.len() implies level_ok(side, #[trigger] after[j]) by {
        assert(level_ok(side, before[if j < i { j } else { j + 1 }]));
    }
    assert forall|a: int, b: int| 0 <= a < b < after.len() implies better(
        side,
        (#[trigger] after[b]).price,
        (#[trigger] after[a]).price,
    ) by {
        let a0: int = if a < i { a } else { a + 1 };
        let b0: int = if b < i { b } else { b + 1 };
        assert(better(side, before[b0].price, before[a0].price));
    }
    assert(after =~= before.take(i) + before.skip(i + 1));
    lemma_flat_add(before.take(i), before.skip(i + 1));
}

proof fn lemma_shrunk_level(side: Side, before: Seq<PriceLevel>, i: int, shrunk: PriceLevel, k: int)
    requires
        levels_ok(side, before),
        0 <= i < before.len(),
        0 <= k < before[i].orders@.len(),
        before[i].orders@.len() > 1,
        shrunk.price == before[i].price,
        shrunk.orders@ == before[i].orders@.remove(k),
    ensures
        levels_ok(side, before.update(i, shrunk)),
        flat(before.update(i, shrunk)) == flat(before.skip(i + 1)) + (shrunk.orders@ + flat(before.take(i))),
{
    let after: Seq<PriceLevel> = before.update(i, shrunk);
    let queue: Seq<Order> = before[i].orders@;
    let rest: Seq<Order> = shrunk.orders@;
    assert(level_ok(side, before[i]));
    assert(level_ok(side, shrunk)) by {
        assert forall|m: int| 0 <= m < rest.len() implies can_rest(side, #[trigger] rest[m]) && rest[m].limit_px
            == shrunk.price by {
            assert(can_rest(side, queue[if m < k { m } else { m + 1 }]));
        }
        assert forall|a: int, b: int| 0 <= a < b < rest.len() implies arrived_by(#[trigger] rest[a], #[trigger] rest[b]) by {
            let a0: int = if a < k { a } else { a + 1 };
            let b0: int = if b < k { b } else { b + 1 };
            assert(arrived_by(queue[a0], queue[b0]));
        }
    }
    assert forall|j: int| 0 <= j < after.len() implies level_ok(side, #[trigger] after[j]) by {
        if j != i {
            assert(level_ok(side, before[j]));
        }
    }
    assert forall|a: int, b: int| 0 <= a < b < after.len() implies better(
        side,
        (#[trigger] after[b]).price,
        (#[trigger] after[a]).price,
    ) by {
        assert(better(side, before[b].price, before[a].price));
    }
    lemma_flat_split(after, i);
    assert(after.skip(i + 1) =~= before.skip(i + 1));
    assert(after.take(i) =~= before.take(i));
}

proof fn lemma_price_absent(side: Side, levels: Seq<PriceLevel>, i: int, price: Price, oid: u64)
    requires
        levels_ok(side, levels),
        0 <= i <= levels.len(),
        i < levels.len() ==> levels[i].price != price,
        forall|j: int| 0 <= j < i ==> better(side, price, (#[trigger] levels[j]).price),
        forall|j: int| i <= j < levels.len() ==> !better(side, price, (#[trigger] levels[j]).price),
    ensures
        find_resting(flat(levels), price, oid) == flat(levels).len(),
{
    let s: Seq<Order> = flat(levels);
    let misses = |x: Order| !(x.limit_px == price && x.oid == oid);
    assert forall|k: int| 0 <= k < s.len() implies misses(#[trigger] s[k]) by {
        lemma_flat_prices(side, levels, k);
        let j: int = choose|j: int| 0 <= j < levels.len() && s[k].limit_px == (#[trigger] levels[j]).price;
        if j < i {
            assert(better(side, price, levels[j].price));
        } else {
            assert(!better(side, price, levels[j].price));
            assert(j == i || better(side, levels[j].price, levels[i].price));
        }
    }
    lemma_leading(s, misses, s.len() as int);
}

/// One side of a resting book.
#[derive(Debug)]
pub struct Ladder {
    pub(crate) side: Side,
    /// The price levels, worst price first; none is empty.
    pub(crate) levels: Vec<PriceLevel>,
}

impl View for Ladder {
    type V = Seq<Order>;

    /// The resting orders, best price first and in order of arrival at each
    /// price.
    closed spec fn view(&self) -> Seq<Order> {
        flat(self.levels@)
    }
}

impl Ladder {
    pub closed spec fn spec_side(&self) -> Side {
        self.side
    }

    /// Levels are in strict price order, a level is there only while an
    /// order rests at its price, and each level is in order of arrival.
    pub closed spec fn wf(&self) -> bool {
        levels_ok(self.side, self.levels@)
    }

    /// The price levels, worst price first.
    pub closed spec fn spec_levels(&self) -> Seq<PriceLevel> {
        self.levels@
    }

    /// The number of distinct prices at which orders rest.
    pub open spec fn spec_level_count(&self) -> nat {
        self.spec_levels().len()
    }

    /// A side is its levels, from the best price to the worst.
    pub proof fn lemma_levels(&self)
        ensures
            self@ == flat(self.spec_levels()),
            self.wf() == levels_ok(self.spec_side(), self.spec_levels()),
    {
    }

    pub proof fn lemma_ranked(&self)
        requires
            self.wf(),
        ensures
            well_ranked(self.spec_side(), self@),
    {
        lemma_flat_ranked(self.side, self.levels@);
    }

    pub fn new(side: Side) -> (r: Self)
        ensures
            r.wf(),
            r.spec_side() == side,
            r@ == Seq::<Order>::empty(),
    {
        Ladder { side, levels: Vec::new() }
    }

    /// The number of levels from the worst up whose price is worse than
    /// `price`.
    fn locate(&self, price: Price) -> (r: usize)
        requires
            self.wf(),
        ensures
            r <= self.levels.len(),
            forall|j: int| 0 <= j < r ==> better(self.side, price, (#[trigger] self.levels@[j]).price),
            forall|j: int|
                r <= j < self.levels.len() ==> !better(self.side, price, (#[trigger] self.levels@[j]).price),
    {
        let mut lo: usize = 0;
        let mut hi: usize = self.levels.len();
        while lo < hi
            invariant
                self.wf(),
                lo <= hi <= self.levels.len(),
                forall|j: int| 0 <= j < lo ==> better(self.side, price, (#[trigger] self.levels@[j]).price),
                forall|j: int|
                    hi <= j < self.levels.len() ==> !better(self.side, price, (#[trigger] self.levels@[j]).price),
            decreases hi - lo,
        {
            let mid: usize = lo + (hi - lo) / 2;
            if is_better(self.side, price, self.levels[mid].price) {
                assert forall|j: int| 0 <= j < mid + 1 implies better(
                    self.side,
                    price,
                    (#[trigger] self.levels@[j]).price,
                ) by {
                    if j < mid {
                        assert(better(self.side, self.levels@[mid as int].price, self.levels@[j].price));
                    }
                }
                lo = mid + 1;
            } else {
                assert forall|j: int| mid <= j < self.levels.len() implies !better(
                    self.side,
                    price,
                    (#[trigger] self.levels@[j]).price,
                ) by {
                    if j > mid {
                        assert(better(self.side, self.levels@[j].price, self.levels@[mid as int].price));
                    }
                }
                hi = mid;
            }
        }
        lo
    }

    pub fn is_empty(&self) -> (r: bool)
        requires
            self.wf(),
        ensures
            r == (self@.len() == 0),
    {
        proof {
            if self.levels@.len() > 0 {
                assert(level_ok(self.side, self.levels@[self.levels@.len() - 1]));
            }
        }
        self.levels.len() == 0
    }

    /// The order with the highest priority.
    pub fn best(&self) -> (r: Option<&Order>)
        requires
            self.wf(),
        ensures
            match r {
                Some(o) => self@.len() > 0 && *o == self@[0],
                None => self@.len() == 0,
            },
    {
        let n: usize = self.levels.len();
        if n == 0 {
            return None;
        }
        proof {
            assert(level_ok(self.side, self.levels@[n - 1]));
        }
        let level: &PriceLevel = &self.levels[n - 1];
        Some(&level.orders[0])
    }

    /// Fills `qty` of the best order, which leaves the book when nothing of
    /// it is left.
    pub fn fill_best(&mut self, qty: u128)
        requires
            old(self).wf(),
            old(self)@.len() > 0,
            0 < qty <= old(self)@[0].remaining,
        ensures
            final(self).wf(),
            final(self).spec_side() == old(self).spec_side(),
            final(self)@ == (if qty == old(self)@[0].remaining {
                old(self)@.drop_first()
            } else {
                old(self)@.update(0, old(self)@[0].filled_by(qty as int))
            }),
    {
        let ghost before: Seq<PriceLevel> = self.levels@;
        let n: usize = self.levels.len();
        proof {
            if n > 0 {
                assert(level_ok(self.side, before[n - 1]));
            }
        }
        let mut level: PriceLevel = self.levels.pop().unwrap();
        let ghost queue: Seq<Order> = level.orders@;
        let mut best: Order = level.orders.pop_front().unwrap();
        best.reduce(qty);
        if best.remaining > 0 {
            level.orders.push_front(best);
            proof {
                assert(level.orders@ =~= queue.update(0, queue[0].filled_by(qty as int)));
                assert forall|k: int| 0 <= k < level.orders@.len() implies can_rest(self.side, #[trigger] level.orders@[k]) by {
                    assert(can_rest(self.side, queue[k]));
                }
                assert forall|k: int| 0 <= k < level.orders@.len() implies (#[trigger] level.orders@[k]).limit_px == level.price by {
                    assert(queue[k].limit_px == level.price);
                }
                assert forall|k: int, m: int| 0 <= k < m < level.orders@.len() implies arrived_by(#[trigger] level.orders@[k], #[trigger] level.orders@[m]) by {
                    assert(arrived_by(queue[k], queue[m]));
                }
            }
            self.levels.push(level);
            proof {
                assert(self.levels@.drop_last() =~= before.drop_last());
                assert(self@ =~= old(self)@.update(0, old(self)@[0].filled_by(qty as int)));
            }
        } else if level.orders.len() > 0 {
            proof {
                assert(level.orders@ =~= queue.drop_first());
                assert forall|k: int| 0 <= k < level.orders@.len() implies can_rest(self.side, #[trigger] level.orders@[k]) by {
                    assert(can_rest(self.side, queue[k + 1]));
                }
                assert forall|k: int| 0 <= k < level.orders@.len() implies (#[trigger] level.orders@[k]).limit_px == level.price by {
                    assert(queue[k + 1].limit_px == level.price);
                }
                assert forall|k: int, m: int| 0 <= k < m < level.orders@.len() implies arrived_by(#[trigger] level.orders@[k], #[trigger] level.orders@[m]) by {
                    assert(arrived_by(queue[k + 1], queue[m + 1]));
                }
            }
            self.levels.push(level);
            proof {
                assert(self.levels@.drop_last() =~= before.drop_last());
                assert(self@ =~= old(self)@.drop_first());
            }
        } else {
            proof {
                assert(self.levels@ =~= before.drop_last());
                assert(self@ =~= old(self)@.drop_first());
            }
        }
    }

    /// Rests `order` at the place that price-time priority gives it.
    pub fn insert(&mut self, order: Order)
        requires
            old(self).wf(),
            can_rest(old(self).spec_side(), order),
        ensures
            final(self).wf(),
            final(self).spec_side() == old(self).spec_side(),
            0 <= rest_index(old(self).spec_side(), old(self)@, order) <= old(self)@.len(),
            final(self)@ == old(self)@.insert(rest_index(old(self).spec_side(), old(self)@, order), order),
    {
        let ghost side: Side = self.side;
        let ghost before: Seq<PriceLevel> = self.levels@;
        let price: Price = order.limit_px;
        let i: usize = self.locate(price);
        if i < self.levels.len() && self.levels[i].price == price {
            let ghost queue: Seq<Order> = before[i as int].orders@;
            proof {
                assert(level_ok(side, before[i as int]));
            }
            let slot: usize = arrival_slot(&self.levels[i].orders, &order);
            self.levels[i].orders.insert(slot, order);
            proof {
                let after: Seq<PriceLevel> = self.levels@;
                assert(after =~= before.update(i as int, after[i as int]));
                lemma_grown_level(side, before[i as int], after[i as int], slot as int, order);
                lemma_flat_split(before, i as int);
                lemma_flat_split(after, i as int);
                assert(after.skip(i + 1) =~= before.skip(i + 1));
                assert(after.take(i as int) =~= before.take(i as int));
                lemma_rest_index_in_level(side, before, i as int, order, slot as int);
                let ahead: int = flat(before.skip(i + 1)).len() as int;
                assert(self@ =~= old(self)@.insert(ahead + slot, order));
            }
        } else {
            let mut orders: VecDeque<Order> = VecDeque::new();
            orders.push_back(order);
            self.levels.insert(i, PriceLevel { price, orders });
            proof {
                let after: Seq<PriceLevel> = self.levels@;
                let fresh: PriceLevel = after[i as int];
                assert(after =~= before.insert(i as int, fresh));
                assert(fresh.orders@ =~= seq![order]);
                assert forall|j: int| i <= j < before.len() implies better(side, (#[trigger] before[j]).price, price) by {
                    assert(!better(side, price, before[j].price));
                    assert(j == i || better(side, before[j].price, before[i as int].price));
                }
                lemma_new_level(side, before, i as int, fresh);
                lemma_rest_index_new_level(side, before, i as int, order);
                let ahead: int = flat(before.skip(i as int)).len() as int;
                assert(self@ =~= old(self)@.insert(ahead, order));
            }
        }
    }

    /// Takes out the first order with this price and id, if one rests here.
    pub fn remove(&mut self, price: Price, oid: u64) -> (r: Option<Order>)
        requires
            old(self).wf(),
        ensures
            final(self).wf(),
            final(self).spec_side() == old(self).spec_side(),
            ({
                let at = find_resting(old(self)@, price, oid);
                &&& 0 <= at <= old(self)@.len()
                &&& if at < old(self)@.len() {
                    r == Some(old(self)@[at]) && final(self)@ == old(self)@.remove(at)
                } else {
                    r is None && final(self)@ == old(self)@
                }
            }),
    {
        let ghost side: Side = self.side;
        let ghost before: Seq<PriceLevel> = self.levels@;
        let i: usize = self.locate(price);
        if i < self.levels.len() && self.levels[i].price == price {
            let ghost queue: Seq<Order> = before[i as int].orders@;
            proof {
                assert(level_ok(side, before[i as int]));
            }
            let n: usize = self.levels[i].orders.len();
            let mut k: usize = 0;
            while k < n && self.levels[i].orders[k].oid != oid
                invariant
                    i < self.levels.len(),
                    self.levels@[i as int].orders@ == queue,
                    n == queue.len(),
                    k <= n,
                    forall|m: int| 0 <= m < k ==> (#[trigger] queue[m]).oid != oid,
                decreases n - k,
            {
                k += 1;
            }
            proof {
                lemma_flat_split(before, i as int);
                lemma_find_in_level(side, before, i as int, oid, k as int);
            }
            if k == n {
                return None;
            }
            let ghost at: int = flat(before.skip(i + 1)).len() + k;
            let removed: Option<Order> = self.levels[i].orders.remove(k);
            if self.levels[i].orders.len() == 0 {
                self.levels.remove(i);
                proof {
                    assert(self.levels@ =~= before.remove(i as int));
                    lemma_dropped_level(side, before, i as int);
                    assert(self@ =~= old(self)@.remove(at));
                }
            } else {
                proof {
                    let after: Seq<PriceLevel> = self.levels@;
                    assert(after =~= before.update(i as int, after[i as int]));
                    lemma_shrunk_level(side, before, i as int, after[i as int], k as int);
                    assert(self@ =~= old(self)@.remove(at));
                }
            }
            removed
        } else {
            proof {
                lemma_price_absent(side, before, i as int, price, oid);
            }
            None
        }
    }

    /// The resting orders, best first.
    pub fn to_vec(&self) -> (r: Vec<&Order>)
        requires
            self.wf(),
        ensures
            r@.len() == self@.len(),
            forall|i: int| 0 <= i < r@.len() ==> *(#[trigger] r@[i]) == self@[i],
    {
        let mut r: Vec<&Order> = Vec::new();
        let mut i: usize = self.levels.len();
        proof {
            assert(self.levels@.skip(i as int) =~= Seq::<PriceLevel>::empty());
        }
        while i > 0
            invariant
                i <= self.levels.len(),
                r@.len() == flat(self.levels@.skip(i as int)).len(),
                forall|k: int| 0 <= k < r@.len() ==> *(#[trigger] r@[k]) == flat(self.levels@.skip(i as int))[k],
            decreases i,
        {
            i -= 1;
            let ghost ahead: Seq<Order> = flat(self.levels@.skip(i + 1));
            let queue: &VecDeque<Order> = &self.levels[i].orders;
            let mut k: usize = 0;
            while k < queue.len()
                invariant
                    k <= queue.len(),
                    r@.len() == ahead.len() + k,
                    forall|m: int| 0 <= m < r@.len() ==> *(#[trigger] r@[m]) == (ahead + queue@)[m],
                decreases queue.len() - k,
            {
                r.push(&queue[k]);
                k += 1;
            }
            proof {
                let tail: Seq<PriceLevel> = self.levels@.skip(i as int);
                assert(tail =~= seq![self.levels@[i as int]] + self.levels@.skip(i + 1));
                lemma_flat_add(seq![self.levels@[i as int]], self.levels@.skip(i + 1));
                let one: Seq<PriceLevel> = seq![self.levels@[i as int]];
                assert(one.drop_last() =~= Seq::<PriceLevel>::empty());
                assert(flat(one.drop_last()) =~= Seq::<Order>::empty());
                assert(flat(one) =~= queue@);
            }
        }
        assert(self.levels@.skip(0) =~= self.levels@);
        r
    }

    /// The number of distinct prices at which orders rest.
    pub fn level_count(&self) -> (r: usize)
        ensures
            r == self.spec_level_count(),
    {
        self.levels.len()
    }

    /// Whether the level at index `i`, counted from the worst price, is
    /// empty. No level of a well-formed side is.
    pub fn level_is_empty(&self, i: usize) -> (r: bool)
        requires
            i < self.spec_level_count(),
        ensures
            r == (self.spec_levels()[i as int].orders@.len() == 0),
            self.wf() ==> !r,
    {
        proof {
            if self.wf() {
                assert(level_ok(self.side, self.levels@[i as int]));
            }
        }
        self.levels[i].orders.len() == 0
    }
}

} // verus!
