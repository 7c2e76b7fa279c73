//! The uniform-price call auction: demand and supply curves, the choice of
//! the clearing price, and the rationing of orders at it.

use vstd::prelude::*;
use crate::seqs::{
    distance, leading, lemma_leading_run, lemma_total_add, lemma_total_bounds, lemma_total_permutation,
    lemma_total_prefix, lemma_total_push, lemma_total_same, lemma_total_take, min_of, total,
};
use crate::sorting::{
    comes_before, lemma_stable_order_is_permutation, positions, sort_positions, stable_order, TotalKey,
};
use crate::types::{Amount, Price, Side};

verus! {

/// What the auction reads of an order. `limit` is `None` for a market order.
#[derive(Clone, Copy, Debug)]
pub struct Interest {
    pub side: Side,
    pub limit: Option<Price>,
    pub ts: u64,
    pub oid: u64,
    pub remaining: Amount,
}

/// Whether an order on `side` with this limit would trade at `price`.
pub open spec fn accepts(side: Side, limit: Option<Price>, price: Price) -> bool {
    match limit {
        None => true,
        Some(px) => match side {
            Side::Buy => px >= price,
            Side::Sell => px <= price,
        },
    }
}

/// Whether `it` is on `side` and would trade at `price`.
pub open spec fn eligible(it: Interest, side: Side, price: Price) -> bool {
    it.side == side && accepts(side, it.limit, price)
}

/// The quantity on `side` that would trade at `price`.
pub open spec fn volume_at(book: Seq<Interest>, side: Side, price: Price) -> int {
    total(book, |it: Interest| if eligible(it, side, price) { it.remaining as int } else { 0 })
}

pub open spec fn demand(book: Seq<Interest>, price: Price) -> int {
    volume_at(book, Side::Buy, price)
}

pub open spec fn supply(book: Seq<Interest>, price: Price) -> int {
    volume_at(book, Side::Sell, price)
}

/// The quantity that can trade at `price`.
pub open spec fn matched_at(book: Seq<Interest>, price: Price) -> int {
    min_of(demand(book, price), supply(book, price))
}

/// The quantity of the heavier side that cannot trade at `price`.
pub open spec fn imbalance_at(book: Seq<Interest>, price: Price) -> int {
    distance(demand(book, price), supply(book, price))
}

/// The whole quantity on `side`.
pub open spec fn side_total(book: Seq<Interest>, side: Side) -> int {
    total(book, |it: Interest| if it.side == side { it.remaining as int } else { 0 })
}

/// The quantities of either side are representable.
pub open spec fn sides_fit(book: Seq<Interest>) -> bool {
    side_total(book, Side::Buy) <= u128::MAX && side_total(book, Side::Sell) <= u128::MAX
}

/// The submitted limit prices.
pub open spec fn limit_prices(book: Seq<Interest>) -> Set<Price> {
    Set::new(|p: Price| exists|i: int| 0 <= i < book.len() && (#[trigger] book[i]).limit == Some(p))
}

/// How ties are broken between prices that match the same quantity with the
/// same imbalance.
#[derive(Clone, Copy, Debug)]
pub enum TieRule {
    /// The price closest to the reference, if there is one; then the lowest.
    Nearest { reference: Option<Price> },
    /// The highest price.
    Highest,
}

pub open spec fn wins_tie(rule: TieRule, p: Price, q: Price) -> bool {
    match rule {
        TieRule::Nearest { reference: Some(r) } => {
            let dp = distance(p as int, r as int);
            let dq = distance(q as int, r as int);
            dp < dq || (dp == dq && p < q)
        },
        TieRule::Nearest { reference: None } => p < q,
        TieRule::Highest => p > q,
    }
}

/// `p` is a strictly better clearing price than `q`: it matches more, or as
/// much with less imbalance, or wins the tie.
pub open spec fn preferred(book: Seq<Interest>, rule: TieRule, p: Price, q: Price) -> bool {
    let (vp, vq) = (matched_at(book, p), matched_at(book, q));
    let (ip, iq) = (imbalance_at(book, p), imbalance_at(book, q));
    vp > vq || (vp == vq && (ip < iq || (ip == iq && wins_tie(rule, p, q))))
}

/// `p` is the candidate that beats every other.
pub open spec fn is_best(book: Seq<Interest>, rule: TieRule, candidates: Set<Price>, p: Price) -> bool {
    candidates.contains(p) && forall|q: Price| #[trigger]
        candidates.contains(q) && q != p ==> preferred(book, rule, p, q)
}

/// The clearing price among `candidates`, if there is any.
pub open spec fn clearing_price(book: Seq<Interest>, rule: TieRule, candidates: Set<Price>) -> Option<Price> {
    if exists|p: Price| is_best(book, rule, candidates, p) {
        Some(choose|p: Price| is_best(book, rule, candidates, p))
    } else {
        None
    }
}

/// There is at most one best candidate.
pub proof fn lemma_best_is_unique(book: Seq<Interest>, rule: TieRule, candidates: Set<Price>, p: Price)
    requires
        is_best(book, rule, candidates, p),
    ensures
        clearing_price(book, rule, candidates) == Some(p),
{
    let q: Price = choose|q: Price| is_best(book, rule, candidates, q);
    if q != p {
        assert(candidates.contains(q));
        assert(candidates.contains(p));
        assert(preferred(book, rule, p, q));
        assert(preferred(book, rule, q, p));
    }
}

/// The priority of an order: market orders first, then the most aggressive
/// limit, then the earliest arrival, then the lowest id.
#[derive(Clone, Copy, Debug)]
pub struct Rank {
    pub tier: u8,
    pub price: Price,
    pub ts: u64,
    pub oid: u64,
}

impl TotalKey for Rank {
    open spec fn le(self, other: Self) -> bool {
        self.tier < other.tier || (self.tier == other.tier && (self.price < other.price || (self.price
            == other.price && (self.ts < other.ts || (self.ts == other.ts && self.oid <= other.oid)))))
    }

    proof fn le_total(a: Self, b: Self) {
    }

    proof fn le_transitive(a: Self, b: Self, c: Self) {
    }

    fn at_most(&self, other: &Self) -> (r: bool) {
        self.tier < other.tier || (self.tier == other.tier && (self.price < other.price || (self.price
            == other.price && (self.ts < other.ts || (self.ts == other.ts && self.oid <= other.oid)))))
    }
}

pub open spec fn rank_of(it: Interest) -> Rank {
    match it.limit {
        None => Rank { tier: 0, price: 0, ts: it.ts, oid: it.oid },
        Some(px) => Rank {
            tier: 1,
            price: match it.side {
                Side::Buy => (u128::MAX - px) as u128,
                Side::Sell => px,
            },
            ts: it.ts,
            oid: it.oid,
        },
    }
}

/// The order at position `a` is served before the one at position `b`: it
/// ranks better, or ranks equal and was submitted first.
pub open spec fn served_before(book: Seq<Interest>, a: int, b: int) -> bool {
    let (ra, rb) = (rank_of(book[a]), rank_of(book[b]));
    ra.le(rb) && (!rb.le(ra) || a < b)
}

/// `q` lists the positions of the orders eligible on `side` at `price`, each
/// once, in the order in which they are served.
pub open spec fn is_queue(book: Seq<Interest>, side: Side, price: Price, q: Seq<int>) -> bool {
    &&& forall|i: int| 0 <= i < q.len() ==> 0 <= #[trigger] q[i] < book.len() && eligible(book[q[i]], side, price)
    &&& forall|x: int| 0 <= x < book.len() && eligible(book[x], side, price) ==> #[trigger] q.contains(x)
    &&& forall|i: int, j: int| 0 <= i < j < q.len() ==> served_before(book, #[trigger] q[i], #[trigger] q[j])
}

/// The queue of eligible orders.
pub open spec fn queue(book: Seq<Interest>, side: Side, price: Price) -> Seq<int> {
    choose|q: Seq<int>| is_queue(book, side, price, q)
}

/// There is at most one queue.
pub proof fn lemma_queue_is_unique(book: Seq<Interest>, side: Side, price: Price, q: Seq<int>)
    requires
        is_queue(book, side, price, q),
    ensures
        queue(book, side, price) == q,
{
    let p: Seq<int> = queue(book, side, price);
    assert(is_queue(book, side, price, p));
    lemma_queue_prefix(book, side, price, p, q, if p.len() <= q.len() { p.len() as int } else { q.len() as int });
    if p.len() < q.len() {
        let k: int = p.len() as int;
        assert(p.contains(q[k]));
        let j: int = choose|j: int| 0 <= j < p.len() && p[j] == q[k];
        assert(q[j] == p[j]);
        assert(served_before(book, q[j], q[k]));
    } else if q.len() < p.len() {
        let k: int = q.len() as int;
        assert(q.contains(p[k]));
        let j: int = choose|j: int| 0 <= j < q.len() && q[j] == p[k];
        assert(q[j] == p[j]);
        assert(served_before(book, p[j], p[k]));
    }
    assert(p =~= q);
}

proof fn lemma_queue_prefix(book: Seq<Interest>, side: Side, price: Price, p: Seq<int>, q: Seq<int>, n: int)
    requires
        is_queue(book, side, price, p),
        is_queue(book, side, price, q),
        0 <= n <= p.len(),
        n <= q.len(),
    ensures
        forall|i: int| 0 <= i < n ==> p[i] == q[i],
    decreases n,
{
    if n > 0 {
        let k: int = n - 1;
        lemma_queue_prefix(book, side, price, p, q, k);
        if p[k] != q[k] {
            assert(q.contains(p[k]));
            let j: int = choose|j: int| 0 <= j < q.len() && q[j] == p[k];
            if j < k {
                assert(p[j] == q[j]);
                assert(served_before(book, p[j], p[k]));
            }
            assert(served_before(book, q[k], q[j]));
            assert(p.contains(q[k]));
            let i: int = choose|i: int| 0 <= i < p.len() && p[i] == q[k];
            if i < k {
                assert(p[i] == q[i]);
                assert(served_before(book, q[i], q[k]));
            }
            assert(served_before(book, p[k], p[i]));
        }
    }
}

proof fn lemma_served_transitive(book: Seq<Interest>, a: int, b: int, c: int)
    requires
        served_before(book, a, b),
        served_before(book, b, c),
    ensures
        served_before(book, a, c),
{
}

/// The queue among the first `n` orders.
proof fn lemma_queue_among(book: Seq<Interest>, side: Side, price: Price, n: int) -> (q: Seq<int>)
    requires
        0 <= n <= book.len(),
    ensures
        forall|i: int| 0 <= i < q.len() ==> 0 <= #[trigger] q[i] < n && eligible(book[q[i]], side, price),
        forall|x: int| 0 <= x < n && eligible(book[x], side, price) ==> #[trigger] q.contains(x),
        forall|i: int, j: int| 0 <= i < j < q.len() ==> served_before(book, #[trigger] q[i], #[trigger] q[j]),
    decreases n,
{
    if n == 0 {
        Seq::empty()
    } else {
        let p: Seq<int> = lemma_queue_among(book, side, price, n - 1);
        let x: int = n - 1;
        if !eligible(book[x], side, price) {
            p
        } else {
            let ahead = |y: int| served_before(book, y, x);
            lemma_leading_run(p, ahead);
            let k: int = leading(p, ahead) as int;
            let q: Seq<int> = p.insert(k, x);
            assert forall|y: int| 0 <= y < n && eligible(book[y], side, price) implies #[trigger] q.contains(y) by {
                if y == x {
                    assert(q[k] == x);
                } else {
                    assert(p.contains(y));
                    let i: int = choose|i: int| 0 <= i < p.len() && p[i] == y;
                    assert(q[if i < k { i } else { i + 1 }] == y);
                }
            }
            assert forall|i: int, j: int| 0 <= i < j < q.len() implies served_before(book, #[trigger] q[i], #[trigger] q[j]) by {
                let i0: int = if i < k { i } else { i - 1 };
                let j0: int = if j < k { j } else { j - 1 };
                if i != k && j != k {
                    assert(q[i] == p[i0] && q[j] == p[j0]);
                } else if j == k {
                    assert(ahead(p[i0]));
                } else {
                    assert(!ahead(p[k]));
                    assert(served_before(book, x, p[k]));
                    if j0 > k {
                        assert(served_before(book, p[k], p[j0]));
                        lemma_served_transitive(book, x, p[k], p[j0]);
                    }
                }
            }
            assert forall|i: int| 0 <= i < q.len() implies 0 <= #[trigger] q[i] < n && eligible(book[q[i]], side, price) by {
                if i != k {
                    assert(q[i] == p[if i < k { i } else { i - 1 }]);
                }
            }
            q
        }
    }
}

/// The queue of a batch is a queue.
pub proof fn lemma_queue_exists(book: Seq<Interest>, side: Side, price: Price)
    ensures
        is_queue(book, side, price, queue(book, side, price)),
{
    let q: Seq<int> = lemma_queue_among(book, side, price, book.len() as int);
    assert(is_queue(book, side, price, q));
}

fn rank(it: &Interest) -> (r: Rank)
    ensures
        r == rank_of(*it),
{
    match it.limit {
        None => Rank { tier: 0, price: 0, ts: it.ts, oid: it.oid },
        Some(px) => Rank {
            tier: 1,
            price: match it.side {
                Side::Buy => u128::MAX - px,
                Side::Sell => px,
            },
            ts: it.ts,
            oid: it.oid,
        },
    }
}

pub fn is_eligible(it: &Interest, side: Side, price: Price) -> (r: bool)
    ensures
        r == eligible(*it, side, price),
{
    it.side == side && match it.limit {
        None => true,
        Some(px) => match side {
            Side::Buy => px >= price,
            Side::Sell => px <= price,
        },
    }
}

/// The positions of the orders that would trade on `side` at `price`, most
/// aggressive first, and earliest first among equals.
pub fn eligible_queue(book: &Vec<Interest>, side: Side, price: Price) -> (r: Vec<usize>)
    ensures
        is_queue(book@, side, price, positions(r@)),
        positions(r@) == queue(book@, side, price),
{
    let mut chosen: Vec<usize> = Vec::new();
    let mut keys: Vec<Rank> = Vec::new();
    let mut i: usize = 0;
    while i < book.len()
        invariant
            i <= book.len(),
            keys.len() == chosen.len(),
            forall|k: int|
                0 <= k < chosen.len() ==> 0 <= #[trigger] chosen@[k] < i && eligible(
                    book@[chosen@[k] as int],
                    side,
                    price,
                ) && keys@[k] == rank_of(book@[chosen@[k] as int]),
            forall|k: int, l: int| 0 <= k < l < chosen.len() ==> #[trigger] chosen@[k] < #[trigger] chosen@[l],
            forall|x: int|
                0 <= x < i && eligible(book@[x], side, price) ==> chosen@.contains(#[trigger] (x as usize)),
        decreases book.len() - i,
    {
        let ghost before: Seq<usize> = chosen@;
        if is_eligible(&book[i], side, price) {
            keys.push(rank(&book[i]));
            chosen.push(i);
            proof {
                assert(chosen@[before.len() as int] == i);
            }
        }
        proof {
            assert forall|x: int| 0 <= x < i + 1 && eligible(book@[x], side, price) implies chosen@.contains(
                #[trigger] (x as usize),
            ) by {
                if x < i {
                    assert(before.contains(x as usize));
                    let k: int = choose|k: int| 0 <= k < before.len() && before[k] == x as usize;
                    assert(chosen@[k] == x as usize);
                }
            }
        }
        i += 1;
    }
    let order: Vec<usize> = sort_positions(&keys);
    let mut r: Vec<usize> = Vec::new();
    let mut j: usize = 0;
    while j < order.len()
        invariant
            j <= order.len(),
            order.len() == chosen.len(),
            forall|k: int| 0 <= k < order.len() ==> 0 <= #[trigger] order@[k] < chosen.len(),
            r.len() == j,
            forall|k: int| 0 <= k < j ==> #[trigger] r@[k] == chosen@[order@[k] as int],
        decreases order.len() - j,
    {
        r.push(chosen[order[j]]);
        j += 1;
    }
    proof {
        let q: Seq<int> = positions(r@);
        assert forall|x: int| 0 <= x < book@.len() && eligible(book@[x], side, price) implies #[trigger] q.contains(x) by {
            assert(chosen@.contains(x as usize));
            let k: int = choose|k: int| 0 <= k < chosen@.len() && chosen@[k] == x as usize;
            assert(order@.contains(k as usize));
            let l: int = choose|l: int| 0 <= l < order@.len() && order@[l] == k as usize;
            assert(q[l] == x);
        }
        assert forall|a: int, b: int| 0 <= a < b < q.len() implies served_before(book@, #[trigger] q[a], #[trigger] q[b]) by {
            assert(comes_before(keys@, order@[a] as int, order@[b] as int));
            let (ka, kb): (int, int) = (order@[a] as int, order@[b] as int);
            assert(r@[a] == chosen@[ka] && r@[b] == chosen@[kb]);
            if ka < kb {
                assert(chosen@[ka] < chosen@[kb]);
            }
        }
        assert forall|a: int| 0 <= a < q.len() implies 0 <= #[trigger] q[a] < book@.len() && eligible(book@[q[a]], side, price) by {
            assert(r@[a] == chosen@[order@[a] as int]);
        }
        lemma_queue_is_unique(book@, side, price, q);
    }
    r
}

/// What an order adds to its side's market quantity.
pub open spec fn market_part(it: Interest, side: Side) -> int {
    if it.side == side && it.limit is None {
        it.remaining as int
    } else {
        0
    }
}

/// A limit order of one side, as a price and a quantity.
pub open spec fn limit_part(entry: (Price, Amount), side: Side, price: Price) -> int {
    if accepts(side, Some(entry.0), price) {
        entry.1 as int
    } else {
        0
    }
}

/// The volume of one side as a function of the price. Limit orders are
/// sorted once, so a price is looked up by binary search.
pub struct VolumeCurve {
    side: Side,
    market_qty: Amount,
    /// Limit prices, ascending.
    prices: Vec<Price>,
    /// `cumulative[i]` is the quantity of the first `i` prices.
    cumulative: Vec<Amount>,
    book: Ghost<Seq<Interest>>,
}

impl VolumeCurve {
    pub closed spec fn spec_side(&self) -> Side {
        self.side
    }

    /// The orders that the curve sums.
    pub closed spec fn spec_book(&self) -> Seq<Interest> {
        self.book@
    }

    /// The quantity between two prefixes of the price list.
    closed spec fn span(&self, price: Price, idx: int) -> int {
        match self.side {
            Side::Buy => self.cumulative@[self.prices@.len() as int] - self.cumulative@[idx],
            Side::Sell => self.cumulative@[idx] as int,
        }
    }

    /// `idx` separates the prices that qualify at `price` from the others.
    closed spec fn cut(&self, price: Price, idx: int) -> bool {
        &&& 0 <= idx <= self.prices@.len()
        &&& forall|k: int|
            0 <= k < idx ==> match self.side {
                Side::Buy => #[trigger] self.prices@[k] < price,
                Side::Sell => self.prices@[k] <= price,
            }
        &&& forall|k: int|
            idx <= k < self.prices@.len() ==> match self.side {
                Side::Buy => #[trigger] self.prices@[k] >= price,
                Side::Sell => self.prices@[k] > price,
            }
    }

    pub closed spec fn wf(&self) -> bool {
        &&& self.cumulative@.len() == self.prices@.len() + 1
        &&& forall|i: int, j: int|
            0 <= i <= j < self.prices@.len() ==> #[trigger] self.prices@[i] <= #[trigger] self.prices@[j]
        &&& forall|i: int| 0 <= i < self.cumulative@.len() ==> #[trigger] self.cumulative@[i] <= self.cumulative@[self.prices@.len() as int]
        &&& side_total(self.book@, self.side) <= u128::MAX
        &&& forall|price: Price, idx: int| #[trigger]
            self.cut(price, idx) ==> volume_at(self.book@, self.side, price) == self.market_qty + self.span(
                price,
                idx,
            )
    }

    /// The volume at `price`.
    pub fn at(&self, price: Price) -> (r: Amount)
        requires
            self.wf(),
        ensures
            r == volume_at(self.spec_book(), self.spec_side(), price),
    {
        let n: usize = self.prices.len();
        let mut lo: usize = 0;
        let mut hi: usize = n;
        while lo < hi
            invariant
                self.wf(),
                n == self.prices@.len(),
                lo <= hi <= n,
                forall|k: int|
                    0 <= k < lo ==> match self.side {
                        Side::Buy => #[trigger] self.prices@[k] < price,
                        Side::Sell => self.prices@[k] <= price,
                    },
                forall|k: int|
                    hi <= k < n ==> match self.side {
                        Side::Buy => #[trigger] self.prices@[k] >= price,
                        Side::Sell => self.prices@[k] > price,
                    },
            decreases hi - lo,
        {
            let mid: usize = lo + (hi - lo) / 2;
            let low: bool = match self.side {
                Side::Buy => self.prices[mid] < price,
                Side::Sell => self.prices[mid] <= price,
            };
            proof {
                assert forall|k: int| 0 <= k < mid implies self.prices@[k] <= self.prices@[mid as int] by {}
                assert forall|k: int| mid <= k < n implies self.prices@[mid as int] <= self.prices@[k] by {}
            }
            if low {
                lo = mid + 1;
            } else {
                hi = mid;
            }
        }
        proof {
            assert(self.cut(price, lo as int));
            lemma_volume_bounds(self.book@, self.side, price);
        }
        match self.side {
            Side::Buy => self.market_qty + (self.cumulative[n] - self.cumulative[lo]),
            Side::Sell => self.market_qty + self.cumulative[lo],
        }
    }
}

/// A volume is part of its side's total.
pub proof fn lemma_volume_bounds(book: Seq<Interest>, side: Side, price: Price)
    ensures
        0 <= volume_at(book, side, price) <= side_total(book, side),
{
    lemma_total_bounds(
        book,
        |it: Interest| if eligible(it, side, price) { it.remaining as int } else { 0 },
        |it: Interest| if it.side == side { it.remaining as int } else { 0 },
    );
}

/// `cumulative_quantities(sorted)[i]` is the quantity of the first `i`
/// entries.
pub fn cumulative_quantities(sorted: &Vec<(Price, Amount)>) -> (r: Vec<Amount>)
    requires
        total(sorted@, |e: (Price, Amount)| e.1 as int) <= u128::MAX,
    ensures
        r@.len() == sorted@.len() + 1,
        forall|i: int|
            0 <= i < r@.len() ==> #[trigger] r@[i] == total(sorted@.take(i), |e: (Price, Amount)| e.1 as int),
{
    let ghost f = |e: (Price, Amount)| e.1 as int;
    let mut r: Vec<Amount> = Vec::new();
    let mut running: Amount = 0;
    r.push(running);
    let mut i: usize = 0;
    assert(sorted@.take(0) =~= Seq::<(Price, Amount)>::empty());
    while i < sorted.len()
        invariant
            i <= sorted.len(),
            f == (|e: (Price, Amount)| e.1 as int),
            total(sorted@, f) <= u128::MAX,
            running == total(sorted@.take(i as int), f),
            r@.len() == i + 1,
            forall|k: int| 0 <= k < r@.len() ==> #[trigger] r@[k] == total(sorted@.take(k), f),
        decreases sorted.len() - i,
    {
        proof {
            lemma_total_take(sorted@, i as int, f);
            lemma_total_prefix(sorted@, i + 1, f);
        }
        running = running + sorted[i].1;
        r.push(running);
        i += 1;
    }
    r
}

/// Sorts a list of limit orders by price.
fn sort_by_price(entries: &Vec<(Price, Amount)>) -> (r: Vec<(Price, Amount)>)
    ensures
        r@.len() == entries@.len(),
        forall|i: int, j: int| 0 <= i <= j < r@.len() ==> (#[trigger] r@[i]).0 <= (#[trigger] r@[j]).0,
        forall|f: spec_fn((Price, Amount)) -> int| #[trigger] total(r@, f) == total(entries@, f),
{
    let mut keys: Vec<u128> = Vec::new();
    let mut i: usize = 0;
    while i < entries.len()
        invariant
            i <= entries.len(),
            keys@.len() == i,
            forall|k: int| 0 <= k < i ==> #[trigger] keys@[k] == entries@[k].0,
        decreases entries.len() - i,
    {
        keys.push(entries[i].0);
        i += 1;
    }
    let order: Vec<usize> = sort_positions(&keys);
    let mut r: Vec<(Price, Amount)> = Vec::new();
    let mut j: usize = 0;
    while j < order.len()
        invariant
            j <= order.len(),
            order.len() == entries.len(),
            forall|k: int| 0 <= k < order.len() ==> 0 <= #[trigger] order@[k] < entries.len(),
            r@.len() == j,
            forall|k: int| 0 <= k < j ==> #[trigger] r@[k] == entries@[order@[k] as int],
        decreases order.len() - j,
    {
        r.push(entries[order[j]]);
        j += 1;
    }
    proof {
        lemma_stable_order_is_permutation(keys@, order@);
        let p: Seq<int> = positions(order@);
        assert(r@ =~= Seq::new(p.len(), |k: int| entries@[p[k]]));
        assert forall|f: spec_fn((Price, Amount)) -> int| #[trigger] total(r@, f) == total(entries@, f) by {
            lemma_total_permutation(entries@, p, f);
        }
        assert forall|a: int, b: int| 0 <= a <= b < r@.len() implies (#[trigger] r@[a]).0 <= (#[trigger] r@[b]).0 by {
            if a < b {
                assert(comes_before(keys@, order@[a] as int, order@[b] as int));
            }
        }
    }
    r
}

/// Sums one side of the batch into a curve.
pub fn volume_curve(book: &Vec<Interest>, side: Side) -> (r: VolumeCurve)
    requires
        side_total(book@, side) <= u128::MAX,
    ensures
        r.wf(),
        r.spec_side() == side,
        r.spec_book() == book@,
{
    let ghost whole = |it: Interest| if it.side == side { it.remaining as int } else { 0 };
    let ghost at_market = |it: Interest| market_part(it, side);
    let ghost qty = |e: (Price, Amount)| e.1 as int;
    let mut market_qty: Amount = 0;
    let mut limits: Vec<(Price, Amount)> = Vec::new();
    let mut i: usize = 0;
    proof {
        assert(book@.take(0) =~= Seq::<Interest>::empty());
        assert forall|price: Price| #[trigger] volume_at(book@.take(0), side, price) == market_qty + total(
            limits@,
            |e: (Price, Amount)| limit_part(e, side, price),
        ) by {}
    }
    while i < book.len()
        invariant
            i <= book.len(),
            whole == (|it: Interest| if it.side == side { it.remaining as int } else { 0 }),
            qty == (|e: (Price, Amount)| e.1 as int),
            total(book@, whole) <= u128::MAX,
            market_qty + total(limits@, qty) == total(book@.take(i as int), whole),
            0 <= total(limits@, qty),
            forall|price: Price| #[trigger]
                volume_at(book@.take(i as int), side, price) == market_qty + total(
                    limits@,
                    |e: (Price, Amount)| limit_part(e, side, price),
                ),
        decreases book.len() - i,
    {
        let it: Interest = book[i];
        let ghost limits_before: Seq<(Price, Amount)> = limits@;
        let ghost market_before: int = market_qty as int;
        proof {
            lemma_total_take(book@, i as int, whole);
            lemma_total_prefix(book@, i + 1, whole);
        }
        if it.side == side {
            match it.limit {
                None => {
                    market_qty = market_qty + it.remaining;
                },
                Some(px) => {
                    limits.push((px, it.remaining));
                    proof {
                        lemma_total_push(limits_before, (px, it.remaining), qty);
                    }
                },
            }
        }
        proof {
            assert forall|price: Price| #[trigger] volume_at(book@.take(i + 1), side, price) == market_qty + total(
                limits@,
                |e: (Price, Amount)| limit_part(e, side, price),
            ) by {
                let f = |x: Interest| if eligible(x, side, price) { x.remaining as int } else { 0 };
                let g = |e: (Price, Amount)| limit_part(e, side, price);
                lemma_total_take(book@, i as int, f);
                assert(volume_at(book@.take(i as int), side, price) == market_before + total(limits_before, g));
                if it.side == side {
                    if let Some(px) = it.limit {
                        lemma_total_push(limits_before, (px, it.remaining), g);
                    }
                }
            }
        }
        i += 1;
    }
    proof {
        assert(book@.take(i as int) =~= book@);
    }
    let sorted: Vec<(Price, Amount)> = sort_by_price(&limits);
    proof {
        assert(total(sorted@, qty) == total(limits@, qty));
    }
    let cumulative: Vec<Amount> = cumulative_quantities(&sorted);
    let mut prices: Vec<Price> = Vec::new();
    let mut j: usize = 0;
    while j < sorted.len()
        invariant
            j <= sorted.len(),
            prices@.len() == j,
            forall|k: int| 0 <= k < j ==> #[trigger] prices@[k] == sorted@[k].0,
        decreases sorted.len() - j,
    {
        prices.push(sorted[j].0);
        j += 1;
    }
    let r: VolumeCurve = VolumeCurve { side, market_qty, prices, cumulative, book: Ghost(book@) };
    proof {
        let n: int = sorted@.len() as int;
        assert(sorted@.take(n) =~= sorted@);
        assert forall|k: int| 0 <= k < r.cumulative@.len() implies #[trigger] r.cumulative@[k] <= r.cumulative@[n] by {
            lemma_total_prefix(sorted@, k, qty);
        }
        assert forall|price: Price, idx: int| #[trigger] r.cut(price, idx) implies volume_at(book@, side, price)
            == r.market_qty + r.span(price, idx) by {
            let g = |e: (Price, Amount)| limit_part(e, side, price);
            assert(total(sorted@, g) == total(limits@, g));
            assert forall|k: int| 0 <= k < n implies (#[trigger] sorted@[k]).0 == r.prices@[k] by {}
            lemma_split_volume(sorted@, side, price, idx);
        }
    }
    r
}

/// Of a price-sorted list, the entries that qualify at a price are those on
/// one side of the cut.
proof fn lemma_split_volume(sorted: Seq<(Price, Amount)>, side: Side, price: Price, idx: int)
    requires
        0 <= idx <= sorted.len(),
        forall|k: int|
            0 <= k < idx ==> match side {
                Side::Buy => (#[trigger] sorted[k]).0 < price,
                Side::Sell => sorted[k].0 <= price,
            },
        forall|k: int|
            idx <= k < sorted.len() ==> match side {
                Side::Buy => (#[trigger] sorted[k]).0 >= price,
                Side::Sell => sorted[k].0 > price,
            },
    ensures
        total(sorted, |e: (Price, Amount)| limit_part(e, side, price)) == match side {
            Side::Buy => total(sorted, |e: (Price, Amount)| e.1 as int) - total(
                sorted.take(idx),
                |e: (Price, Amount)| e.1 as int,
            ),
            Side::Sell => total(sorted.take(idx), |e: (Price, Amount)| e.1 as int),
        },
{
    let g = |e: (Price, Amount)| limit_part(e, side, price);
    let f = |e: (Price, Amount)| e.1 as int;
    let z = |e: (Price, Amount)| 0int;
    let (a, b): (Seq<(Price, Amount)>, Seq<(Price, Amount)>) = (sorted.take(idx), sorted.skip(idx));
    assert(sorted =~= a + b);
    lemma_total_add(a, b, g);
    lemma_total_add(a, b, f);
    match side {
        Side::Buy => {
            assert forall|k: int| 0 <= k < a.len() implies g(#[trigger] a[k]) == z(a[k]) by {
                assert(sorted[k].0 < price);
            }
            assert forall|k: int| 0 <= k < b.len() implies g(#[trigger] b[k]) == f(b[k]) by {
                assert(sorted[idx + k].0 >= price);
            }
            lemma_total_same(a, a, g, z);
            lemma_total_same(b, b, g, f);
            lemma_total_zero(a);
        },
        Side::Sell => {
            assert forall|k: int| 0 <= k < a.len() implies g(#[trigger] a[k]) == f(a[k]) by {
                assert(sorted[k].0 <= price);
            }
            assert forall|k: int| 0 <= k < b.len() implies g(#[trigger] b[k]) == z(b[k]) by {
                assert(sorted[idx + k].0 > price);
            }
            lemma_total_same(a, a, g, f);
            lemma_total_same(b, b, g, z);
            lemma_total_zero(b);
        },
    }
}

proof fn lemma_total_zero(s: Seq<(Price, Amount)>)
    ensures
        total(s, |e: (Price, Amount)| 0int) == 0,
    decreases s.len(),
{
    if s.len() > 0 {
        lemma_total_zero(s.drop_last());
    }
}

/// The distinct limit prices of the batch, ascending.
pub fn candidate_prices(book: &Vec<Interest>) -> (r: Vec<Price>)
    ensures
        forall|i: int, j: int| 0 <= i < j < r@.len() ==> #[trigger] r@[i] < #[trigger] r@[j],
        r@.to_set() == limit_prices(book@),
{
    let mut all: Vec<u128> = Vec::new();
    let mut i: usize = 0;
    while i < book.len()
        invariant
            i <= book.len(),
            forall|k: int| 0 <= k < all@.len() ==> limit_prices(book@).contains(#[trigger] all@[k]),
            forall|k: int|
                0 <= k < i && (#[trigger] book@[k]).limit is Some ==> all@.contains(book@[k].limit->0),
        decreases book.len() - i,
    {
        let ghost before: Seq<u128> = all@;
        if let Some(px) = book[i].limit {
            proof {
                assert(book@[i as int].limit == Some(px));
                assert(limit_prices(book@).contains(px));
            }
            all.push(px);
            proof {
                assert(all@[before.len() as int] == px);
                assert forall|k: int| 0 <= k < i + 1 && (#[trigger] book@[k]).limit is Some implies all@.contains(
                    book@[k].limit->0,
                ) by {
                    if k < i {
                        let w: int = choose|w: int| 0 <= w < before.len() && before[w] == book@[k].limit->0;
                        assert(all@[w] == before[w]);
                    }
                }
            }
        }
        i += 1;
    }
    let order: Vec<usize> = sort_positions(&all);
    let mut r: Vec<Price> = Vec::new();
    let mut j: usize = 0;
    while j < order.len()
        invariant
            j <= order.len(),
            stable_order(all@, order@),
            order.len() == all.len(),
            forall|k: int| 0 <= k < all@.len() ==> limit_prices(book@).contains(#[trigger] all@[k]),
            forall|a: int, b: int| 0 <= a < b < r@.len() ==> #[trigger] r@[a] < #[trigger] r@[b],
            forall|a: int| 0 <= a < r@.len() ==> limit_prices(book@).contains(#[trigger] r@[a]),
            r@.len() > 0 ==> j > 0 && r@[r@.len() - 1] == all@[order@[j - 1] as int],
            j > 0 ==> r@.len() > 0,
            forall|k: int| 0 <= k < j ==> r@.contains(all@[#[trigger] order@[k] as int]),
        decreases order.len() - j,
    {
        let ghost before: Seq<Price> = r@;
        assert(0 <= order@[j as int] < all@.len());
        let px: u128 = all[order[j]];
        proof {
            if j > 0 {
                assert(comes_before(all@, order@[j - 1] as int, order@[j as int] as int));
            }
        }
        if r.len() == 0 || r[r.len() - 1] != px {
            r.push(px);
            proof {
                assert(r@[before.len() as int] == px);
                assert forall|a: int, b: int| 0 <= a < b < r@.len() implies #[trigger] r@[a] < #[trigger] r@[b] by {
                    if b == before.len() {
                        assert(before[a] <= before[before.len() - 1]);
                    }
                }
            }
        }
        proof {
            assert forall|k: int| 0 <= k < j + 1 implies r@.contains(all@[#[trigger] order@[k] as int]) by {
                if k < j {
                    let w: int = choose|w: int| 0 <= w < before.len() && before[w] == all@[order@[k] as int];
                    assert(r@[w] == before[w]);
                } else {
                    assert(r@[r@.len() - 1] == px);
                }
            }
        }
        j += 1;
    }
    proof {
        assert forall|p: Price| #[trigger] r@.to_set().contains(p) <==> limit_prices(book@).contains(p) by {
            if limit_prices(book@).contains(p) {
                let k: int = choose|k: int| 0 <= k < book@.len() && (#[trigger] book@[k]).limit == Some(p);
                assert(book@[k].limit is Some);
                assert(all@.contains(p));
                let a: int = choose|a: int| 0 <= a < all@.len() && all@[a] == p;
                assert(order@.contains(a as usize));
                let l: int = choose|l: int| 0 <= l < order@.len() && order@[l] == a as usize;
                assert(r@.contains(all@[order@[l] as int]));
            }
            if r@.to_set().contains(p) {
                let a: int = choose|a: int| 0 <= a < r@.len() && r@[a] == p;
                assert(limit_prices(book@).contains(r@[a]));
            }
        }
        assert(r@.to_set() =~= limit_prices(book@));
    }
    r
}

fn apart(x: u128, y: u128) -> (r: u128)
    ensures
        r == distance(x as int, y as int),
{
    if x >= y {
        x - y
    } else {
        y - x
    }
}

fn least(x: u128, y: u128) -> (r: u128)
    ensures
        r == min_of(x as int, y as int),
{
    if x <= y {
        x
    } else {
        y
    }
}

fn tie_goes_to(rule: TieRule, p: Price, q: Price) -> (r: bool)
    ensures
        r == wins_tie(rule, p, q),
{
    match rule {
        TieRule::Nearest { reference: Some(anchor) } => {
            let dp: u128 = apart(p, anchor);
            let dq: u128 = apart(q, anchor);
            dp < dq || (dp == dq && p < q)
        },
        TieRule::Nearest { reference: None } => p < q,
        TieRule::Highest => p > q,
    }
}

/// Picks the clearing price out of `candidates` and reports it with the
/// demand and supply at it.
pub fn select_price(book: &Vec<Interest>, candidates: &Vec<Price>, rule: TieRule) -> (r: Option<(Price, Amount, Amount)>)
    requires
        sides_fit(book@),
    ensures
        match r {
            Some((price, d, s)) => {
                &&& is_best(book@, rule, candidates@.to_set(), price)
                &&& clearing_price(book@, rule, candidates@.to_set()) == Some(price)
                &&& d == demand(book@, price)
                &&& s == supply(book@, price)
            },
            None => candidates@.len() == 0 && clearing_price(book@, rule, candidates@.to_set()) is None,
        },
{
    let demand_at: VolumeCurve = volume_curve(book, Side::Buy);
    let supply_at: VolumeCurve = volume_curve(book, Side::Sell);
    let mut best: Option<(Price, Amount, Amount)> = None;
    let mut i: usize = 0;
    while i < candidates.len()
        invariant
            i <= candidates.len(),
            demand_at.wf(),
            demand_at.spec_side() == Side::Buy,
            demand_at.spec_book() == book@,
            supply_at.wf(),
            supply_at.spec_side() == Side::Sell,
            supply_at.spec_book() == book@,
            best is None <==> i == 0,
            match best {
                Some((price, d, s)) => {
                    &&& candidates@.contains(price)
                    &&& d == demand(book@, price)
                    &&& s == supply(book@, price)
                    &&& forall|k: int|
                        0 <= k < i && #[trigger] candidates@[k] != price ==> preferred(
                            book@,
                            rule,
                            price,
                            candidates@[k],
                        )
                },
                None => true,
            },
        decreases candidates.len() - i,
    {
        let price: Price = candidates[i];
        let d: Amount = demand_at.at(price);
        let s: Amount = supply_at.at(price);
        let better: bool = match best {
            None => true,
            Some((best_price, best_d, best_s)) => {
                let volume: u128 = least(d, s);
                let imbalance: u128 = apart(d, s);
                let best_volume: u128 = least(best_d, best_s);
                let best_imbalance: u128 = apart(best_d, best_s);
                if volume != best_volume {
                    volume > best_volume
                } else if imbalance != best_imbalance {
                    imbalance < best_imbalance
                } else {
                    tie_goes_to(rule, price, best_price)
                }
            },
        };
        proof {
            assert(candidates@.contains(candidates@[i as int]));
        }
        if better {
            best = Some((price, d, s));
        }
        i += 1;
    }
    proof {
        let c: Set<Price> = candidates@.to_set();
        match best {
            Some((price, d, s)) => {
                assert(c.contains(price));
                assert forall|q: Price| #[trigger] c.contains(q) && q != price implies preferred(book@, rule, price, q) by {
                    let k: int = choose|k: int| 0 <= k < candidates@.len() && candidates@[k] == q;
                    assert(candidates@[k] != price);
                }
                lemma_best_is_unique(book@, rule, c, price);
            },
            None => {
                assert forall|p: Price| !is_best(book@, rule, c, p) by {
                    assert(!candidates@.contains(p));
                }
            },
        }
    }
    best
}

/// One fill: the positions of the buy and the sell order, and the quantity.
#[derive(Clone, Copy, Debug)]
pub struct Fill {
    pub buy: usize,
    pub sell: usize,
    pub qty: Amount,
}

impl View for Fill {
    type V = (int, int, int);

    open spec fn view(&self) -> (int, int, int) {
        (self.buy as int, self.sell as int, self.qty as int)
    }
}

/// The head of a queue gives up `qty`, and leaves when nothing is left of it.
pub open spec fn after_fill(s: Seq<(int, int)>, qty: int) -> Seq<(int, int)> {
    if s[0].1 <= qty {
        s.drop_first()
    } else {
        s.update(0, (s[0].0, s[0].1 - qty))
    }
}

/// Two queues of positions and quantities trade head against head until one
/// of them is empty.
pub open spec fn pair_off(buys: Seq<(int, int)>, sells: Seq<(int, int)>) -> Seq<(int, int, int)>
    decreases buys.len() + sells.len(),
{
    if buys.len() == 0 || sells.len() == 0 {
        Seq::empty()
    } else {
        let qty = min_of(buys[0].1, sells[0].1);
        let rest = pair_off(after_fill(buys, qty), after_fill(sells, qty));
        if qty <= 0 {
            rest
        } else {
            seq![(buys[0].0, sells[0].0, qty)] + rest
        }
    }
}

/// A queue of positions with the quantity of the order at each.
pub open spec fn with_quantities(book: Seq<Interest>, q: Seq<int>) -> Seq<(int, int)> {
    Seq::new(q.len(), |i: int| (q[i], book[q[i]].remaining as int))
}

/// The fills at `price`.
pub open spec fn fills_at(book: Seq<Interest>, price: Price) -> Seq<(int, int, int)> {
    pair_off(
        with_quantities(book, queue(book, Side::Buy, price)),
        with_quantities(book, queue(book, Side::Sell, price)),
    )
}

pub open spec fn fill_views(fills: Seq<Fill>) -> Seq<(int, int, int)> {
    Seq::new(fills.len(), |i: int| fills[i]@)
}

/// What is left of a queue from position `from` on, with quantities `left`.
pub open spec fn heads(q: Seq<usize>, left: Seq<Amount>, from: int) -> Seq<(int, int)> {
    Seq::new((q.len() - from) as nat, |k: int| (q[from + k] as int, left[from + k] as int))
}

fn quantities(book: &Vec<Interest>, q: &Vec<usize>) -> (r: Vec<Amount>)
    requires
        forall|i: int| 0 <= i < q@.len() ==> 0 <= #[trigger] q@[i] < book@.len(),
    ensures
        r@.len() == q@.len(),
        heads(q@, r@, 0) == with_quantities(book@, positions(q@)),
{
    let mut r: Vec<Amount> = Vec::new();
    let mut i: usize = 0;
    while i < q.len()
        invariant
            i <= q.len(),
            forall|i: int| 0 <= i < q@.len() ==> 0 <= #[trigger] q@[i] < book@.len(),
            r@.len() == i,
            forall|k: int| 0 <= k < i ==> #[trigger] r@[k] == book@[q@[k] as int].remaining,
        decreases q.len() - i,
    {
        r.push(book[q[i]].remaining);
        i += 1;
    }
    assert(heads(q@, r@, 0) =~= with_quantities(book@, positions(q@)));
    r
}

/// Matches two queues of positions with a quantity at each, head against
/// head.
pub fn pair_queues(
    buys: &Vec<usize>,
    buy_quantities: Vec<Amount>,
    sells: &Vec<usize>,
    sell_quantities: Vec<Amount>,
) -> (r: Vec<Fill>)
    requires
        buys.len() == buy_quantities.len(),
        sells.len() == sell_quantities.len(),
    ensures
        fill_views(r@) == pair_off(heads(buys@, buy_quantities@, 0), heads(sells@, sell_quantities@, 0)),
{
    let mut buy_left: Vec<Amount> = buy_quantities;
    let mut sell_left: Vec<Amount> = sell_quantities;
    let mut r: Vec<Fill> = Vec::new();
    let mut i: usize = 0;
    let mut j: usize = 0;
    let ghost goal: Seq<(int, int, int)> = pair_off(heads(buys@, buy_left@, 0), heads(sells@, sell_left@, 0));
    assert(fill_views(r@) + goal =~= goal);
    while i < buys.len() && j < sells.len()
        invariant
            i <= buys.len(),
            j <= sells.len(),
            buy_left.len() == buys.len(),
            sell_left.len() == sells.len(),
            goal == fill_views(r@) + pair_off(heads(buys@, buy_left@, i as int), heads(sells@, sell_left@, j as int)),
        decreases buys.len() - i + sells.len() - j,
    {
        let ghost b: Seq<(int, int)> = heads(buys@, buy_left@, i as int);
        let ghost s: Seq<(int, int)> = heads(sells@, sell_left@, j as int);
        let ghost done: Seq<Fill> = r@;
        let qty: Amount = least(buy_left[i], sell_left[j]);
        if qty > 0 {
            r.push(Fill { buy: buys[i], sell: sells[j], qty });
        }
        let b_rest: Amount = buy_left[i] - qty;
        let s_rest: Amount = sell_left[j] - qty;
        buy_left.set(i, b_rest);
        sell_left.set(j, s_rest);
        if b_rest == 0 {
            i += 1;
        }
        if s_rest == 0 {
            j += 1;
        }
        proof {
            assert(heads(buys@, buy_left@, i as int) =~= after_fill(b, qty as int));
            assert(heads(sells@, sell_left@, j as int) =~= after_fill(s, qty as int));
            let rest: Seq<(int, int, int)> = pair_off(after_fill(b, qty as int), after_fill(s, qty as int));
            if qty > 0 {
                assert(fill_views(r@) =~= fill_views(done).push((b[0].0, s[0].0, qty as int)));
                assert(fill_views(done) + (seq![(b[0].0, s[0].0, qty as int)] + rest) =~= fill_views(r@) + rest);
            }
        }
    }
    proof {
        assert(pair_off(heads(buys@, buy_left@, i as int), heads(sells@, sell_left@, j as int)) =~= Seq::empty());
        assert(goal =~= fill_views(r@));
    }
    r
}

/// Matches the eligible orders at `price`, best against best.
pub fn cross_at(book: &Vec<Interest>, price: Price) -> (r: Vec<Fill>)
    ensures
        fill_views(r@) == fills_at(book@, price),
{
    let buys: Vec<usize> = eligible_queue(book, Side::Buy, price);
    let sells: Vec<usize> = eligible_queue(book, Side::Sell, price);
    proof {
        assert forall|k: int| 0 <= k < buys@.len() implies 0 <= #[trigger] buys@[k] < book@.len() by {
            assert(positions(buys@)[k] == buys@[k]);
        }
        assert forall|k: int| 0 <= k < sells@.len() implies 0 <= #[trigger] sells@[k] < book@.len() by {
            assert(positions(sells@)[k] == sells@[k]);
        }
    }
    let buy_left: Vec<Amount> = quantities(book, &buys);
    let sell_left: Vec<Amount> = quantities(book, &sells);
    proof {
        assert(heads(buys@, buy_left@, 0) =~= with_quantities(book@, positions(buys@)));
        assert(heads(sells@, sell_left@, 0) =~= with_quantities(book@, positions(sells@)));
    }
    pair_queues(&buys, buy_left, &sells, sell_left)
}

} // verus!
