//! How many moments of a list lie in a window.

use vstd::prelude::*;
use crate::seqs::{lemma_total_nonneg, lemma_total_permutation, lemma_total_scaled, lemma_total_take, total};
use crate::sorting::{comes_before, lemma_stable_order_is_permutation, positions, sort_positions};

verus! {

pub open spec fn before(limit: int) -> spec_fn(u64) -> int {
    |t: u64|
        if t < limit {
            1int
        } else {
            0
        }
}

pub open spec fn in_window(from: int, to: int) -> spec_fn(u64) -> int {
    |t: u64|
        if from <= t <= to {
            1int
        } else {
            0
        }
}

/// How many of the moments lie between `from` and `to`, both included.
pub open spec fn arrivals(times: Seq<u64>, from: int, to: int) -> int {
    total(times, in_window(from, to))
}

/// Moments kept for counting.
pub struct Arrivals {
    sorted: Vec<u64>,
    times: Ghost<Seq<u64>>,
}

impl View for Arrivals {
    type V = Seq<u64>;

    closed spec fn view(&self) -> Seq<u64> {
        self.times@
    }
}

impl Arrivals {
    pub closed spec fn wf(&self) -> bool {
        &&& forall|i: int, j: int| 0 <= i <= j < self.sorted@.len() ==> #[trigger] self.sorted@[i] <= #[trigger] self.sorted@[j]
        &&& forall|f: spec_fn(u64) -> int| #[trigger] total(self.sorted@, f) == total(self.times@, f)
    }

    /// Keeps the moments.
    pub fn of(times: &Vec<u64>) -> (r: Self)
        ensures
            r.wf(),
            r@ == times@,
    {
        let mut keys: Vec<u128> = Vec::new();
        let mut i: usize = 0;
        while i < times.len()
            invariant
                i <= times.len(),
                keys@.len() == i,
                forall|k: int| 0 <= k < i ==> #[trigger] keys@[k] == times@[k],
            decreases times.len() - i,
        {
            keys.push(times[i] as u128);
            i += 1;
        }
        let order: Vec<usize> = sort_positions(&keys);
        let ghost p: Seq<int> = positions(order@);
        let ghost goal: Seq<u64> = Seq::new(p.len(), |i: int| times@[p[i]]);
        let mut sorted: Vec<u64> = Vec::new();
        let mut j: usize = 0;
        while j < order.len()
            invariant
                j <= order.len(),
                p == positions(order@),
                goal == Seq::new(p.len(), |i: int| times@[p[i]]),
                forall|k: int| 0 <= k < order@.len() ==> #[trigger] order@[k] < times@.len(),
                sorted@ =~= goal.take(j as int),
            decreases order.len() - j,
        {
            let at: usize = order[j];
            sorted.push(times[at]);
            assert(goal[j as int] == times@[at as int]);
            j += 1;
        }
        proof {
            assert(sorted@ =~= goal);
            lemma_stable_order_is_permutation(keys@, order@);
            assert forall|f: spec_fn(u64) -> int| #[trigger] total(sorted@, f) == total(times@, f) by {
                lemma_total_permutation(times@, p, f);
            }
            assert forall|a: int, b: int| 0 <= a <= b < sorted@.len() implies #[trigger] sorted@[a] <= #[trigger] sorted@[b] by {
                if a < b {
                    assert(comes_before(keys@, order@[a] as int, order@[b] as int));
                    assert(sorted@[a] == keys@[order@[a] as int]);
                    assert(sorted@[b] == keys@[order@[b] as int]);
                }
            }
        }
        Arrivals { sorted, times: Ghost(times@) }
    }

    /// How many of the moments come before `limit`.
    fn count_before(&self, limit: u128) -> (r: usize)
        requires
            self.wf(),
        ensures
            r == total(self@, before(limit as int)),
            r <= self@.len(),
    {
        let ghost f = before(limit as int);
        let mut lo: usize = 0;
        let mut hi: usize = self.sorted.len();
        while lo < hi
            invariant
                lo <= hi <= self.sorted@.len(),
                self.wf(),
                forall|i: int| 0 <= i < lo ==> #[trigger] self.sorted@[i] < limit,
                forall|i: int| hi <= i < self.sorted@.len() ==> #[trigger] self.sorted@[i] >= limit,
            decreases hi - lo,
        {
            let mid: usize = lo + (hi - lo) / 2;
            if (self.sorted[mid] as u128) < limit {
                lo = mid + 1;
            } else {
                hi = mid;
            }
        }
        proof {
            lemma_counted(self.sorted@, limit as int, lo as int, self.sorted@.len() as int);
            assert(self.sorted@.take(self.sorted@.len() as int) =~= self.sorted@);
            lemma_length_is_total(self.sorted@);
            lemma_length_is_total(self.times@);
            assert(total(self.sorted@, one()) == total(self.times@, one()));
            assert(total(self.sorted@, f) == total(self.times@, f));
        }
        lo
    }

    /// How many of the moments lie between `from` and `to`, both included.
    pub fn count(&self, from: u64, to: u64) -> (r: usize)
        requires
            self.wf(),
            from <= to,
        ensures
            r == arrivals(self@, from as int, to as int),
    {
        let upper: usize = self.count_before(to as u128 + 1);
        let lower: usize = self.count_before(from as u128);
        proof {
            let f = before(to + 1);
            let g = before(from as int);
            let h = in_window(from as int, to as int);
            assert forall|i: int| 0 <= i < self@.len() implies f(#[trigger] self@[i]) == g(self@[i]) + h(self@[i]) by {
            }
            lemma_total_scaled(self@, f, g, h);
            lemma_total_nonneg(self@, h);
        }
        upper - lower
    }
}

pub open spec fn one() -> spec_fn(u64) -> int {
    |t: u64| 1int
}

proof fn lemma_length_is_total(s: Seq<u64>)
    ensures
        total(s, one()) == s.len(),
    decreases s.len(),
{
    if s.len() > 0 {
        lemma_length_is_total(s.drop_last());
    }
}

proof fn lemma_counted(s: Seq<u64>, limit: int, k: int, n: int)
    requires
        0 <= k <= s.len(),
        0 <= n <= s.len(),
        forall|i: int| 0 <= i < k ==> #[trigger] s[i] < limit,
        forall|i: int| k <= i < s.len() ==> #[trigger] s[i] >= limit,
    ensures
        total(s.take(n), before(limit)) == if n <= k { n } else { k },
    decreases n,
{
    if n > 0 {
        lemma_counted(s, limit, k, n - 1);
        lemma_total_take(s, n - 1, before(limit));
    } else {
        assert(s.take(0) =~= Seq::<u64>::empty());
    }
}

} // verus!
