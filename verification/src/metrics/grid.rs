//! The interval grid: which interval a moment falls in, and which events
//! fall in each interval.

use vstd::arithmetic::div_mod::{lemma_div_is_ordered, lemma_fundamental_div_mod, lemma_fundamental_div_mod_converse, lemma_mod_bound, lemma_mod_multiples_basic};
use vstd::prelude::*;
use crate::sorting::positions;

verus! {

/// The start of the interval that holds `ts`, on the grid of intervals of
/// `width` that starts at `anchor`. Anything earlier counts for the first
/// interval.
pub open spec fn bucket(ts: int, anchor: int, width: int) -> int {
    if ts <= anchor {
        anchor
    } else {
        anchor + (ts - anchor) / width * width
    }
}

/// Whether `start` is the start of an interval.
pub open spec fn on_grid(start: int, anchor: int, width: int) -> bool {
    start >= anchor && (start - anchor) % width == 0
}

/// The start of the interval that holds `ts`.
pub fn bucket_of(ts: u64, anchor: u64, interval_width: u64) -> (r: u64)
    requires
        interval_width > 0,
    ensures
        r == bucket(ts as int, anchor as int, interval_width as int),
{
    if ts <= anchor {
        return anchor;
    }
    let offset: u64 = ts - anchor;
    proof {
        lemma_fundamental_div_mod(offset as int, interval_width as int);
        lemma_mod_bound(offset as int, interval_width as int);
        vstd::arithmetic::mul::lemma_mul_is_commutative(interval_width as int, offset as int / interval_width as int);
        vstd::arithmetic::div_mod::lemma_div_pos_is_pos(offset as int, interval_width as int);
    }
    anchor + offset / interval_width * interval_width
}

/// The interval of a moment starts on the grid, not after the moment, and
/// ends after it.
pub proof fn law_bucket_holds_the_moment(ts: int, anchor: int, width: int)
    requires
        width > 0,
    ensures
        on_grid(bucket(ts, anchor, width), anchor, width),
        ts >= anchor ==> bucket(ts, anchor, width) <= ts < bucket(ts, anchor, width) + width,
{
    if ts > anchor {
        let q: int = (ts - anchor) / width;
        lemma_fundamental_div_mod(ts - anchor, width);
        lemma_mod_bound(ts - anchor, width);
        vstd::arithmetic::mul::lemma_mul_is_commutative(width, q);
        lemma_mod_multiples_basic(q, width);
        vstd::arithmetic::div_mod::lemma_div_pos_is_pos(ts - anchor, width);
        assert(q * width >= 0) by (nonlinear_arith)
            requires
                q >= 0,
                width > 0,
        ;
    } else {
        vstd::arithmetic::div_mod::lemma_mod_multiples_basic(0, width);
    }
}

/// Later moments are in the same interval or a later one.
pub proof fn law_buckets_follow_time(t1: int, t2: int, anchor: int, width: int)
    requires
        width > 0,
        t1 <= t2,
    ensures
        bucket(t1, anchor, width) <= bucket(t2, anchor, width),
{
    law_bucket_holds_the_moment(t2, anchor, width);
    if t1 > anchor {
        lemma_div_is_ordered(t1 - anchor, t2 - anchor, width);
        let q1: int = (t1 - anchor) / width;
        let q2: int = (t2 - anchor) / width;
        assert(q1 * width <= q2 * width) by (nonlinear_arith)
            requires
                q1 <= q2,
                width > 0,
        ;
    }
}

/// Two starts on the grid lie a whole number of intervals apart.
pub proof fn lemma_grid_step(lo: int, b: int, anchor: int, width: int)
    requires
        width > 0,
        on_grid(lo, anchor, width),
        on_grid(b, anchor, width),
        b >= lo,
    ensures
        b == lo + (b - lo) / width * width,
        (b - lo) / width >= 0,
{
    lemma_fundamental_div_mod(lo - anchor, width);
    lemma_fundamental_div_mod(b - anchor, width);
    let m: int = (lo - anchor) / width;
    let n: int = (b - anchor) / width;
    assert(b - lo == (n - m) * width) by (nonlinear_arith)
        requires
            lo - anchor == width * m,
            b - anchor == width * n,
    ;
    lemma_fundamental_div_mod_converse(b - lo, width, n - m, 0);
    vstd::arithmetic::div_mod::lemma_div_pos_is_pos(b - lo, width);
}

/// The start that lies `k` intervals after another.
pub proof fn lemma_on_grid_later(lo: int, k: int, anchor: int, width: int)
    requires
        width > 0,
        on_grid(lo, anchor, width),
        k >= 0,
    ensures
        on_grid(lo + k * width, anchor, width),
        lo + k * width >= lo,
{
    lemma_fundamental_div_mod(lo - anchor, width);
    let m: int = (lo - anchor) / width;
    assert(lo + k * width - anchor == (m + k) * width) by (nonlinear_arith)
        requires
            lo - anchor == width * m,
    ;
    lemma_mod_multiples_basic(m + k, width);
    assert(k * width >= 0) by (nonlinear_arith)
        requires
            k >= 0,
            width > 0,
    ;
}

/// The start of interval number `k`, counted from the one at `lo`.
pub open spec fn row_start(lo: int, k: int, width: int) -> int {
    lo + k * width
}

/// How many intervals start in `[lo, hi)`, the first of them at `lo`.
pub open spec fn rows_between(lo: int, hi: int, width: int) -> int {
    if hi <= lo {
        0
    } else {
        (hi - lo - 1) / width + 1
    }
}

pub proof fn lemma_rows_between(lo: int, hi: int, width: int)
    requires
        width > 0,
    ensures
        rows_between(lo, hi, width) >= 0,
        forall|k: int| 0 <= k ==> (k < rows_between(lo, hi, width)) == (#[trigger] row_start(lo, k, width) < hi),
{
    let n: int = rows_between(lo, hi, width);
    if hi > lo {
        lemma_fundamental_div_mod(hi - lo - 1, width);
        lemma_mod_bound(hi - lo - 1, width);
        vstd::arithmetic::div_mod::lemma_div_pos_is_pos(hi - lo - 1, width);
        let q: int = (hi - lo - 1) / width;
        assert forall|k: int| 0 <= k implies (k < n) == (#[trigger] row_start(lo, k, width) < hi) by {
            if k <= q {
                assert(k * width <= width * q) by (nonlinear_arith)
                    requires
                        k <= q,
                        width > 0,
                ;
            } else {
                assert(k * width >= width * q + width) by (nonlinear_arith)
                    requires
                        k >= q + 1,
                        width > 0,
                ;
            }
        }
    } else {
        assert forall|k: int| 0 <= k implies (k < n) == (#[trigger] row_start(lo, k, width) < hi) by {
            assert(k * width >= 0) by (nonlinear_arith)
                requires
                    k >= 0,
                    width > 0,
            ;
        }
    }
}

/// The positions of the moments in the interval that starts at `start`.
pub open spec fn placed(times: Seq<u64>, anchor: int, width: int, start: int) -> Seq<int>
    decreases times.len(),
{
    if times.len() == 0 {
        Seq::empty()
    } else {
        let earlier = placed(times.drop_last(), anchor, width, start);
        if bucket(times.last() as int, anchor, width) == start {
            earlier.push(times.len() - 1)
        } else {
            earlier
        }
    }
}

pub proof fn lemma_placed(times: Seq<u64>, anchor: int, width: int, start: int)
    ensures
        placed(times, anchor, width, start).len() <= times.len(),
        forall|i: int|
            0 <= i < placed(times, anchor, width, start).len() ==> 0 <= #[trigger] placed(times, anchor, width, start)[i]
                < times.len() && bucket(times[placed(times, anchor, width, start)[i]] as int, anchor, width) == start,
    decreases times.len(),
{
    if times.len() > 0 {
        lemma_placed(times.drop_last(), anchor, width, start);
    }
}

/// Sorts the moments into the `n` intervals from `lo` on; those in other
/// intervals are left out.
pub fn positions_by_row(times: &Vec<u64>, anchor: u64, width: u64, lo: u64, n: usize) -> (r: Vec<Vec<usize>>)
    requires
        width > 0,
        on_grid(lo as int, anchor as int, width as int),
    ensures
        r@.len() == n,
        forall|k: int|
            0 <= k < n ==> positions((#[trigger] r@[k])@) == placed(
                times@,
                anchor as int,
                width as int,
                row_start(lo as int, k, width as int),
            ),
{
    let mut r: Vec<Vec<usize>> = Vec::new();
    let mut k: usize = 0;
    while k < n
        invariant
            k <= n,
            r@.len() == k,
            forall|j: int| 0 <= j < k ==> (#[trigger] r@[j])@ == Seq::<usize>::empty(),
        decreases n - k,
    {
        r.push(Vec::new());
        k += 1;
    }
    let mut i: usize = 0;
    assert(times@.take(0) =~= Seq::<u64>::empty());
    assert forall|j: int| 0 <= j < n implies positions((#[trigger] r@[j])@) == placed(
        times@.take(0),
        anchor as int,
        width as int,
        row_start(lo as int, j, width as int),
    ) by {
        assert(positions(r@[j]@) =~= Seq::<int>::empty());
    }
    while i < times.len()
        invariant
            i <= times.len(),
            width > 0,
            on_grid(lo as int, anchor as int, width as int),
            r@.len() == n,
            forall|j: int|
                0 <= j < n ==> positions((#[trigger] r@[j])@) == placed(
                    times@.take(i as int),
                    anchor as int,
                    width as int,
                    row_start(lo as int, j, width as int),
                ),
        decreases times.len() - i,
    {
        let b: u64 = bucket_of(times[i], anchor, width);
        let ghost before: Seq<Vec<usize>> = r@;
        proof {
            law_bucket_holds_the_moment(times@[i as int] as int, anchor as int, width as int);
            assert(times@.take(i + 1).drop_last() =~= times@.take(i as int));
        }
        if b >= lo && (b - lo) / width < n as u64 {
            let row: usize = ((b - lo) / width) as usize;
            proof {
                lemma_grid_step(lo as int, b as int, anchor as int, width as int);
            }
            r[row].push(i);
            proof {
                assert(positions(r@[row as int]@) =~= positions(before[row as int]@).push(i as int));
                assert forall|j: int| 0 <= j < n && j != row implies #[trigger] row_start(lo as int, j, width as int) != b by {
                    assert(j * width != row * width) by (nonlinear_arith)
                        requires
                            j != row,
                            width > 0,
                    ;
                }
            }
        } else {
            proof {
                assert forall|j: int| 0 <= j < n implies #[trigger] row_start(lo as int, j, width as int) != b by {
                    if b >= lo {
                        lemma_grid_step(lo as int, b as int, anchor as int, width as int);
                        let q: int = (b - lo) / (width as int);
                        assert(j * width < q * width) by (nonlinear_arith)
                            requires
                                j < q,
                                width > 0,
                        ;
                    } else {
                        assert(j * width >= 0) by (nonlinear_arith)
                            requires
                                j >= 0,
                                width > 0,
                        ;
                    }
                }
            }
        }
        i += 1;
    }
    assert(times@.take(i as int) =~= times@);
    r
}

} // verus!
