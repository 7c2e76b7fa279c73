//! A stable merge sort that hands back the order as a list of positions.

use vstd::prelude::*;
use crate::seqs::is_permutation;

verus! {

/// A key type with a total order that Verus can reason about.
pub trait TotalKey: Sized {
    spec fn le(self, other: Self) -> bool;

    proof fn le_total(a: Self, b: Self)
        ensures
            a.le(b) || b.le(a),
    ;

    proof fn le_transitive(a: Self, b: Self, c: Self)
        requires
            a.le(b),
            b.le(c),
        ensures
            a.le(c),
    ;

    fn at_most(&self, other: &Self) -> (r: bool)
        ensures
            r == self.le(*other),
    ;
}

/// Position `a` comes before position `b`: its key is smaller, or the keys
/// tie and it was listed first.
pub open spec fn comes_before<K: TotalKey>(keys: Seq<K>, a: int, b: int) -> bool {
    keys[a].le(keys[b]) && (!keys[b].le(keys[a]) || a < b)
}

/// `p` lists the positions `lo..hi` of `keys`, each once, in stable order.
pub open spec fn stable_run<K: TotalKey>(keys: Seq<K>, p: Seq<usize>, lo: int, hi: int) -> bool {
    &&& p.len() == hi - lo
    &&& forall|i: int| 0 <= i < p.len() ==> lo <= #[trigger] p[i] < hi
    &&& forall|x: usize| lo <= x < hi ==> #[trigger] p.contains(x)
    &&& forall|i: int, j: int|
        0 <= i < j < p.len() ==> comes_before(keys, #[trigger] p[i] as int, #[trigger] p[j] as int)
}

/// `p` lists every position of `keys`, each once, in stable order.
pub open spec fn stable_order<K: TotalKey>(keys: Seq<K>, p: Seq<usize>) -> bool {
    stable_run(keys, p, 0, keys.len() as int)
}

pub open spec fn positions(p: Seq<usize>) -> Seq<int> {
    Seq::new(p.len(), |i: int| p[i] as int)
}

pub proof fn lemma_stable_order_is_permutation<K: TotalKey>(keys: Seq<K>, p: Seq<usize>)
    requires
        stable_order(keys, p),
        keys.len() <= usize::MAX,
    ensures
        is_permutation(positions(p), keys.len() as int),
{
    let q: Seq<int> = positions(p);
    assert forall|i: int, j: int| 0 <= i < q.len() && 0 <= j < q.len() && i != j implies q[i] != q[j] by {
        if i < j {
            assert(comes_before(keys, p[i] as int, p[j] as int));
        } else {
            assert(comes_before(keys, p[j] as int, p[i] as int));
        }
    }
    assert forall|x: int| 0 <= x < keys.len() implies #[trigger] q.contains(x) by {
        assert(p.contains(x as usize));
        let i: int = choose|i: int| 0 <= i < p.len() && p[i] == x as usize;
        assert(q[i] == x);
    }
}

proof fn lemma_same_prefix<K: TotalKey>(keys: Seq<K>, p: Seq<usize>, q: Seq<usize>, n: int)
    requires
        stable_order(keys, p),
        stable_order(keys, q),
        0 <= n <= keys.len(),
    ensures
        forall|i: int| 0 <= i < n ==> p[i] == q[i],
    decreases n,
{
    if n > 0 {
        let k: int = n - 1;
        lemma_same_prefix(keys, p, q, k);
        if p[k] != q[k] {
            assert(q.contains(p[k]));
            let j: int = choose|j: int| 0 <= j < q.len() && q[j] == p[k];
            if j < k {
                assert(p[j] == q[j]);
                assert(comes_before(keys, p[j] as int, p[k] as int));
            }
            assert(comes_before(keys, q[k] as int, q[j] as int));
            assert(p.contains(q[k]));
            let i: int = choose|i: int| 0 <= i < p.len() && p[i] == q[k];
            if i < k {
                assert(p[i] == q[i]);
                assert(comes_before(keys, q[i] as int, q[k] as int));
            }
            assert(comes_before(keys, p[k] as int, p[i] as int));
        }
    }
}

fn merge<K: TotalKey>(keys: &Vec<K>, a: &Vec<usize>, b: &Vec<usize>, lo: usize, mid: usize, hi: usize) -> (r: Vec<usize>)
    requires
        lo <= mid <= hi <= keys.len(),
        stable_run(keys@, a@, lo as int, mid as int),
        stable_run(keys@, b@, mid as int, hi as int),
    ensures
        stable_run(keys@, r@, lo as int, hi as int),
{
    let mut r: Vec<usize> = Vec::new();
    let mut i: usize = 0;
    let mut j: usize = 0;
    while i < a.len() || j < b.len()
        invariant
            lo <= mid <= hi <= keys.len(),
            stable_run(keys@, a@, lo as int, mid as int),
            stable_run(keys@, b@, mid as int, hi as int),
            i <= a.len(),
            j <= b.len(),
            r.len() == i + j,
            forall|k: int| 0 <= k < r.len() ==> lo <= #[trigger] r@[k] < hi,
            forall|k: int| 0 <= k < i ==> r@.contains(#[trigger] a@[k]),
            forall|k: int| 0 <= k < j ==> r@.contains(#[trigger] b@[k]),
            forall|k: int, l: int|
                0 <= k < l < r.len() ==> comes_before(keys@, #[trigger] r@[k] as int, #[trigger] r@[l] as int),
            forall|k: int, l: int|
                0 <= k < r.len() && i <= l < a.len() ==> comes_before(
                    keys@,
                    #[trigger] r@[k] as int,
                    #[trigger] a@[l] as int,
                ),
            forall|k: int, l: int|
                0 <= k < r.len() && j <= l < b.len() ==> comes_before(
                    keys@,
                    #[trigger] r@[k] as int,
                    #[trigger] b@[l] as int,
                ),
        decreases a.len() - i + b.len() - j,
    {
        let take_left: bool = if i >= a.len() {
            false
        } else if j >= b.len() {
            true
        } else {
            keys[a[i]].at_most(&keys[b[j]])
        };
        let ghost r0: Seq<usize> = r@;
        if take_left {
            proof {
                assert forall|l: int| j <= l < b.len() implies comes_before(keys@, a@[i as int] as int, #[trigger] b@[l] as int) by {
                    if l > j {
                        assert(comes_before(keys@, b@[j as int] as int, b@[l] as int));
                        K::le_transitive(keys@[a@[i as int] as int], keys@[b@[j as int] as int], keys@[b@[l] as int]);
                    }
                }
            }
            r.push(a[i]);
            proof {
                assert(r@[r0.len() as int] == a@[i as int]);
                assert forall|k: int| 0 <= k < i + 1 implies r@.contains(#[trigger] a@[k]) by {
                    if k < i {
                        let w: int = choose|w: int| 0 <= w < r0.len() && r0[w] == a@[k];
                        assert(r@[w] == a@[k]);
                    }
                }
                assert forall|k: int| 0 <= k < j implies r@.contains(#[trigger] b@[k]) by {
                    let w: int = choose|w: int| 0 <= w < r0.len() && r0[w] == b@[k];
                    assert(r@[w] == b@[k]);
                }
            }
            i += 1;
        } else {
            proof {
                assert forall|l: int| i <= l < a.len() implies comes_before(keys@, b@[j as int] as int, #[trigger] a@[l] as int) by {
                    K::le_total(keys@[a@[i as int] as int], keys@[b@[j as int] as int]);
                    if l > i {
                        assert(comes_before(keys@, a@[i as int] as int, a@[l] as int));
                        K::le_transitive(keys@[b@[j as int] as int], keys@[a@[i as int] as int], keys@[a@[l] as int]);
                        if keys@[a@[l] as int].le(keys@[b@[j as int] as int]) {
                            K::le_transitive(keys@[a@[i as int] as int], keys@[a@[l] as int], keys@[b@[j as int] as int]);
                        }
                    }
                }
            }
            r.push(b[j]);
            proof {
                assert(r@[r0.len() as int] == b@[j as int]);
                assert forall|k: int| 0 <= k < j + 1 implies r@.contains(#[trigger] b@[k]) by {
                    if k < j {
                        let w: int = choose|w: int| 0 <= w < r0.len() && r0[w] == b@[k];
                        assert(r@[w] == b@[k]);
                    }
                }
                assert forall|k: int| 0 <= k < i implies r@.contains(#[trigger] a@[k]) by {
                    let w: int = choose|w: int| 0 <= w < r0.len() && r0[w] == a@[k];
                    assert(r@[w] == a@[k]);
                }
            }
            j += 1;
        }
    }
    proof {
        assert forall|x: usize| lo <= x < hi implies #[trigger] r@.contains(x) by {
            if x < mid {
                assert(a@.contains(x));
                let k: int = choose|k: int| 0 <= k < a@.len() && a@[k] == x;
                assert(r@.contains(a@[k]));
            } else {
                assert(b@.contains(x));
                let k: int = choose|k: int| 0 <= k < b@.len() && b@[k] == x;
                assert(r@.contains(b@[k]));
            }
        }
    }
    r
}

fn sort_range<K: TotalKey>(keys: &Vec<K>, lo: usize, hi: usize) -> (r: Vec<usize>)
    requires
        lo <= hi <= keys.len(),
    ensures
        stable_run(keys@, r@, lo as int, hi as int),
    decreases hi - lo,
{
    let mut r: Vec<usize> = Vec::new();
    if hi - lo == 0 {
        return r;
    }
    if hi - lo == 1 {
        r.push(lo);
        proof {
            assert(r@[0] == lo);
        }
        return r;
    }
    let mid: usize = lo + (hi - lo) / 2;
    let a: Vec<usize> = sort_range(keys, lo, mid);
    let b: Vec<usize> = sort_range(keys, mid, hi);
    merge(keys, &a, &b, lo, mid, hi)
}

/// The positions of `keys` in ascending order of key; positions with equal
/// keys keep their relative order.
pub fn sort_positions<K: TotalKey>(keys: &Vec<K>) -> (r: Vec<usize>)
    ensures
        stable_order(keys@, r@),
{
    sort_range(keys, 0, keys.len())
}

/// `s` with `x` put in after everything whose key is not greater, seen from
/// the end.
pub open spec fn placed_by<T>(s: Seq<T>, x: T, key: spec_fn(T) -> int) -> Seq<T>
    decreases s.len(),
{
    if s.len() == 0 || key(s.last()) <= key(x) {
        s.push(x)
    } else {
        placed_by(s.drop_last(), x, key).push(s.last())
    }
}

/// `s` in ascending order of key; elements with the same key keep their
/// relative order.
pub open spec fn sorted_by<T>(s: Seq<T>, key: spec_fn(T) -> int) -> Seq<T>
    decreases s.len(),
{
    if s.len() == 0 {
        s
    } else {
        placed_by(sorted_by(s.drop_last(), key), s.last(), key)
    }
}

/// The elements at these positions.
pub open spec fn pick<T>(s: Seq<T>, at: Seq<int>) -> Seq<T> {
    Seq::new(at.len(), |i: int| s[at[i]])
}

pub open spec fn ascends_by<T>(s: Seq<T>, key: spec_fn(T) -> int) -> bool {
    forall|i: int, j: int| 0 <= i <= j < s.len() ==> key(#[trigger] s[i]) <= key(#[trigger] s[j])
}

pub proof fn lemma_placed_at<T>(s: Seq<T>, x: T, key: spec_fn(T) -> int, j: int)
    requires
        0 <= j <= s.len(),
        j > 0 ==> key(s[j - 1]) <= key(x),
        forall|i: int| j <= i < s.len() ==> key(#[trigger] s[i]) > key(x),
    ensures
        placed_by(s, x, key) == s.insert(j, x),
    decreases s.len() - j,
{
    if s.len() == j {
        assert(s.insert(j, x) =~= s.push(x));
    } else {
        assert(key(s[s.len() - 1]) > key(x));
        lemma_placed_at(s.drop_last(), x, key, j);
        assert(s.insert(j, x) =~= s.drop_last().insert(j, x).push(s.last()));
    }
}

/// A stable order of the keys puts the elements in `sorted_by` order.
pub proof fn lemma_sorted_by<T>(s: Seq<T>, keys: Seq<u128>, p: Seq<usize>, key: spec_fn(T) -> int)
    requires
        stable_order(keys, p),
        keys.len() == s.len(),
        keys.len() <= usize::MAX,
        forall|i: int| 0 <= i < s.len() ==> key(#[trigger] s[i]) == keys[i],
    ensures
        pick(s, positions(p)) == sorted_by(s, key),
    decreases s.len(),
{
    let all: Seq<T> = pick(s, positions(p));
    if s.len() == 0 {
        assert(all =~= s);
    } else {
        let n: int = s.len() - 1;
        let x: T = s.last();
        assert(p.contains(n as usize));
        let j: int = choose|j: int| 0 <= j < p.len() && p[j] == n as usize;
        let q: Seq<usize> = p.remove(j);
        let below: Seq<u128> = keys.drop_last();
        assert forall|a: int, b: int| 0 <= a < b < p.len() implies p[a] != p[b] by {
            assert(comes_before(keys, p[a] as int, p[b] as int));
        }
        assert forall|i: int| 0 <= i < q.len() implies 0 <= #[trigger] q[i] < n by {
            let i0: int = if i < j { i } else { i + 1 };
            assert(q[i] == p[i0]);
            assert(p[i0] != p[j]);
        }
        assert forall|y: usize| 0 <= y < n implies #[trigger] q.contains(y) by {
            assert(p.contains(y));
            let i0: int = choose|i0: int| 0 <= i0 < p.len() && p[i0] == y;
            let i: int = if i0 < j { i0 } else { i0 - 1 };
            assert(q[i] == y);
        }
        assert forall|a: int, b: int| 0 <= a < b < q.len() implies comes_before(
            below,
            #[trigger] q[a] as int,
            #[trigger] q[b] as int,
        ) by {
            let a0: int = if a < j { a } else { a + 1 };
            let b0: int = if b < j { b } else { b + 1 };
            assert(q[a] == p[a0] && q[b] == p[b0]);
            assert(comes_before(keys, p[a0] as int, p[b0] as int));
        }
        assert(stable_order(below, q));
        let short: Seq<T> = s.drop_last();
        assert forall|i: int| 0 <= i < short.len() implies key(#[trigger] short[i]) == below[i] by {
            assert(key(s[i]) == keys[i]);
        }
        lemma_sorted_by(short, below, q, key);
        let t: Seq<T> = pick(short, positions(q));
        assert(key(s[n]) == keys[n]);
        if j > 0 {
            assert(comes_before(keys, p[j - 1] as int, p[j] as int));
            assert(t[j - 1] == s[p[j - 1] as int]);
            assert(key(s[p[j - 1] as int]) == keys[p[j - 1] as int]);
        }
        assert forall|i: int| j <= i < t.len() implies key(#[trigger] t[i]) > key(x) by {
            assert(q[i] == p[i + 1]);
            assert(comes_before(keys, p[j] as int, p[i + 1] as int));
            assert(t[i] == s[p[i + 1] as int]);
            assert(key(s[p[i + 1] as int]) == keys[p[i + 1] as int]);
        }
        lemma_placed_at(t, x, key, j);
        assert forall|i: int| 0 <= i < all.len() implies all[i] == t.insert(j, x)[i] by {
            if i < j {
                assert(q[i] == p[i]);
            } else if i > j {
                assert(q[i - 1] == p[i]);
            }
        }
        assert(all =~= t.insert(j, x));
    }
}

proof fn lemma_placed_ascends<T>(s: Seq<T>, x: T, key: spec_fn(T) -> int)
    requires
        ascends_by(s, key),
    ensures
        ascends_by(placed_by(s, x, key), key),
        placed_by(s, x, key).len() == s.len() + 1,
        s.len() > 0 && key(s.last()) > key(x) ==> placed_by(s, x, key).last() == s.last(),
        s.len() == 0 || key(s.last()) <= key(x) ==> placed_by(s, x, key).last() == x,
    decreases s.len(),
{
    if s.len() > 0 && key(s.last()) > key(x) {
        let short: Seq<T> = s.drop_last();
        lemma_placed_ascends(short, x, key);
        let t: Seq<T> = placed_by(short, x, key);
        assert(key(t.last()) <= key(s.last()));
        assert forall|i: int, j: int| 0 <= i <= j < t.push(s.last()).len() implies key(
            #[trigger] t.push(s.last())[i],
        ) <= key(#[trigger] t.push(s.last())[j]) by {
            if j == t.len() && i < t.len() {
                assert(key(t[i]) <= key(t[t.len() - 1]));
            }
        }
    } else {
        assert forall|i: int, j: int| 0 <= i <= j < s.push(x).len() implies key(#[trigger] s.push(x)[i]) <= key(
            #[trigger] s.push(x)[j],
        ) by {
            if j == s.len() && i < s.len() {
                assert(key(s[i]) <= key(s[s.len() - 1]));
            }
        }
    }
}

pub proof fn lemma_sorted_by_ascends<T>(s: Seq<T>, key: spec_fn(T) -> int)
    ensures
        ascends_by(sorted_by(s, key), key),
        sorted_by(s, key).len() == s.len(),
    decreases s.len(),
{
    if s.len() > 0 {
        lemma_sorted_by_ascends(s.drop_last(), key);
        lemma_placed_ascends(sorted_by(s.drop_last(), key), s.last(), key);
    }
}

proof fn lemma_placed_filter<T>(s: Seq<T>, x: T, key: spec_fn(T) -> int, keep: spec_fn(T) -> bool)
    requires
        ascends_by(s, key),
    ensures
        keep(x) ==> placed_by(s, x, key).filter(keep) == placed_by(s.filter(keep), x, key),
        !keep(x) ==> placed_by(s, x, key).filter(keep) == s.filter(keep),
    decreases s.len(),
{
    reveal(Seq::filter);
    if s.len() == 0 {
        assert(s.push(x).drop_last() =~= s);
        assert(s.filter(keep) =~= s);
    } else if key(s.last()) <= key(x) {
        assert(s.push(x).drop_last() =~= s);
        if keep(x) {
            let f: Seq<T> = s.filter(keep);
            if f.len() > 0 {
                s.lemma_filter_contains_rev(keep, f.last());
                assert(f.contains(f[f.len() - 1]));
                let i: int = choose|i: int| 0 <= i < s.len() && s[i] == f.last();
                assert(key(s[i]) <= key(s[s.len() - 1]));
            }
        }
    } else {
        let short: Seq<T> = s.drop_last();
        let t: Seq<T> = placed_by(short, x, key);
        lemma_placed_filter(short, x, key, keep);
        assert(t.push(s.last()).drop_last() =~= t);
        if keep(s.last()) {
            assert(s.filter(keep) == short.filter(keep).push(s.last()));
            assert(s.filter(keep).drop_last() =~= short.filter(keep));
        } else if keep(x) {
            assert(s.filter(keep) == short.filter(keep));
        }
    }
}

/// Leaving elements out before or after sorting gives the same list.
pub proof fn lemma_sorted_by_filter<T>(s: Seq<T>, key: spec_fn(T) -> int, keep: spec_fn(T) -> bool)
    ensures
        sorted_by(s, key).filter(keep) == sorted_by(s.filter(keep), key),
    decreases s.len(),
{
    reveal(Seq::filter);
    if s.len() > 0 {
        let short: Seq<T> = s.drop_last();
        lemma_sorted_by_filter(short, key, keep);
        lemma_sorted_by_ascends(short, key);
        lemma_placed_filter(sorted_by(short, key), s.last(), key, keep);
        if keep(s.last()) {
            assert(s.filter(keep).drop_last() =~= short.filter(keep));
        }
    } else {
        assert(s.filter(keep) =~= s);
    }
}

impl TotalKey for u128 {
    open spec fn le(self, other: Self) -> bool {
        self <= other
    }

    proof fn le_total(a: Self, b: Self) {
    }

    proof fn le_transitive(a: Self, b: Self, c: Self) {
    }

    fn at_most(&self, other: &Self) -> (r: bool) {
        *self <= *other
    }
}

} // verus!
