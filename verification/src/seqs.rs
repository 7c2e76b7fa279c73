//! Sums over sequences, and the few facts about them that the engines use.

use vstd::prelude::*;

verus! {

/// The sum of `f` over all elements of `s`.
pub open spec fn total<T>(s: Seq<T>, f: spec_fn(T) -> int) -> int
    decreases s.len(),
{
    if s.len() == 0 {
        0
    } else {
        total(s.drop_last(), f) + f(s.last())
    }
}

/// The number of leading elements of `s` for which `p` holds.
pub open spec fn leading<T>(s: Seq<T>, p: spec_fn(T) -> bool) -> nat
    decreases s.len(),
{
    if s.len() == 0 || !p(s.first()) {
        0
    } else {
        1 + leading(s.drop_first(), p)
    }
}

/// Saturating addition on `u128`, over the integers.
pub open spec fn saturated(x: int) -> int {
    if x > u128::MAX {
        u128::MAX as int
    } else {
        x
    }
}

/// Subtraction that stops at zero.
pub open spec fn clamped_sub(x: int, y: int) -> int {
    if x >= y {
        x - y
    } else {
        0
    }
}

pub open spec fn min_of(x: int, y: int) -> int {
    if x <= y {
        x
    } else {
        y
    }
}

pub open spec fn distance(x: int, y: int) -> int {
    if x >= y {
        x - y
    } else {
        y - x
    }
}

pub proof fn lemma_total_push<T>(s: Seq<T>, x: T, f: spec_fn(T) -> int)
    ensures
        total(s.push(x), f) == total(s, f) + f(x),
{
    assert(s.push(x).drop_last() =~= s);
}

pub proof fn lemma_total_take<T>(s: Seq<T>, i: int, f: spec_fn(T) -> int)
    requires
        0 <= i < s.len(),
    ensures
        total(s.take(i + 1), f) == total(s.take(i), f) + f(s[i]),
{
    assert(s.take(i + 1).drop_last() =~= s.take(i));
}

pub proof fn lemma_total_add<T>(a: Seq<T>, b: Seq<T>, f: spec_fn(T) -> int)
    ensures
        total(a + b, f) == total(a, f) + total(b, f),
    decreases b.len(),
{
    if b.len() == 0 {
        assert(a + b =~= a);
    } else {
        assert((a + b).drop_last() =~= a + b.drop_last());
        lemma_total_add(a, b.drop_last(), f);
    }
}

pub proof fn lemma_total_first<T>(s: Seq<T>, f: spec_fn(T) -> int)
    requires
        s.len() > 0,
    ensures
        total(s, f) == f(s.first()) + total(s.drop_first(), f),
{
    assert(s =~= seq![s.first()] + s.drop_first());
    lemma_total_add(seq![s.first()], s.drop_first(), f);
    assert(seq![s.first()] =~= Seq::<T>::empty().push(s.first()));
    lemma_total_push(Seq::<T>::empty(), s.first(), f);
}

pub proof fn lemma_total_same<T, U>(a: Seq<T>, b: Seq<U>, f: spec_fn(T) -> int, g: spec_fn(U) -> int)
    requires
        a.len() == b.len(),
        forall|i: int| 0 <= i < a.len() ==> f(#[trigger] a[i]) == g(b[i]),
    ensures
        total(a, f) == total(b, g),
    decreases a.len(),
{
    if a.len() > 0 {
        let n: int = a.len() - 1;
        assert(f(a[n]) == g(b[n]));
        assert forall|i: int| 0 <= i < a.drop_last().len() implies f(#[trigger] a.drop_last()[i])
            == g(b.drop_last()[i]) by {
            assert(f(a[i]) == g(b[i]));
        }
        lemma_total_same(a.drop_last(), b.drop_last(), f, g);
    }
}

pub proof fn lemma_total_bounds<T>(s: Seq<T>, f: spec_fn(T) -> int, g: spec_fn(T) -> int)
    requires
        forall|i: int| 0 <= i < s.len() ==> 0 <= f(#[trigger] s[i]) <= g(s[i]),
    ensures
        0 <= total(s, f) <= total(s, g),
    decreases s.len(),
{
    if s.len() > 0 {
        let n: int = s.len() - 1;
        assert(0 <= f(s[n]) <= g(s[n]));
        assert forall|i: int| 0 <= i < s.drop_last().len() implies 0 <= f(#[trigger] s.drop_last()[i])
            <= g(s.drop_last()[i]) by {
            assert(0 <= f(s[i]) <= g(s[i]));
        }
        lemma_total_bounds(s.drop_last(), f, g);
    }
}

pub proof fn lemma_total_nonneg<T>(s: Seq<T>, f: spec_fn(T) -> int)
    requires
        forall|i: int| 0 <= i < s.len() ==> 0 <= f(#[trigger] s[i]),
    ensures
        0 <= total(s, f),
    decreases s.len(),
{
    lemma_total_bounds(s, f, f);
}

/// A prefix sums to no more than the whole, for a nowhere negative summand.
pub proof fn lemma_total_prefix<T>(s: Seq<T>, i: int, f: spec_fn(T) -> int)
    requires
        0 <= i <= s.len(),
        forall|j: int| 0 <= j < s.len() ==> 0 <= f(#[trigger] s[j]),
    ensures
        0 <= total(s.take(i), f) <= total(s, f),
        total(s, f) == total(s.take(i), f) + total(s.skip(i), f),
{
    assert(s =~= s.take(i) + s.skip(i));
    lemma_total_add(s.take(i), s.skip(i), f);
    assert forall|j: int| 0 <= j < s.skip(i).len() implies 0 <= f(#[trigger] s.skip(i)[j]) by {
        assert(0 <= f(s[i + j]));
    }
    assert forall|j: int| 0 <= j < s.take(i).len() implies 0 <= f(#[trigger] s.take(i)[j]) by {
        assert(0 <= f(s[j]));
    }
    lemma_total_nonneg(s.skip(i), f);
    lemma_total_nonneg(s.take(i), f);
}

/// A single element contributes no more than the whole sum.
pub proof fn lemma_total_member<T>(s: Seq<T>, i: int, f: spec_fn(T) -> int)
    requires
        0 <= i < s.len(),
        forall|j: int| 0 <= j < s.len() ==> 0 <= f(#[trigger] s[j]),
    ensures
        0 <= f(s[i]) <= total(s, f),
{
    lemma_total_prefix(s, i + 1, f);
    lemma_total_take(s, i, f);
    lemma_total_prefix(s, i, f);
    assert(0 <= f(s[i]));
}

pub proof fn lemma_total_remove<T>(s: Seq<T>, i: int, f: spec_fn(T) -> int)
    requires
        0 <= i < s.len(),
    ensures
        total(s, f) == total(s.remove(i), f) + f(s[i]),
{
    assert(s =~= s.take(i) + (seq![s[i]] + s.skip(i + 1)));
    assert(s.remove(i) =~= s.take(i) + s.skip(i + 1));
    lemma_total_add(s.take(i), seq![s[i]] + s.skip(i + 1), f);
    lemma_total_add(seq![s[i]], s.skip(i + 1), f);
    lemma_total_add(s.take(i), s.skip(i + 1), f);
    assert(seq![s[i]] =~= Seq::<T>::empty().push(s[i]));
    lemma_total_push(Seq::<T>::empty(), s[i], f);
}

pub proof fn lemma_total_insert<T>(s: Seq<T>, i: int, x: T, f: spec_fn(T) -> int)
    requires
        0 <= i <= s.len(),
    ensures
        total(s.insert(i, x), f) == total(s, f) + f(x),
{
    assert(s.insert(i, x).remove(i) =~= s);
    lemma_total_remove(s.insert(i, x), i, f);
}

pub proof fn lemma_total_update<T>(s: Seq<T>, i: int, x: T, f: spec_fn(T) -> int)
    requires
        0 <= i < s.len(),
    ensures
        total(s.update(i, x), f) == total(s, f) - f(s[i]) + f(x),
{
    assert(s.update(i, x).remove(i) =~= s.remove(i));
    lemma_total_remove(s.update(i, x), i, f);
    lemma_total_remove(s, i, f);
}

/// `p` lists every index below `n` exactly once.
pub open spec fn is_permutation(p: Seq<int>, n: int) -> bool {
    &&& p.len() == n
    &&& p.no_duplicates()
    &&& forall|i: int| 0 <= i < p.len() ==> 0 <= #[trigger] p[i] < n
    &&& forall|x: int| 0 <= x < n ==> #[trigger] p.contains(x)
}

/// Reordering the elements does not change their sum.
pub proof fn lemma_total_permutation<T>(s: Seq<T>, p: Seq<int>, f: spec_fn(T) -> int)
    requires
        is_permutation(p, s.len() as int),
    ensures
        total(Seq::new(p.len(), |i: int| s[p[i]]), f) == total(s, f),
    decreases s.len(),
{
    let r: Seq<T> = Seq::new(p.len(), |i: int| s[p[i]]);
    if s.len() > 0 {
        let n: int = s.len() - 1;
        assert(p.contains(n));
        let j: int = choose|j: int| 0 <= j < p.len() && p[j] == n;
        let q: Seq<int> = p.remove(j);
        assert(is_permutation(q, n)) by {
            assert forall|a: int, b: int| 0 <= a < q.len() && 0 <= b < q.len() && a != b implies q[a] != q[b] by {
                let a0: int = if a < j { a } else { a + 1 };
                let b0: int = if b < j { b } else { b + 1 };
                assert(q[a] == p[a0] && q[b] == p[b0]);
            }
            assert forall|i: int| 0 <= i < q.len() implies 0 <= #[trigger] q[i] < n by {
                let i0: int = if i < j { i } else { i + 1 };
                assert(q[i] == p[i0]);
                assert(p[i0] != p[j]);
            }
            assert forall|x: int| 0 <= x < n implies #[trigger] q.contains(x) by {
                assert(p.contains(x));
                let i0: int = choose|i0: int| 0 <= i0 < p.len() && p[i0] == x;
                let i: int = if i0 < j { i0 } else { i0 - 1 };
                assert(q[i] == x);
            }
        }
        lemma_total_permutation(s.drop_last(), q, f);
        let r0: Seq<T> = Seq::new(q.len(), |i: int| s.drop_last()[q[i]]);
        assert(r.remove(j) =~= r0) by {
            assert forall|i: int| 0 <= i < r0.len() implies r.remove(j)[i] == r0[i] by {
                let i0: int = if i < j { i } else { i + 1 };
                assert(q[i] == p[i0]);
                assert(0 <= q[i] < n);
            }
        }
        lemma_total_remove(r, j, f);
    } else {
        assert(r =~= s);
    }
}

pub proof fn lemma_total_scaled<T>(s: Seq<T>, f: spec_fn(T) -> int, g: spec_fn(T) -> int, h: spec_fn(T) -> int)
    requires
        forall|i: int| 0 <= i < s.len() ==> f(#[trigger] s[i]) == g(s[i]) + h(s[i]),
    ensures
        total(s, f) == total(s, g) + total(s, h),
    decreases s.len(),
{
    if s.len() > 0 {
        let n: int = s.len() - 1;
        assert(f(s[n]) == g(s[n]) + h(s[n]));
        assert forall|i: int| 0 <= i < s.drop_last().len() implies f(#[trigger] s.drop_last()[i])
            == g(s.drop_last()[i]) + h(s.drop_last()[i]) by {
            assert(f(s[i]) == g(s[i]) + h(s[i]));
        }
        lemma_total_scaled(s.drop_last(), f, g, h);
    }
}

/// `leading` is the only index that separates a run of `p` from its end.
pub proof fn lemma_leading<T>(s: Seq<T>, p: spec_fn(T) -> bool, k: int)
    requires
        0 <= k <= s.len(),
        forall|i: int| 0 <= i < k ==> p(#[trigger] s[i]),
        k < s.len() ==> !p(s[k]),
    ensures
        leading(s, p) == k,
    decreases s.len(),
{
    if k > 0 {
        assert(p(s[0]));
        assert forall|i: int| 0 <= i < k - 1 implies p(#[trigger] s.drop_first()[i]) by {
            assert(p(s[i + 1]));
        }
        lemma_leading(s.drop_first(), p, k - 1);
    }
}

pub proof fn lemma_leading_run<T>(s: Seq<T>, p: spec_fn(T) -> bool)
    ensures
        leading(s, p) <= s.len(),
        forall|i: int| 0 <= i < leading(s, p) ==> p(#[trigger] s[i]),
        leading(s, p) < s.len() ==> !p(s[leading(s, p) as int]),
    decreases s.len(),
{
    if s.len() > 0 && p(s.first()) {
        lemma_leading_run(s.drop_first(), p);
        let k: int = leading(s.drop_first(), p) as int;
        assert forall|i: int| 0 <= i < k + 1 implies p(#[trigger] s[i]) by {
            if i > 0 {
                assert(p(s.drop_first()[i - 1]));
            }
        }
        if k + 1 < s.len() {
            assert(s.drop_first()[k] == s[k + 1]);
        }
    }
}

} // verus!
