//! Tables in ascending order of key, each key at most once.

use vstd::prelude::*;
use crate::lexical::{lemma_text_le_antisymmetric, lemma_text_le_total, lemma_text_le_transitive, text_at_most, text_lt};
use crate::text::{chars_of, same_text};

verus! {

/// Values with a strict total order.
pub trait Ranked: Sized {
    spec fn precedes(self, other: Self) -> bool;

    proof fn precedes_irreflexive(a: Self)
        ensures
            !a.precedes(a),
    ;

    proof fn precedes_transitive(a: Self, b: Self, c: Self)
        requires
            a.precedes(b),
            b.precedes(c),
        ensures
            a.precedes(c),
    ;

    proof fn precedes_total(a: Self, b: Self)
        ensures
            a.precedes(b) || b.precedes(a) || a == b,
    ;
}

/// Where one key stands in relation to another.
#[derive(Clone, Copy, Debug, PartialEq, Eq, Structural)]
pub enum Place {
    Before,
    Same,
    After,
}

/// The key of a table.
pub trait TableKey: Sized {
    type Rank: Ranked;

    spec fn rank(&self) -> Self::Rank;

    fn place(&self, other: &Self) -> (r: Place)
        ensures
            match r {
                Place::Before => self.rank().precedes(other.rank()),
                Place::Same => self.rank() == other.rank(),
                Place::After => other.rank().precedes(self.rank()),
            },
    ;
}

pub open spec fn ascending<R: Ranked, V>(s: Seq<(R, V)>) -> bool {
    forall|i: int, j: int| 0 <= i < j < s.len() ==> (#[trigger] s[i]).0.precedes((#[trigger] s[j]).0)
}

/// The table with `v` under `k`, in place of what was there.
pub open spec fn put<R: Ranked, V>(s: Seq<(R, V)>, k: R, v: V) -> Seq<(R, V)>
    decreases s.len(),
{
    if s.len() == 0 {
        seq![(k, v)]
    } else if s.last().0 == k {
        s.drop_last().push((k, v))
    } else if s.last().0.precedes(k) {
        s.push((k, v))
    } else {
        put(s.drop_last(), k, v).push(s.last())
    }
}

/// What is under `k`.
pub open spec fn lookup<R: Ranked, V>(s: Seq<(R, V)>, k: R) -> Option<V>
    decreases s.len(),
{
    if s.len() == 0 {
        None
    } else if s.last().0 == k {
        Some(s.last().1)
    } else {
        lookup(s.drop_last(), k)
    }
}

/// The table without `k`.
pub open spec fn without<R: Ranked, V>(s: Seq<(R, V)>, k: R) -> Seq<(R, V)>
    decreases s.len(),
{
    if s.len() == 0 {
        s
    } else if s.last().0 == k {
        without(s.drop_last(), k)
    } else {
        without(s.drop_last(), k).push(s.last())
    }
}

/// `k` belongs at position `at`: everything before it precedes `k`, and `k`
/// precedes everything from there on.
pub open spec fn fits_at<R: Ranked, V>(s: Seq<(R, V)>, k: R, at: int) -> bool {
    &&& 0 <= at <= s.len()
    &&& forall|i: int| 0 <= i < at ==> (#[trigger] s[i]).0.precedes(k)
    &&& forall|i: int| at <= i < s.len() ==> k.precedes((#[trigger] s[i]).0)
}

pub proof fn lemma_put_new<R: Ranked, V>(s: Seq<(R, V)>, k: R, v: V, at: int)
    requires
        fits_at(s, k, at),
    ensures
        put(s, k, v) == s.insert(at, (k, v)),
        lookup(s, k) is None,
        without(s, k) == s,
    decreases s.len(),
{
    if s.len() == 0 {
        assert(put(s, k, v) =~= s.insert(at, (k, v)));
        assert(without(s, k) =~= s);
    } else {
        let l: (R, V) = s.last();
        assert(s[s.len() - 1] == l);
        R::precedes_irreflexive(k);
        if at == s.len() {
            assert(l.0.precedes(k));
            assert(put(s, k, v) =~= s.insert(at, (k, v)));
            assert(fits_at(s.drop_last(), k, at - 1));
            lemma_put_new(s.drop_last(), k, v, at - 1);
        } else {
            assert(k.precedes(l.0));
            if l.0.precedes(k) {
                R::precedes_transitive(k, l.0, k);
            }
            assert(fits_at(s.drop_last(), k, at));
            lemma_put_new(s.drop_last(), k, v, at);
            assert(put(s, k, v) =~= s.insert(at, (k, v)));
        }
        assert(without(s, k) =~= s);
    }
}

pub proof fn lemma_put_old<R: Ranked, V>(s: Seq<(R, V)>, k: R, v: V, at: int)
    requires
        ascending(s),
        0 <= at < s.len(),
        s[at].0 == k,
    ensures
        put(s, k, v) == s.update(at, (k, v)),
        lookup(s, k) == Some(s[at].1),
        without(s, k) == s.remove(at),
    decreases s.len(),
{
    let l: (R, V) = s.last();
    assert(s[s.len() - 1] == l);
    R::precedes_irreflexive(k);
    if at == s.len() - 1 {
        assert(put(s, k, v) =~= s.update(at, (k, v)));
        assert(fits_at(s.drop_last(), k, at)) by {
            assert forall|i: int| 0 <= i < at implies (#[trigger] s.drop_last()[i]).0.precedes(k) by {
                assert(s[i].0.precedes(s[at].0));
            }
        }
        lemma_put_new(s.drop_last(), k, v, at);
        assert(without(s, k) =~= s.remove(at));
    } else {
        assert(s[at].0.precedes(s[s.len() - 1].0));
        if l.0.precedes(k) {
            R::precedes_transitive(k, l.0, k);
        }
        assert(ascending(s.drop_last())) by {
            assert forall|i: int, j: int| 0 <= i < j < s.drop_last().len() implies (#[trigger] s.drop_last()[i]).0.precedes(
                (#[trigger] s.drop_last()[j]).0,
            ) by {
                assert(s[i].0.precedes(s[j].0));
            }
        }
        lemma_put_old(s.drop_last(), k, v, at);
        assert(put(s, k, v) =~= s.update(at, (k, v)));
        assert(without(s, k) =~= s.remove(at));
    }
}

/// In an ascending table, a key is at one place or belongs at one.
pub proof fn lemma_placed<R: Ranked, V>(s: Seq<(R, V)>, k: R) -> (at: int)
    requires
        ascending(s),
    ensures
        0 <= at <= s.len(),
        (at < s.len() && s[at].0 == k) || fits_at(s, k, at),
    decreases s.len(),
{
    if s.len() == 0 {
        0
    } else {
        let l: (R, V) = s.last();
        assert(s[s.len() - 1] == l);
        R::precedes_total(k, l.0);
        if l.0 == k {
            s.len() - 1
        } else if l.0.precedes(k) {
            assert forall|i: int| 0 <= i < s.len() implies (#[trigger] s[i]).0.precedes(k) by {
                if i < s.len() - 1 {
                    assert(s[i].0.precedes(s[s.len() - 1].0));
                    R::precedes_transitive(s[i].0, l.0, k);
                }
            }
            s.len() as int
        } else {
            assert(ascending(s.drop_last())) by {
                assert forall|i: int, j: int| 0 <= i < j < s.drop_last().len() implies (#[trigger] s.drop_last()[i]).0.precedes(
                    (#[trigger] s.drop_last()[j]).0,
                ) by {
                    assert(s[i].0.precedes(s[j].0));
                }
            }
            let at: int = lemma_placed(s.drop_last(), k);
            if !(at < s.drop_last().len() && s.drop_last()[at].0 == k) {
                assert forall|i: int| 0 <= i < at implies (#[trigger] s[i]).0.precedes(k) by {
                    assert(s.drop_last()[i].0.precedes(k));
                }
                assert forall|i: int| at <= i < s.len() implies k.precedes((#[trigger] s[i]).0) by {
                    if i < s.len() - 1 {
                        assert(k.precedes(s.drop_last()[i].0));
                    }
                }
            }
            at
        }
    }
}

/// Putting and taking away keep a table in order, and change what is under
/// one key only.
pub proof fn lemma_table<R: Ranked, V>(s: Seq<(R, V)>, k: R, v: V)
    requires
        ascending(s),
    ensures
        ascending(put(s, k, v)),
        ascending(without(s, k)),
        lookup(put(s, k, v), k) == Some(v),
        lookup(without(s, k), k) is None,
        forall|q: R| q != k ==> #[trigger] lookup(put(s, k, v), q) == lookup(s, q),
        forall|q: R| q != k ==> #[trigger] lookup(without(s, k), q) == lookup(s, q),
        put(s, k, v).len() == if lookup(s, k) is Some {
            s.len()
        } else {
            s.len() + 1
        },
{
    let at: int = lemma_placed(s, k);
    if at < s.len() && s[at].0 == k {
        lemma_put_old(s, k, v, at);
        let t: Seq<(R, V)> = put(s, k, v);
        let u: Seq<(R, V)> = without(s, k);
        assert forall|i: int, j: int| 0 <= i < j < t.len() implies (#[trigger] t[i]).0.precedes((#[trigger] t[j]).0) by {
            assert(s[i].0.precedes(s[j].0));
        }
        assert forall|i: int, j: int| 0 <= i < j < u.len() implies (#[trigger] u[i]).0.precedes((#[trigger] u[j]).0) by {
            let a: int = if i < at { i } else { i + 1 };
            let b: int = if j < at { j } else { j + 1 };
            assert(s[a].0.precedes(s[b].0));
        }
        lemma_put_old(t, k, v, at);
        assert(fits_at(u, k, at)) by {
            assert forall|i: int| 0 <= i < at implies (#[trigger] u[i]).0.precedes(k) by {
                assert(s[i].0.precedes(s[at].0));
            }
            assert forall|i: int| at <= i < u.len() implies k.precedes((#[trigger] u[i]).0) by {
                assert(s[at].0.precedes(s[i + 1].0));
            }
        }
        lemma_put_new(u, k, v, at);
        assert forall|q: R| q != k implies #[trigger] lookup(t, q) == lookup(s, q) by {
            lemma_lookup_same(s, t, q);
        }
        assert forall|q: R| q != k implies #[trigger] lookup(u, q) == lookup(s, q) by {
            lemma_lookup_removed(s, at, q);
        }
    } else {
        lemma_put_new(s, k, v, at);
        let t: Seq<(R, V)> = put(s, k, v);
        assert forall|i: int, j: int| 0 <= i < j < t.len() implies (#[trigger] t[i]).0.precedes((#[trigger] t[j]).0) by {
            if i < at && j == at {
                assert(s[i].0.precedes(k));
            } else if i == at {
                assert(k.precedes(s[j - 1].0));
            } else {
                let a: int = if i < at { i } else { i - 1 };
                let b: int = if j < at { j } else { j - 1 };
                assert(s[a].0.precedes(s[b].0));
            }
        }
        lemma_put_old(t, k, v, at);
        assert(t.remove(at) =~= s);
        assert forall|q: R| q != k implies #[trigger] lookup(t, q) == lookup(s, q) by {
            lemma_lookup_removed(t, at, q);
        }
    }
}

/// Taking a key away and putting it back is putting it.
pub proof fn lemma_put_without<R: Ranked, V>(s: Seq<(R, V)>, k: R, v: V)
    requires
        ascending(s),
    ensures
        put(without(s, k), k, v) == put(s, k, v),
{
    let at: int = lemma_placed(s, k);
    if at < s.len() && s[at].0 == k {
        lemma_put_old(s, k, v, at);
        let u: Seq<(R, V)> = without(s, k);
        assert(fits_at(u, k, at)) by {
            assert forall|i: int| 0 <= i < at implies (#[trigger] u[i]).0.precedes(k) by {
                assert(s[i].0.precedes(s[at].0));
            }
            assert forall|i: int| at <= i < u.len() implies k.precedes((#[trigger] u[i]).0) by {
                assert(s[at].0.precedes(s[i + 1].0));
            }
        }
        lemma_put_new(u, k, v, at);
        assert(u.insert(at, (k, v)) =~= s.update(at, (k, v)));
    } else {
        lemma_put_new(s, k, v, at);
    }
}

/// Tables that agree under a key look up the same.
proof fn lemma_lookup_same<R: Ranked, V>(s: Seq<(R, V)>, t: Seq<(R, V)>, q: R)
    requires
        s.len() == t.len(),
        forall|i: int| 0 <= i < s.len() ==> (#[trigger] s[i]).0 == t[i].0,
        forall|i: int| 0 <= i < s.len() && (#[trigger] s[i]).0 == q ==> s[i].1 == t[i].1,
    ensures
        lookup(s, q) == lookup(t, q),
    decreases s.len(),
{
    if s.len() > 0 {
        assert(s[s.len() - 1].0 == t[t.len() - 1].0);
        assert forall|i: int| 0 <= i < s.drop_last().len() implies (#[trigger] s.drop_last()[i]).0 == t.drop_last()[i].0 by {
            assert(s[i].0 == t[i].0);
        }
        assert forall|i: int| 0 <= i < s.drop_last().len() && (#[trigger] s.drop_last()[i]).0 == q implies s.drop_last()[i].1
            == t.drop_last()[i].1 by {
            assert(s[i].0 == q);
        }
        lemma_lookup_same(s.drop_last(), t.drop_last(), q);
    }
}

proof fn lemma_lookup_removed<R: Ranked, V>(s: Seq<(R, V)>, at: int, q: R)
    requires
        0 <= at < s.len(),
        s[at].0 != q,
    ensures
        lookup(s.remove(at), q) == lookup(s, q),
    decreases s.len(),
{
    if at == s.len() - 1 {
        assert(s.remove(at) =~= s.drop_last());
    } else {
        assert(s.remove(at).drop_last() =~= s.drop_last().remove(at));
        assert(s.remove(at).last() == s.last());
        lemma_lookup_removed(s.drop_last(), at, q);
    }
}

/// The table with every value mapped.
pub open spec fn mapped<R: Ranked, V, W>(s: Seq<(R, V)>, f: spec_fn(V) -> W) -> Seq<(R, W)> {
    Seq::new(s.len(), |i: int| (s[i].0, f(s[i].1)))
}

/// Mapping goes with every operation.
pub proof fn lemma_mapped<R: Ranked, V, W>(s: Seq<(R, V)>, f: spec_fn(V) -> W, k: R, v: V)
    ensures
        mapped(put(s, k, v), f) == put(mapped(s, f), k, f(v)),
        mapped(without(s, k), f) == without(mapped(s, f), k),
        lookup(mapped(s, f), k) == match lookup(s, k) {
            Some(x) => Some(f(x)),
            None => None,
        },
    decreases s.len(),
{
    let m: Seq<(R, W)> = mapped(s, f);
    if s.len() == 0 {
        assert(mapped(put(s, k, v), f) =~= put(m, k, f(v)));
        assert(mapped(without(s, k), f) =~= without(m, k));
    } else {
        lemma_mapped(s.drop_last(), f, k, v);
        assert(m.drop_last() =~= mapped(s.drop_last(), f));
        assert(mapped(put(s, k, v), f) =~= put(m, k, f(v)));
        assert(mapped(without(s, k), f) =~= without(m, k));
    }
}

/// A table.
#[derive(Debug)]
pub struct Table<K: TableKey, V> {
    pub entries: Vec<(K, V)>,
}

impl<K: TableKey, V> Table<K, V> {
    /// The entries, in order of key.
    pub open spec fn items(&self) -> Seq<(K::Rank, V)> {
        Seq::new(self.entries@.len(), |i: int| (self.entries@[i].0.rank(), self.entries@[i].1))
    }

    pub open spec fn wf(&self) -> bool {
        ascending(self.items())
    }

    /// A table without entries.
    pub fn new() -> (r: Self)
        ensures
            r.wf(),
            r.entries@ == Seq::<(K, V)>::empty(),
            r.items() == Seq::<(K::Rank, V)>::empty(),
    {
        let r: Table<K, V> = Table { entries: Vec::new() };
        assert(r.items() =~= Seq::<(K::Rank, V)>::empty());
        r
    }

    pub fn len(&self) -> (r: usize)
        ensures
            r == self.items().len(),
    {
        self.entries.len()
    }

    /// The entry at a position.
    pub fn at(&self, i: usize) -> (r: &(K, V))
        requires
            i < self.items().len(),
        ensures
            (r.0.rank(), r.1) == self.items()[i as int],
    {
        &self.entries[i]
    }

    /// The position of a key, or where it belongs, and whether it is there.
    fn find(&self, key: &K) -> (r: (usize, bool))
        requires
            self.wf(),
        ensures
            r.0 <= self.entries.len(),
            r.1 ==> r.0 < self.entries.len() && self.items()[r.0 as int].0 == key.rank(),
            !r.1 ==> fits_at(self.items(), key.rank(), r.0 as int),
    {
        let mut i: usize = 0;
        while i < self.entries.len()
            invariant
                i <= self.entries.len(),
                self.wf(),
                forall|k: int| 0 <= k < i ==> (#[trigger] self.items()[k]).0.precedes(key.rank()),
            decreases self.entries.len() - i,
        {
            match key.place(&self.entries[i].0) {
                Place::Same => {
                    return (i, true);
                },
                Place::Before => {
                    proof {
                        let s: Seq<(K::Rank, V)> = self.items();
                        assert forall|k: int| i <= k < s.len() implies key.rank().precedes((#[trigger] s[k]).0) by {
                            if k > i {
                                assert(s[i as int].0.precedes(s[k].0));
                                K::Rank::precedes_transitive(key.rank(), s[i as int].0, s[k].0);
                            }
                        }
                    }
                    return (i, false);
                },
                Place::After => {
                    assert(self.items()[i as int].0.precedes(key.rank()));
                },
            }
            i += 1;
        }
        (i, false)
    }

    /// What is under a key.
    pub fn get(&self, key: &K) -> (r: Option<&V>)
        requires
            self.wf(),
        ensures
            match r {
                Some(v) => lookup(self.items(), key.rank()) == Some(*v),
                None => lookup(self.items(), key.rank()) is None,
            },
    {
        let (at, there): (usize, bool) = self.find(key);
        if there {
            proof {
                lemma_put_old(self.items(), key.rank(), self.items()[at as int].1, at as int);
            }
            Some(&self.entries[at].1)
        } else {
            proof {
                if self.items().len() > 0 {
                    lemma_put_new(self.items(), key.rank(), self.items()[0].1, at as int);
                }
            }
            None
        }
    }

    /// Puts a value under a key, in place of what was there.
    pub fn set(&mut self, key: K, value: V)
        requires
            old(self).wf(),
        ensures
            final(self).wf(),
            final(self).items() == put(old(self).items(), key.rank(), value),
    {
        let ghost before: Seq<(K::Rank, V)> = self.items();
        let ghost rank: K::Rank = key.rank();
        let (at, there): (usize, bool) = self.find(&key);
        proof {
            lemma_table(before, rank, value);
        }
        if there {
            proof {
                lemma_put_old(before, rank, value, at as int);
            }
            self.entries.set(at, (key, value));
            assert(self.items() =~= before.update(at as int, (rank, value)));
        } else {
            proof {
                lemma_put_new(before, rank, value, at as int);
            }
            self.entries.insert(at, (key, value));
            assert(self.items() =~= before.insert(at as int, (rank, value)));
        }
    }

    /// Takes away what is under a key.
    pub fn remove(&mut self, key: &K) -> (r: Option<V>)
        requires
            old(self).wf(),
        ensures
            final(self).wf(),
            r == lookup(old(self).items(), key.rank()),
            final(self).items() == without(old(self).items(), key.rank()),
    {
        let ghost before: Seq<(K::Rank, V)> = self.items();
        let (at, there): (usize, bool) = self.find(key);
        if there {
            proof {
                lemma_table(before, key.rank(), before[at as int].1);
                lemma_put_old(before, key.rank(), before[at as int].1, at as int);
            }
            let (_key, value): (K, V) = self.entries.remove(at);
            assert(self.items() =~= before.remove(at as int));
            Some(value)
        } else {
            proof {
                if before.len() > 0 {
                    lemma_put_new(before, key.rank(), before[0].1, at as int);
                } else {
                    assert(without(before, key.rank()) =~= before);
                }
            }
            None
        }
    }
}

/// Texts in the order of a dictionary.
impl Ranked for Seq<char> {
    open spec fn precedes(self, other: Self) -> bool {
        text_lt(self, other)
    }

    proof fn precedes_irreflexive(a: Self) {
    }

    proof fn precedes_transitive(a: Self, b: Self, c: Self) {
        lemma_text_le_transitive(a, b, c);
        if a == c {
            lemma_text_le_antisymmetric(a, b);
        }
    }

    proof fn precedes_total(a: Self, b: Self) {
        lemma_text_le_total(a, b);
    }
}

/// Where one text stands in relation to another.
pub fn place_of_text(a: &str, b: &str) -> (r: Place)
    ensures
        match r {
            Place::Before => a@.precedes(b@),
            Place::Same => a@ == b@,
            Place::After => b@.precedes(a@),
        },
{
    if same_text(a, b) {
        Place::Same
    } else if text_at_most(&chars_of(a), &chars_of(b)) {
        Place::Before
    } else {
        proof {
            lemma_text_le_total(a@, b@);
        }
        Place::After
    }
}

/// The first component decides, unless it is the same.
impl<A: Ranked, B: Ranked> Ranked for (A, B) {
    open spec fn precedes(self, other: Self) -> bool {
        self.0.precedes(other.0) || (self.0 == other.0 && self.1.precedes(other.1))
    }

    proof fn precedes_irreflexive(a: Self) {
        A::precedes_irreflexive(a.0);
        B::precedes_irreflexive(a.1);
    }

    proof fn precedes_transitive(a: Self, b: Self, c: Self) {
        if a.0.precedes(b.0) && b.0.precedes(c.0) {
            A::precedes_transitive(a.0, b.0, c.0);
        }
        if a.1.precedes(b.1) && b.1.precedes(c.1) {
            B::precedes_transitive(a.1, b.1, c.1);
        }
    }

    proof fn precedes_total(a: Self, b: Self) {
        A::precedes_total(a.0, b.0);
        B::precedes_total(a.1, b.1);
    }
}

/// Nothing precedes something.
impl<A: Ranked> Ranked for Option<A> {
    open spec fn precedes(self, other: Self) -> bool {
        match (self, other) {
            (Some(x), Some(y)) => x.precedes(y),
            (None, Some(_)) => true,
            _ => false,
        }
    }

    proof fn precedes_irreflexive(a: Self) {
        if let Some(x) = a {
            A::precedes_irreflexive(x);
        }
    }

    proof fn precedes_transitive(a: Self, b: Self, c: Self) {
        match (a, b, c) {
            (Some(x), Some(y), Some(z)) => {
                A::precedes_transitive(x, y, z);
            },
            _ => {},
        }
    }

    proof fn precedes_total(a: Self, b: Self) {
        match (a, b) {
            (Some(x), Some(y)) => {
                A::precedes_total(x, y);
            },
            _ => {},
        }
    }
}

impl Ranked for u8 {
    open spec fn precedes(self, other: Self) -> bool {
        self < other
    }

    proof fn precedes_irreflexive(a: Self) {
    }

    proof fn precedes_transitive(a: Self, b: Self, c: Self) {
    }

    proof fn precedes_total(a: Self, b: Self) {
    }
}

impl TableKey for String {
    type Rank = Seq<char>;

    open spec fn rank(&self) -> Seq<char> {
        self@
    }

    fn place(&self, other: &Self) -> (r: Place) {
        place_of_text(self.as_str(), other.as_str())
    }
}

impl TableKey for (String, String) {
    type Rank = (Seq<char>, Seq<char>);

    open spec fn rank(&self) -> (Seq<char>, Seq<char>) {
        (self.0@, self.1@)
    }

    fn place(&self, other: &Self) -> (r: Place) {
        match place_of_text(self.0.as_str(), other.0.as_str()) {
            Place::Same => place_of_text(self.1.as_str(), other.1.as_str()),
            decided => decided,
        }
    }
}

} // verus!
