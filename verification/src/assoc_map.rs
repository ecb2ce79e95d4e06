//! Small maps held as lists of pairs with distinct keys, in the order the keys were added.
use vstd::prelude::*;

verus! {

/// Keys whose equality verified code can decide.
pub trait KeyEq: Sized {
    /// Returns true if the two keys are the same key.
    fn key_eq(&self, other: &Self) -> (r: bool)
        ensures
            r == (*self == *other),
    ;
}

impl KeyEq for u32 {
    fn key_eq(&self, other: &Self) -> (r: bool) {
        *self == *other
    }
}

impl KeyEq for u64 {
    fn key_eq(&self, other: &Self) -> (r: bool) {
        *self == *other
    }
}

/// The map that a list of pairs stands for; a later pair wins.
pub open spec fn pairs_map<K, V>(s: Seq<(K, V)>) -> Map<K, V>
    decreases s.len(),
{
    if s.len() == 0 {
        Map::empty()
    } else {
        pairs_map(s.drop_last()).insert(s.last().0, s.last().1)
    }
}

/// No key occurs twice.
pub open spec fn keys_distinct<K, V>(s: Seq<(K, V)>) -> bool {
    forall|i: int, j: int| 0 <= i < s.len() && 0 <= j < s.len() && i != j ==> s[i].0 != s[j].0
}

proof fn lemma_distinct_prefix<K, V>(s: Seq<(K, V)>)
    requires
        keys_distinct(s),
        s.len() > 0,
    ensures
        keys_distinct(s.drop_last()),
{
    let p = s.drop_last();
    assert forall|i: int, j: int| 0 <= i < p.len() && 0 <= j < p.len() && i != j implies p[i].0
        != p[j].0 by {
        assert(p[i] == s[i] && p[j] == s[j]);
    }
}

/// What the map of distinct pairs holds: exactly their keys, each with its value, one per pair.
pub proof fn lemma_pairs_map<K, V>(s: Seq<(K, V)>)
    requires
        keys_distinct(s),
    ensures
        forall|k: K| #[trigger]
            pairs_map(s).contains_key(k) <==> exists|i: int| 0 <= i < s.len() && s[i].0 == k,
        forall|i: int| 0 <= i < s.len() ==> #[trigger] pairs_map(s)[s[i].0] == s[i].1,
        pairs_map(s).dom().finite(),
        pairs_map(s).len() == s.len(),
    decreases s.len(),
{
    if s.len() > 0 {
        let p = s.drop_last();
        let last = s.len() - 1;
        lemma_distinct_prefix(s);
        lemma_pairs_map(p);
        assert forall|k: K| #[trigger]
            pairs_map(s).contains_key(k) <==> exists|i: int| 0 <= i < s.len() && s[i].0 == k by {
            if pairs_map(s).contains_key(k) && k != s[last].0 {
                let i = choose|i: int| 0 <= i < p.len() && p[i].0 == k;
                assert(s[i].0 == k);
            }
            if exists|i: int| 0 <= i < s.len() && s[i].0 == k {
                let i = choose|i: int| 0 <= i < s.len() && s[i].0 == k;
                if i < last {
                    assert(p[i].0 == k);
                }
            }
        }
        assert forall|i: int| 0 <= i < s.len() implies #[trigger] pairs_map(s)[s[i].0] == s[i].1 by {
            if i < last {
                assert(p[i] == s[i]);
            }
        }
        if pairs_map(p).contains_key(s[last].0) {
            let i = choose|i: int| 0 <= i < p.len() && p[i].0 == s[last].0;
            assert(p[i] == s[i]);
        }
    }
}

/// What `f` gives for the pairs that satisfy `pred`, in the order of the pairs.
pub open spec fn pairs_where<K, V, T>(s: Seq<(K, V)>, pred: spec_fn(K, V) -> bool, f: spec_fn(K, V) -> T) -> Seq<T>
    decreases s.len(),
{
    if s.len() == 0 {
        Seq::empty()
    } else {
        let p = pairs_where(s.drop_last(), pred, f);
        if pred(s.last().0, s.last().1) {
            p.push(f(s.last().0, s.last().1))
        } else {
            p
        }
    }
}

/// What `pairs_where` holds; where `f` tells the key, each item once.
pub proof fn lemma_pairs_where<K, V, T>(s: Seq<(K, V)>, pred: spec_fn(K, V) -> bool, f: spec_fn(K, V) -> T)
    requires
        keys_distinct(s),
        forall|k1: K, v1: V, k2: K, v2: V| #[trigger] f(k1, v1) == #[trigger] f(k2, v2) ==> k1 == k2,
    ensures
        pairs_where(s, pred, f).no_duplicates(),
        forall|t: T|
            pairs_where(s, pred, f).contains(t) <==> exists|i: int|
                0 <= i < s.len() && pred(s[i].0, s[i].1) && #[trigger] f(s[i].0, s[i].1) == t,
    decreases s.len(),
{
    if s.len() > 0 {
        let d = s.drop_last();
        let last = s.len() - 1;
        lemma_distinct_prefix(s);
        lemma_pairs_where(d, pred, f);
        let p = pairs_where(d, pred, f);
        assert forall|t: T|
            pairs_where(s, pred, f).contains(t) <==> exists|i: int|
                0 <= i < s.len() && pred(s[i].0, s[i].1) && #[trigger] f(s[i].0, s[i].1) == t by {
            if pairs_where(s, pred, f).contains(t) {
                if p.contains(t) {
                    let i = choose|i: int|
                        0 <= i < d.len() && pred(d[i].0, d[i].1) && #[trigger] f(d[i].0, d[i].1) == t;
                    assert(d[i] == s[i]);
                } else {
                    assert(pred(s[last].0, s[last].1));
                    let q = p.push(f(s[last].0, s[last].1));
                    let k = choose|k: int| 0 <= k < q.len() && #[trigger] q[k] == t;
                    assert(k == p.len());
                    assert(f(s[last].0, s[last].1) == t);
                }
            }
            if exists|i: int| 0 <= i < s.len() && pred(s[i].0, s[i].1) && #[trigger] f(s[i].0, s[i].1) == t {
                let i = choose|i: int| 0 <= i < s.len() && pred(s[i].0, s[i].1) && #[trigger] f(s[i].0, s[i].1) == t;
                if i < last {
                    assert(d[i] == s[i]);
                    assert(p.contains(t));
                    let k = choose|k: int| 0 <= k < p.len() && p[k] == t;
                    if pred(s[last].0, s[last].1) {
                        assert(p.push(f(s[last].0, s[last].1))[k] == t);
                    }
                } else {
                    assert(p.push(f(s[last].0, s[last].1))[p.len() as int] == t);
                }
            }
        }
        if pred(s[last].0, s[last].1) {
            let x = f(s[last].0, s[last].1);
            if p.contains(x) {
                let i = choose|i: int|
                    0 <= i < d.len() && pred(d[i].0, d[i].1) && #[trigger] f(d[i].0, d[i].1) == x;
                assert(d[i] == s[i]);
                assert(f(s[i].0, s[i].1) == f(s[last].0, s[last].1));
            }
            let q = p.push(x);
            assert forall|a: int, b: int| 0 <= a < q.len() && 0 <= b < q.len() && a != b implies q[a] != q[b] by {
                if a < p.len() && b < p.len() {
                } else if a < p.len() {
                    assert(q[a] == p[a]);
                } else {
                    assert(q[b] == p[b]);
                }
            }
        }
    }
}

/// A map held as a list of pairs with distinct keys.
pub struct AssocMap<K, V> {
    items: Vec<(K, V)>,
}

impl<K, V> View for AssocMap<K, V> {
    type V = Map<K, V>;

    closed spec fn view(&self) -> Map<K, V> {
        pairs_map(self.items@)
    }
}

impl<K: KeyEq, V> AssocMap<K, V> {
    /// The pairs, in the order their keys were added.
    pub closed spec fn pairs(&self) -> Seq<(K, V)> {
        self.items@
    }

    /// Each key occurs once.
    pub closed spec fn wf(&self) -> bool {
        keys_distinct(self.items@)
    }

    /// The pairs are the map: each pair is an entry, each entry a pair.
    pub proof fn lemma_pairs(&self)
        requires
            self.wf(),
        ensures
            keys_distinct(self.pairs()),
            forall|k: K| #[trigger]
                self@.contains_key(k) <==> exists|i: int|
                    0 <= i < self.pairs().len() && self.pairs()[i].0 == k,
            forall|i: int|
                0 <= i < self.pairs().len() ==> #[trigger] self@[self.pairs()[i].0]
                    == self.pairs()[i].1 && self@.contains_key(self.pairs()[i].0),
            self@.dom().finite(),
            self@.len() == self.pairs().len(),
    {
        lemma_pairs_map(self.items@);
        assert forall|i: int| 0 <= i < self.pairs().len() implies self@.contains_key(
            self.pairs()[i].0,
        ) by {
            assert(self.items@[i].0 == self.pairs()[i].0);
        }
    }

    /// An empty map.
    pub fn new() -> (r: Self)
        ensures
            r.wf(),
            r@ == Map::<K, V>::empty(),
            r.pairs().len() == 0,
    {
        AssocMap { items: Vec::new() }
    }

    /// Number of entries.
    pub fn len(&self) -> (r: usize)
        requires
            self.wf(),
        ensures
            r == self@.len(),
            r == self.pairs().len(),
    {
        proof {
            lemma_pairs_map(self.items@);
        }
        self.items.len()
    }

    /// Where `k` stands among the pairs, or the number of pairs if it is absent.
    pub fn index_of(&self, k: &K) -> (r: usize)
        requires
            self.wf(),
        ensures
            r <= self.pairs().len(),
            r == self.pairs().len() <==> !self@.contains_key(*k),
            r < self.pairs().len() ==> self.pairs()[r as int].0 == *k,
    {
        proof {
            lemma_pairs_map(self.items@);
        }
        let mut i: usize = 0;
        while i < self.items.len()
            invariant
                0 <= i <= self.items@.len(),
                keys_distinct(self.items@),
                forall|j: int| 0 <= j < i ==> (#[trigger] self.items@[j]).0 != *k,
            decreases self.items@.len() - i,
        {
            if self.items[i].0.key_eq(k) {
                proof {
                    lemma_pairs_map(self.items@);
                    assert(self.items@[i as int].0 == *k);
                }
                return i;
            }
            i = i + 1;
        }
        proof {
            if pairs_map(self.items@).contains_key(*k) {
                let j = choose|j: int| 0 <= j < self.items@.len() && self.items@[j].0 == *k;
                assert(self.items@[j].0 != *k);
            }
        }
        i
    }

    /// Whether `k` has an entry.
    pub fn contains_key(&self, k: &K) -> (r: bool)
        requires
            self.wf(),
        ensures
            r == self@.contains_key(*k),
    {
        self.index_of(k) < self.items.len()
    }

    /// The value under `k`, if any.
    pub fn get(&self, k: &K) -> (r: Option<&V>)
        requires
            self.wf(),
        ensures
            match r {
                Some(v) => self@.contains_key(*k) && *v == self@[*k],
                None => !self@.contains_key(*k),
            },
    {
        let i = self.index_of(k);
        if i < self.items.len() {
            proof {
                lemma_pairs_map(self.items@);
            }
            Some(&self.items[i].1)
        } else {
            None
        }
    }

    /// The key of the pair at `i`.
    pub fn key_at(&self, i: usize) -> (r: &K)
        requires
            i < self.pairs().len(),
        ensures
            *r == self.pairs()[i as int].0,
    {
        &self.items[i].0
    }

    /// The value of the pair at `i`.
    pub fn value_at(&self, i: usize) -> (r: &V)
        requires
            i < self.pairs().len(),
        ensures
            *r == self.pairs()[i as int].1,
    {
        &self.items[i].1
    }

    /// Sets the value under `k`; returns the value it replaced, if any.  A new key is added last.
    pub fn insert(&mut self, k: K, v: V) -> (r: Option<V>)
        requires
            old(self).wf(),
        ensures
            final(self).wf(),
            final(self)@ == old(self)@.insert(k, v),
            r == (if old(self)@.contains_key(k) {
                Some(old(self)@[k])
            } else {
                None
            }),
    {
        let ghost s = self.items@;
        proof {
            lemma_pairs_map(s);
        }
        let i = self.index_of(&k);
        if i < self.items.len() {
            let ghost kk = k;
            let ghost vv = v;
            let (old_k, old_v) = self.items.remove(i);
            self.items.insert(i, (k, v));
            proof {
                let t = self.items@;
                assert(t =~= s.update(i as int, (kk, vv)));
                assert(keys_distinct(t)) by {
                    assert forall|a: int, b: int| 0 <= a < t.len() && 0 <= b < t.len() && a != b implies t[a].0
                        != t[b].0 by {
                        assert(t[a].0 == s[a].0 && t[b].0 == s[b].0);
                    }
                }
                lemma_pairs_map(t);
                let m = pairs_map(s).insert(kk, vv);
                assert forall|q: K| #[trigger] pairs_map(t).contains_key(q) <==> m.contains_key(q) by {
                    if exists|j: int| 0 <= j < t.len() && t[j].0 == q {
                        let j = choose|j: int| 0 <= j < t.len() && t[j].0 == q;
                        assert(s[j].0 == q);
                    }
                    if exists|j: int| 0 <= j < s.len() && s[j].0 == q {
                        let j = choose|j: int| 0 <= j < s.len() && s[j].0 == q;
                        assert(t[j].0 == q);
                    }
                }
                assert forall|q: K| pairs_map(t).contains_key(q) implies #[trigger] pairs_map(t)[q]
                    == m[q] by {
                    let j = choose|j: int| 0 <= j < t.len() && t[j].0 == q;
                    assert(pairs_map(t)[t[j].0] == t[j].1);
                    if j != i {
                        assert(pairs_map(s)[s[j].0] == s[j].1);
                    }
                }
                assert(pairs_map(t) =~= m);
            }
            Some(old_v)
        } else {
            let ghost kk = k;
            let ghost vv = v;
            self.items.push((k, v));
            proof {
                let t = self.items@;
                assert(t.drop_last() =~= s);
                assert(t.last() == (kk, vv));
                assert(keys_distinct(t)) by {
                    assert forall|a: int, b: int| 0 <= a < t.len() && 0 <= b < t.len() && a != b implies t[a].0
                        != t[b].0 by {
                        if a < s.len() && b < s.len() {
                            assert(t[a] == s[a] && t[b] == s[b]);
                        } else if a < s.len() {
                            assert(t[a] == s[a]);
                            assert(pairs_map(s).contains_key(s[a].0));
                        } else {
                            assert(t[b] == s[b]);
                            assert(pairs_map(s).contains_key(s[b].0));
                        }
                    }
                }
            }
            None
        }
    }

    /// Removes the pair at `i`.
    pub fn remove_at(&mut self, i: usize) -> (r: (K, V))
        requires
            old(self).wf(),
            i < old(self).pairs().len(),
        ensures
            final(self).wf(),
            r == old(self).pairs()[i as int],
            final(self).pairs() == old(self).pairs().remove(i as int),
            final(self)@ == old(self)@.remove(old(self).pairs()[i as int].0),
    {
        let ghost s = self.items@;
        let r = self.items.remove(i);
        proof {
            let t = self.items@;
            assert(t =~= s.remove(i as int));
            assert(keys_distinct(t)) by {
                assert forall|a: int, b: int| 0 <= a < t.len() && 0 <= b < t.len() && a != b implies t[a].0
                    != t[b].0 by {
                    let a2 = if a < i {
                        a
                    } else {
                        a + 1
                    };
                    let b2 = if b < i {
                        b
                    } else {
                        b + 1
                    };
                    assert(t[a] == s[a2] && t[b] == s[b2]);
                }
            }
            lemma_pairs_map(s);
            lemma_pairs_map(t);
            let m = pairs_map(s).remove(s[i as int].0);
            assert forall|q: K| #[trigger] pairs_map(t).contains_key(q) <==> m.contains_key(q) by {
                if exists|j: int| 0 <= j < t.len() && t[j].0 == q {
                    let j = choose|j: int| 0 <= j < t.len() && t[j].0 == q;
                    let j2 = if j < i {
                        j
                    } else {
                        j + 1
                    };
                    assert(t[j] == s[j2]);
                }
                if m.contains_key(q) {
                    let j = choose|j: int| 0 <= j < s.len() && s[j].0 == q;
                    if j < i {
                        assert(t[j] == s[j]);
                    } else {
                        assert(t[j - 1] == s[j]);
                    }
                }
            }
            assert forall|q: K| pairs_map(t).contains_key(q) implies #[trigger] pairs_map(t)[q]
                == m[q] by {
                let j = choose|j: int| 0 <= j < t.len() && t[j].0 == q;
                let j2 = if j < i {
                    j
                } else {
                    j + 1
                };
                assert(t[j] == s[j2]);
                assert(pairs_map(t)[t[j].0] == t[j].1);
                assert(pairs_map(s)[s[j2].0] == s[j2].1);
            }
            assert(pairs_map(t) =~= m);
        }
        r
    }

    /// Removes the entry under `k`; returns its value, if there was one.
    pub fn remove(&mut self, k: &K) -> (r: Option<V>)
        requires
            old(self).wf(),
        ensures
            final(self).wf(),
            final(self)@ == old(self)@.remove(*k),
            !old(self)@.contains_key(*k) ==> final(self)@ == old(self)@,
            r == (if old(self)@.contains_key(*k) {
                Some(old(self)@[*k])
            } else {
                None
            }),
    {
        proof {
            lemma_pairs_map(self.items@);
        }
        let i = self.index_of(k);
        if i < self.items.len() {
            let (_, v) = self.remove_at(i);
            Some(v)
        } else {
            proof {
                assert(pairs_map(self.items@).remove(*k) =~= pairs_map(self.items@));
            }
            None
        }
    }
}

} // verus!
