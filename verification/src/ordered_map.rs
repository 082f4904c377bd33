//! A map kept as a vector of entries sorted by key.

use vstd::prelude::*;

verus! {

/// A key with a total order, given by the position of each key in it.
pub trait OrderedKey: Copy + Sized {
    /// The position of this key in the order.
    spec fn rank(self) -> int;

    /// Different keys have different positions.
    proof fn rank_injective(a: Self, b: Self)
        requires
            a.rank() == b.rank(),
        ensures
            a == b,
    ;

    /// Whether this key comes strictly before `other`.
    fn before(&self, other: &Self) -> (r: bool)
        ensures
            r == (self.rank() < other.rank()),
    ;
}

/// The map that a sequence of entries describes.
pub open spec fn entries_map<K, V>(s: Seq<(K, V)>) -> Map<K, V>
    decreases s.len(),
{
    if s.len() == 0 {
        Map::empty()
    } else {
        entries_map(s.drop_last()).insert(s.last().0, s.last().1)
    }
}

/// Entries in strictly ascending order of their keys.
pub open spec fn entries_sorted<K: OrderedKey, V>(s: Seq<(K, V)>) -> bool {
    forall|i: int, j: int| 0 <= i < j < s.len() ==> (#[trigger] s[i]).0.rank() < (#[trigger] s[j]).0.rank()
}

/// The map holds exactly the entries, and as many keys as there are entries.
pub proof fn lemma_entries_map<K: OrderedKey, V>(s: Seq<(K, V)>)
    requires
        entries_sorted(s),
    ensures
        entries_map(s).dom().finite(),
        entries_map(s).dom().len() == s.len(),
        forall|i: int| 0 <= i < s.len() ==> entries_map(s).contains_key((#[trigger] s[i]).0)
            && entries_map(s)[s[i].0] == s[i].1,
        forall|k: K| #[trigger] entries_map(s).contains_key(k) ==> exists|i: int|
            0 <= i < s.len() && (#[trigger] s[i]).0 == k,
    decreases s.len(),
{
    if s.len() > 0 {
        let t = s.drop_last();
        assert(entries_sorted(t));
        lemma_entries_map(t);
        let m = entries_map(t);
        let last = s.last();
        assert(!m.contains_key(last.0)) by {
            if m.contains_key(last.0) {
                let i = choose|i: int| 0 <= i < t.len() && (#[trigger] t[i]).0 == last.0;
                assert(s[i].0.rank() < s[s.len() - 1].0.rank());
            }
        }
        assert(entries_map(s).dom() =~= m.dom().insert(last.0));
        assert forall|i: int| 0 <= i < s.len() implies entries_map(s).contains_key(
            (#[trigger] s[i]).0,
        ) && entries_map(s)[s[i].0] == s[i].1 by {
            if i < t.len() {
                assert(t[i] == s[i]);
                assert(s[i].0.rank() < s[s.len() - 1].0.rank());
            }
        }
        assert forall|k: K| #[trigger] entries_map(s).contains_key(k) implies exists|i: int|
            0 <= i < s.len() && (#[trigger] s[i]).0 == k by {
            if k == last.0 {
                assert(s[s.len() - 1].0 == k);
            } else {
                assert(m.contains_key(k));
                let i = choose|i: int| 0 <= i < t.len() && (#[trigger] t[i]).0 == k;
                assert(s[i].0 == k);
            }
        }
    }
}

/// The map of the empty sequence, of one more entry, and of one entry less.
pub proof fn lemma_entries_insert<K: OrderedKey, V>(s: Seq<(K, V)>, at: int, k: K, v: V)
    requires
        entries_sorted(s),
        0 <= at <= s.len(),
        forall|i: int| 0 <= i < at ==> (#[trigger] s[i]).0.rank() < k.rank(),
        forall|i: int| at <= i < s.len() ==> k.rank() < (#[trigger] s[i]).0.rank(),
    ensures
        entries_sorted(s.insert(at, (k, v))),
        entries_map(s.insert(at, (k, v))) == entries_map(s).insert(k, v),
{
    let t = s.insert(at, (k, v));
    assert forall|i: int, j: int| 0 <= i < j < t.len() implies (#[trigger] t[i]).0.rank() < (
    #[trigger] t[j]).0.rank() by {
        if i < at && j > at {
            assert(t[i] == s[i] && t[j] == s[j - 1]);
        } else if i < at && j < at {
            assert(t[i] == s[i] && t[j] == s[j]);
        } else if i > at {
            assert(t[i] == s[i - 1] && t[j] == s[j - 1]);
        } else if i == at {
            assert(t[j] == s[j - 1]);
        } else {
            assert(t[i] == s[i]);
        }
    }
    lemma_same_entries(t, entries_map(s).insert(k, v), s, at, k, v);
}

/// Helper: the map of `t` is `m`, entry by entry.
proof fn lemma_same_entries<K: OrderedKey, V>(
    t: Seq<(K, V)>,
    m: Map<K, V>,
    s: Seq<(K, V)>,
    at: int,
    k: K,
    v: V,
)
    requires
        entries_sorted(s),
        entries_sorted(t),
        0 <= at <= s.len(),
        t == s.insert(at, (k, v)),
        m == entries_map(s).insert(k, v),
    ensures
        entries_map(t) == m,
{
    lemma_entries_map(s);
    lemma_entries_map(t);
    assert(t[at] == (k, v));
    assert forall|q: K| #[trigger] entries_map(t).contains_key(q) <==> m.contains_key(q) by {
        if entries_map(t).contains_key(q) {
            let i = choose|i: int| 0 <= i < t.len() && (#[trigger] t[i]).0 == q;
            if i < at {
                assert(s[i].0 == q);
            } else if i > at {
                assert(s[i - 1].0 == q);
            }
        }
        if m.contains_key(q) && q != k {
            let i = choose|i: int| 0 <= i < s.len() && (#[trigger] s[i]).0 == q;
            if i < at {
                assert(t[i].0 == q);
            } else {
                assert(t[i + 1].0 == q);
            }
        }
    }
    assert forall|q: K| #[trigger] entries_map(t).contains_key(q) implies entries_map(t)[q]
        == m[q] by {
        let i = choose|i: int| 0 <= i < t.len() && (#[trigger] t[i]).0 == q;
        if i < at {
            assert(s[i] == t[i]);
            assert(t[i].0.rank() < t[at].0.rank());
        } else if i > at {
            assert(s[i - 1] == t[i]);
            assert(t[at].0.rank() < t[i].0.rank());
        }
    }
    assert(entries_map(t) =~= m);
}

pub proof fn lemma_entries_update<K: OrderedKey, V>(s: Seq<(K, V)>, at: int, v: V)
    requires
        entries_sorted(s),
        0 <= at < s.len(),
    ensures
        entries_sorted(s.update(at, (s[at].0, v))),
        entries_map(s.update(at, (s[at].0, v))) == entries_map(s).insert(s[at].0, v),
{
    let k = s[at].0;
    let t = s.update(at, (k, v));
    assert forall|i: int, j: int| 0 <= i < j < t.len() implies (#[trigger] t[i]).0.rank() < (
    #[trigger] t[j]).0.rank() by {
        assert(t[i].0 == s[i].0 && t[j].0 == s[j].0);
    }
    let r = s.remove(at);
    lemma_entries_remove(s, at);
    assert(r.insert(at, (k, v)) =~= t);
    assert(r.insert(at, s[at]) =~= s);
    lemma_same_entries(t, entries_map(r).insert(k, v), r, at, k, v);
    assert(entries_map(s).remove(k).insert(k, v) =~= entries_map(s).insert(k, v));
}

pub proof fn lemma_entries_remove<K: OrderedKey, V>(s: Seq<(K, V)>, at: int)
    requires
        entries_sorted(s),
        0 <= at < s.len(),
    ensures
        entries_sorted(s.remove(at)),
        entries_map(s.remove(at)) == entries_map(s).remove(s[at].0),
{
    let r = s.remove(at);
    let k = s[at].0;
    assert forall|i: int, j: int| 0 <= i < j < r.len() implies (#[trigger] r[i]).0.rank() < (
    #[trigger] r[j]).0.rank() by {
        let i2 = if i < at { i } else { i + 1 };
        let j2 = if j < at { j } else { j + 1 };
        assert(r[i] == s[i2] && r[j] == s[j2]);
    }
    assert(r.insert(at, s[at]) =~= s);
    lemma_same_entries(s, entries_map(r).insert(k, s[at].1), r, at, k, s[at].1);
    lemma_entries_map(r);
    assert(!entries_map(r).contains_key(k)) by {
        if entries_map(r).contains_key(k) {
            let i = choose|i: int| 0 <= i < r.len() && (#[trigger] r[i]).0 == k;
            let i2 = if i < at { i } else { i + 1 };
            assert(s[i2].0 == k);
            if i2 < at {
                assert(s[i2].0.rank() < s[at].0.rank());
            } else {
                assert(s[at].0.rank() < s[i2].0.rank());
            }
        }
    }
    assert(entries_map(r).insert(k, s[at].1).remove(k) =~= entries_map(r));
}

/// A map whose entries are kept in ascending order of their keys.
pub struct OrderedMap<K, V> {
    entries: Vec<(K, V)>,
}

impl<K: OrderedKey, V> View for OrderedMap<K, V> {
    type V = Map<K, V>;

    closed spec fn view(&self) -> Map<K, V> {
        entries_map(self.entries@)
    }
}

impl<K: OrderedKey, V> OrderedMap<K, V> {
    /// The entries in ascending order of their keys.
    pub closed spec fn entries(&self) -> Seq<(K, V)> {
        self.entries@
    }

    /// The entries are strictly ascending.
    pub closed spec fn wf(&self) -> bool {
        entries_sorted(self.entries@)
    }

    /// What the sorted entries say of the map.
    pub proof fn lemma_entries(&self)
        requires
            self.wf(),
        ensures
            entries_sorted(self.entries()),
            self@ == entries_map(self.entries()),
            self@.dom().finite(),
            self@.dom().len() == self.entries().len(),
            forall|i: int| 0 <= i < self.entries().len() ==> self@.contains_key(
                (#[trigger] self.entries()[i]).0,
            ) && self@[self.entries()[i].0] == self.entries()[i].1,
            forall|k: K| #[trigger] self@.contains_key(k) ==> exists|i: int|
                0 <= i < self.entries().len() && (#[trigger] self.entries()[i]).0 == k,
    {
        lemma_entries_map(self.entries@);
    }

    /// An empty map.
    pub fn new() -> (r: Self)
        ensures
            r.wf(),
            r@ == Map::<K, V>::empty(),
            r.entries() == Seq::<(K, V)>::empty(),
    {
        OrderedMap { entries: Vec::new() }
    }

    /// How many keys the map holds.
    pub fn len(&self) -> (r: usize)
        requires
            self.wf(),
        ensures
            r == self@.dom().len(),
            r == self.entries().len(),
    {
        proof {
            lemma_entries_map(self.entries@);
        }
        self.entries.len()
    }

    /// The entry at position `i` of the ascending order.
    pub fn at(&self, i: usize) -> (r: &(K, V))
        requires
            i < self.entries().len(),
        ensures
            *r == self.entries()[i as int],
    {
        &self.entries[i]
    }

    /// The position of the first entry whose key does not come before `k`.
    fn lower_bound(&self, k: &K) -> (r: usize)
        requires
            self.wf(),
        ensures
            r <= self.entries@.len(),
            forall|i: int| 0 <= i < r ==> (#[trigger] self.entries@[i]).0.rank() < k.rank(),
            forall|i: int|
                r <= i < self.entries@.len() ==> k.rank() <= (#[trigger] self.entries@[i]).0.rank(),
    {
        let mut lo: usize = 0;
        let mut hi: usize = self.entries.len();
        while lo < hi
            invariant
                self.wf(),
                lo <= hi <= self.entries@.len(),
                forall|i: int| 0 <= i < lo ==> (#[trigger] self.entries@[i]).0.rank() < k.rank(),
                forall|i: int|
                    hi <= i < self.entries@.len() ==> k.rank() <= (
                    #[trigger] self.entries@[i]).0.rank(),
            decreases hi - lo,
        {
            let mid: usize = lo + (hi - lo) / 2;
            if self.entries[mid].0.before(k) {
                assert forall|i: int| 0 <= i < mid + 1 implies (
                #[trigger] self.entries@[i]).0.rank() < k.rank() by {
                    if i < mid {
                        assert(self.entries@[i].0.rank() < self.entries@[mid as int].0.rank());
                    }
                }
                lo = mid + 1;
            } else {
                assert forall|i: int| mid <= i < self.entries@.len() implies k.rank() <= (
                #[trigger] self.entries@[i]).0.rank() by {
                    if i > mid {
                        assert(self.entries@[mid as int].0.rank() < self.entries@[i].0.rank());
                    }
                }
                hi = mid;
            }
        }
        lo
    }

    /// The position of `k`, where the map holds it.
    pub fn find(&self, k: &K) -> (r: Option<usize>)
        requires
            self.wf(),
        ensures
            match r {
                Some(i) => i < self.entries().len() && self.entries()[i as int].0 == *k
                    && self@.contains_key(*k) && self@[*k] == self.entries()[i as int].1,
                None => !self@.contains_key(*k),
            },
    {
        let i: usize = self.lower_bound(k);
        proof {
            lemma_entries_map(self.entries@);
        }
        if i < self.entries.len() && !k.before(&self.entries[i].0) {
            proof {
                K::rank_injective(self.entries@[i as int].0, *k);
            }
            Some(i)
        } else {
            assert(!self@.contains_key(*k)) by {
                if self@.contains_key(*k) {
                    let j = choose|j: int|
                        0 <= j < self.entries@.len() && (#[trigger] self.entries@[j]).0 == *k;
                    if j > i {
                        assert(self.entries@[i as int].0.rank() < self.entries@[j].0.rank());
                    }
                }
            }
            None
        }
    }

    /// Whether the map holds `k`.
    pub fn contains(&self, k: &K) -> (r: bool)
        requires
            self.wf(),
        ensures
            r == self@.contains_key(*k),
    {
        self.find(k).is_some()
    }

    /// The value of `k`.
    pub fn get(&self, k: &K) -> (r: Option<&V>)
        requires
            self.wf(),
        ensures
            match r {
                Some(v) => self@.contains_key(*k) && self@[*k] == *v,
                None => !self@.contains_key(*k),
            },
    {
        match self.find(k) {
            Some(i) => Some(&self.entries[i].1),
            None => None,
        }
    }

    /// The value of `k`, to be changed in place.
    pub fn get_mut(&mut self, k: &K) -> (r: Option<&mut V>)
        requires
            old(self).wf(),
        ensures
            match r {
                Some(v) => old(self)@.contains_key(*k) && old(self)@[*k] == *v && final(self).wf()
                    && final(self)@ == old(self)@.insert(*k, *final(v)),
                None => !old(self)@.contains_key(*k) && final(self).wf() && final(self)@ == old(self)@,
            },
    {
        match self.find(k) {
            Some(i) => {
                proof {
                    let s = self.entries@;
                    assert forall|v: V| entries_sorted(#[trigger] s.update(i as int, (s[i as int].0, v)))
                        && entries_map(s.update(i as int, (s[i as int].0, v))) == entries_map(
                        s,
                    ).insert(*k, v) by {
                        lemma_entries_update(s, i as int, v);
                    }
                }
                Some(&mut self.entries[i].1)
            },
            None => None,
        }
    }

    /// Sets the value of `k`.
    pub fn insert(&mut self, k: K, v: V)
        requires
            old(self).wf(),
        ensures
            final(self).wf(),
            final(self)@ == old(self)@.insert(k, v),
    {
        let i: usize = self.lower_bound(&k);
        if i < self.entries.len() && !k.before(&self.entries[i].0) {
            proof {
                K::rank_injective(self.entries@[i as int].0, k);
                lemma_entries_update(self.entries@, i as int, v);
            }
            self.entries[i] = (k, v);
        } else {
            proof {
                assert forall|j: int| i <= j < self.entries@.len() implies k.rank() < (
                #[trigger] self.entries@[j]).0.rank() by {
                    if j > i {
                        assert(self.entries@[i as int].0.rank() < self.entries@[j].0.rank());
                    }
                }
                lemma_entries_insert(self.entries@, i as int, k, v);
            }
            self.entries.insert(i, (k, v));
        }
    }

    /// Takes `k` out of the map.
    pub fn remove(&mut self, k: &K) -> (r: Option<V>)
        requires
            old(self).wf(),
        ensures
            final(self).wf(),
            final(self)@ == old(self)@.remove(*k),
            match r {
                Some(v) => old(self)@.contains_key(*k) && old(self)@[*k] == v,
                None => !old(self)@.contains_key(*k),
            },
    {
        match self.find(k) {
            Some(i) => {
                proof {
                    lemma_entries_remove(self.entries@, i as int);
                }
                let e = self.entries.remove(i);
                Some(e.1)
            },
            None => {
                assert(self@.remove(*k) =~= self@);
                None
            },
        }
    }
}

} // verus!
