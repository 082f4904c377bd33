//! A stable merge sort over positions.

use vstd::prelude::*;

use crate::ordered_map::OrderedKey;

verus! {

/// Position `x` comes before position `y`: its key does, or the keys are the same
/// and the position is lower.
pub open spec fn position_less<K: OrderedKey>(keys: Seq<K>, x: int, y: int) -> bool {
    keys[x].rank() < keys[y].rank() || (keys[x].rank() == keys[y].rank() && x < y)
}

/// Positions in strictly ascending order.
pub open spec fn positions_sorted<K: OrderedKey>(keys: Seq<K>, v: Seq<usize>) -> bool {
    forall|i: int, j: int|
        0 <= i < j < v.len() ==> position_less(keys, (#[trigger] v[i]) as int, (#[trigger] v[j]) as int)
}

/// The positions of a list are exactly those of `lo..hi`.
pub open spec fn positions_of(v: Seq<usize>, lo: int, hi: int) -> bool {
    &&& v.len() == hi - lo
    &&& forall|i: int| 0 <= i < v.len() ==> lo <= (#[trigger] v[i]) < hi
    &&& forall|x: int| lo <= x < hi ==> #[trigger] v.contains(x as usize)
}

/// Merges two sorted lists of positions, of which the first is all lower.
fn merge<K: OrderedKey>(keys: &Vec<K>, a: &Vec<usize>, b: &Vec<usize>, Ghost(lo): Ghost<int>, Ghost(
    mid,
): Ghost<int>, Ghost(hi): Ghost<int>) -> (r: Vec<usize>)
    requires
        0 <= lo <= mid <= hi <= keys@.len(),
        positions_of(a@, lo, mid),
        positions_of(b@, mid, hi),
        positions_sorted(keys@, a@),
        positions_sorted(keys@, b@),
    ensures
        positions_of(r@, lo, hi),
        positions_sorted(keys@, r@),
{
    let mut out: Vec<usize> = Vec::new();
    let mut i: usize = 0;
    let mut j: usize = 0;
    while i < a.len() || j < b.len()
        invariant
            0 <= lo <= mid <= hi <= keys@.len(),
            positions_of(a@, lo, mid),
            positions_of(b@, mid, hi),
            positions_sorted(keys@, a@),
            positions_sorted(keys@, b@),
            i <= a@.len(),
            j <= b@.len(),
            out@.len() == i + j,
            positions_sorted(keys@, out@),
            forall|k: int| 0 <= k < out@.len() ==> lo <= (#[trigger] out@[k]) < hi,
            forall|k: int| 0 <= k < i ==> out@.contains(#[trigger] a@[k]),
            forall|k: int| 0 <= k < j ==> out@.contains(#[trigger] b@[k]),
            forall|k: int, m: int|
                0 <= k < out@.len() && i <= m < a@.len() ==> position_less(
                    keys@,
                    (#[trigger] out@[k]) as int,
                    (#[trigger] a@[m]) as int,
                ),
            forall|k: int, m: int|
                0 <= k < out@.len() && j <= m < b@.len() ==> position_less(
                    keys@,
                    (#[trigger] out@[k]) as int,
                    (#[trigger] b@[m]) as int,
                ),
        decreases a@.len() - i + b@.len() - j,
    {
        let from_b: bool = if i >= a.len() {
            true
        } else if j >= b.len() {
            false
        } else {
            keys[b[j]].before(&keys[a[i]])
        };
        let ghost o0 = out@;
        if from_b {
            let x: usize = b[j];
            out.push(x);
            proof {
                assert forall|m: int| i <= m < a@.len() implies position_less(
                    keys@,
                    x as int,
                    (#[trigger] a@[m]) as int,
                ) by {
                    if m > i {
                        assert(position_less(keys@, a@[i as int] as int, a@[m] as int));
                    }
                }
                assert forall|m: int| j + 1 <= m < b@.len() implies position_less(
                    keys@,
                    x as int,
                    (#[trigger] b@[m]) as int,
                ) by {
                    assert(position_less(keys@, b@[j as int] as int, b@[m] as int));
                }
                lemma_push_position(keys@, o0, x);
            }
            assert forall|k: int| 0 <= k < j + 1 implies out@.contains(#[trigger] b@[k]) by {
                if k == j {
                    assert(out@[o0.len() as int] == x);
                } else {
                    assert(o0.contains(b@[k]));
                    let q = choose|q: int| 0 <= q < o0.len() && o0[q] == b@[k];
                    assert(out@[q] == b@[k]);
                }
            }
            assert forall|k: int| 0 <= k < i implies out@.contains(#[trigger] a@[k]) by {
                assert(o0.contains(a@[k]));
                let q = choose|q: int| 0 <= q < o0.len() && o0[q] == a@[k];
                assert(out@[q] == a@[k]);
            }
            j = j + 1;
        } else {
            let x: usize = a[i];
            out.push(x);
            proof {
                assert forall|m: int| i + 1 <= m < a@.len() implies position_less(
                    keys@,
                    x as int,
                    (#[trigger] a@[m]) as int,
                ) by {
                    assert(position_less(keys@, a@[i as int] as int, a@[m] as int));
                }
                assert forall|m: int| j <= m < b@.len() implies position_less(
                    keys@,
                    x as int,
                    (#[trigger] b@[m]) as int,
                ) by {
                    if m > j {
                        assert(position_less(keys@, b@[j as int] as int, b@[m] as int));
                    }
                }
                lemma_push_position(keys@, o0, x);
            }
            assert forall|k: int| 0 <= k < i + 1 implies out@.contains(#[trigger] a@[k]) by {
                if k == i {
                    assert(out@[o0.len() as int] == x);
                } else {
                    assert(o0.contains(a@[k]));
                    let q = choose|q: int| 0 <= q < o0.len() && o0[q] == a@[k];
                    assert(out@[q] == a@[k]);
                }
            }
            assert forall|k: int| 0 <= k < j implies out@.contains(#[trigger] b@[k]) by {
                assert(o0.contains(b@[k]));
                let q = choose|q: int| 0 <= q < o0.len() && o0[q] == b@[k];
                assert(out@[q] == b@[k]);
            }
            i = i + 1;
        }
    }
    assert forall|x: int| lo <= x < hi implies #[trigger] out@.contains(x as usize) by {
        if x < mid {
            assert(a@.contains(x as usize));
            let k = choose|k: int| 0 <= k < a@.len() && a@[k] == x as usize;
            assert(out@.contains(a@[k]));
        } else {
            assert(b@.contains(x as usize));
            let k = choose|k: int| 0 <= k < b@.len() && b@[k] == x as usize;
            assert(out@.contains(b@[k]));
        }
    }
    out
}

proof fn lemma_push_position<K: OrderedKey>(keys: Seq<K>, v: Seq<usize>, x: usize)
    requires
        positions_sorted(keys, v),
        forall|k: int| 0 <= k < v.len() ==> position_less(keys, (#[trigger] v[k]) as int, x as int),
    ensures
        positions_sorted(keys, v.push(x)),
{
    let w = v.push(x);
    assert forall|i: int, j: int| 0 <= i < j < w.len() implies position_less(
        keys,
        (#[trigger] w[i]) as int,
        (#[trigger] w[j]) as int,
    ) by {
        assert(w[i] == v[i]);
        if j < v.len() {
            assert(w[j] == v[j]);
        }
    }
}

/// The positions `lo..hi`, sorted.
fn sort_range<K: OrderedKey>(keys: &Vec<K>, lo: usize, hi: usize) -> (r: Vec<usize>)
    requires
        lo <= hi <= keys@.len(),
    ensures
        positions_of(r@, lo as int, hi as int),
        positions_sorted(keys@, r@),
    decreases hi - lo,
{
    if hi - lo == 0 {
        return Vec::new();
    }
    if hi - lo == 1 {
        let mut one: Vec<usize> = Vec::new();
        one.push(lo);
        assert forall|x: int| lo <= x < hi implies #[trigger] one@.contains(x as usize) by {
            assert(one@[0] == x as usize);
        }
        return one;
    }
    let mid: usize = lo + (hi - lo) / 2;
    let a = sort_range(keys, lo, mid);
    let b = sort_range(keys, mid, hi);
    merge(keys, &a, &b, Ghost(lo as int), Ghost(mid as int), Ghost(hi as int))
}

/// All positions of a list of keys, in ascending order of the keys; positions of
/// one key stay in their order.
pub fn sorted_order<K: OrderedKey>(keys: &Vec<K>) -> (r: Vec<usize>)
    ensures
        positions_of(r@, 0, keys@.len() as int),
        positions_sorted(keys@, r@),
{
    sort_range(keys, 0, keys.len())
}

/// `picked` are the positions of a list that are to be kept, in ascending order of
/// their ranks and, for one rank, of the positions.
pub open spec fn selection(ranks: Seq<int>, keep: spec_fn(int) -> bool, picked: Seq<usize>) -> bool {
    &&& forall|k: int| 0 <= k < picked.len() ==> (#[trigger] picked[k]) < ranks.len() && keep(
        picked[k] as int,
    )
    &&& forall|i: int| 0 <= i < ranks.len() && #[trigger] keep(i) ==> picked.contains(i as usize)
    &&& forall|a: int, b: int|
        0 <= a < b < picked.len() ==> ranks[(#[trigger] picked[a]) as int] < ranks[(
        #[trigger] picked[b]) as int] || (ranks[picked[a] as int] == ranks[picked[b] as int]
            && picked[a] < picked[b])
}

/// Ranks of a list of keys.
pub open spec fn ranks_of<K: OrderedKey>(keys: Seq<K>) -> Seq<int> {
    Seq::new(keys.len(), |i: int| keys[i].rank())
}

/// Picks the positions marked, in ascending order of their keys.
pub(crate) fn select_sorted<K: OrderedKey>(keys: &Vec<K>, marked: &Vec<bool>, Ghost(keep): Ghost<
    spec_fn(int) -> bool,
>) -> (r: Vec<usize>)
    requires
        marked@.len() == keys@.len(),
        forall|i: int| 0 <= i < keys@.len() ==> (#[trigger] marked@[i]) == keep(i),
    ensures
        selection(ranks_of(keys@), keep, r@),
{
    let order = sorted_order(keys);
    let mut out: Vec<usize> = Vec::new();
    let mut k: usize = 0;
    while k < order.len()
        invariant
            k <= order@.len(),
            marked@.len() == keys@.len(),
            positions_of(order@, 0, keys@.len() as int),
            positions_sorted(keys@, order@),
            forall|i: int| 0 <= i < keys@.len() ==> (#[trigger] marked@[i]) == keep(i),
            forall|m: int| 0 <= m < out@.len() ==> (#[trigger] out@[m]) < keys@.len() && keep(
                out@[m] as int,
            ),
            forall|m: int|
                0 <= m < k && keep((#[trigger] order@[m]) as int) ==> out@.contains(order@[m]),
            positions_sorted(keys@, out@),
            forall|m: int, q: int|
                0 <= m < out@.len() && k <= q < order@.len() ==> position_less(
                    keys@,
                    (#[trigger] out@[m]) as int,
                    (#[trigger] order@[q]) as int,
                ),
        decreases order@.len() - k,
    {
        let x: usize = order[k];
        let ghost o0 = out@;
        assert(marked@[x as int] == keep(x as int));
        if marked[x] {
            out.push(x);
            proof {
                assert forall|m: int| 0 <= m < o0.len() implies position_less(
                    keys@,
                    (#[trigger] o0[m]) as int,
                    x as int,
                ) by {
                    assert(position_less(keys@, o0[m] as int, order@[k as int] as int));
                }
                lemma_push_position(keys@, o0, x);
                assert(out@[o0.len() as int] == x);
            }
        }
        assert forall|m: int| 0 <= m < k + 1 && keep(
            (#[trigger] order@[m]) as int,
        ) implies out@.contains(order@[m]) by {
            if m < k {
                assert(o0.contains(order@[m]));
                let q = choose|q: int| 0 <= q < o0.len() && o0[q] == order@[m];
                assert(out@[q] == order@[m]);
            }
        }
        assert forall|m: int, q: int| 0 <= m < out@.len() && k + 1 <= q
            < order@.len() implies position_less(
            keys@,
            (#[trigger] out@[m]) as int,
            (#[trigger] order@[q]) as int,
        ) by {
            if m == o0.len() {
                assert(position_less(keys@, order@[k as int] as int, order@[q] as int));
            } else {
                assert(out@[m] == o0[m]);
            }
        }
        k = k + 1;
    }
    proof {
        let ranks = ranks_of(keys@);
        assert forall|i: int| 0 <= i < ranks.len() && #[trigger] keep(i) implies out@.contains(
            i as usize,
        ) by {
            assert(order@.contains(i as usize));
            let m = choose|m: int| 0 <= m < order@.len() && order@[m] == i as usize;
            assert(keep(order@[m] as int));
        }
        assert forall|a: int, b: int| 0 <= a < b < out@.len() implies ranks[(
        #[trigger] out@[a]) as int] < ranks[(#[trigger] out@[b]) as int] || (ranks[out@[a] as int]
            == ranks[out@[b] as int] && out@[a] < out@[b]) by {
            assert(position_less(keys@, out@[a] as int, out@[b] as int));
        }
    }
    out
}

/// Law: there is one such selection.
pub proof fn selection_is_unique(
    ranks: Seq<int>,
    keep: spec_fn(int) -> bool,
    a: Seq<usize>,
    b: Seq<usize>,
)
    requires
        ranks.len() <= usize::MAX,
        selection(ranks, keep, a),
        selection(ranks, keep, b),
    ensures
        a == b,
    decreases a.len(),
{
    if a.len() == 0 {
        if b.len() > 0 {
            assert(keep(b[0] as int));
            assert(a.contains(b[0] as int as usize));
        }
        assert(a =~= b);
    } else {
        let x = a.last();
        assert(keep(a[a.len() - 1] as int));
        assert(b.contains(x as int as usize));
        let j = choose|j: int| 0 <= j < b.len() && b[j] == x;
        let y = b.last();
        assert(keep(b[b.len() - 1] as int));
        assert(a.contains(y as int as usize));
        let i = choose|i: int| 0 <= i < a.len() && a[i] == y;
        assert(x == y) by {
            if i < a.len() - 1 && j < b.len() - 1 {
                assert(ranks[a[i] as int] < ranks[a[a.len() - 1] as int] || (ranks[a[i] as int]
                    == ranks[a[a.len() - 1] as int] && a[i] < a[a.len() - 1]));
                assert(ranks[b[j] as int] < ranks[b[b.len() - 1] as int] || (ranks[b[j] as int]
                    == ranks[b[b.len() - 1] as int] && b[j] < b[b.len() - 1]));
            }
        }
        let rest = all_but(keep, x as int);
        lemma_selection_front(ranks, keep, a);
        lemma_selection_front(ranks, keep, b);
        selection_is_unique(ranks, rest, a.drop_last(), b.drop_last());
        assert(a =~= a.drop_last().push(a.last()));
        assert(b =~= b.drop_last().push(b.last()));
    }
}

/// Positions to be kept, but for one.
spec fn all_but(keep: spec_fn(int) -> bool, x: int) -> spec_fn(int) -> bool {
    |p: int| keep(p) && p != x
}

proof fn lemma_selection_front(ranks: Seq<int>, keep: spec_fn(int) -> bool, a: Seq<usize>)
    requires
        ranks.len() <= usize::MAX,
        selection(ranks, keep, a),
        a.len() > 0,
    ensures
        selection(ranks, all_but(keep, a.last() as int), a.drop_last()),
{
    let rest = all_but(keep, a.last() as int);
    let f = a.drop_last();
    assert forall|k: int| 0 <= k < f.len() implies (#[trigger] f[k]) < ranks.len() && rest(
        f[k] as int,
    ) by {
        assert(f[k] == a[k]);
        assert(keep(a[k] as int));
        assert(a[k] != a[a.len() - 1]);
    }
    assert forall|i: int| 0 <= i < ranks.len() && #[trigger] rest(i) implies f.contains(
        i as usize,
    ) by {
        assert(keep(i));
        assert(a.contains(i as usize));
        let k = choose|k: int| 0 <= k < a.len() && a[k] == i as usize;
        assert(f[k] == i as usize);
    }
}

} // verus!
