//! Compaction of a shard's deltas: tombstones and superseded versions go.

use vstd::prelude::*;

use crate::bytes::{be_value, lemma_be_value_injective};
use crate::bytes::{order_bytes, KeyOrder};
use crate::delta::{delta_views, DeltaView};
use crate::delta::{Delta, OperationType};
use crate::ids::{lemma_array32_equal, lemma_split_order, lemma_split_unique};
use crate::ordered_map::OrderedKey;
use crate::sort::{
    position_less, positions_of, positions_sorted, ranks_of, selection,
};
use crate::sort::{select_sorted, sorted_order};

verus! {

/// Progress of a compaction.
#[derive(Clone, Copy, Debug, PartialEq, Eq, Structural)]
pub struct CompactionProgress {
    /// Deltas examined.
    pub examined: u64,
    /// Deltas removed.
    pub removed: u64,
    /// Deltas retained.
    pub retained: u64,
    /// Whether the compaction was cancelled.
    pub cancelled: bool,
}

impl CompactionProgress {
    /// Progress at the start.
    pub fn new() -> (r: Self)
        ensures
            r == (CompactionProgress { examined: 0, removed: 0, retained: 0, cancelled: false }),
    {
        CompactionProgress { examined: 0, removed: 0, retained: 0, cancelled: false }
    }

    /// Cancels the compaction.
    pub fn cancel(&mut self)
        ensures
            *final(self) == (CompactionProgress { cancelled: true, ..*old(self) }),
    {
        self.cancelled = true;
    }

    /// Whether the compaction was cancelled.
    pub fn is_cancelled(&self) -> (r: bool)
        ensures
            r == self.cancelled,
    {
        self.cancelled
    }
}

impl Default for CompactionProgress {
    fn default() -> (r: Self)
        ensures
            r == (CompactionProgress { examined: 0, removed: 0, retained: 0, cancelled: false }),
    {
        CompactionProgress::new()
    }
}

/// A version of a key: ordered by key, and newest first within one key.
#[derive(Clone, Copy, Debug)]
pub struct VersionKey {
    /// The key.
    pub key: [u8; 32],
    /// The sequence number.
    pub sequence: u64,
}

impl OrderedKey for VersionKey {
    open spec fn rank(self) -> int {
        be_value(self.key@) as int * 0x1_0000_0000_0000_0000 + (0xffff_ffff_ffff_ffff
            - self.sequence)
    }

    proof fn rank_injective(a: Self, b: Self) {
        lemma_split_unique(
            be_value(a.key@) as int,
            0xffff_ffff_ffff_ffff - a.sequence,
            be_value(b.key@) as int,
            0xffff_ffff_ffff_ffff - b.sequence,
            0x1_0000_0000_0000_0000,
        );
        lemma_be_value_injective(a.key@, b.key@);
        lemma_array32_equal(a.key, b.key);
    }

    fn before(&self, other: &Self) -> (r: bool) {
        proof {
            lemma_split_order(
                be_value(self.key@) as int,
                0xffff_ffff_ffff_ffff - self.sequence,
                be_value(other.key@) as int,
                0xffff_ffff_ffff_ffff - other.sequence,
                0x1_0000_0000_0000_0000,
            );
            lemma_split_order(
                be_value(other.key@) as int,
                0xffff_ffff_ffff_ffff - other.sequence,
                be_value(self.key@) as int,
                0xffff_ffff_ffff_ffff - self.sequence,
                0x1_0000_0000_0000_0000,
            );
        }
        let a = self.key.as_slice();
        let b = other.key.as_slice();
        assert(a@ == self.key@ && b@ == other.key@);
        match order_bytes(a, b) {
            KeyOrder::Less => true,
            KeyOrder::Greater => false,
            KeyOrder::Same => self.sequence > other.sequence,
        }
    }
}

/// A sequence number as a key.
#[derive(Clone, Copy, Debug, PartialEq, Eq, Structural)]
pub struct SequenceKey(pub u64);

impl OrderedKey for SequenceKey {
    open spec fn rank(self) -> int {
        self.0 as int
    }

    proof fn rank_injective(a: Self, b: Self) {
    }

    fn before(&self, other: &Self) -> (r: bool) {
        self.0 < other.0
    }
}

/// Delta `j` is a newer version than delta `i` of the same key. Of two versions
/// with one sequence number the earlier in the list counts as newer.
pub open spec fn newer_version(d: Seq<DeltaView>, j: int, i: int) -> bool {
    &&& d[j].header.hashed_key == d[i].header.hashed_key
    &&& d[j].header.sequence > d[i].header.sequence || (d[j].header.sequence
        == d[i].header.sequence && j < i)
}

/// The newer versions of delta `i`.
pub open spec fn newer_versions(d: Seq<DeltaView>, i: int) -> Set<int> {
    Set::new(|j: int| 0 <= j < d.len() && newer_version(d, j, i))
}

/// Whether a compaction keeps delta `i`: it is no deletion, and fewer than
/// `min_keep` versions of its key are newer.
pub open spec fn keeps(d: Seq<DeltaView>, i: int, min_keep: nat) -> bool {
    &&& 0 <= i < d.len()
    &&& d[i].header.operation != OperationType::Delete
    &&& newer_versions(d, i).len() < min_keep
}

/// Which deltas a compaction keeps.
pub open spec fn kept_by(d: Seq<DeltaView>, min_keep: nat) -> spec_fn(int) -> bool {
    |i: int| keeps(d, i, min_keep)
}

/// Sequence numbers of a list of deltas.
pub open spec fn sequences(d: Seq<DeltaView>) -> Seq<int> {
    Seq::new(d.len(), |i: int| d[i].header.sequence as int)
}

/// `out` are the deltas at the positions `picked`.
pub open spec fn picked_deltas(d: Seq<DeltaView>, picked: Seq<usize>, out: Seq<DeltaView>) -> bool {
    &&& out.len() == picked.len()
    &&& forall|k: int| 0 <= k < out.len() ==> #[trigger] out[k] == d[picked[k] as int]
}

/// `out` is what a compaction keeps of `d`, in ascending order of sequence
/// numbers.
pub open spec fn compacted(d: Seq<DeltaView>, min_keep: nat, out: Seq<DeltaView>) -> bool {
    exists|picked: Seq<usize>| #[trigger]
        selection(sequences(d), kept_by(d, min_keep), picked) && picked_deltas(
            d,
            picked,
            out,
        )
}

/// Versions to keep of each key: at least one, and no more than can be counted.
pub open spec fn versions_kept(min_versions: u64) -> nat {
    if min_versions < 1 {
        1
    } else if min_versions > usize::MAX {
        usize::MAX as nat
    } else {
        min_versions as nat
    }
}

/// Hash keys with the same bytes are the same.
proof fn lemma_same_key(a: [u8; 32], b: [u8; 32])
    ensures
        be_value(a@) == be_value(b@) <==> a == b,
{
    if be_value(a@) == be_value(b@) {
        lemma_be_value_injective(a@, b@);
        lemma_array32_equal(a, b);
    }
}

/// In version order, the newer versions of a delta are the one before it, where
/// that has the same key, and the newer versions of that one.
proof fn lemma_next_version(
    d: Seq<DeltaView>,
    keys: Seq<VersionKey>,
    order: Seq<usize>,
    k: int,
)
    requires
        d.len() <= usize::MAX,
        keys.len() == d.len(),
        forall|i: int|
            0 <= i < d.len() ==> (#[trigger] keys[i]).key == d[i].header.hashed_key && keys[i].sequence
                == d[i].header.sequence,
        positions_of(order, 0, d.len() as int),
        positions_sorted(keys, order),
        0 <= k < order.len(),
    ensures
        k == 0 || d[order[k - 1] as int].header.hashed_key != d[order[k] as int].header.hashed_key
            ==> newer_versions(d, order[k] as int) == Set::<int>::empty(),
        k > 0 && d[order[k - 1] as int].header.hashed_key == d[order[k] as int].header.hashed_key
            ==> newer_versions(d, order[k] as int) == newer_versions(
            d,
            order[k - 1] as int,
        ).insert(order[k - 1] as int) && !newer_versions(d, order[k - 1] as int).contains(
            order[k - 1] as int,
        ),
{
    let y = order[k] as int;
    assert forall|j: int| 0 <= j < d.len() && j != y implies (newer_version(d, j, y)
        <==> keys[j].key == keys[y].key && position_less(keys, j, y)) by {
        assert(keys[j].key == d[j].header.hashed_key && keys[y].key == d[y].header.hashed_key);
        lemma_version_order(keys[j], keys[y]);
    }
    if k > 0 {
        let x = order[k - 1] as int;
        assert(position_less(keys, order[k - 1] as int, order[k] as int));
        assert forall|j: int| 0 <= j < d.len() && j != x implies (newer_version(d, j, x)
            <==> keys[j].key == keys[x].key && position_less(keys, j, x)) by {
            lemma_version_order(keys[j], keys[x]);
        }
        assert forall|j: int| 0 <= j < d.len() && j != y && j != x && position_less(
            keys,
            j,
            y,
        ) implies position_less(keys, j, x) by {
            assert(order.contains(j as usize));
            let m = choose|m: int| 0 <= m < order.len() && order[m] == j as usize;
            if m > k {
                assert(position_less(keys, order[k] as int, order[m] as int));
            }
            assert(m < k - 1);
            assert(position_less(keys, order[m] as int, order[k - 1] as int));
        }
        if keys[x].key == keys[y].key {
            assert(newer_versions(d, y) =~= newer_versions(d, x).insert(x));
        } else {
            assert forall|j: int| !#[trigger] newer_versions(d, y).contains(j) by {
                if newer_versions(d, y).contains(j) {
                    assert(j != y);
                    assert(keys[j].key == keys[y].key && position_less(keys, j, y));
                    assert(j != x);
                    assert(position_less(keys, j, x));
                    lemma_key_between(keys[j], keys[x], keys[y]);
                }
            }
            assert(newer_versions(d, y) =~= Set::<int>::empty());
        }
    } else {
        assert forall|j: int| !#[trigger] newer_versions(d, y).contains(j) by {
            if newer_versions(d, y).contains(j) {
                assert(j != y);
                assert(order.contains(j as usize));
                let m = choose|m: int| 0 <= m < order.len() && order[m] == j as usize;
                assert(position_less(keys, order[0] as int, order[m] as int));
            }
        }
        assert(newer_versions(d, y) =~= Set::<int>::empty());
    }
}

/// Order of versions of one key and of different keys.
proof fn lemma_version_order(a: VersionKey, b: VersionKey)
    ensures
        a.key == b.key ==> (a.rank() < b.rank() <==> a.sequence > b.sequence),
        a.key == b.key ==> (a.rank() == b.rank() <==> a.sequence == b.sequence),
        a.rank() == b.rank() ==> a.key == b.key,
        a.rank() < b.rank() ==> be_value(a.key@) <= be_value(b.key@),
{
    lemma_same_key(a.key, b.key);
    lemma_split_order(
        be_value(a.key@) as int,
        0xffff_ffff_ffff_ffff - a.sequence,
        be_value(b.key@) as int,
        0xffff_ffff_ffff_ffff - b.sequence,
        0x1_0000_0000_0000_0000,
    );
    lemma_split_order(
        be_value(b.key@) as int,
        0xffff_ffff_ffff_ffff - b.sequence,
        be_value(a.key@) as int,
        0xffff_ffff_ffff_ffff - a.sequence,
        0x1_0000_0000_0000_0000,
    );
}

/// A key between two equal keys is that key.
proof fn lemma_key_between(a: VersionKey, x: VersionKey, b: VersionKey)
    requires
        a.key == b.key,
        a.rank() <= x.rank() <= b.rank(),
    ensures
        x.key == b.key,
{
    lemma_version_order(a, x);
    lemma_version_order(x, b);
    lemma_same_key(x.key, b.key);
    lemma_same_key(a.key, x.key);
}

/// Marks the deltas that a compaction keeps.
fn mark_kept(deltas: &[Delta], min_keep: usize) -> (r: Vec<bool>)
    requires
        min_keep >= 1,
    ensures
        r@.len() == deltas@.len(),
        forall|i: int|
            0 <= i < deltas@.len() ==> (#[trigger] r@[i]) == keeps(
                delta_views(deltas@),
                i,
                min_keep as nat,
            ),
{
    let ghost d = delta_views(deltas@);
    let mut keys: Vec<VersionKey> = Vec::new();
    let mut marked: Vec<bool> = Vec::new();
    let mut i: usize = 0;
    while i < deltas.len()
        invariant
            i <= deltas@.len(),
            keys@.len() == i,
            marked@.len() == i,
            d == delta_views(deltas@),
            forall|j: int|
                0 <= j < i ==> (#[trigger] keys@[j]).key == d[j].header.hashed_key
                    && keys@[j].sequence == d[j].header.sequence,
        decreases deltas@.len() - i,
    {
        keys.push(
            VersionKey {
                key: deltas[i].header.hashed_key,
                sequence: deltas[i].header.sequence.0,
            },
        );
        marked.push(false);
        i = i + 1;
    }
    let order = sorted_order(&keys);
    let mut pos: usize = 0;
    let mut k: usize = 0;
    while k < order.len()
        invariant
            k <= order@.len(),
            min_keep >= 1,
            d == delta_views(deltas@),
            keys@.len() == d.len(),
            marked@.len() == d.len(),
            d.len() == deltas@.len(),
            d.len() <= usize::MAX,
            forall|j: int|
                0 <= j < d.len() ==> (#[trigger] keys@[j]).key == d[j].header.hashed_key
                    && keys@[j].sequence == d[j].header.sequence,
            positions_of(order@, 0, d.len() as int),
            positions_sorted(keys@, order@),
            pos <= k,
            k > 0 ==> pos == newer_versions(d, order@[k - 1] as int).len() + 1 && newer_versions(
                d,
                order@[k - 1] as int,
            ).finite(),
            forall|m: int|
                0 <= m < k ==> marked@[(#[trigger] order@[m]) as int] == keeps(
                    d,
                    order@[m] as int,
                    min_keep as nat,
                ),
        decreases order@.len() - k,
    {
        let x: usize = order[k];
        proof {
            lemma_next_version(d, keys@, order@, k as int);
        }
        if k > 0 {
            let prev: usize = order[k - 1];
            let a = keys[prev].key.as_slice();
            let b = keys[x].key.as_slice();
            proof {
                assert(a@ == keys@[prev as int].key@ && b@ == keys@[x as int].key@);
                lemma_same_key(keys@[prev as int].key, keys@[x as int].key);
            }
            match order_bytes(a, b) {
                KeyOrder::Same => {},
                _ => {
                    pos = 0;
                },
            }
        }
        assert(pos == newer_versions(d, x as int).len() && newer_versions(d, x as int).finite());
        let keep: bool = pos < min_keep && deltas[x].header.operation != OperationType::Delete;
        assert(keep == keeps(d, x as int, min_keep as nat));
        let ghost m0 = marked@;
        marked[x] = keep;
        assert forall|m: int| 0 <= m < k + 1 implies marked@[(#[trigger] order@[m]) as int]
            == keeps(d, order@[m] as int, min_keep as nat) by {
            if m < k {
                assert(position_less(keys@, order@[m] as int, order@[k as int] as int));
                assert(order@[m] != order@[k as int]);
                assert(marked@[order@[m] as int] == m0[order@[m] as int]);
            }
        }
        pos = pos + 1;
        k = k + 1;
    }
    assert forall|i: int| 0 <= i < deltas@.len() implies (#[trigger] marked@[i]) == keeps(
        d,
        i,
        min_keep as nat,
    ) by {
        assert(order@.contains(i as usize));
        let m = choose|m: int| 0 <= m < order@.len() && order@[m] == i as usize;
        assert(marked@[order@[m] as int] == keeps(d, order@[m] as int, min_keep as nat));
    }
    marked
}

/// The deltas marked, in ascending order of sequence numbers.
pub(crate) fn pick_marked(deltas: &[Delta], marked: &Vec<bool>, Ghost(keep): Ghost<
    spec_fn(int) -> bool,
>) -> (r: Vec<Delta>)
    requires
        marked@.len() == deltas@.len(),
        forall|i: int| 0 <= i < deltas@.len() ==> (#[trigger] marked@[i]) == keep(i),
    ensures
        exists|picked: Seq<usize>| #[trigger]
            selection(sequences(delta_views(deltas@)), keep, picked) && picked_deltas(
                delta_views(deltas@),
                picked,
                delta_views(r@),
            ),
{
    let ghost d = delta_views(deltas@);
    let mut keys: Vec<SequenceKey> = Vec::new();
    let mut i: usize = 0;
    while i < deltas.len()
        invariant
            i <= deltas@.len(),
            d == delta_views(deltas@),
            keys@.len() == i,
            forall|j: int| 0 <= j < i ==> (#[trigger] keys@[j]).0 == d[j].header.sequence,
        decreases deltas@.len() - i,
    {
        keys.push(SequenceKey(deltas[i].header.sequence.0));
        i = i + 1;
    }
    let picked = select_sorted(&keys, marked, Ghost(keep));
    assert(ranks_of(keys@) =~= sequences(d));
    let mut out: Vec<Delta> = Vec::new();
    let mut k: usize = 0;
    while k < picked.len()
        invariant
            k <= picked@.len(),
            d == delta_views(deltas@),
            selection(sequences(d), keep, picked@),
            out@.len() == k,
            forall|m: int| 0 <= m < k ==> (#[trigger] out@[m])@ == d[picked@[m] as int],
        decreases picked@.len() - k,
    {
        assert(picked@[k as int] < sequences(d).len());
        out.push(deltas[picked[k]].clone());
        k = k + 1;
    }
    assert(picked_deltas(d, picked@, delta_views(out@)));
    out
}

/// A copy of a list of deltas.
pub fn copy_deltas(s: &[Delta]) -> (r: Vec<Delta>)
    ensures
        delta_views(r@) == delta_views(s@),
{
    let mut out: Vec<Delta> = Vec::new();
    let mut i: usize = 0;
    while i < s.len()
        invariant
            i <= s@.len(),
            out@.len() == i,
            forall|j: int| 0 <= j < i ==> (#[trigger] out@[j])@ == s@[j]@,
        decreases s@.len() - i,
    {
        out.push(s[i].clone());
        i = i + 1;
    }
    assert(delta_views(out@) =~= delta_views(s@));
    out
}

/// The progress after so many deltas were examined and so many kept.
pub open spec fn progress_after(
    p: CompactionProgress,
    examined: u64,
    kept: u64,
) -> CompactionProgress {
    CompactionProgress {
        examined: p.examined.wrapping_add(examined),
        removed: p.removed.wrapping_add((examined - kept) as u64),
        retained: p.retained.wrapping_add(kept),
        cancelled: false,
    }
}

/// Compacts a list of deltas: deletions go, and of each key all but the newest
/// `min_versions` versions. A cancelled compaction keeps everything.
pub fn compact_deltas(
    deltas: &[Delta],
    progress: &mut CompactionProgress,
    min_versions: u64,
) -> (r: Vec<Delta>)
    ensures
        old(progress).cancelled ==> delta_views(r@) == delta_views(deltas@) && *final(progress)
            == *old(progress),
        !old(progress).cancelled ==> {
            &&& compacted(delta_views(deltas@), versions_kept(min_versions), delta_views(r@))
            &&& r@.len() <= deltas@.len()
            &&& *final(progress) == progress_after(
                *old(progress),
                deltas@.len() as u64,
                r@.len() as u64,
            )
        },
{
    if progress.is_cancelled() {
        return copy_deltas(deltas);
    }
    let ghost d = delta_views(deltas@);
    let min_keep: usize = if min_versions < 1 {
        1
    } else if min_versions > usize::MAX as u64 {
        usize::MAX
    } else {
        min_versions as usize
    };
    let ghost keep = kept_by(d, min_keep as nat);
    let marked = mark_kept(deltas, min_keep);
    let out = pick_marked(deltas, &marked, Ghost(keep));
    proof {
        let picked = choose|picked: Seq<usize>| #[trigger]
            selection(sequences(d), keep, picked) && picked_deltas(d, picked, delta_views(out@));
        lemma_selection_len(sequences(d), keep, picked);
        assert(compacted(d, min_keep as nat, delta_views(out@)));
    }
    let n: usize = deltas.len();
    let kept: usize = out.len();
    progress.examined = progress.examined.wrapping_add(n as u64);
    progress.removed = progress.removed.wrapping_add((n - kept) as u64);
    progress.retained = progress.retained.wrapping_add(kept as u64);
    out
}

/// A selection is no longer than the list.
pub proof fn lemma_selection_len(ranks: Seq<int>, keep: spec_fn(int) -> bool, picked: Seq<usize>)
    requires
        selection(ranks, keep, picked),
    ensures
        picked.len() <= ranks.len(),
{
    assert forall|i: int, j: int| 0 <= i < picked.len() && 0 <= j < picked.len() && i
        != j implies picked[i] != picked[j] by {
        if i < j {
            assert(ranks[picked[i] as int] < ranks[picked[j] as int] || picked[i] < picked[j]);
        } else {
            assert(ranks[picked[j] as int] < ranks[picked[i] as int] || picked[j] < picked[i]);
        }
    }
    let wide = Seq::new(picked.len(), |k: int| picked[k] as int);
    assert(wide.no_duplicates());
    wide.unique_seq_to_set();
    let all = vstd::set_lib::set_int_range(0, ranks.len() as int);
    vstd::set_lib::lemma_int_range(0, ranks.len() as int);
    assert(wide.to_set().subset_of(all)) by {
        assert forall|x: int| wide.to_set().contains(x) implies all.contains(x) by {
            let k = choose|k: int| 0 <= k < wide.len() && wide[k] == x;
            assert(picked[k] < ranks.len());
        }
    }
    vstd::set_lib::lemma_len_subset(wide.to_set(), all);
}

/// How many deltas of a list are deletions.
pub open spec fn deletions(d: Seq<DeltaView>) -> nat
    decreases d.len(),
{
    if d.len() == 0 {
        0
    } else {
        deletions(d.drop_last()) + (if d.last().header.operation == OperationType::Delete {
            1nat
        } else {
            0nat
        })
    }
}

/// Counts the deletions of a list of deltas.
pub fn count_deletions(deltas: &[Delta]) -> (r: usize)
    ensures
        r == deletions(delta_views(deltas@)),
        r <= deltas@.len(),
{
    let ghost d = delta_views(deltas@);
    let mut n: usize = 0;
    let mut i: usize = 0;
    assert(d.take(0) =~= Seq::<DeltaView>::empty());
    while i < deltas.len()
        invariant
            i <= deltas@.len(),
            d == delta_views(deltas@),
            n <= i,
            n == deletions(d.take(i as int)),
        decreases deltas@.len() - i,
    {
        proof {
            let t = d.take(i + 1);
            assert(t.drop_last() =~= d.take(i as int));
            assert(t.last() == deltas@[i as int]@);
        }
        if deltas[i].header.operation == OperationType::Delete {
            n = n + 1;
        }
        i = i + 1;
    }
    assert(d.take(i as int) =~= d);
    n
}

/// Law: a compaction keeps no deletion, and keeps the newest version of every key
/// unless that is a deletion.
pub proof fn newest_version_survives(
    d: Seq<DeltaView>,
    min_versions: u64,
    out: Seq<DeltaView>,
    i: int,
)
    requires
        compacted(d, versions_kept(min_versions), out),
        0 <= i < d.len(),
        d.len() <= usize::MAX,
        forall|j: int| 0 <= j < d.len() ==> !newer_version(d, j, i),
    ensures
        d[i].header.operation != OperationType::Delete ==> out.contains(d[i]),
        forall|k: int|
            0 <= k < out.len() ==> (#[trigger] out[k]).header.operation != OperationType::Delete,
{
    let keep = versions_kept(min_versions);
    let picked = choose|picked: Seq<usize>| #[trigger]
        selection(sequences(d), kept_by(d, keep), picked) && picked_deltas(d, picked, out);
    assert(newer_versions(d, i) =~= Set::<int>::empty());
    let f = kept_by(d, keep);
    if d[i].header.operation != OperationType::Delete {
        assert(f(i));
        assert(picked.contains(i as usize));
        let k = choose|k: int| 0 <= k < picked.len() && picked[k] == i as usize;
        assert(out[k] == d[picked[k] as int]);
    }
    assert forall|k: int| 0 <= k < out.len() implies (#[trigger] out[k]).header.operation
        != OperationType::Delete by {
        assert(f(picked[k] as int));
    }
}

/// Law: the deltas that a compaction keeps are deltas of the list, in ascending
/// order of sequence numbers.
pub proof fn compaction_keeps_order(d: Seq<DeltaView>, min_keep: nat, out: Seq<DeltaView>)
    requires
        compacted(d, min_keep, out),
    ensures
        forall|k: int| 0 <= k < out.len() ==> d.contains(#[trigger] out[k]),
        forall|a: int, b: int|
            0 <= a < b < out.len() ==> (#[trigger] out[a]).header.sequence <= (
            #[trigger] out[b]).header.sequence,
{
    let picked = choose|picked: Seq<usize>| #[trigger]
        selection(sequences(d), kept_by(d, min_keep), picked) && picked_deltas(
            d,
            picked,
            out,
        );
    assert forall|k: int| 0 <= k < out.len() implies d.contains(#[trigger] out[k]) by {
        assert(picked[k] < sequences(d).len());
        assert(d[picked[k] as int] == out[k]);
    }
    assert forall|a: int, b: int| 0 <= a < b < out.len() implies (#[trigger] out[a]).header.sequence
        <= (#[trigger] out[b]).header.sequence by {
        let ranks = sequences(d);
        assert(picked[a] < ranks.len() && picked[b] < ranks.len());
        assert(ranks[picked[a] as int] <= ranks[picked[b] as int]);
    }
}

} // verus!
