//! Draining intents into the log, and recovering them after an election.

use vstd::prelude::*;

use crate::ids::NodeId;
use crate::intent::{
    ascending, intent_views, is_duplicate, lists, put_all_table, put_in_part, put_table,
    store_fault, IntentTable, IntentView,
};
use crate::intent::{IntentError, IntentStore, PerspectiveSeq, WriteIntent};
use crate::ordered_map::{OrderedKey, OrderedMap};

verus! {

/// Most intents of one batch.
pub const DRAIN_BATCH_CAP: usize = 1_000;

/// `n` brought into `lo..=hi`.
pub open spec fn clamped(n: int, lo: int, hi: int) -> int {
    if n < lo {
        lo
    } else if n > hi {
        hi
    } else {
        n
    }
}

/// How many replicas a recovery has to gather, so that it meets every set of
/// replicas that an answered write is durable on.
pub open spec fn gather_need(cluster_size: int, min_acks: int) -> int {
    let rf = if cluster_size < 1 {
        1
    } else {
        cluster_size
    };
    rf - clamped(min_acks, 1, rf) + 1
}

/// How many distinct replica views a recovery needs.
pub fn gather_threshold(cluster_size: usize, min_acks: usize) -> (r: usize)
    ensures
        r == gather_need(cluster_size as int, min_acks as int),
        1 <= r,
        cluster_size >= 1 ==> r <= cluster_size,
{
    let rf: usize = if cluster_size < 1 {
        1
    } else {
        cluster_size
    };
    let acks: usize = if min_acks < 1 {
        1
    } else if min_acks > rf {
        rf
    } else {
        min_acks
    };
    rf - acks + 1
}

/// Two finite sets of nodes within `all` that together count more than `all`
/// have a node in common.
proof fn lemma_overlap(all: Set<NodeId>, a: Set<NodeId>, b: Set<NodeId>)
    requires
        all.finite(),
        a.subset_of(all),
        b.subset_of(all),
        a.len() + b.len() > all.len(),
    ensures
        exists|n: NodeId| a.contains(n) && b.contains(n),
{
    vstd::set_lib::lemma_set_subset_finite(all, a);
    vstd::set_lib::lemma_set_subset_finite(all, b);
    if !(exists|n: NodeId| a.contains(n) && b.contains(n)) {
        assert(a.disjoint(b));
        vstd::set_lib::lemma_set_disjoint_lens(a, b);
        assert((a + b).subset_of(all));
        vstd::set_lib::lemma_len_subset(a + b, all);
    }
}

/// Law: replicas that a write is durable on and replicas that a recovery
/// gathers have at least one in common, whenever the first are at least
/// `min_acks` and the second at least the gather threshold.
pub proof fn gather_meets_every_durable_set(
    voters: Set<NodeId>,
    durable: Set<NodeId>,
    gathered: Set<NodeId>,
    min_acks: nat,
)
    requires
        voters.finite(),
        voters.len() >= 1,
        durable.subset_of(voters),
        gathered.subset_of(voters),
        durable.len() >= clamped(min_acks as int, 1, voters.len() as int),
        gathered.len() >= gather_need(voters.len() as int, min_acks as int),
    ensures
        exists|n: NodeId| durable.contains(n) && gathered.contains(n),
{
    lemma_overlap(voters, durable, gathered);
}

/// Law: where the acknowledgements are at most half of the voters, a recovery has to
/// gather more than half of them.
pub proof fn wide_shards_need_more_than_a_majority(voters: int, min_acks: int)
    requires
        1 <= min_acks,
        2 * min_acks <= voters,
    ensures
        gather_need(voters, min_acks) > voters / 2,
{
}

/// A list cut into pieces of `cap`, the last one possibly shorter.
pub open spec fn pieces<T>(s: Seq<T>, cap: int) -> Seq<Seq<T>>
    decreases s.len(),
{
    if s.len() == 0 || cap <= 0 {
        Seq::empty()
    } else if s.len() <= cap {
        seq![s]
    } else {
        seq![s.take(cap)] + pieces(s.skip(cap), cap)
    }
}

/// Law: the pieces of a list are at most `cap` long, none is empty, and one
/// after the other they are the list.
pub proof fn pieces_cover_the_list<T>(s: Seq<T>, cap: int)
    requires
        cap > 0,
    ensures
        forall|i: int|
            0 <= i < pieces(s, cap).len() ==> 1 <= (#[trigger] pieces(s, cap)[i]).len() <= cap,
        joined(pieces(s, cap)) == s,
    decreases s.len(),
{
    let p = pieces(s, cap);
    if s.len() == 0 {
        assert(joined(p) =~= s);
    } else if s.len() <= cap {
        assert(p.drop_last() =~= Seq::<Seq<T>>::empty());
        assert(joined(p.drop_last()) == Seq::<T>::empty());
        assert(joined(p) =~= s);
    } else {
        let rest = pieces(s.skip(cap), cap);
        pieces_cover_the_list(s.skip(cap), cap);
        lemma_joined_front(s.take(cap), rest);
        assert(s.take(cap) + s.skip(cap) =~= s);
        assert forall|i: int| 0 <= i < p.len() implies 1 <= (#[trigger] p[i]).len() <= cap by {
            if i > 0 {
                assert(p[i] == rest[i - 1]);
            }
        }
    }
}

/// Lists one after the other.
pub open spec fn joined<T>(s: Seq<Seq<T>>) -> Seq<T>
    decreases s.len(),
{
    if s.len() == 0 {
        Seq::empty()
    } else {
        joined(s.drop_last()) + s.last()
    }
}

pub proof fn lemma_joined_front<T>(a: Seq<T>, s: Seq<Seq<T>>)
    ensures
        joined(seq![a] + s) == a + joined(s),
    decreases s.len(),
{
    let all = seq![a] + s;
    if s.len() == 0 {
        assert(all.drop_last() =~= Seq::<Seq<T>>::empty());
        assert(joined(all.drop_last()) == Seq::<T>::empty());
        assert(joined(all) =~= a + joined(s));
    } else {
        assert(all.drop_last() =~= seq![a] + s.drop_last());
        lemma_joined_front(a, s.drop_last());
        assert(all.last() == s.last());
        assert(joined(all) =~= a + joined(s));
    }
}

/// Batches of intents.
pub type IntentBatches = Seq<Seq<IntentView>>;

/// Errors of a sink.
pub type IntentErrors = Seq<IntentError>;

/// Where drained intents go: the log, batch by batch.
pub trait IncorporationSink {
    /// The batches that the sink took so far.
    spec fn batches(&self) -> IntentBatches;

    /// The errors that it refused other batches with.
    spec fn refusals(&self) -> IntentErrors;

    /// The sink is in order.
    spec fn ready(&self) -> bool;

    /// The sink never fails.
    spec fn reliable(&self) -> bool;

    /// Hands over a batch, in ascending order.
    fn incorporate(&mut self, ordered: &[WriteIntent]) -> (r: Result<(), IntentError>)
        requires
            old(self).ready(),
        ensures
            final(self).ready(),
            final(self).reliable() == old(self).reliable(),
            old(self).reliable() ==> r is Ok,
            r is Ok ==> final(self).batches() == old(self).batches().push(intent_views(ordered@))
                && final(self).refusals() == old(self).refusals(),
            r matches Err(e) ==> final(self).batches() == old(self).batches()
                && final(self).refusals() == old(self).refusals().push(e),
    ;
}

/// A sink that records what it is handed.
pub struct RecordingSink {
    /// Orders, as they came.
    pub incorporated: Vec<PerspectiveSeq>,
    /// Intents, as they came.
    pub intents: Vec<WriteIntent>,
    /// Where each batch begins.
    pub batch_starts: Vec<usize>,
}

/// The orders of a list of intents.
pub open spec fn seqs_of(s: Seq<WriteIntent>) -> Seq<PerspectiveSeq> {
    Seq::new(s.len(), |i: int| s[i].perspective_seq)
}

/// The batches that a list of starts cuts a list of intents into.
pub open spec fn batches_of(all: Seq<IntentView>, starts: Seq<usize>) -> Seq<Seq<IntentView>> {
    Seq::new(
        starts.len(),
        |i: int|
            all.subrange(
                starts[i] as int,
                if i + 1 < starts.len() {
                    starts[i + 1] as int
                } else {
                    all.len() as int
                },
            ),
    )
}

impl RecordingSink {
    /// An empty sink.
    pub fn new() -> (r: Self)
        ensures
            r.ready(),
            r.batches() == Seq::<Seq<IntentView>>::empty(),
            r.intents@.len() == 0,
    {
        let r = RecordingSink {
            incorporated: Vec::new(),
            intents: Vec::new(),
            batch_starts: Vec::new(),
        };
        assert(r.batches() =~= Seq::<Seq<IntentView>>::empty());
        r
    }
}

impl IncorporationSink for RecordingSink {
    open spec fn batches(&self) -> Seq<Seq<IntentView>> {
        batches_of(intent_views(self.intents@), self.batch_starts@)
    }

    open spec fn refusals(&self) -> Seq<IntentError> {
        Seq::empty()
    }

    open spec fn ready(&self) -> bool {
        &&& self.incorporated@.len() == self.intents@.len()
        &&& forall|i: int|
            0 <= i < self.intents@.len() ==> (#[trigger] self.incorporated@[i])
                == self.intents@[i].perspective_seq
        &&& forall|i: int|
            0 <= i < self.batch_starts@.len() ==> (#[trigger] self.batch_starts@[i])
                <= self.intents@.len()
        &&& forall|i: int, j: int|
            0 <= i < j < self.batch_starts@.len() ==> (#[trigger] self.batch_starts@[i]) <= (
            #[trigger] self.batch_starts@[j])
        &&& self.batch_starts@.len() > 0 ==> self.batch_starts@[0] == 0
        &&& self.batch_starts@.len() == 0 ==> self.intents@.len() == 0
    }

    open spec fn reliable(&self) -> bool {
        true
    }

    /// Records a batch: where it begins, its orders and its intents.
    fn incorporate(&mut self, ordered: &[WriteIntent]) -> (r: Result<(), IntentError>)
        ensures
            r is Ok,
            final(self).batch_starts@ == old(self).batch_starts@.push(
                old(self).incorporated@.len() as usize,
            ),
            intent_views(final(self).intents@) == intent_views(old(self).intents@) + intent_views(
                ordered@,
            ),
            final(self).incorporated@ == old(self).incorporated@ + seqs_of(ordered@),
    {
        let ghost all0 = intent_views(self.intents@);
        let ghost starts0 = self.batch_starts@;
        let ghost orders0 = self.incorporated@;
        let ghost before = self.batches();
        self.batch_starts.push(self.incorporated.len());
        let mut i: usize = 0;
        assert(all0 + intent_views(ordered@.take(0)) =~= all0);
        assert(orders0 + seqs_of(ordered@.take(0)) =~= orders0);
        while i < ordered.len()
            invariant
                i <= ordered@.len(),
                self.batch_starts@ == starts0.push(all0.len() as usize),
                self.incorporated@.len() == self.intents@.len(),
                forall|j: int|
                    0 <= j < self.intents@.len() ==> (#[trigger] self.incorporated@[j])
                        == self.intents@[j].perspective_seq,
                intent_views(self.intents@) == all0 + intent_views(ordered@.take(i as int)),
                self.incorporated@ == orders0 + seqs_of(ordered@.take(i as int)),
                forall|j: int|
                    0 <= j < starts0.len() ==> (#[trigger] starts0[j]) <= all0.len(),
                forall|j: int, k: int|
                    0 <= j < k < starts0.len() ==> (#[trigger] starts0[j]) <= (
                    #[trigger] starts0[k]),
            decreases ordered@.len() - i,
        {
            let ghost pre = self.intents@;
            self.incorporated.push(ordered[i].perspective_seq);
            self.intents.push(ordered[i].clone());
            proof {
                assert(intent_views(self.intents@) =~= intent_views(pre).push(
                    ordered@[i as int]@,
                ));
                assert(intent_views(ordered@.take(i + 1)) =~= intent_views(
                    ordered@.take(i as int),
                ).push(ordered@[i as int]@));
            }
            i = i + 1;
            assert(intent_views(self.intents@) =~= all0 + intent_views(ordered@.take(i as int)));
            assert(self.incorporated@ =~= orders0 + seqs_of(ordered@.take(i as int)));
        }
        proof {
            assert(ordered@.take(i as int) =~= ordered@);
            let all = intent_views(self.intents@);
            let starts = self.batch_starts@;
            assert(all.len() == self.intents@.len());
            assert forall|j: int| 0 <= j < starts.len() implies (#[trigger] starts[j])
                <= self.intents@.len() by {
                if j < starts0.len() {
                    assert(starts[j] == starts0[j]);
                }
            }
            assert forall|j: int, k: int| 0 <= j < k < starts.len() implies (#[trigger] starts[j])
                <= (#[trigger] starts[k]) by {
                assert(starts[j] == starts0[j]);
                if k < starts0.len() {
                    assert(starts[k] == starts0[k]);
                }
            }
            assert forall|j: int| 0 <= j < before.push(
                intent_views(ordered@),
            ).len() implies self.batches()[j] == before.push(intent_views(ordered@))[j] by {
                if j < starts0.len() {
                    assert(starts[j] == starts0[j]);
                    if j + 1 < starts0.len() {
                        assert(starts[j + 1] == starts0[j + 1]);
                        assert(starts0[j] <= starts0[j + 1]);
                    }
                    assert(self.batches()[j] =~= before[j]);
                } else {
                    assert(self.batches()[j] =~= intent_views(ordered@));
                }
            }
            assert(self.batches() =~= before.push(intent_views(ordered@)));
        }
        Ok(())
    }
}

/// How many intents the first `n` batches hold.
pub open spec fn held_before(batches: Seq<Seq<IntentView>>, n: int) -> int
    decreases n,
{
    if n <= 0 {
        0
    } else {
        held_before(batches, n - 1) + batches[n - 1].len()
    }
}

/// Law: what a recording sink took can be read off its fields: its intents are those
/// of all batches, in order, its orders are theirs, and a batch begins after the
/// intents of the batches before it.
pub proof fn recorded_fields(sink: RecordingSink)
    requires
        sink.ready(),
    ensures
        sink.batch_starts@.len() == sink.batches().len(),
        intent_views(sink.intents@) == joined(sink.batches()),
        forall|j: int|
            0 <= j < sink.batch_starts@.len() ==> (#[trigger] sink.batch_starts@[j])
                == held_before(sink.batches(), j),
        sink.incorporated@ == seqs_of(sink.intents@),
{
    let n = sink.batch_starts@.len() as int;
    let all = intent_views(sink.intents@);
    assert(all.len() == sink.intents@.len());
    assert(sink.incorporated@ =~= seqs_of(sink.intents@));
    if n > 0 {
        lemma_starts(sink, n - 1);
        let last = sink.batches().last();
        assert(last == sink.batches()[n - 1]);
        assert(sink.batches().drop_last() =~= sink.batches().take(n - 1));
        assert(all =~= all.take(sink.batch_starts@[n - 1] as int) + last);
        assert forall|j: int| 0 <= j < n implies (#[trigger] sink.batch_starts@[j])
            == held_before(sink.batches(), j) by {
            lemma_starts(sink, j);
        }
    } else {
        assert(all =~= joined(sink.batches()));
    }
}

/// Batch `j` begins after the intents of the batches before it.
proof fn lemma_starts(sink: RecordingSink, j: int)
    requires
        sink.ready(),
        0 <= j < sink.batch_starts@.len(),
    ensures
        sink.batch_starts@[j] == held_before(sink.batches(), j),
        joined(sink.batches().take(j)) == intent_views(sink.intents@).take(
            sink.batch_starts@[j] as int,
        ),
    decreases j,
{
    let all = intent_views(sink.intents@);
    let b = sink.batches();
    assert(all.len() == sink.intents@.len());
    if j == 0 {
        assert(b.take(0) =~= Seq::<Seq<IntentView>>::empty());
        assert(all.take(0) =~= Seq::<IntentView>::empty());
    } else {
        lemma_starts(sink, j - 1);
        let x = sink.batch_starts@[j - 1] as int;
        let y = sink.batch_starts@[j] as int;
        assert(x <= y);
        assert(b[j - 1] =~= all.subrange(x, y));
        let t = b.take(j);
        assert(t.drop_last() =~= b.take(j - 1));
        assert(t.last() == b[j - 1]);
        assert(all.take(y) =~= all.take(x) + all.subrange(x, y));
    }
}

/// What a drain does to a sink: it hands over the list of a table, piece by piece,
/// whole or up to the first piece that is refused. A store that cannot be read
/// leaves the sink as it was.
pub open spec fn drained(
    t: IntentTable,
    readable: bool,
    batches: Seq<Seq<IntentView>>,
    refusals: Seq<IntentError>,
    r: Result<usize, IntentError>,
    batches_after: Seq<Seq<IntentView>>,
    refusals_after: Seq<IntentError>,
) -> bool {
    match r {
        Ok(n) => refusals_after == refusals && exists|s: Seq<IntentView>| #[trigger]
            lists(s, t) && n == s.len() && batches_after == batches + pieces(
                s,
                DRAIN_BATCH_CAP as int,
            ),
        Err(e) => {
            ||| !readable && store_fault(e) && batches_after == batches && refusals_after
                == refusals
            ||| refusals_after == refusals.push(e) && exists|s: Seq<IntentView>, k: int|
                {
                    &&& #[trigger] lists(s, t)
                    &&& 0 <= k < pieces(s, DRAIN_BATCH_CAP as int).len()
                    &&& batches_after == batches + #[trigger] pieces(
                        s,
                        DRAIN_BATCH_CAP as int,
                    ).take(k)
                }
        },
    }
}

/// The committer of a shard's leader.
pub struct Committer;

impl Committer {
    /// Drains all pending intents into the sink: in ascending order, in batches
    /// of at most [`DRAIN_BATCH_CAP`], and stops at the first failure. Returns
    /// how many there were. The store is left as it is.
    pub fn run<S: IntentStore, K: IncorporationSink>(store: &S, sink: &mut K) -> (r: Result<
        usize,
        IntentError,
    >)
        requires
            store.ready(),
            old(sink).ready(),
        ensures
            final(sink).ready(),
            final(sink).reliable() == old(sink).reliable(),
            store.reliable() && old(sink).reliable() ==> r is Ok,
            drained(
                store.table(),
                store.reliable(),
                old(sink).batches(),
                old(sink).refusals(),
                r,
                final(sink).batches(),
                final(sink).refusals(),
            ),
    {
        let pending = match store.pending() {
            Ok(v) => v,
            Err(e) => {
                return Err(e);
            },
        };
        let ghost all = intent_views(pending@);
        let ghost before = sink.batches();
        let ghost refused = sink.refusals();
        let ghost sound = sink.reliable();
        assert(all.len() <= usize::MAX) by {
            assert(all.len() == pending.len());
        }
        let mut rest: Vec<WriteIntent> = pending;
        let mut total: usize = 0;
        assert(before + Seq::<Seq<IntentView>>::empty() =~= before);
        let ghost mut done = Seq::<Seq<IntentView>>::empty();
        while rest.len() > 0
            invariant
                sink.ready(),
                sink.reliable() == sound,
                sound == old(sink).reliable(),
                before == old(sink).batches(),
                refused == old(sink).refusals(),
                sink.refusals() == refused,
                lists(all, store.table()),
                sink.batches() == before + done,
                done + pieces(intent_views(rest@), DRAIN_BATCH_CAP as int) == pieces(
                    all,
                    DRAIN_BATCH_CAP as int,
                ),
                total + rest@.len() == all.len(),
                all.len() <= usize::MAX,
            decreases rest@.len(),
        {
            let ghost cur = intent_views(rest@);
            let ghost cap = DRAIN_BATCH_CAP as int;
            let n: usize = if rest.len() < DRAIN_BATCH_CAP {
                rest.len()
            } else {
                DRAIN_BATCH_CAP
            };
            let tail: Vec<WriteIntent> = rest.split_off(n);
            proof {
                assert(intent_views(rest@) =~= cur.take(n as int));
                assert(intent_views(tail@) =~= cur.skip(n as int));
                if cur.len() <= cap {
                    assert(cur.take(n as int) =~= cur);
                    assert(pieces(cur, cap) =~= seq![cur] + pieces(cur.skip(n as int), cap));
                }
            }
            match sink.incorporate(rest.as_slice()) {
                Ok(()) => {},
                Err(e) => {
                    proof {
                        let whole = pieces(all, cap);
                        assert(whole.take(done.len() as int) =~= done);
                        assert(done.len() < whole.len());
                    }
                    return Err(e);
                },
            }
            total = total + rest.len();
            proof {
                let head = cur.take(n as int);
                let more = pieces(cur.skip(n as int), cap);
                assert(done + (seq![head] + more) =~= done.push(head) + more);
                assert((before + done).push(head) =~= before + done.push(head));
                done = done.push(head);
            }
            rest = tail;
        }
        proof {
            assert(done + Seq::<Seq<IntentView>>::empty() =~= done);
        }
        Ok(total)
    }
}

/// What several replicas hold together: where two hold the same order, the
/// earlier one counts.
pub open spec fn union_of(ts: Seq<IntentTable>) -> Map<PerspectiveSeq, IntentView>
    decreases ts.len(),
{
    if ts.len() == 0 {
        Map::empty()
    } else {
        ts.last().by_seq.union_prefer_right(union_of(ts.drop_last()))
    }
}

/// A table of intents without client keys.
pub open spec fn keyless(m: Map<PerspectiveSeq, IntentView>) -> IntentTable {
    IntentTable { by_seq: m, by_key: Map::empty() }
}

/// A map of intents, each under its own order.
pub open spec fn well_keyed(m: Map<PerspectiveSeq, IntentView>) -> bool {
    forall|s: PerspectiveSeq| #[trigger] m.contains_key(s) ==> m[s].seq == s
}

/// Adds the intents of one replica to a union.
fn absorb(union: &mut OrderedMap<PerspectiveSeq, WriteIntent>, pending: Vec<WriteIntent>, Ghost(
    t,
): Ghost<IntentTable>)
    requires
        old(union).wf(),
        lists(intent_views(pending@), t),
        well_keyed(intent_values(old(union)@)),
    ensures
        final(union).wf(),
        intent_values(final(union)@) == t.by_seq.union_prefer_right(intent_values(old(union)@)),
        well_keyed(intent_values(final(union)@)),
{
    let ghost m0 = intent_values(union@);
    let ghost all = intent_views(pending@);
    let mut i: usize = 0;
    while i < pending.len()
        invariant
            union.wf(),
            i <= pending@.len(),
            all == intent_views(pending@),
            lists(all, t),
            well_keyed(intent_values(union@)),
            forall|q: PerspectiveSeq| #[trigger]
                union@.contains_key(q) <==> m0.contains_key(q) || (exists|j: int|
                    0 <= j < i && (#[trigger] all[j]).seq == q),
            forall|q: PerspectiveSeq| #[trigger]
                union@.contains_key(q) ==> union@[q]@ == (if m0.contains_key(q) {
                    m0[q]
                } else {
                    t.by_seq[q]
                }),
        decreases pending@.len() - i,
    {
        let ghost u0 = union@;
        let seq = pending[i].perspective_seq;
        assert(all[i as int] == pending@[i as int]@);
        assert(all[i as int].seq == seq);
        assert(t.by_seq.contains_key(all[i as int].seq) && t.by_seq[seq] == all[i as int]);
        if !union.contains(&seq) {
            union.insert(seq, pending[i].clone());
        }
        proof {
            assert forall|q: PerspectiveSeq| #[trigger] union@.contains_key(q)
                <==> m0.contains_key(q) || (exists|j: int|
                0 <= j < i + 1 && (#[trigger] all[j]).seq == q) by {
                if union@.contains_key(q) && !m0.contains_key(q) {
                    if q == seq {
                        assert(all[i as int].seq == q);
                    } else {
                        assert(u0.contains_key(q));
                        let j = choose|j: int| 0 <= j < i && (#[trigger] all[j]).seq == q;
                        assert(all[j].seq == q);
                    }
                }
                if m0.contains_key(q) {
                    assert(u0.contains_key(q));
                }
                if exists|j: int| 0 <= j < i + 1 && (#[trigger] all[j]).seq == q {
                    let j = choose|j: int| 0 <= j < i + 1 && (#[trigger] all[j]).seq == q;
                    if j < i {
                        assert(u0.contains_key(q));
                    }
                }
            }
            assert forall|q: PerspectiveSeq| #[trigger] union@.contains_key(q) implies union@[q]@
                == (if m0.contains_key(q) {
                m0[q]
            } else {
                t.by_seq[q]
            }) by {
                if u0.contains_key(q) {
                    assert(union@[q] == u0[q]);
                } else {
                    assert(q == seq);
                    assert(!m0.contains_key(q));
                }
            }
            assert forall|s: PerspectiveSeq| #[trigger] intent_values(union@).contains_key(
                s,
            ) implies intent_values(union@)[s].seq == s by {
                assert(union@.contains_key(s));
                if u0.contains_key(s) {
                    assert(intent_values(u0).contains_key(s));
                }
            }
        }
        i = i + 1;
    }
    proof {
        let goal = t.by_seq.union_prefer_right(m0);
        assert forall|q: PerspectiveSeq| #[trigger] intent_values(union@).contains_key(q)
            <==> goal.contains_key(q) by {
            assert(intent_values(union@).contains_key(q) <==> union@.contains_key(q));
            if t.by_seq.contains_key(q) {
                let j = choose|j: int| 0 <= j < all.len() && (#[trigger] all[j]).seq == q;
                assert(all[j].seq == q);
                assert(union@.contains_key(q));
            }
        }
        assert forall|q: PerspectiveSeq| #[trigger] intent_values(union@).contains_key(
            q,
        ) implies intent_values(union@)[q] == goal[q] by {
            assert(union@.contains_key(q));
        }
        assert(intent_values(union@) =~= goal);
    }
}

/// What the intents of a map hold.
pub open spec fn intent_values(m: Map<PerspectiveSeq, WriteIntent>) -> Map<
    PerspectiveSeq,
    IntentView,
> {
    m.map_values(|i: WriteIntent| i@)
}

/// The intents of a union, in ascending order.
fn list_union(union: &OrderedMap<PerspectiveSeq, WriteIntent>) -> (r: Vec<WriteIntent>)
    requires
        union.wf(),
        well_keyed(intent_values(union@)),
    ensures
        lists(intent_views(r@), keyless(intent_values(union@))),
{
    let mut out: Vec<WriteIntent> = Vec::new();
    let mut i: usize = 0;
    while i < union.len()
        invariant
            union.wf(),
            i <= union.entries().len(),
            out@.len() == i,
            forall|j: int| 0 <= j < i ==> (#[trigger] out@[j])@ == union.entries()[j].1@,
        decreases union.entries().len() - i,
    {
        out.push(union.at(i).1.clone());
        i = i + 1;
    }
    proof {
        union.lemma_entries();
        let s = intent_views(out@);
        let e = union.entries();
        let m = intent_values(union@);
        assert forall|j: int| 0 <= j < s.len() implies (#[trigger] s[j]).seq == e[j].0
            && m.contains_key(s[j].seq) && m[s[j].seq] == s[j] by {
            assert(union@.contains_key(e[j].0));
            assert(m.contains_key(e[j].0));
            assert(s[j] == out@[j]@);
        }
        assert forall|i: int, j: int| 0 <= i < j < s.len() implies (#[trigger] s[i]).seq.rank() < (
        #[trigger] s[j]).seq.rank() by {
            assert(e[i].0.rank() < e[j].0.rank());
        }
        assert forall|q: PerspectiveSeq| #[trigger] keyless(m).by_seq.contains_key(
            q,
        ) implies exists|i: int| 0 <= i < s.len() && (#[trigger] s[i]).seq == q by {
            assert(union@.contains_key(q));
            let j = choose|j: int| 0 <= j < e.len() && (#[trigger] e[j]).0 == q;
            assert(s[j].seq == q);
        }
    }
    out
}

/// The tables of a list of stores.
pub open spec fn tables_of<S: IntentStore>(stores: Seq<&S>) -> Seq<IntentTable> {
    Seq::new(stores.len(), |i: int| stores[i].table())
}

/// Rebuilds what is pending from the stores of distinct replicas. Refused where
/// there are fewer than the gather threshold.
pub fn recover_pending<S: IntentStore>(
    replica_stores: &[&S],
    cluster_size: usize,
    min_acks: usize,
) -> (r: Result<Vec<WriteIntent>, IntentError>)
    requires
        forall|i: int| 0 <= i < replica_stores@.len() ==> (#[trigger] replica_stores@[i]).ready(),
    ensures
        replica_stores@.len() < gather_need(cluster_size as int, min_acks as int) ==> r == Err::<
            Vec<WriteIntent>,
            IntentError,
        >(
            (IntentError::InsufficientQuorum {
                have: replica_stores@.len() as usize,
                need: gather_need(cluster_size as int, min_acks as int) as usize,
            }),
        ),
        replica_stores@.len() >= gather_need(cluster_size as int, min_acks as int) && (forall|
            i: int,
        |
            0 <= i < replica_stores@.len() ==> (#[trigger] replica_stores@[i]).reliable())
            ==> r is Ok,
        replica_stores@.len() >= gather_need(cluster_size as int, min_acks as int) ==> (r matches
            Err(e) ==> store_fault(e)),
        r matches Ok(v) ==> lists(
            intent_views(v@),
            keyless(union_of(tables_of(replica_stores@))),
        ),
{
    let need: usize = gather_threshold(cluster_size, min_acks);
    let have: usize = replica_stores.len();
    if have < need {
        return Err(IntentError::InsufficientQuorum { have, need });
    }
    let ghost ts = tables_of(replica_stores@);
    let mut union: OrderedMap<PerspectiveSeq, WriteIntent> = OrderedMap::new();
    let mut i: usize = 0;
    proof {
        assert(ts.take(0) =~= Seq::<IntentTable>::empty());
        assert(intent_values(union@) =~= Map::<PerspectiveSeq, IntentView>::empty());
    }
    while i < replica_stores.len()
        invariant
            i <= replica_stores@.len(),
            replica_stores@.len() >= gather_need(cluster_size as int, min_acks as int),
            ts == tables_of(replica_stores@),
            forall|j: int|
                0 <= j < replica_stores@.len() ==> (#[trigger] replica_stores@[j]).ready(),
            union.wf(),
            well_keyed(intent_values(union@)),
            intent_values(union@) == union_of(ts.take(i as int)),
        decreases replica_stores@.len() - i,
    {
        assert(replica_stores@[i as int].ready());
        let pending = match replica_stores[i].pending() {
            Ok(v) => v,
            Err(e) => {
                return Err(e);
            },
        };
        proof {
            let t = ts.take(i + 1);
            assert(t.drop_last() =~= ts.take(i as int));
            assert(t.last() == replica_stores@[i as int].table());
        }
        absorb(&mut union, pending, Ghost(replica_stores@[i as int].table()));
        i = i + 1;
    }
    assert(ts.take(i as int) =~= ts);
    Ok(list_union(&union))
}

/// Rebuilds what is pending from the local store and the pending lists of
/// distinct peers, each of which lists a table.
pub(crate) fn recover_views<S: IntentStore>(
    local: &S,
    peers: &Vec<Vec<WriteIntent>>,
    Ghost(tables): Ghost<Seq<IntentTable>>,
    cluster_size: usize,
    min_acks: usize,
) -> (r: Result<Vec<WriteIntent>, IntentError>)
    requires
        local.ready(),
        peers@.len() < usize::MAX,
        tables.len() == peers@.len(),
        forall|i: int|
            0 <= i < peers@.len() ==> lists(intent_views((#[trigger] peers@[i])@), tables[i]),
    ensures
        peers@.len() + 1 < gather_need(cluster_size as int, min_acks as int) ==> r == Err::<
            Vec<WriteIntent>,
            IntentError,
        >(
            (IntentError::InsufficientQuorum {
                have: (peers@.len() + 1) as usize,
                need: gather_need(cluster_size as int, min_acks as int) as usize,
            }),
        ),
        peers@.len() + 1 >= gather_need(cluster_size as int, min_acks as int) && local.reliable()
            ==> r is Ok,
        peers@.len() + 1 >= gather_need(cluster_size as int, min_acks as int) ==> (r matches Err(e)
            ==> store_fault(e)),
        r matches Ok(v) ==> lists(
            intent_views(v@),
            keyless(union_of(seq![local.table()] + tables)),
        ),
{
    let need: usize = gather_threshold(cluster_size, min_acks);
    let have: usize = 1 + peers.len();
    if have < need {
        return Err(IntentError::InsufficientQuorum { have, need });
    }
    let ghost ts = seq![local.table()] + tables;
    let mut union: OrderedMap<PerspectiveSeq, WriteIntent> = OrderedMap::new();
    proof {
        assert(ts.take(0) =~= Seq::<IntentTable>::empty());
        assert(intent_values(union@) =~= Map::<PerspectiveSeq, IntentView>::empty());
        assert(ts.take(1).drop_last() =~= ts.take(0));
        assert(ts.take(1).last() == local.table());
    }
    let mine = match local.pending() {
        Ok(v) => v,
        Err(e) => {
            return Err(e);
        },
    };
    absorb(&mut union, mine, Ghost(local.table()));
    assert(union_of(ts.take(1)) == local.table().by_seq.union_prefer_right(
        union_of(ts.take(1).drop_last()),
    ));
    let mut i: usize = 0;
    while i < peers.len()
        invariant
            i <= peers@.len(),
            tables.len() == peers@.len(),
            ts == seq![local.table()] + tables,
            forall|j: int|
                0 <= j < peers@.len() ==> lists(intent_views((#[trigger] peers@[j])@), tables[j]),
            union.wf(),
            well_keyed(intent_values(union@)),
            intent_values(union@) == union_of(ts.take(i + 1)),
        decreases peers@.len() - i,
    {
        proof {
            let t = ts.take(i + 2);
            assert(t.drop_last() =~= ts.take(i + 1));
            assert(t.last() == tables[i as int]);
            assert(lists(intent_views(peers@[i as int]@), tables[i as int]));
        }
        let copy = crate::intent::copy_intents(&peers[i]);
        absorb(&mut union, copy, Ghost(tables[i as int]));
        i = i + 1;
    }
    assert(ts.take(i + 1) =~= ts);
    Ok(list_union(&union))
}

/// A union holds an order exactly where one of the replicas does.
pub proof fn lemma_union_contains(ts: Seq<IntentTable>, s: PerspectiveSeq)
    ensures
        union_of(ts).contains_key(s) <==> exists|i: int|
            0 <= i < ts.len() && (#[trigger] ts[i]).by_seq.contains_key(s),
    decreases ts.len(),
{
    if ts.len() > 0 {
        let front = ts.drop_last();
        lemma_union_contains(front, s);
        if union_of(ts).contains_key(s) {
            if ts.last().by_seq.contains_key(s) {
                assert(ts[ts.len() - 1].by_seq.contains_key(s));
            } else {
                let i = choose|i: int|
                    0 <= i < front.len() && (#[trigger] front[i]).by_seq.contains_key(s);
                assert(ts[i].by_seq.contains_key(s));
            }
        }
        if exists|i: int| 0 <= i < ts.len() && (#[trigger] ts[i]).by_seq.contains_key(s) {
            let i = choose|i: int| 0 <= i < ts.len() && (#[trigger] ts[i]).by_seq.contains_key(s);
            if i < front.len() {
                assert(front[i].by_seq.contains_key(s));
            }
        }
    }
}

/// Law: an intent that is durable on at least `min_acks` voters is in the union
/// of any gather that meets the threshold. No answered write is lost.
pub proof fn answered_write_is_recovered(
    voters: Set<NodeId>,
    stores: Map<NodeId, IntentTable>,
    durable: Set<NodeId>,
    gathered: Seq<NodeId>,
    min_acks: nat,
    s: PerspectiveSeq,
)
    requires
        voters.finite(),
        voters.len() >= 1,
        durable.subset_of(voters),
        durable.len() >= clamped(min_acks as int, 1, voters.len() as int),
        forall|n: NodeId| #[trigger]
            durable.contains(n) ==> stores.contains_key(n) && stores[n].by_seq.contains_key(s),
        gathered.no_duplicates(),
        gathered.to_set().subset_of(voters),
        gathered.len() >= gather_need(voters.len() as int, min_acks as int),
    ensures
        union_of(Seq::new(gathered.len(), |i: int| stores[gathered[i]])).contains_key(s),
{
    let ts = Seq::new(gathered.len(), |i: int| stores[gathered[i]]);
    gathered.unique_seq_to_set();
    gather_meets_every_durable_set(voters, durable, gathered.to_set(), min_acks);
    let n = choose|n: NodeId| durable.contains(n) && gathered.to_set().contains(n);
    let i = choose|i: int| 0 <= i < gathered.len() && gathered[i] == n;
    assert(ts[i].by_seq.contains_key(s));
    lemma_union_contains(ts, s);
}

/// How many intents of a list have an order that a table does not hold.
pub open spec fn count_new(t: IntentTable, s: Seq<IntentView>) -> nat
    decreases s.len(),
{
    if s.len() == 0 {
        0
    } else {
        count_new(t, s.drop_last()) + (if t.by_seq.contains_key(s.last().seq) {
            0nat
        } else {
            1nat
        })
    }
}

/// Loads recovered intents into a store. Returns how many of them have an order
/// that the store did not hold before.
pub fn restore_into<S: IntentStore>(target: &mut S, recovered: &[WriteIntent]) -> (r: Result<
    usize,
    IntentError,
>)
    requires
        old(target).ready(),
    ensures
        final(target).ready(),
        final(target).reliable() == old(target).reliable(),
        old(target).reliable() ==> r is Ok,
        r matches Ok(n) ==> n == count_new(old(target).table(), intent_views(recovered@))
            && final(target).table() == put_all_table(
            old(target).table(),
            intent_views(recovered@),
        ),
        r is Err ==> put_in_part(
            old(target).table(),
            intent_views(recovered@),
            final(target).table(),
        ),
        r matches Err(e) ==> store_fault(e),
{
    let ghost t = target.table();
    let ghost sound = target.reliable();
    let ghost views = intent_views(recovered@);
    assert(views.take(0) =~= Seq::<IntentView>::empty());
    let present = match target.pending() {
        Ok(v) => v,
        Err(e) => {
            return Err(e);
        },
    };
    let ghost listed = intent_views(present@);
    let mut existing: OrderedMap<PerspectiveSeq, ()> = OrderedMap::new();
    let mut k: usize = 0;
    while k < present.len()
        invariant
            k <= present@.len(),
            listed == intent_views(present@),
            existing.wf(),
            forall|q: PerspectiveSeq| #[trigger]
                existing@.contains_key(q) <==> exists|j: int|
                    0 <= j < k && (#[trigger] listed[j]).seq == q,
        decreases present@.len() - k,
    {
        let ghost e0 = existing@;
        let seq = present[k].perspective_seq;
        assert(listed[k as int].seq == seq);
        existing.insert(seq, ());
        assert forall|q: PerspectiveSeq| #[trigger] existing@.contains_key(q) <==> exists|j: int|
            0 <= j < k + 1 && (#[trigger] listed[j]).seq == q by {
            if existing@.contains_key(q) && q != seq {
                assert(e0.contains_key(q));
                let j = choose|j: int| 0 <= j < k && (#[trigger] listed[j]).seq == q;
                assert(listed[j].seq == q);
            }
            if exists|j: int| 0 <= j < k + 1 && (#[trigger] listed[j]).seq == q {
                let j = choose|j: int| 0 <= j < k + 1 && (#[trigger] listed[j]).seq == q;
                if j < k {
                    assert(e0.contains_key(q));
                }
            }
        }
        k = k + 1;
    }
    assert forall|q: PerspectiveSeq| #[trigger] existing@.contains_key(q)
        <==> t.by_seq.contains_key(q) by {
        if existing@.contains_key(q) {
            let j = choose|j: int| 0 <= j < k && (#[trigger] listed[j]).seq == q;
            assert(t.by_seq.contains_key(listed[j].seq));
        }
    }
    let mut inserted: usize = 0;
    let mut i: usize = 0;
    assert(views.take(0) =~= Seq::<IntentView>::empty());
    while i < recovered.len()
        invariant
            i <= recovered@.len(),
            views == intent_views(recovered@),
            target.ready(),
            target.reliable() == sound,
            sound == old(target).reliable(),
            t == old(target).table(),
            existing.wf(),
            forall|q: PerspectiveSeq| #[trigger]
                existing@.contains_key(q) <==> t.by_seq.contains_key(q),
            inserted <= i,
            inserted == count_new(t, views.take(i as int)),
            target.table() == put_all_table(t, views.take(i as int)),
        decreases recovered@.len() - i,
    {
        proof {
            let p = views.take(i + 1);
            assert(p.drop_last() =~= views.take(i as int));
            assert(p.last() == recovered@[i as int]@);
        }
        let is_new: bool = !existing.contains(&recovered[i].perspective_seq);
        match target.put(recovered[i].clone()) {
            Ok(_) => {},
            Err(e) => {
                return Err(e);
            },
        }
        if is_new {
            inserted = inserted + 1;
        }
        i = i + 1;
    }
    assert(views.take(i as int) =~= views);
    Ok(inserted)
}

/// After a list was recorded, recording one of its intents again changes nothing.
proof fn lemma_put_again(t: IntentTable, s: Seq<IntentView>, i: int)
    requires
        ascending(s),
        0 <= i < s.len(),
    ensures
        put_table(put_all_table(t, s), s[i]) == put_all_table(t, s),
    decreases s.len(),
{
    let front = s.drop_last();
    let mid = put_all_table(t, front);
    let last = s.last();
    let end = put_table(mid, last);
    if i == s.len() - 1 {
        assert(put_table(end, last) =~= end);
    } else {
        assert(ascending(front));
        lemma_put_again(t, front, i);
        let x = s[i];
        assert(front[i] == x);
        assert(x.seq.rank() < last.seq.rank()) by {
            assert(s[i].seq.rank() < s[s.len() - 1].seq.rank());
        }
        lemma_recorded(t, front, i);
        if is_duplicate(end, x) {
        } else {
            assert(x.key is None) by {
                if x.key is Some {
                    assert(mid.by_key.contains_key(x.key->0));
                }
            }
            assert(mid.by_seq.contains_key(x.seq) && mid.by_seq[x.seq] == x);
            assert(end.by_seq.contains_key(x.seq) && end.by_seq[x.seq] == x);
            assert(end.by_seq.insert(x.seq, x) =~= end.by_seq);
        }
    }
}

/// After a list was recorded, the client keys of its intents are recorded, and
/// an intent without one stands under its order.
pub proof fn lemma_recorded(t: IntentTable, s: Seq<IntentView>, i: int)
    requires
        ascending(s),
        0 <= i < s.len(),
    ensures
        s[i].key matches Some(k) ==> put_all_table(t, s).by_key.contains_key(k),
        s[i].key is None ==> put_all_table(t, s).by_seq.contains_key(s[i].seq) && put_all_table(
            t,
            s,
        ).by_seq[s[i].seq] == s[i],
    decreases s.len(),
{
    let front = s.drop_last();
    if i < s.len() - 1 {
        assert(ascending(front));
        lemma_recorded(t, front, i);
        assert(front[i] == s[i]);
        assert(s[i].seq.rank() < s[s.len() - 1].seq.rank());
    }
}

/// Law: loading the same recovered intents a second time changes nothing.
pub proof fn restoring_is_idempotent(t: IntentTable, s: Seq<IntentView>)
    requires
        ascending(s),
    ensures
        put_all_table(put_all_table(t, s), s) == put_all_table(t, s),
{
    lemma_put_again_all(t, s, s.len() as int);
    assert(s.take(s.len() as int) =~= s);
}

/// Whether no client key of a list stands for another intent: a key is of one intent
/// of the list, and where a table knows it, the table holds that intent's order.
pub open spec fn keys_agree(t: IntentTable, s: Seq<IntentView>) -> bool {
    &&& forall|i: int|
        0 <= i < s.len() && is_duplicate(t, #[trigger] s[i]) ==> t.by_seq.contains_key(s[i].seq)
    &&& forall|i: int, j: int|
        0 <= i < j < s.len() && (#[trigger] s[i]).key is Some ==> s[i].key != (
        #[trigger] s[j]).key
}

/// The orders that a table holds once a list was recorded: those it held, and those
/// of the list.
proof fn lemma_orders_held(t: IntentTable, s: Seq<IntentView>)
    requires
        keys_agree(t, s),
    ensures
        forall|q: PerspectiveSeq| #[trigger]
            put_all_table(t, s).by_seq.contains_key(q) <==> t.by_seq.contains_key(q) || exists|
                i: int,
            |
                0 <= i < s.len() && (#[trigger] s[i]).seq == q,
        forall|k: [u8; 16]| #[trigger]
            put_all_table(t, s).by_key.contains_key(k) ==> t.by_key.contains_key(k) || exists|
                i: int,
            |
                0 <= i < s.len() && (#[trigger] s[i]).key == Some(k),
    decreases s.len(),
{
    if s.len() > 0 {
        let front = s.drop_last();
        let last = s.last();
        let n = front.len() as int;
        assert(s[n] == last);
        assert(forall|i: int| 0 <= i < n ==> (#[trigger] front[i]) == s[i]);
        assert(keys_agree(t, front));
        lemma_orders_held(t, front);
        let mid = put_all_table(t, front);
        let end = put_all_table(t, s);
        if is_duplicate(mid, last) {
            let k = last.key->0;
            if !t.by_key.contains_key(k) {
                let i = choose|i: int| 0 <= i < n && (#[trigger] front[i]).key == Some(k);
                assert(s[i].key != s[n].key);
            }
            assert(is_duplicate(t, s[n]));
            assert(t.by_seq.contains_key(last.seq));
        }
        assert forall|q: PerspectiveSeq| #[trigger] end.by_seq.contains_key(q)
            <==> t.by_seq.contains_key(q) || exists|i: int|
            0 <= i < s.len() && (#[trigger] s[i]).seq == q by {
            if end.by_seq.contains_key(q) && !t.by_seq.contains_key(q) {
                if mid.by_seq.contains_key(q) {
                    let i = choose|i: int| 0 <= i < n && (#[trigger] front[i]).seq == q;
                    assert(s[i].seq == q);
                } else {
                    assert(s[n].seq == q);
                }
            }
            if exists|i: int| 0 <= i < s.len() && (#[trigger] s[i]).seq == q {
                let i = choose|i: int| 0 <= i < s.len() && (#[trigger] s[i]).seq == q;
                if i < n {
                    assert(front[i].seq == q);
                    assert(mid.by_seq.contains_key(q));
                } else {
                    assert(mid.by_seq.contains_key(last.seq) || end.by_seq.contains_key(last.seq));
                }
            }
            if t.by_seq.contains_key(q) {
                assert(mid.by_seq.contains_key(q));
            }
        }
        assert forall|k: [u8; 16]| #[trigger] end.by_key.contains_key(k) implies
            t.by_key.contains_key(k) || exists|i: int|
            0 <= i < s.len() && (#[trigger] s[i]).key == Some(k) by {
            if mid.by_key.contains_key(k) {
                if !t.by_key.contains_key(k) {
                    let i = choose|i: int| 0 <= i < n && (#[trigger] front[i]).key == Some(k);
                    assert(s[i].key == Some(k));
                }
            } else {
                assert(s[n].key == Some(k));
            }
        }
    }
}

/// Law: what restoring counts is what it adds. Where no client key stands for
/// another intent, the number of intents in the store grows by the count.
pub proof fn restoring_counts_the_growth(t: IntentTable, s: Seq<IntentView>)
    requires
        t.by_seq.dom().finite(),
        ascending(s),
        keys_agree(t, s),
    ensures
        put_all_table(t, s).by_seq.dom().finite(),
        put_all_table(t, s).by_seq.dom().len() == t.by_seq.dom().len() + count_new(t, s),
    decreases s.len(),
{
    if s.len() > 0 {
        let front = s.drop_last();
        let last = s.last();
        let n = front.len() as int;
        assert(s[n] == last);
        assert(forall|i: int| 0 <= i < n ==> (#[trigger] front[i]) == s[i]);
        assert(ascending(front));
        assert(keys_agree(t, front));
        restoring_counts_the_growth(t, front);
        lemma_orders_held(t, front);
        lemma_orders_held(t, s);
        let mid = put_all_table(t, front);
        let end = put_all_table(t, s);
        if t.by_seq.contains_key(last.seq) {
            assert(mid.by_seq.contains_key(last.seq));
            assert(end.by_seq.dom() =~= mid.by_seq.dom());
        } else {
            if mid.by_seq.contains_key(last.seq) {
                let i = choose|i: int| 0 <= i < n && (#[trigger] front[i]).seq == last.seq;
                assert(s[i].seq.rank() < s[n].seq.rank());
            }
            assert(end.by_seq.contains_key(s[n].seq));
            assert(end.by_seq.dom() =~= mid.by_seq.dom().insert(last.seq));
        }
    }
}

/// Law: restoring the same intents a second time counts nothing.
pub proof fn restoring_again_counts_nothing(t: IntentTable, s: Seq<IntentView>)
    requires
        keys_agree(t, s),
    ensures
        count_new(put_all_table(t, s), s) == 0,
{
    lemma_orders_held(t, s);
    let after = put_all_table(t, s);
    assert forall|i: int| 0 <= i < s.len() implies after.by_seq.contains_key(
        (#[trigger] s[i]).seq,
    ) by {}
    lemma_none_new(after, s);
}

proof fn lemma_none_new(t: IntentTable, s: Seq<IntentView>)
    requires
        forall|i: int| 0 <= i < s.len() ==> t.by_seq.contains_key((#[trigger] s[i]).seq),
    ensures
        count_new(t, s) == 0,
    decreases s.len(),
{
    if s.len() > 0 {
        let front = s.drop_last();
        assert(s.last() == s[s.len() - 1]);
        assert forall|i: int| 0 <= i < front.len() implies t.by_seq.contains_key(
            (#[trigger] front[i]).seq,
        ) by {
            assert(front[i] == s[i]);
        }
        lemma_none_new(t, front);
    }
}

proof fn lemma_put_again_all(t: IntentTable, s: Seq<IntentView>, n: int)
    requires
        ascending(s),
        0 <= n <= s.len(),
    ensures
        put_all_table(put_all_table(t, s), s.take(n)) == put_all_table(t, s),
    decreases n,
{
    if n > 0 {
        let p = s.take(n);
        assert(p.drop_last() =~= s.take(n - 1));
        lemma_put_again_all(t, s, n - 1);
        lemma_put_again(t, s, n - 1);
    }
}

} // verus!
