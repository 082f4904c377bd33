//! What becomes of a write on its way into the log: where it is recorded, when it is taken
//! for a repetition, how it is found again after an election, and in which order it is
//! drained.

use vstd::prelude::*;

use crate::ids::NodeId;
use crate::intent::{
    empty_table, lists, lowest_seq, pruned_table, put_all_outcomes, put_all_table, put_in_part,
    put_outcome, put_table, removed_table, IntentTable, IntentView,
};
use crate::intent::{IntentError, PerspectiveSeq, PutOutcome};
use crate::intent_committer::{
    count_new, drained, gather_need, joined, keyless, pieces, pieces_cover_the_list, union_of,
    DRAIN_BATCH_CAP,
};
use crate::ordered_map::OrderedKey;
use crate::shard_committer::{last_by_node, peer_tables, recovered_as, views_held};
use crate::shard_laws::{reading_less, readings_are_ordered_by_parts};
use crate::supervisor::{
    change_of, earliest_ms, loop_next, may_drain, must_recover, observed, recoverable,
    recoverable_peers, wait_of, LeadershipChange, Supervisor, SupervisorAction, SupervisorEvent,
    SupervisorLoop, WaitStep,
};
use crate::time::HybridLogicalClock;

verus! {

// ---------------------------------------------------------------------------
// Recording intents
// ---------------------------------------------------------------------------

/// Law: an intent is a repetition exactly where its client key was recorded before. It is
/// then answered with the order of the first and changes nothing; any other intent
/// stands under its order afterwards, with its key, and nothing else changes.
pub proof fn intent_is_recorded_or_known(t: IntentTable, i: IntentView)
    ensures
        ({
            let next = put_table(t, i);
            match i.key {
                Some(k) if t.by_key.contains_key(k) => {
                    next == t && put_outcome(t, i) == PutOutcome::Duplicate(t.by_key[k])
                },
                _ => {
                    &&& put_outcome(t, i) == PutOutcome::Recorded
                    &&& next.by_seq.contains_key(i.seq) && next.by_seq[i.seq] == i
                    &&& forall|q: PerspectiveSeq|
                        q != i.seq ==> (#[trigger] next.by_seq.contains_key(q)
                            <==> t.by_seq.contains_key(q))
                    &&& forall|q: PerspectiveSeq|
                        q != i.seq && t.by_seq.contains_key(q) ==> #[trigger] next.by_seq[q]
                            == t.by_seq[q]
                    &&& i.key matches Some(k) ==> next.by_key.contains_key(k) && next.by_key[k]
                        == i.seq
                    &&& forall|k: [u8; 16]|
                        i.key != Some(k) ==> (#[trigger] next.by_key.contains_key(k)
                            <==> t.by_key.contains_key(k))
                    &&& forall|k: [u8; 16]|
                        i.key != Some(k) && t.by_key.contains_key(k) ==> #[trigger] next.by_key[k]
                            == t.by_key[k]
                },
            }
        }),
{
}

/// Law: a list is recorded one after the other: as its parts are, and each with its own
/// outcome.
pub proof fn list_is_recorded_part_by_part(t: IntentTable, a: Seq<IntentView>, b: Seq<IntentView>)
    ensures
        put_all_table(t, a + b) == put_all_table(put_all_table(t, a), b),
        put_all_outcomes(t, a + b) == put_all_outcomes(t, a) + put_all_outcomes(
            put_all_table(t, a),
            b,
        ),
        a.len() == 0 ==> put_all_table(t, a) == t && put_all_outcomes(t, a).len() == 0,
        a.len() == 1 ==> put_all_table(t, a) == put_table(t, a[0]) && put_all_outcomes(t, a)
            == seq![put_outcome(t, a[0])],
    decreases b.len(),
{
    if b.len() == 0 {
        assert(a + b =~= a);
        assert(put_all_outcomes(t, a) + Seq::<PutOutcome>::empty() =~= put_all_outcomes(t, a));
    } else {
        let f = b.drop_last();
        list_is_recorded_part_by_part(t, a, f);
        assert((a + b).drop_last() =~= a + f);
        assert((a + b).last() == b.last());
        assert(put_all_outcomes(t, a + b) =~= put_all_outcomes(t, a) + put_all_outcomes(
            put_all_table(t, a),
            b,
        ));
    }
    if a.len() == 1 {
        assert(a.drop_last() =~= Seq::<IntentView>::empty());
        assert(put_all_table(t, a.drop_last()) == t);
        assert(put_all_outcomes(t, a.drop_last()) == Seq::<PutOutcome>::empty());
        assert(put_all_outcomes(t, a) =~= seq![put_outcome(t, a[0])]);
    }
}

/// Law: a failed batch leaves the first intents of its list recorded, and no other.
pub proof fn failed_batch_leaves_a_prefix(t: IntentTable, s: Seq<IntentView>, after: IntentTable)
    requires
        put_in_part(t, s, after),
    ensures
        exists|n: int|
            0 <= n <= s.len() && #[trigger] put_all_table(
                t,
                s.subrange(0, n),
            ) == after,
{
    let n = choose|n: int| 0 <= n <= s.len() && after == put_all_table(t, #[trigger] s.take(n));
    assert(s.subrange(0, n) =~= s.take(n));
}

/// Law: a prune takes out the intents up to and including an order, and no others; a
/// removal takes out those of the orders named, and no others. The client keys that go
/// are those whose intent is not there any more.
pub proof fn only_what_is_done_is_taken_out(
    t: IntentTable,
    up_to: PerspectiveSeq,
    seqs: Seq<PerspectiveSeq>,
    q: PerspectiveSeq,
    k: [u8; 16],
)
    ensures
        ({
            let next = pruned_table(t, up_to);
            &&& next.by_seq.contains_key(q) <==> t.by_seq.contains_key(q) && reading_less(
                up_to.0,
                q.0,
            )
            &&& next.by_seq.contains_key(q) ==> next.by_seq[q] == t.by_seq[q]
            &&& next.by_key.contains_key(k) <==> t.by_key.contains_key(k)
                && next.by_seq.contains_key(t.by_key[k])
            &&& next.by_key.contains_key(k) ==> next.by_key[k] == t.by_key[k]
        }),
        ({
            let next = removed_table(t, seqs);
            &&& next.by_seq.contains_key(q) <==> t.by_seq.contains_key(q) && forall|i: int|
                0 <= i < seqs.len() ==> #[trigger] seqs[i] != q
            &&& next.by_seq.contains_key(q) ==> next.by_seq[q] == t.by_seq[q]
            &&& next.by_key.contains_key(k) <==> t.by_key.contains_key(k)
                && next.by_seq.contains_key(t.by_key[k])
            &&& next.by_key.contains_key(k) ==> next.by_key[k] == t.by_key[k]
        }),
{
    readings_are_ordered_by_parts(up_to.0, q.0);
    assert(up_to.rank() == crate::time::hlc_rank(up_to.0));
    assert(q.rank() == crate::time::hlc_rank(q.0));
    if !seqs.contains(q) {
        assert forall|i: int| 0 <= i < seqs.len() implies #[trigger] seqs[i] != q by {
            if seqs[i] == q {
                assert(seqs.contains(q));
            }
        }
    }
}

/// Law: what is pending is listed whole: every intent of the table, once, in ascending order
/// of clock readings; and the lowest order is that of the first.
pub proof fn pending_is_everything_in_order(
    s: Seq<IntentView>,
    t: IntentTable,
    o: Option<PerspectiveSeq>,
    q: PerspectiveSeq,
)
    requires
        lists(s, t),
    ensures
        forall|i: int, j: int|
            0 <= i < j < s.len() ==> reading_less(
                (#[trigger] s[i]).seq.0,
                (#[trigger] s[j]).seq.0,
            ),
        forall|i: int|
            0 <= i < s.len() ==> t.by_seq.contains_key((#[trigger] s[i]).seq) && s[i]
                == t.by_seq[s[i].seq],
        t.by_seq.contains_key(q) ==> exists|i: int|
            0 <= i < s.len() && #[trigger] s[i] == t.by_seq[q],
        lowest_seq(t, o) ==> (match o {
            Some(x) => s.len() > 0 && s[0].seq == x,
            None => s.len() == 0,
        }),
{
    assert forall|i: int, j: int| 0 <= i < j < s.len() implies reading_less(
        (#[trigger] s[i]).seq.0,
        (#[trigger] s[j]).seq.0,
    ) by {
        readings_are_ordered_by_parts(s[i].seq.0, s[j].seq.0);
        assert(s[i].seq.rank() < s[j].seq.rank());
    }
    if t.by_seq.contains_key(q) {
        let i = choose|i: int| 0 <= i < s.len() && (#[trigger] s[i]).seq == q;
        assert(s[i] == t.by_seq[q]);
    }
    if lowest_seq(t, o) {
        match o {
            Some(x) => {
                assert(t.by_seq.contains_key(x));
                let i = choose|i: int| 0 <= i < s.len() && (#[trigger] s[i]).seq == x;
                assert(t.by_seq.contains_key(s[0].seq));
                if i > 0 {
                    assert(s[0].seq.rank() < s[i].seq.rank());
                }
            },
            None => {
                if s.len() > 0 {
                    assert(t.by_seq.contains_key(s[0].seq));
                }
            },
        }
    }
}

// ---------------------------------------------------------------------------
// Draining
// ---------------------------------------------------------------------------

/// Law: a list is cut into pieces of a thousand, or of whatever a piece holds: piece after
/// piece it is the list, and every piece but the last is full.
pub proof fn every_piece_but_the_last_is_full<T>(s: Seq<T>, cap: int, i: int)
    requires
        cap > 0,
    ensures
        ({
            let p = pieces(s, cap);
            &&& s.len() > 0 ==> (p.len() - 1) * cap < s.len() <= p.len() * cap
            &&& s.len() == 0 ==> p.len() == 0
            &&& 0 <= i < p.len() ==> 0 <= i * cap < s.len() && p[i] == s.subrange(
                i * cap,
                if (i + 1) * cap <= s.len() {
                    (i + 1) * cap
                } else {
                    s.len() as int
                },
            )
        }),
        crate::intent_committer::DRAIN_BATCH_CAP == 1_000,
    decreases s.len(),
{
    let p = pieces(s, cap);
    if s.len() == 0 {
    } else if s.len() <= cap {
        assert((p.len() - 1) * cap == 0) by (nonlinear_arith)
            requires
                p.len() == 1,
        ;
        assert(p.len() * cap == cap) by (nonlinear_arith)
            requires
                p.len() == 1,
        ;
        if 0 <= i < p.len() {
            assert(i == 0);
            assert(i * cap == 0) by (nonlinear_arith)
                requires
                    i == 0,
            ;
            assert((i + 1) * cap == cap) by (nonlinear_arith)
                requires
                    i == 0,
            ;
            assert(s.subrange(0, s.len() as int) =~= s);
            if cap <= s.len() {
                assert(cap == s.len());
            }
        }
    } else {
        let rest = s.skip(cap);
        let r = pieces(rest, cap);
        every_piece_but_the_last_is_full(rest, cap, i - 1);
        assert(p.len() == r.len() + 1);
        assert((p.len() - 1) * cap == (r.len() - 1) * cap + cap) by (nonlinear_arith)
            requires
                p.len() == r.len() + 1,
        ;
        assert(p.len() * cap == r.len() * cap + cap) by (nonlinear_arith)
            requires
                p.len() == r.len() + 1,
        ;
        if 0 <= i < p.len() {
            assert((i - 1) * cap + cap == i * cap) by (nonlinear_arith);
            assert(i * cap + cap == (i + 1) * cap) by (nonlinear_arith);
            assert(((i - 1) + 1) * cap == i * cap);
            if i == 0 {
                assert(i * cap == 0) by (nonlinear_arith)
                    requires
                        i == 0,
                ;
                assert(p[0] =~= s.subrange(0, cap));
            } else {
                assert(p[i] == r[i - 1]);
                let end = if (i + 1) * cap <= s.len() {
                    (i + 1) * cap
                } else {
                    s.len() as int
                };
                assert(p[i] =~= s.subrange(i * cap, end));
            }
        }
    }
}

/// Law: a drain that succeeds hands over everything that is pending, in ascending order, in
/// batches of a thousand, after what was handed over before; and refuses nothing.
pub proof fn drain_hands_over_everything(
    t: IntentTable,
    readable: bool,
    batches: Seq<Seq<IntentView>>,
    refusals: Seq<IntentError>,
    n: usize,
    after: Seq<Seq<IntentView>>,
    refusals_after: Seq<IntentError>,
)
    requires
        drained(t, readable, batches, refusals, Ok(n), after, refusals_after),
    ensures
        refusals_after == refusals,
        after.len() >= batches.len(),
        after.take(batches.len() as int) == batches,
        ({
            let new = after.skip(batches.len() as int);
            &&& lists(joined(new), t)
            &&& joined(new).len() == n
            &&& forall|i: int| 0 <= i < new.len() ==> 1 <= (#[trigger] new[i]).len() <= 1_000
            &&& forall|i: int| 0 <= i < new.len() - 1 ==> (#[trigger] new[i]).len() == 1_000
        }),
{
    let s = choose|s: Seq<IntentView>| #[trigger]
        lists(s, t) && n == s.len() && after == batches + pieces(s, 1_000);
    let new = after.skip(batches.len() as int);
    assert(new =~= pieces(s, 1_000));
    assert(after.take(batches.len() as int) =~= batches);
    pieces_cover_the_list(s, 1_000);
    every_piece_but_the_last_is_full(s, 1_000, 0);
    assert forall|i: int| 0 <= i < new.len() - 1 implies (#[trigger] new[i]).len() == 1_000 by {
        every_piece_but_the_last_is_full(s, 1_000, i);
        assert(i + 1 <= new.len() - 1);
    }
}

/// Whether batches are the first of a list, all full, and not the whole of it.
pub open spec fn stops_within(s: Seq<IntentView>, new: Seq<Seq<IntentView>>) -> bool {
    &&& joined(new).len() < s.len()
    &&& joined(new) == s.take(joined(new).len() as int)
    &&& forall|i: int| 0 <= i < new.len() ==> (#[trigger] new[i]).len() == 1_000
}

/// Law: a drain that fails has handed over the first batches of what is pending, and stops at
/// the one that is refused; nothing is handed over out of order, and the refusal is the
/// answer. Where the store could not be read, nothing was handed over.
pub proof fn failed_drain_stops_in_order(
    t: IntentTable,
    readable: bool,
    batches: Seq<Seq<IntentView>>,
    refusals: Seq<IntentError>,
    e: IntentError,
    after: Seq<Seq<IntentView>>,
    refusals_after: Seq<IntentError>,
)
    requires
        drained(t, readable, batches, refusals, Err(e), after, refusals_after),
    ensures
        after.len() >= batches.len(),
        after.take(batches.len() as int) == batches,
        refusals_after == refusals ==> !readable && after == batches,
        refusals_after != refusals ==> refusals_after == refusals.push(e),
        refusals_after == refusals.push(e) ==> exists|s: Seq<IntentView>| #[trigger]
            lists(s, t) && stops_within(s, after.skip(batches.len() as int)),
{
    assert(after.take(batches.len() as int) =~= batches);
    if refusals_after == refusals.push(e) {
        assert(refusals_after.len() == refusals.len() + 1);
        let (s, k) = choose|s: Seq<IntentView>, k: int|
            {
                &&& #[trigger] lists(s, t)
                &&& 0 <= k < pieces(s, DRAIN_BATCH_CAP as int).len()
                &&& after == batches + #[trigger] pieces(s, DRAIN_BATCH_CAP as int).take(k)
            };
        let p = pieces(s, 1_000);
        let new = after.skip(batches.len() as int);
        assert(new =~= p.take(k));
        pieces_cover_the_list(s, 1_000);
        lemma_joined_take(p, k);
        assert(joined(new) =~= s.take(joined(new).len() as int));
        assert forall|i: int| 0 <= i < new.len() implies (#[trigger] new[i]).len() == 1_000 by {
            every_piece_but_the_last_is_full(s, 1_000, i);
            assert(new[i] == p[i]);
        }
        assert(lists(s, t) && stops_within(s, new));
    }
}

/// What the first lists of a list join to is a part of what all join to, and less where one
/// that is left out is not empty.
proof fn lemma_joined_take<T>(p: Seq<Seq<T>>, k: int)
    requires
        0 <= k < p.len(),
        forall|i: int| 0 <= i < p.len() ==> 1 <= (#[trigger] p[i]).len(),
    ensures
        joined(p.take(k)).len() < joined(p).len(),
        joined(p).take(joined(p.take(k)).len() as int) == joined(p.take(k)),
    decreases p.len(),
{
    let f = p.drop_last();
    assert(1 <= p[p.len() - 1].len());
    assert(joined(p) == joined(f) + p.last());
    if k == p.len() - 1 {
        assert(p.take(k) =~= f);
        assert(joined(p).take(joined(f).len() as int) =~= joined(f));
    } else {
        assert forall|i: int| 0 <= i < f.len() implies 1 <= (#[trigger] f[i]).len() by {
            assert(f[i] == p[i]);
        }
        lemma_joined_take(f, k);
        assert(f.take(k) =~= p.take(k));
        let n = joined(p.take(k)).len() as int;
        assert(joined(p).take(n) =~= joined(f).take(n));
    }
}

// ---------------------------------------------------------------------------
// Recovery
// ---------------------------------------------------------------------------

/// Law: a recovery needs one view more than there are voters that an answered write may be
/// missing on. Fewer than one copy, and more than there are voters, count as one and as
/// all.
pub proof fn recovery_needs_just_enough_views(voters: int, min_acks: int)
    ensures
        1 <= min_acks <= voters ==> gather_need(voters, min_acks) + min_acks == voters + 1,
        voters >= 1 && min_acks < 1 ==> gather_need(voters, min_acks) == voters,
        voters >= 1 && min_acks > voters ==> gather_need(voters, min_acks) == 1,
        voters < 1 ==> gather_need(voters, min_acks) == 1,
{
}

/// Law: the union of several stores holds an order exactly where one of them does, and holds
/// there what the first of them holds.
pub proof fn union_holds_what_any_holds(ts: Seq<IntentTable>, q: PerspectiveSeq)
    ensures
        union_of(ts).contains_key(q) <==> exists|i: int|
            0 <= i < ts.len() && (#[trigger] ts[i]).by_seq.contains_key(q),
        union_of(ts).contains_key(q) ==> exists|i: int|
            {
                &&& 0 <= i < ts.len()
                &&& (#[trigger] ts[i]).by_seq.contains_key(q)
                &&& union_of(ts)[q] == ts[i].by_seq[q]
                &&& forall|j: int| 0 <= j < i ==> !(#[trigger] ts[j]).by_seq.contains_key(q)
            },
    decreases ts.len(),
{
    if ts.len() > 0 {
        let f = ts.drop_last();
        union_holds_what_any_holds(f, q);
        let n = f.len() as int;
        if union_of(f).contains_key(q) {
            let i = choose|i: int|
                {
                    &&& 0 <= i < f.len()
                    &&& (#[trigger] f[i]).by_seq.contains_key(q)
                    &&& union_of(f)[q] == f[i].by_seq[q]
                    &&& forall|j: int| 0 <= j < i ==> !(#[trigger] f[j]).by_seq.contains_key(q)
                };
            assert(ts[i] == f[i]);
            assert forall|j: int| 0 <= j < i implies !(#[trigger] ts[j]).by_seq.contains_key(q) by {
                assert(f[j] == ts[j]);
            }
            assert(ts[i].by_seq.contains_key(q) && union_of(ts)[q] == ts[i].by_seq[q]);
        } else {
            assert forall|j: int| 0 <= j < n implies !(#[trigger] ts[j]).by_seq.contains_key(q) by {
                assert(f[j] == ts[j]);
            }
            if ts.last().by_seq.contains_key(q) {
                assert(ts[n].by_seq.contains_key(q));
            }
        }
    }
}

/// Law: of a peer that is listed more than once, the last list counts.
pub proof fn last_list_of_a_peer_counts(s: Seq<(NodeId, Seq<IntentView>)>, n: NodeId)
    ensures
        last_by_node(s).contains_key(n) <==> exists|i: int|
            0 <= i < s.len() && (#[trigger] s[i]).0 == n,
        last_by_node(s).contains_key(n) ==> exists|i: int|
            {
                &&& 0 <= i < s.len()
                &&& (#[trigger] s[i]).0 == n
                &&& s[i].1 == last_by_node(s)[n]
                &&& forall|j: int| i < j < s.len() ==> (#[trigger] s[j]).0 != n
            },
    decreases s.len(),
{
    if s.len() > 0 {
        let f = s.drop_last();
        last_list_of_a_peer_counts(f, n);
        if s.last().0 == n {
            assert(s[s.len() - 1].0 == n);
        } else {
            if last_by_node(f).contains_key(n) {
                let i = choose|i: int|
                    {
                        &&& 0 <= i < f.len()
                        &&& (#[trigger] f[i]).0 == n
                        &&& f[i].1 == last_by_node(f)[n]
                        &&& forall|j: int| i < j < f.len() ==> (#[trigger] f[j]).0 != n
                    };
                assert(s[i] == f[i]);
                assert forall|j: int| i < j < s.len() implies (#[trigger] s[j]).0 != n by {
                    if j < f.len() {
                        assert(s[j] == f[j]);
                    }
                }
            }
            if exists|i: int| 0 <= i < s.len() && (#[trigger] s[i]).0 == n {
                let i = choose|i: int| 0 <= i < s.len() && (#[trigger] s[i]).0 == n;
                assert(f[i] == s[i]);
            }
        }
    }
}

/// Recording a list adds no order but its own, and takes none out.
proof fn lemma_recorded_orders(t: IntentTable, s: Seq<IntentView>, q: PerspectiveSeq)
    ensures
        t.by_seq.contains_key(q) ==> put_all_table(t, s).by_seq.contains_key(q),
        put_all_table(t, s).by_seq.contains_key(q) ==> (t.by_seq.contains_key(q)
            && put_all_table(t, s).by_seq[q] == t.by_seq[q]) || exists|i: int|
            0 <= i < s.len() && (#[trigger] s[i]).seq == q && put_all_table(t, s).by_seq[q] == s[i],
    decreases s.len(),
{
    if s.len() > 0 {
        let f = s.drop_last();
        lemma_recorded_orders(t, f, q);
        let mid = put_all_table(t, f);
        let end = put_all_table(t, s);
        if end.by_seq.contains_key(q) {
            if mid.by_seq.contains_key(q) && end.by_seq[q] == mid.by_seq[q] {
                if !(t.by_seq.contains_key(q) && mid.by_seq[q] == t.by_seq[q]) {
                    let i = choose|i: int|
                        0 <= i < f.len() && (#[trigger] f[i]).seq == q && mid.by_seq[q] == f[i];
                    assert(s[i] == f[i]);
                }
            } else {
                assert(s[s.len() - 1].seq == q && end.by_seq[q] == s[s.len() - 1]);
            }
        }
    }
}

/// Law: a recovery loses nothing and invents nothing. What the store held it still holds, as
/// it held it; every intent without a client key in the last list of a peer is there
/// under its order; and whatever is there was in the store or in the last list of a
/// peer. The answer is how many orders of the union were new.
pub proof fn recovery_loses_and_invents_nothing(
    before: IntentTable,
    after: IntentTable,
    s: Seq<(NodeId, Seq<IntentView>)>,
    nodes: Seq<NodeId>,
    union: Seq<IntentView>,
    n: usize,
    q: PerspectiveSeq,
)
    requires
        recovered_as(before, after, s, nodes, union, n),
    ensures
        before.by_seq.contains_key(q) ==> after.by_seq.contains_key(q) && after.by_seq[q]
            == before.by_seq[q],
        after.by_seq.contains_key(q) && !before.by_seq.contains_key(q) ==> exists|p: NodeId, i: int|
            {
                &&& last_by_node(s).contains_key(p)
                &&& 0 <= i < last_by_node(s)[p].len()
                &&& (#[trigger] last_by_node(s)[p][i]).seq == q
                &&& after.by_seq[q] == last_by_node(s)[p][i]
            },
        n == union.filter(|x: IntentView| !before.by_seq.contains_key(x.seq)).len(),
        forall|i: int| 0 <= i < union.len() && (#[trigger] union[i]).key is None
            ==> after.by_seq.contains_key(union[i].seq) && after.by_seq[union[i].seq] == union[i],
{
    let ts = seq![before] + peer_tables(s, nodes);
    let u = keyless(union_of(ts));
    lemma_recorded_orders(before, union, q);
    union_holds_what_any_holds(ts, q);
    lemma_count_new(before, union);
    if before.by_seq.contains_key(q) {
        assert(ts[0] == before);
        assert(union_of(ts).contains_key(q));
        let i = choose|i: int|
            {
                &&& 0 <= i < ts.len()
                &&& (#[trigger] ts[i]).by_seq.contains_key(q)
                &&& union_of(ts)[q] == ts[i].by_seq[q]
                &&& forall|j: int| 0 <= j < i ==> !(#[trigger] ts[j]).by_seq.contains_key(q)
            };
        assert(!(0 < i)) by {
            if 0 < i {
                assert(!ts[0].by_seq.contains_key(q));
            }
        }
        if after.by_seq[q] != before.by_seq[q] {
            let k = choose|k: int|
                0 <= k < union.len() && (#[trigger] union[k]).seq == q && after.by_seq[q]
                    == union[k];
            assert(u.by_seq[union[k].seq] == union[k]);
        }
    } else if after.by_seq.contains_key(q) {
        let k = choose|k: int|
            0 <= k < union.len() && (#[trigger] union[k]).seq == q && after.by_seq[q] == union[k];
        assert(u.by_seq.contains_key(union[k].seq) && u.by_seq[union[k].seq] == union[k]);
        let i = choose|i: int|
            {
                &&& 0 <= i < ts.len()
                &&& (#[trigger] ts[i]).by_seq.contains_key(q)
                &&& union_of(ts)[q] == ts[i].by_seq[q]
                &&& forall|j: int| 0 <= j < i ==> !(#[trigger] ts[j]).by_seq.contains_key(q)
            };
        assert(i > 0);
        let p = nodes[i - 1];
        let list = last_by_node(s)[p];
        assert(ts[i] == put_all_table(empty_table(), list));
        lemma_recorded_orders(empty_table(), list, q);
        assert(last_by_node(s).contains_key(p)) by {
            assert(nodes[i - 1] == p);
        }
        let m = choose|m: int|
            0 <= m < list.len() && (#[trigger] list[m]).seq == q && ts[i].by_seq[q] == list[m];
        assert(last_by_node(s)[p][m].seq == q);
    }
    assert forall|i: int| 0 <= i < union.len() && (#[trigger] union[i]).key is None implies
        after.by_seq.contains_key(union[i].seq) && after.by_seq[union[i].seq] == union[i] by {
        crate::intent_committer::lemma_recorded(before, union, i);
    }
}

proof fn lemma_count_new(t: IntentTable, s: Seq<IntentView>)
    ensures
        count_new(t, s) == s.filter(|x: IntentView| !t.by_seq.contains_key(x.seq)).len(),
    decreases s.len(),
{
    reveal(Seq::filter);
    if s.len() > 0 {
        lemma_count_new(t, s.drop_last());
    }
}

/// Law: every intent without a client key that a peer listed last stands in the store after
/// a recovery, under its order.
pub proof fn listed_intents_are_recovered(
    before: IntentTable,
    after: IntentTable,
    s: Seq<(NodeId, Seq<IntentView>)>,
    nodes: Seq<NodeId>,
    union: Seq<IntentView>,
    n: usize,
    p: NodeId,
    i: int,
)
    requires
        recovered_as(before, after, s, nodes, union, n),
        last_by_node(s).contains_key(p),
        0 <= i < last_by_node(s)[p].len(),
        last_by_node(s)[p][i].key is None,
        forall|q: PerspectiveSeq| #[trigger]
            union_of(seq![before] + peer_tables(s, nodes)).contains_key(q) ==> union_of(
                seq![before] + peer_tables(s, nodes),
            )[q].key is None,
    ensures
        after.by_seq.contains_key(last_by_node(s)[p][i].seq),
{
    let ts = seq![before] + peer_tables(s, nodes);
    let list = last_by_node(s)[p];
    let q = list[i].seq;
    let k = choose|k: int| 0 <= k < nodes.len() && #[trigger] nodes[k] == p;
    assert(ts[k + 1] == put_all_table(empty_table(), list));
    lemma_keyless_recorded(empty_table(), list, i);
    union_holds_what_any_holds(ts, q);
    assert(ts[k + 1].by_seq.contains_key(q));
    let u = keyless(union_of(ts));
    assert(u.by_seq.contains_key(q));
    let m = choose|m: int| 0 <= m < union.len() && (#[trigger] union[m]).seq == q;
    assert(u.by_seq[union[m].seq] == union[m]);
    recovery_loses_and_invents_nothing(before, after, s, nodes, union, n, q);
}

/// An intent without a client key is there once its list is recorded.
proof fn lemma_keyless_recorded(t: IntentTable, s: Seq<IntentView>, i: int)
    requires
        0 <= i < s.len(),
        s[i].key is None,
    ensures
        put_all_table(t, s).by_seq.contains_key(s[i].seq),
    decreases s.len(),
{
    let f = s.drop_last();
    if i < f.len() {
        assert(f[i] == s[i]);
        lemma_keyless_recorded(t, f, i);
    }
}

/// Law: of what a peer lists, exactly that is recovered which the replica has not applied, and
/// which, where positions have left the window, is not older than every entry of the
/// window by more than a millisecond. The rest keeps its order.
pub proof fn recovery_leaves_out_what_is_settled(
    s: Seq<IntentView>,
    recent: Seq<HybridLogicalClock>,
    cutoff: u64,
)
    ensures
        recoverable(s, recent, cutoff) == s.filter(
            |x: IntentView|
                !recent.contains(x.seq.0) && !(cutoff > 0 && recent.len() > 0 && forall|j: int|
                    0 <= j < recent.len() ==> x.seq.0.physical_ms + 1 < (
                    #[trigger] recent[j]).physical_ms),
        ),
    decreases s.len(),
{
    reveal(Seq::filter);
    if s.len() > 0 {
        recovery_leaves_out_what_is_settled(s.drop_last(), recent, cutoff);
        if recent.len() > 0 {
            lemma_earliest(recent);
            let m = choose|m: int|
                0 <= m < recent.len() && (#[trigger] recent[m]).physical_ms == earliest_ms(recent);
            assert(recent[m].physical_ms == earliest_ms(recent));
        }
    }
}

proof fn lemma_earliest(recent: Seq<HybridLogicalClock>)
    requires
        recent.len() > 0,
    ensures
        forall|j: int|
            0 <= j < recent.len() ==> earliest_ms(recent) <= (#[trigger] recent[j]).physical_ms,
        exists|j: int| 0 <= j < recent.len() && (#[trigger] recent[j]).physical_ms == earliest_ms(
            recent,
        ),
    decreases recent.len(),
{
    if recent.len() > 1 {
        let f = recent.drop_last();
        lemma_earliest(f);
        let k = choose|k: int|
            0 <= k < f.len() && (#[trigger] f[k]).physical_ms == earliest_ms(f);
        assert(recent[k] == f[k]);
        assert(recent[recent.len() - 1] == recent.last());
        assert forall|j: int| 0 <= j < recent.len() implies earliest_ms(recent) <= (
        #[trigger] recent[j]).physical_ms by {
            if j < f.len() {
                assert(f[j] == recent[j]);
            }
        }
    } else {
        assert(recent[0].physical_ms == earliest_ms(recent));
    }
}

/// Law: the lists of the peers are filtered one by one, and stay theirs.
pub proof fn lists_stay_with_their_peers(
    s: Seq<(NodeId, Seq<IntentView>)>,
    recent: Seq<HybridLogicalClock>,
    cutoff: u64,
    i: int,
)
    requires
        0 <= i < s.len(),
    ensures
        recoverable_peers(s, recent, cutoff).len() == s.len(),
        recoverable_peers(s, recent, cutoff)[i].0 == s[i].0,
        recoverable_peers(s, recent, cutoff)[i].1 == recoverable(s[i].1, recent, cutoff),
{
}

/// Law: a new leader waits until everything committed is applied, and for no longer than five
/// seconds.
pub proof fn new_leader_waits_five_seconds(applied: u64, committed: u64, waited_ms: u64)
    ensures
        wait_of(applied, committed, waited_ms) == WaitStep::Current <==> applied >= committed,
        wait_of(applied, committed, waited_ms) == WaitStep::GaveUp <==> applied < committed
            && waited_ms >= 5_000,
        wait_of(applied, committed, waited_ms) == WaitStep::Poll <==> applied < committed
            && waited_ms < 5_000,
        crate::supervisor::COMMITTER_INTERVAL_MS == 50,
        crate::supervisor::POST_PROMOTION_POLL_INTERVAL_MS == 50,
{
}

/// Law: a tick prunes and then looks, whatever it sees. A node that is not the leader sleeps
/// after that; one that became the leader waits for its replica and then recovers, in
/// this tick; a leader that has recovered drains. A stop is obeyed at the end of a tick,
/// and nothing else ends the ticks.
pub proof fn tick_takes_its_steps_in_order(s: SupervisorLoop, leads: bool)
    ensures
        s.action == SupervisorAction::Prune ==> loop_next(s, SupervisorEvent::Pruned).action
            == SupervisorAction::Look && loop_next(s, SupervisorEvent::Pruned).supervisor
            == s.supervisor,
        s.action == SupervisorAction::Look ==> {
            let next = loop_next(s, SupervisorEvent::Looked(leads));
            &&& next.supervisor.was_leader == leads
            &&& next.supervisor.recovered_this_term ==> s.supervisor.recovered_this_term
            &&& !leads ==> next.action == SupervisorAction::Sleep
                && next.supervisor.recovered_this_term == s.supervisor.recovered_this_term
            &&& leads && !s.supervisor.was_leader ==> next.action == SupervisorAction::CatchUp
                && !next.supervisor.recovered_this_term
            &&& leads && s.supervisor.was_leader ==> next.supervisor == s.supervisor
                && next.action == (if s.supervisor.recovered_this_term {
                SupervisorAction::Drain
            } else {
                SupervisorAction::Recover
            })
        },
        s.action == SupervisorAction::CatchUp && s.supervisor.was_leader
            && !s.supervisor.recovered_this_term ==> loop_next(s, SupervisorEvent::CaughtUp).action
            == SupervisorAction::Recover,
        s.action == SupervisorAction::Recover && s.supervisor.was_leader ==> {
            let yes = loop_next(s, SupervisorEvent::Recovery(true));
            let no = loop_next(s, SupervisorEvent::Recovery(false));
            &&& yes.action == SupervisorAction::Drain && yes.supervisor.recovered_this_term
            &&& no.action == SupervisorAction::Sleep && no.supervisor == s.supervisor
        },
        s.action == SupervisorAction::Drain ==> loop_next(s, SupervisorEvent::Drained).action
            == SupervisorAction::Sleep && loop_next(s, SupervisorEvent::Drained).supervisor
            == s.supervisor,
        s.action == SupervisorAction::Sleep ==> loop_next(s, SupervisorEvent::Woke(false)).action
            == SupervisorAction::Prune && loop_next(s, SupervisorEvent::Woke(true)).action
            == SupervisorAction::Stop,
{
}

/// Law: a node drains exactly where it was the leader at its last look and has recovered
/// since it became the leader.
pub proof fn leader_that_recovered_drains(s: Supervisor, leads: bool)
    ensures
        may_drain(s) <==> s.was_leader && s.recovered_this_term,
        observed(s, leads).was_leader == leads,
        leads && !s.was_leader ==> !observed(s, leads).recovered_this_term,
        !(leads && !s.was_leader) ==> observed(s, leads).recovered_this_term
            == s.recovered_this_term,
{
}

/// Law: lists are joined one after the other, with nothing between them.
pub proof fn joined_lists_are_flat<T>(s: Seq<Seq<T>>)
    ensures
        joined(s) == s.flatten(),
    decreases s.len(),
{
    s.lemma_flatten_and_flatten_alt_are_equivalent();
    if s.len() > 0 {
        joined_lists_are_flat(s.drop_last());
        s.drop_last().lemma_flatten_and_flatten_alt_are_equivalent();
    }
}

/// Law: leadership changes exactly where it was not so before; a node that became the leader
/// has to recover, and one that recovered may drain.
pub proof fn leadership_changes_where_it_was_not_so(s: Supervisor, leads: bool)
    ensures
        change_of(s.was_leader, leads) == LeadershipChange::Unchanged <==> leads == s.was_leader,
        change_of(s.was_leader, leads) == LeadershipChange::Became ==> leads,
        change_of(s.was_leader, leads) == LeadershipChange::Lost ==> !leads,
        change_of(s.was_leader, leads) == LeadershipChange::Became ==> must_recover(
            observed(s, leads),
        ),
        must_recover(s) ==> !may_drain(s),
        s.was_leader ==> must_recover(s) || may_drain(s),
        !s.was_leader ==> !must_recover(s) && !may_drain(s),
{
}

/// Law: a leader counts its own view and one of each distinct peer, however many lists a peer
/// sent.
pub proof fn every_peer_is_one_view(s: Seq<(NodeId, Seq<IntentView>)>)
    ensures
        views_held(s) == 1 + s.map_values(|p: (NodeId, Seq<IntentView>)| p.0).to_set().len(),
{
    let f = |p: (NodeId, Seq<IntentView>)| p.0;
    let nodes = s.map_values(f).to_set();
    assert forall|n: NodeId| last_by_node(s).dom().contains(n) <==> nodes.contains(n) by {
        last_list_of_a_peer_counts(s, n);
        if nodes.contains(n) {
            let i = choose|i: int| 0 <= i < s.len() && s.map_values(f)[i] == n;
            assert(s[i].0 == n);
        }
        if last_by_node(s).contains_key(n) {
            let i = choose|i: int| 0 <= i < s.len() && (#[trigger] s[i]).0 == n;
            assert(s.map_values(f)[i] == n);
        }
    }
    assert(last_by_node(s).dom() =~= nodes);
}

} // verus!
