//! What the drain of a leader promises: what it submits and what it leaves in flight, how
//! it reads its backlog, and what an intent is incorporated as.

use vstd::prelude::*;

use crate::command::ItemView;
use crate::committer_pipeline::{
    backlog_grew, backlog_trend, depth_of, eligible, growing, intent_item, intent_items, lag_of,
    oldest_ms, observations_are_growing, round_finished, round_started, seqs_of, steps,
    trend_observed, warning_due, DrainStep, PipelineView,
};
use crate::intent::{IntentView, PerspectiveSeq};
use crate::raft_intent_sink::logged;
use crate::settings::decimal_number;

verus! {

/// Law: an intent is incorporated as what it holds: its order, and of its append the
/// tenant, operation, key, chunks, payload and marks, with the chunks and payloads that
/// came with it.
pub proof fn item_holds_its_intent(s: Seq<IntentView>, i: int)
    requires
        0 <= i < s.len(),
    ensures
        ({
            let item = intent_items(s)[i];
            let asked = s[i].append.delta;
            &&& intent_items(s).len() == s.len()
            &&& item.seq == s[i].seq.0
            &&& item.draft.tenant == asked.tenant_id
            &&& crate::delta::op_of_code(item.draft.operation) == asked.operation
            &&& item.draft.hashed_key == asked.hashed_key
            &&& item.draft.chunk_refs == asked.chunk_refs
            &&& item.draft.payload == asked.payload
            &&& item.draft.has_inline_data == asked.has_inline_data
            &&& item.draft.timestamp is None
            &&& item.new_chunks == s[i].append.new_chunks
            &&& item.inline_payloads == s[i].append.inline_payloads
        }),
{
    crate::delta::op_code_round_trip(s[i].append.delta.operation);
    assert(intent_items(s)[i] == intent_item(s[i]));
}

/// Law: every batch is logged that holds anything, in order, as the items of its intents.
pub proof fn batches_are_logged_in_order(batches: Seq<Seq<IntentView>>)
    ensures
        logged(batches) == batches.filter(
            |b: Seq<IntentView>| b != Seq::<IntentView>::empty(),
        ).map_values(|b: Seq<IntentView>| intent_items(b)),
    decreases batches.len(),
{
    reveal(Seq::filter);
    let f = |b: Seq<IntentView>| b != Seq::<IntentView>::empty();
    let g = |b: Seq<IntentView>| intent_items(b);
    if batches.len() > 0 {
        batches_are_logged_in_order(batches.drop_last());
        let front = batches.drop_last().filter(f);
        if batches.last().len() == 0 {
            assert(batches.last() =~= Seq::<IntentView>::empty());
        } else {
            assert(front.push(batches.last()).map_values(g) =~= front.map_values(g).push(
                g(batches.last()),
            ));
        }
    } else {
        assert(batches.filter(f).map_values(g) =~= Seq::<Seq<ItemView>>::empty());
    }
}

/// Law: a drain submits what is pending and not in flight, all of it, in order.
pub proof fn drain_leaves_out_what_is_in_flight(
    s: Seq<IntentView>,
    in_flight: Set<PerspectiveSeq>,
)
    ensures
        eligible(s, in_flight) == s.filter(|i: IntentView| !in_flight.contains(i.seq)),
    decreases s.len(),
{
    reveal(Seq::filter);
    if s.len() > 0 {
        drain_leaves_out_what_is_in_flight(s.drop_last(), in_flight);
    }
}

/// Whether the orders in flight are those of the rounds, each in one round only.
pub open spec fn tracks(p: PipelineView) -> bool {
    &&& forall|q: PerspectiveSeq| #[trigger]
        p.seqs.contains(q) <==> exists|i: int|
            0 <= i < p.rounds.len() && #[trigger] p.rounds[i].contains(q)
    &&& forall|i: int, j: int, q: PerspectiveSeq|
        0 <= i < j < p.rounds.len() && #[trigger] p.rounds[i].contains(q)
            ==> !#[trigger] p.rounds[j].contains(q)
}

/// Law: the orders in flight are always those of the rounds in flight: a round that starts
/// with orders that were not in flight adds them behind the others, and a round that is
/// done, the oldest one, takes its own with it. Depth and trend stay.
pub proof fn orders_in_flight_are_those_of_the_rounds(
    p: PipelineView,
    new: Seq<PerspectiveSeq>,
    q: PerspectiveSeq,
)
    requires
        tracks(p),
        forall|i: int| 0 <= i < new.len() ==> !p.seqs.contains(#[trigger] new[i]),
    ensures
        tracks(round_started(p, new)),
        round_started(p, new).rounds.len() == p.rounds.len() + 1,
        round_started(p, new).rounds.last() == new,
        round_started(p, new).rounds.drop_last() == p.rounds,
        round_started(p, new).seqs.contains(q) <==> p.seqs.contains(q) || new.contains(q),
        round_started(p, new).depth == p.depth && round_started(p, new).trend == p.trend,
        p.rounds.len() > 0 ==> tracks(round_finished(p)) && seq![p.rounds[0]] + round_finished(
            p,
        ).rounds == p.rounds,
        p.rounds.len() == 0 ==> round_finished(p) == p,
        round_finished(p).depth == p.depth && round_finished(p).trend == p.trend,
{
    let n = round_started(p, new);
    assert forall|q: PerspectiveSeq| #[trigger] n.seqs.contains(q) <==> exists|i: int|
        0 <= i < n.rounds.len() && #[trigger] n.rounds[i].contains(q) by {
        if p.seqs.contains(q) {
            let i = choose|i: int| 0 <= i < p.rounds.len() && #[trigger] p.rounds[i].contains(q);
            assert(n.rounds[i].contains(q));
        }
        if new.contains(q) {
            assert(n.rounds[p.rounds.len() as int].contains(q));
        }
        if exists|i: int| 0 <= i < n.rounds.len() && #[trigger] n.rounds[i].contains(q) {
            let i = choose|i: int| 0 <= i < n.rounds.len() && #[trigger] n.rounds[i].contains(q);
            if i < p.rounds.len() {
                assert(p.rounds[i].contains(q));
            }
        }
    }
    assert forall|i: int, j: int, q: PerspectiveSeq|
        0 <= i < j < n.rounds.len()
            && #[trigger] n.rounds[i].contains(q) implies !#[trigger] n.rounds[j].contains(q) by {
        assert(p.rounds[i].contains(q));
        assert(p.seqs.contains(q));
        if j < p.rounds.len() {
            assert(p.rounds[j] == n.rounds[j]);
        } else if new.contains(q) {
            let k = choose|k: int| 0 <= k < new.len() && new[k] == q;
            assert(!p.seqs.contains(new[k]));
        }
    }
    assert(n.rounds.drop_last() =~= p.rounds);
    if p.rounds.len() > 0 {
        let m = round_finished(p);
        assert forall|q: PerspectiveSeq| #[trigger] m.seqs.contains(q) <==> exists|i: int|
            0 <= i < m.rounds.len() && #[trigger] m.rounds[i].contains(q) by {
            if m.seqs.contains(q) {
                assert(p.seqs.contains(q) && !p.rounds[0].contains(q));
                let i = choose|i: int|
                    0 <= i < p.rounds.len() && #[trigger] p.rounds[i].contains(q);
                assert(m.rounds[i - 1] == p.rounds[i]);
            }
            if exists|i: int| 0 <= i < m.rounds.len() && #[trigger] m.rounds[i].contains(q) {
                let i = choose|i: int|
                    0 <= i < m.rounds.len() && #[trigger] m.rounds[i].contains(q);
                assert(p.rounds[i + 1].contains(q));
                assert(p.seqs.contains(q));
                if p.rounds[0].contains(q) {
                    assert(!p.rounds[i + 1].contains(q));
                }
            }
        }
        assert forall|i: int, j: int, q: PerspectiveSeq|
            0 <= i < j < m.rounds.len()
                && #[trigger] m.rounds[i].contains(q) implies !#[trigger] m.rounds[j].contains(
            q,
        ) by {
            assert(p.rounds[i + 1].contains(q));
            assert(p.rounds[j + 1] == m.rounds[j]);
        }
        assert(seq![p.rounds[0]] + m.rounds =~= p.rounds);
    }
}

/// Law: the orders of a list are the orders of its intents, in order.
pub proof fn orders_of_a_list(s: Seq<IntentView>)
    ensures
        seqs_of(s) == s.map_values(|i: IntentView| i.seq),
{
    assert(seqs_of(s) =~= s.map_values(|i: IntentView| i.seq));
}

/// The age of an intent, between nothing and what the gauge can show.
pub open spec fn age_shown(i: IntentView, now_ms: u64) -> int {
    let age = now_ms - i.seq.0.physical_ms;
    if age < 0 {
        0
    } else if age > 0xffff_ffff {
        0xffff_ffff
    } else {
        age
    }
}

/// Law: the lag is the age of the oldest pending intent; without any it is nothing.
pub proof fn lag_is_the_greatest_age(s: Seq<IntentView>, now_ms: u64)
    ensures
        s.len() == 0 ==> lag_of(s, now_ms) == 0,
        s.len() > 0 ==> exists|i: int|
            0 <= i < s.len() && #[trigger] age_shown(s[i], now_ms) == lag_of(s, now_ms),
        forall|i: int| 0 <= i < s.len() ==> #[trigger] age_shown(s[i], now_ms) <= lag_of(s, now_ms),
{
    lemma_oldest(s);
    if s.len() > 0 {
        let i = choose|i: int|
            0 <= i < s.len() && oldest_ms(s) == Some((#[trigger] s[i]).seq.0.physical_ms);
        assert(age_shown(s[i], now_ms) == lag_of(s, now_ms));
    }
}

proof fn lemma_oldest(s: Seq<IntentView>)
    ensures
        s.len() == 0 ==> oldest_ms(s) is None,
        s.len() > 0 ==> exists|i: int|
            0 <= i < s.len() && oldest_ms(s) == Some((#[trigger] s[i]).seq.0.physical_ms),
        forall|i: int|
            0 <= i < s.len() ==> oldest_ms(s)->Some_0 <= (#[trigger] s[i]).seq.0.physical_ms,
    decreases s.len(),
{
    if s.len() > 0 {
        let f = s.drop_last();
        lemma_oldest(f);
        assert forall|i: int| 0 <= i < s.len() implies oldest_ms(s)->Some_0 <= (
        #[trigger] s[i]).seq.0.physical_ms by {
            if i < f.len() {
                assert(f[i] == s[i]);
            }
        }
        if f.len() > 0 {
            let k = choose|k: int|
                0 <= k < f.len() && oldest_ms(f) == Some((#[trigger] f[k]).seq.0.physical_ms);
            assert(s[k] == f[k]);
        }
        assert(s[s.len() - 1] == s.last());
    }
}

/// The observations after a run of backlogs.
pub open spec fn trend_of(start: Seq<usize>, h: Seq<usize>) -> Seq<usize>
    decreases h.len(),
{
    if h.len() == 0 {
        start
    } else {
        backlog_trend(trend_of(start, h.drop_last()), h.last())
    }
}

/// What a detector holds is the end of what it saw: strictly growing, each more than a
/// batch, and fewer than make a signal.
proof fn lemma_trend_is_the_rising_end(h: Seq<usize>)
    ensures
        ({
            let t = trend_of(Seq::empty(), h);
            &&& t.len() <= h.len()
            &&& t == h.skip(h.len() - t.len())
            &&& growing(t)
            &&& t.len() < 10
            &&& forall|i: int| 0 <= i < t.len() ==> (#[trigger] t[i]) > 1_000
        }),
    decreases h.len(),
{
    let t = trend_of(Seq::empty(), h);
    if h.len() > 0 {
        let f = h.drop_last();
        lemma_trend_is_the_rising_end(f);
        let u = trend_of(Seq::empty(), f);
        let w = trend_observed(u, h.last());
        observations_are_growing(u, h.last());
        assert forall|i: int| 0 <= i < t.len() implies (#[trigger] t[i]) > 1_000 by {
            if t.len() > 1 {
                assert(t == u.push(h.last()));
                if i < u.len() {
                    assert(t[i] == u[i]);
                }
            }
        }
        assert forall|i: int| 0 <= i < t.len() implies (#[trigger] t[i]) == h[h.len() - t.len()
            + i] by {
            if i < t.len() - 1 {
                assert(t[i] == u[i]);
                assert(u[i] == f.skip(f.len() - u.len())[i]);
            }
        }
        assert(t =~= h.skip(h.len() - t.len()));
    } else {
        assert(t =~= h.skip(h.len() - t.len()));
    }
}

/// Law: a signal means growth: the last ten backlogs, the new one included, each were more
/// than a batch, and each more than the one before.
pub proof fn signal_means_ten_growing_backlogs(h: Seq<usize>, backlog: usize)
    requires
        backlog_grew(trend_of(Seq::empty(), h), backlog),
    ensures
        ({
            let all = h.push(backlog);
            &&& all.len() >= 10
            &&& growing(all.skip(all.len() - 10))
            &&& forall|i: int| all.len() - 10 <= i < all.len() ==> (#[trigger] all[i]) > 1_000
        }),
{
    lemma_trend_is_the_rising_end(h);
    let u = trend_of(Seq::empty(), h);
    let w = trend_observed(u, backlog);
    let all = h.push(backlog);
    observations_are_growing(u, backlog);
    assert(w == u.push(backlog));
    assert(all.skip(all.len() - 10) =~= w) by {
        assert forall|i: int| 0 <= i < 9 implies #[trigger] u[i] == h[h.len() - 9 + i] by {
            assert(u[i] == h.skip(h.len() - u.len())[i]);
        }
    }
    assert forall|i: int| all.len() - 10 <= i < all.len() implies (#[trigger] all[i]) > 1_000 by {
        let k = i - (all.len() - 10);
        assert(all.skip(all.len() - 10)[k] == w[k]);
        if k < 9 {
            assert(w[k] == u[k]);
        }
    }
}

/// Law: ten growing backlogs of more than a batch each are signalled, at the tenth and not
/// before.
pub proof fn ten_growing_backlogs_are_signalled(h: Seq<usize>)
    requires
        0 < h.len() <= 10,
        growing(h),
        forall|i: int| 0 <= i < h.len() ==> (#[trigger] h[i]) > 1_000,
    ensures
        trend_of(Seq::empty(), h.drop_last()) == h.drop_last(),
        backlog_grew(trend_of(Seq::empty(), h.drop_last()), h.last()) <==> h.len() == 10,
    decreases h.len(),
{
    let f = h.drop_last();
    if f.len() > 0 {
        assert(growing(f)) by {
            assert forall|i: int, j: int| 0 <= i < j < f.len() implies (#[trigger] f[i]) < (
            #[trigger] f[j]) by {
                assert(h[i] < h[j]);
            }
        }
        assert forall|i: int| 0 <= i < f.len() implies (#[trigger] f[i]) > 1_000 by {
            assert(f[i] == h[i]);
        }
        ten_growing_backlogs_are_signalled(f);
        assert(f.drop_last().push(f.last()) =~= f);
        if f.len() > 1 {
            assert(h[f.len() - 2] < h[f.len() - 1]);
        }
        assert(h[f.len() - 1] < h[f.len() as int]);
    } else {
        assert(f =~= Seq::<usize>::empty());
    }
}

/// Law: the depth of the pipeline is the one set, eight at most, and two where none is set.
pub proof fn depth_is_set_within_bounds(v: Option<Seq<char>>)
    ensures
        depth_of(v) <= 8,
        v is None ==> depth_of(v) == 2,
        v matches Some(s) ==> (decimal_number(s) matches Some(n) ==> (n <= 8 ==> depth_of(v) == n)
            && (8 <= n <= usize::MAX ==> depth_of(v) == 8) && (n > usize::MAX ==> depth_of(v)
            == 2)),
        v matches Some(s) ==> (decimal_number(s) is None ==> depth_of(v) == 2),
{
}

/// Law: a drain submits its batches in order, each as the items of its intents, and never so
/// that more rounds are in flight than the depth; it waits only where as many are, and is
/// done only once every batch was submitted, with the number of all their intents.
pub proof fn drain_submits_in_order_within_the_depth(
    p: PipelineView,
    batches: Seq<Seq<IntentView>>,
    position: int,
    step: DrainStep,
)
    requires
        0 <= position <= batches.len(),
        p.rounds.len() <= p.depth,
        steps(p, batches, position, step),
    ensures
        step is Submit ==> round_started(p, seqs_of(batches[position])).rounds.len() <= p.depth,
        step matches DrainStep::Submit(items) ==> items@.len() == batches[position].len()
            && forall|i: int|
            0 <= i < items@.len() ==> (#[trigger] items@[i])@ == intent_item(batches[position][i]),
        step is AwaitOldest ==> p.rounds.len() == p.depth,
        step matches DrainStep::Finished(n) ==> n == batches.flatten().len(),
        step is Finished <==> position == batches.len(),
        position < batches.len() && p.rounds.len() < p.depth ==> step is Submit,
{
    crate::intent_laws::joined_lists_are_flat(batches);
    match step {
        DrainStep::Submit(items) => {
            let views = crate::command::item_views(items@);
            assert(views.len() == items@.len());
            assert(intent_items(batches[position]).len() == batches[position].len());
            assert forall|i: int| 0 <= i < items@.len() implies (#[trigger] items@[i])@
                == intent_item(batches[position][i]) by {
                assert(views[i] == items@[i]@);
                assert(views[i] == intent_items(batches[position])[i]);
            }
        },
        _ => {},
    }
}

/// Law: growth is warned of at most once a minute, and each time that it is due.
pub proof fn growth_is_warned_of_once_a_minute(growth: bool, since: Option<u64>)
    ensures
        warning_due(growth, since) ==> growth && (since matches Some(t) ==> t >= 60_000),
        growth && (since is None || since->Some_0 >= 60_000) ==> warning_due(growth, since),
{
}

} // verus!
