//! The supervisor of a shard's committer.
//!
//! A supervisor runs on every node that hosts the shard. On every node it takes
//! out of the local store what the replica has applied. On the leader it drains
//! the store into the log, but not before it has recovered, once per term, what
//! its peers hold.

use vstd::prelude::*;

use crate::ids::NodeId;
use crate::intent::{intent_views, removed_table, store_fault, IntentTable, IntentView};
use crate::intent::{IntentError, IntentStore, PerspectiveSeq, WriteIntent};
use crate::intent_committer::{drained, gather_need};
use crate::intent_committer::IncorporationSink;
use crate::ordered_map::OrderedMap;
use crate::raft::state_machine::sat_sub;
use crate::shard_committer::{peer_views, recovered_as, recovered_in_part, views_held};
use crate::shard_committer::ShardCommitter;
use crate::time::HybridLogicalClock;

verus! {

/// Milliseconds between two ticks.
pub const COMMITTER_INTERVAL_MS: u64 = 50;

/// Milliseconds that a new leader waits for its replica to catch up.
pub const POST_PROMOTION_WAIT_MAX_MS: u64 = 5_000;

/// Milliseconds between two looks while it waits.
pub const POST_PROMOTION_POLL_INTERVAL_MS: u64 = 50;

/// What a supervisor remembers from tick to tick.
#[derive(Clone, Copy, Debug, PartialEq, Eq, Structural)]
pub struct Supervisor {
    /// Whether the node was the leader at the last look.
    pub was_leader: bool,
    /// Whether it has recovered since it became the leader.
    pub recovered_this_term: bool,
}

/// How leadership changed between two looks.
#[derive(Clone, Copy, Debug, PartialEq, Eq, Structural)]
pub enum LeadershipChange {
    /// The node became the leader.
    Became,
    /// The node is the leader no longer.
    Lost,
    /// Nothing changed.
    Unchanged,
}

/// What to do while a new leader waits.
#[derive(Clone, Copy, Debug, PartialEq, Eq, Structural)]
pub enum WaitStep {
    /// The replica has caught up: go on.
    Current,
    /// It has not, but has been waited for long enough: go on.
    GaveUp,
    /// Look again later.
    Poll,
}

/// What came of a recovery.
pub enum RecoveryReport {
    /// The peers could not be asked.
    GatherFailed(IntentError),
    /// Too few peers answered.
    BelowThreshold { have: usize, need: usize },
    /// What they hold could not be recorded.
    RestoreFailed(IntentError),
    /// The term may drain; how many intents were new.
    Restored(usize),
}

/// The supervisor after a look at the leadership.
pub open spec fn observed(s: Supervisor, is_leader: bool) -> Supervisor {
    Supervisor {
        was_leader: is_leader,
        recovered_this_term: s.recovered_this_term && !(is_leader && !s.was_leader),
    }
}

/// How leadership changed.
pub open spec fn change_of(was_leader: bool, is_leader: bool) -> LeadershipChange {
    if is_leader && !was_leader {
        LeadershipChange::Became
    } else if !is_leader && was_leader {
        LeadershipChange::Lost
    } else {
        LeadershipChange::Unchanged
    }
}

/// Whether the leader has yet to recover in its term.
pub open spec fn must_recover(s: Supervisor) -> bool {
    s.was_leader && !s.recovered_this_term
}

/// Whether the node may drain: it is the leader, and has recovered.
pub open spec fn may_drain(s: Supervisor) -> bool {
    s.was_leader && s.recovered_this_term
}

/// Whether a recovery led from one table to another: the union of the local store
/// and the lists of the peers was recorded, and `n` of its orders were new.
pub open spec fn term_recovered(
    before: IntentTable,
    after: IntentTable,
    peers: Seq<(NodeId, Seq<IntentView>)>,
    n: usize,
) -> bool {
    exists|nodes: Seq<NodeId>, union: Seq<IntentView>| #[trigger]
        recovered_as(before, after, peers, nodes, union, n)
}

/// Orders of clock readings.
pub open spec fn orders_of(s: Seq<HybridLogicalClock>) -> Seq<PerspectiveSeq> {
    Seq::new(s.len(), |i: int| PerspectiveSeq(s[i]))
}

/// Takes out of a store what the replica has applied.
pub fn self_prune<S: IntentStore>(store: &mut S, applied: &Vec<HybridLogicalClock>) -> (r: Result<
    (),
    IntentError,
>)
    requires
        old(store).ready(),
    ensures
        final(store).ready(),
        final(store).reliable() == old(store).reliable(),
        old(store).reliable() ==> r is Ok,
        r is Ok ==> final(store).table() == (if applied@.len() == 0 {
            old(store).table()
        } else {
            removed_table(old(store).table(), orders_of(applied@))
        }),
        r matches Err(e) ==> store_fault(e) && applied@.len() > 0 && (final(store).table() == old(
            store,
        ).table() || final(store).table() == removed_table(
            old(store).table(),
            orders_of(applied@),
        )),
{
    if applied.len() == 0 {
        return Ok(());
    }
    let mut seqs: Vec<PerspectiveSeq> = Vec::new();
    let mut i: usize = 0;
    while i < applied.len()
        invariant
            i <= applied@.len(),
            seqs@ == orders_of(applied@).take(i as int),
        decreases applied@.len() - i,
    {
        seqs.push(PerspectiveSeq(applied[i]));
        i = i + 1;
        assert(seqs@ =~= orders_of(applied@).take(i as int));
    }
    assert(seqs@ =~= orders_of(applied@));
    store.remove_seqs(seqs.as_slice())
}

/// What a new leader that waits for its replica does: it goes on once everything
/// committed is applied, or after the longest wait.
pub open spec fn wait_of(applied: u64, committed: u64, waited_ms: u64) -> WaitStep {
    if applied >= committed {
        WaitStep::Current
    } else if waited_ms >= POST_PROMOTION_WAIT_MAX_MS {
        WaitStep::GaveUp
    } else {
        WaitStep::Poll
    }
}

/// What a new leader that waits for its replica does next.
pub fn wait_step(applied: u64, committed: u64, waited_ms: u64) -> (r: WaitStep)
    ensures
        r == wait_of(applied, committed, waited_ms),
{
    if applied >= committed {
        WaitStep::Current
    } else if waited_ms >= POST_PROMOTION_WAIT_MAX_MS {
        WaitStep::GaveUp
    } else {
        WaitStep::Poll
    }
}

/// The earliest physical time of a window.
pub open spec fn earliest_ms(recent: Seq<HybridLogicalClock>) -> u64
    decreases recent.len(),
{
    if recent.len() <= 1 {
        recent[0].physical_ms
    } else {
        let rest = earliest_ms(recent.drop_last());
        if recent.last().physical_ms < rest {
            recent.last().physical_ms
        } else {
            rest
        }
    }
}

/// Whether a gathered intent is worth recovering: the replica has not applied it,
/// and, where positions have left the window, it is not older than the window by
/// more than a millisecond.
pub open spec fn worth_recovering(
    seq: HybridLogicalClock,
    recent: Seq<HybridLogicalClock>,
    cutoff: u64,
) -> bool {
    &&& !recent.contains(seq)
    &&& !(cutoff > 0 && recent.len() > 0 && seq.physical_ms < sat_sub(earliest_ms(recent), 1))
}

/// The intents of a list that are worth recovering.
pub open spec fn recoverable(
    s: Seq<IntentView>,
    recent: Seq<HybridLogicalClock>,
    cutoff: u64,
) -> Seq<IntentView>
    decreases s.len(),
{
    if s.len() == 0 {
        s
    } else {
        let front = recoverable(s.drop_last(), recent, cutoff);
        if worth_recovering(s.last().seq.0, recent, cutoff) {
            front.push(s.last())
        } else {
            front
        }
    }
}

/// The lists of peers, each without what is not worth recovering.
pub open spec fn recoverable_peers(
    s: Seq<(NodeId, Seq<IntentView>)>,
    recent: Seq<HybridLogicalClock>,
    cutoff: u64,
) -> Seq<(NodeId, Seq<IntentView>)> {
    Seq::new(s.len(), |i: int| (s[i].0, recoverable(s[i].1, recent, cutoff)))
}

/// The readings of a window, for lookup, and the earliest physical time.
fn index_window(recent: &Vec<HybridLogicalClock>) -> (r: (OrderedMap<HybridLogicalClock, ()>, u64))
    ensures
        r.0.wf(),
        forall|q: HybridLogicalClock| #[trigger]
            r.0@.contains_key(q) == recent@.contains(q),
        recent@.len() > 0 ==> r.1 == earliest_ms(recent@),
{
    let mut set: OrderedMap<HybridLogicalClock, ()> = OrderedMap::new();
    let mut earliest: u64 = 0;
    let mut i: usize = 0;
    while i < recent.len()
        invariant
            i <= recent@.len(),
            set.wf(),
            forall|q: HybridLogicalClock| #[trigger]
                set@.contains_key(q) == recent@.take(i as int).contains(q),
            i > 0 ==> earliest == earliest_ms(recent@.take(i as int)),
        decreases recent@.len() - i,
    {
        let ghost before = set@;
        let h = recent[i];
        set.insert(h, ());
        if i == 0 || h.physical_ms < earliest {
            earliest = h.physical_ms;
        }
        proof {
            let t = recent@.take(i as int);
            let u = recent@.take(i + 1);
            assert(u.drop_last() =~= t);
            assert(u.last() == h);
            assert(u[i as int] == h);
            assert forall|q: HybridLogicalClock| #[trigger] set@.contains_key(q)
                == u.contains(q) by {
                assert(before.contains_key(q) == t.contains(q));
                if t.contains(q) {
                    let j = choose|j: int| 0 <= j < t.len() && t[j] == q;
                    assert(u[j] == q);
                }
                if u.contains(q) && q != h {
                    let j = choose|j: int| 0 <= j < u.len() && u[j] == q;
                    assert(t[j] == q);
                }
            }
        }
        i = i + 1;
    }
    assert(recent@.take(i as int) =~= recent@);
    (set, earliest)
}

/// Leaves out of the gathered lists what is not worth recovering.
pub fn filter_recovered(
    peers: &Vec<(NodeId, Vec<WriteIntent>)>,
    recent: &Vec<HybridLogicalClock>,
    cutoff: u64,
) -> (r: Vec<(NodeId, Vec<WriteIntent>)>)
    ensures
        peer_views(r@) == recoverable_peers(peer_views(peers@), recent@, cutoff),
        r@.len() == peers@.len(),
{
    let ghost views = peer_views(peers@);
    let (set, earliest) = index_window(recent);
    let any: bool = recent.len() > 0;
    let floor: u64 = if earliest >= 1 {
        earliest - 1
    } else {
        0
    };
    let mut out: Vec<(NodeId, Vec<WriteIntent>)> = Vec::new();
    let mut i: usize = 0;
    while i < peers.len()
        invariant
            i <= peers@.len(),
            views == peer_views(peers@),
            set.wf(),
            forall|q: HybridLogicalClock| #[trigger]
                set@.contains_key(q) == recent@.contains(q),
            any == (recent@.len() > 0),
            any ==> floor == sat_sub(earliest_ms(recent@), 1),
            out@.len() == i,
            forall|j: int|
                0 <= j < i ==> (#[trigger] peer_views(out@)[j]) == recoverable_peers(
                    views,
                    recent@,
                    cutoff,
                )[j],
        decreases peers@.len() - i,
    {
        let list = &peers[i].1;
        let ghost all = intent_views(list@);
        let mut kept: Vec<WriteIntent> = Vec::new();
        let mut k: usize = 0;
        proof {
            assert(all.take(0) =~= Seq::<IntentView>::empty());
            assert(intent_views(kept@) =~= Seq::<IntentView>::empty());
        }
        while k < list.len()
            invariant
                k <= list@.len(),
                all == intent_views(list@),
                set.wf(),
                forall|q: HybridLogicalClock| #[trigger]
                    set@.contains_key(q) == recent@.contains(q),
                any == (recent@.len() > 0),
                any ==> floor == sat_sub(earliest_ms(recent@), 1),
                intent_views(kept@) == recoverable(all.take(k as int), recent@, cutoff),
            decreases list@.len() - k,
        {
            let seq = list[k].perspective_seq.0;
            proof {
                let t = all.take(k + 1);
                assert(t.drop_last() =~= all.take(k as int));
                assert(t.last() == list@[k as int]@);
                assert(set@.contains_key(seq) == recent@.contains(seq));
            }
            let ancient: bool = cutoff > 0 && any && seq.physical_ms < floor;
            if !set.contains(&seq) && !ancient {
                let ghost k0 = kept@;
                kept.push(list[k].clone());
                assert(intent_views(kept@) =~= intent_views(k0).push(list@[k as int]@));
            }
            k = k + 1;
        }
        let ghost before = out@;
        assert(all.take(k as int) =~= all);
        out.push((peers[i].0, kept));
        assert forall|j: int| 0 <= j < i + 1 implies (#[trigger] peer_views(out@)[j])
            == recoverable_peers(views, recent@, cutoff)[j] by {
            if j < i {
                assert(peer_views(before)[j] == recoverable_peers(views, recent@, cutoff)[j]);
                assert(out@[j] == before[j]);
            }
        }
        i = i + 1;
    }
    assert(peer_views(out@) =~= recoverable_peers(views, recent@, cutoff));
    out
}

impl Supervisor {
    /// A supervisor that has not looked yet.
    pub fn new() -> (r: Self)
        ensures
            r == (Supervisor { was_leader: false, recovered_this_term: false }),
    {
        Supervisor { was_leader: false, recovered_this_term: false }
    }

    /// Looks at the leadership. A node that becomes the leader has to recover
    /// again.
    pub fn observe_leadership(&mut self, is_leader: bool) -> (r: LeadershipChange)
        ensures
            *final(self) == observed(*old(self), is_leader),
            r == change_of(old(self).was_leader, is_leader),
    {
        let change = if is_leader && !self.was_leader {
            self.recovered_this_term = false;
            LeadershipChange::Became
        } else if !is_leader && self.was_leader {
            LeadershipChange::Lost
        } else {
            LeadershipChange::Unchanged
        };
        self.was_leader = is_leader;
        change
    }

    /// Whether the node has to recover before it drains.
    pub fn needs_recovery(&self) -> (r: bool)
        ensures
            r == must_recover(*self),
    {
        self.was_leader && !self.recovered_this_term
    }

    /// Recovers the store from what the peers hold, less what the replica has
    /// applied and what is ancient.
    pub fn recover_term<St: IntentStore, K: IncorporationSink>(
        &mut self,
        committer: &mut ShardCommitter<St, K>,
        gathered: Result<Vec<(NodeId, Vec<WriteIntent>)>, IntentError>,
        recent: &Vec<HybridLogicalClock>,
        cutoff: u64,
    ) -> (r: RecoveryReport)
        requires
            old(committer).ready(),
            gathered matches Ok(p) ==> p@.len() < usize::MAX,
        ensures
            final(committer).ready(),
            final(committer).sink == old(committer).sink,
            final(committer).cluster_size == old(committer).cluster_size,
            final(committer).min_acks == old(committer).min_acks,
            final(self).was_leader == old(self).was_leader,
            final(self).recovered_this_term == (old(self).recovered_this_term || r is Restored),
            match gathered {
                Err(e) => r == RecoveryReport::GatherFailed(e) && final(committer).local_store
                    == old(committer).local_store,
                Ok(p) => {
                    let lists = recoverable_peers(peer_views(p@), recent@, cutoff);
                    let have = views_held(lists);
                    let need = gather_need(
                        old(committer).cluster_size as int,
                        old(committer).min_acks as int,
                    );
                    &&& have < need ==> r == (RecoveryReport::BelowThreshold {
                        have: have as usize,
                        need: need as usize,
                    }) && final(committer).local_store == old(committer).local_store
                    &&& have >= need && old(committer).local_store.reliable() ==> r is Restored
                    &&& have >= need ==> r is Restored || (r is RestoreFailed && store_fault(
                        r->RestoreFailed_0,
                    ) && recovered_in_part(
                        old(committer).local_store.table(),
                        final(committer).local_store.table(),
                        lists,
                    ))
                    &&& r matches RecoveryReport::Restored(n) ==> term_recovered(
                        old(committer).local_store.table(),
                        final(committer).local_store.table(),
                        lists,
                        n,
                    )
                },
            },
    {
        let peers = match gathered {
            Ok(p) => p,
            Err(e) => {
                return RecoveryReport::GatherFailed(e);
            },
        };
        let filtered = filter_recovered(&peers, recent, cutoff);
        let ghost before = committer.local_store.table();
        let ghost kept = recoverable_peers(peer_views(peers@), recent@, cutoff);
        match committer.recover(&filtered) {
            Ok(n) => {
                self.recovered_this_term = true;
                assert(term_recovered(before, committer.local_store.table(), kept, n));
                RecoveryReport::Restored(n)
            },
            Err(IntentError::InsufficientQuorum { have, need }) => RecoveryReport::BelowThreshold {
                have,
                need,
            },
            Err(e) => RecoveryReport::RestoreFailed(e),
        }
    }

    /// Drains the store into the log, where the node may; `None` where it may not.
    pub fn drain<St: IntentStore, K: IncorporationSink>(
        &self,
        committer: &mut ShardCommitter<St, K>,
    ) -> (r: Option<Result<usize, IntentError>>)
        requires
            old(committer).ready(),
        ensures
            final(committer).ready(),
            final(committer).local_store == old(committer).local_store,
            r is Some <==> may_drain(*self),
            !may_drain(*self) ==> *final(committer) == *old(committer),
            may_drain(*self) && old(committer).local_store.reliable()
                && old(committer).sink.reliable() ==> r->Some_0 is Ok,
            r matches Some(outcome) ==> drained(
                old(committer).local_store.table(),
                old(committer).local_store.reliable(),
                old(committer).sink.batches(),
                old(committer).sink.refusals(),
                outcome,
                final(committer).sink.batches(),
                final(committer).sink.refusals(),
            ),
    {
        if self.was_leader && self.recovered_this_term {
            Some(committer.drain_local())
        } else {
            None
        }
    }
}

/// Law: a node that becomes the leader does not drain before it has recovered, and
/// one that is not the leader does not drain at all.
pub proof fn new_leader_recovers_first(s: Supervisor, is_leader: bool)
    ensures
        !s.was_leader ==> !may_drain(observed(s, is_leader)),
        !is_leader ==> !may_drain(observed(s, is_leader)),
{
}

/// What a supervisor meets: a look at the leadership, an attempt to recover, a
/// drain, or another step of a tick.
#[derive(Clone, Copy, Debug, PartialEq, Eq, Structural)]
pub enum SupervisorEvent {
    /// It took out of the store what was applied, or could not.
    Pruned,
    /// It looked, and saw the node as the leader or not.
    Looked(bool),
    /// It tried to recover, and did or did not.
    Recovery(bool),
    /// It waited for the replica to catch up.
    CaughtUp,
    /// It drained, or failed to.
    Drained,
    /// The time between two ticks is over, or it was woken; it is to stop or not.
    Woke(bool),
}

/// The supervisor after an event.
pub open spec fn stepped(s: Supervisor, event: SupervisorEvent) -> Supervisor {
    match event {
        SupervisorEvent::Looked(is_leader) => observed(s, is_leader),
        SupervisorEvent::Recovery(restored) => Supervisor {
            recovered_this_term: s.recovered_this_term || restored,
            ..s
        },
        _ => s,
    }
}

/// The supervisor after a run of events, from its start.
pub open spec fn run_of(events: Seq<SupervisorEvent>) -> Supervisor
    decreases events.len(),
{
    if events.len() == 0 {
        Supervisor { was_leader: false, recovered_this_term: false }
    } else {
        stepped(run_of(events.drop_last()), events.last())
    }
}

/// Whether event `j` of a run is a recovery that succeeded, on a leader that has
/// been seen as the leader ever since.
pub open spec fn recovered_since(events: Seq<SupervisorEvent>, j: int) -> bool {
    &&& 0 <= j < events.len()
    &&& events[j] == SupervisorEvent::Recovery(true)
    &&& run_of(events.take(j)).was_leader
    &&& forall|i: int|
        j < i < events.len() ==> (#[trigger] events[i]) != SupervisorEvent::Looked(false)
}

/// Law: whatever a supervisor met, it may drain exactly where the node is the leader
/// and a recovery has succeeded since it became the leader.
pub proof fn drain_follows_a_recovery(events: Seq<SupervisorEvent>)
    ensures
        may_drain(run_of(events)) <==> exists|j: int| #[trigger] recovered_since(events, j),
    decreases events.len(),
{
    if events.len() > 0 {
        let front = events.drop_last();
        let last = events.last();
        let n = front.len() as int;
        let s = run_of(front);
        drain_follows_a_recovery(front);
        lemma_recovered_leads(events);
        if may_drain(run_of(events)) {
            if may_drain(s) {
                let j = choose|j: int| #[trigger] recovered_since(front, j);
                assert(events.take(j) =~= front.take(j));
                assert forall|i: int| j < i < events.len() implies (#[trigger] events[i])
                    != SupervisorEvent::Looked(false) by {
                    if i < n {
                        assert(events[i] == front[i]);
                    }
                }
                assert(recovered_since(events, j));
            } else {
                assert(last == SupervisorEvent::Recovery(true));
                assert(events.take(n) =~= front);
                assert(recovered_since(events, n));
            }
        }
    }
}

/// A recovery that succeeded on a leader lasts for as long as it stays the leader.
proof fn lemma_recovered_leads(events: Seq<SupervisorEvent>)
    ensures
        forall|j: int| #[trigger] recovered_since(events, j) ==> may_drain(run_of(events)),
    decreases events.len(),
{
    if events.len() > 0 {
        let front = events.drop_last();
        let n = front.len() as int;
        lemma_recovered_leads(front);
        assert forall|j: int| #[trigger] recovered_since(events, j) implies may_drain(
            run_of(events),
        ) by {
            if j < n {
                assert(events.take(j) =~= front.take(j));
                assert(front[j] == events[j]);
                assert forall|i: int| j < i < front.len() implies (#[trigger] front[i])
                    != SupervisorEvent::Looked(false) by {
                    assert(front[i] == events[i]);
                }
                assert(recovered_since(front, j));
                assert(events[n] == events.last());
            } else {
                assert(events.take(n) =~= front);
            }
        }
    }
}

/// What a supervisor does next.
#[derive(Clone, Copy, Debug, PartialEq, Eq, Structural)]
pub enum SupervisorAction {
    /// End.
    Stop,
    /// Take out of the store what was applied.
    Prune,
    /// Look at the leadership.
    Look,
    /// Wait for the replica to catch up.
    CatchUp,
    /// Ask the peers, and recover.
    Recover,
    /// Drain the store into the log.
    Drain,
    /// Wait for the next tick.
    Sleep,
}

/// A supervisor at work: what it remembers, and what it does next.
#[derive(Clone, Copy, Debug, PartialEq, Eq, Structural)]
pub struct SupervisorLoop {
    /// What it remembers.
    pub supervisor: Supervisor,
    /// What it does next.
    pub action: SupervisorAction,
}

/// Whether an event is one of what an action can come to.
pub open spec fn comes_of(action: SupervisorAction, event: SupervisorEvent) -> bool {
    match action {
        SupervisorAction::Stop => false,
        SupervisorAction::Prune => event is Pruned,
        SupervisorAction::Look => event is Looked,
        SupervisorAction::CatchUp => event is CaughtUp,
        SupervisorAction::Recover => event is Recovery,
        SupervisorAction::Drain => event is Drained,
        SupervisorAction::Sleep => event is Woke,
    }
}

/// What a supervisor does once it has looked: a leader recovers, where it has not
/// yet, and else drains; any other node sleeps.
pub open spec fn duty(s: Supervisor) -> SupervisorAction {
    if !s.was_leader {
        SupervisorAction::Sleep
    } else if !s.recovered_this_term {
        SupervisorAction::Recover
    } else {
        SupervisorAction::Drain
    }
}

/// A supervisor at its start.
pub open spec fn loop_start(shutdown: bool) -> SupervisorLoop {
    SupervisorLoop {
        supervisor: Supervisor { was_leader: false, recovered_this_term: false },
        action: if shutdown {
            SupervisorAction::Stop
        } else {
            SupervisorAction::Prune
        },
    }
}

/// A supervisor after what its action came to. A tick prunes, looks, and does its
/// duty; a node that became the leader first waits for its replica; a recovery that
/// failed ends the tick; and it stops only where it is told to. What its action
/// cannot come to changes nothing.
pub open spec fn loop_next(s: SupervisorLoop, event: SupervisorEvent) -> SupervisorLoop {
    if !comes_of(s.action, event) {
        s
    } else {
        let supervisor = stepped(s.supervisor, event);
        SupervisorLoop {
            supervisor,
            action: match event {
                SupervisorEvent::Pruned => SupervisorAction::Look,
                SupervisorEvent::Looked(is_leader) => if is_leader && !s.supervisor.was_leader {
                    SupervisorAction::CatchUp
                } else {
                    duty(supervisor)
                },
                SupervisorEvent::CaughtUp => duty(supervisor),
                SupervisorEvent::Recovery(restored) => if restored {
                    duty(supervisor)
                } else {
                    SupervisorAction::Sleep
                },
                SupervisorEvent::Drained => SupervisorAction::Sleep,
                SupervisorEvent::Woke(shutdown) => if shutdown {
                    SupervisorAction::Stop
                } else {
                    SupervisorAction::Prune
                },
            },
        }
    }
}

impl SupervisorLoop {
    /// A supervisor at its start; one that is told to stop does nothing.
    pub fn start(shutdown: bool) -> (r: Self)
        ensures
            r == loop_start(shutdown),
    {
        SupervisorLoop {
            supervisor: Supervisor::new(),
            action: if shutdown {
                SupervisorAction::Stop
            } else {
                SupervisorAction::Prune
            },
        }
    }

    /// What the supervisor does once it has looked.
    fn next_duty(&self) -> (r: SupervisorAction)
        ensures
            r == duty(self.supervisor),
    {
        if !self.supervisor.was_leader {
            SupervisorAction::Sleep
        } else if self.supervisor.needs_recovery() {
            SupervisorAction::Recover
        } else {
            SupervisorAction::Drain
        }
    }

    /// Goes on from what the action came to; returns how leadership changed.
    pub fn advance(&mut self, event: SupervisorEvent) -> (r: LeadershipChange)
        ensures
            *final(self) == loop_next(*old(self), event),
            r == (match event {
                SupervisorEvent::Looked(is_leader) if old(self).action == SupervisorAction::Look =>
                    change_of(old(self).supervisor.was_leader, is_leader),
                _ => LeadershipChange::Unchanged,
            }),
    {
        let mut change = LeadershipChange::Unchanged;
        match (self.action, event) {
            (SupervisorAction::Prune, SupervisorEvent::Pruned) => {
                self.action = SupervisorAction::Look;
            },
            (SupervisorAction::Look, SupervisorEvent::Looked(is_leader)) => {
                change = self.supervisor.observe_leadership(is_leader);
                self.action = match change {
                    LeadershipChange::Became => SupervisorAction::CatchUp,
                    _ => self.next_duty(),
                };
            },
            (SupervisorAction::CatchUp, SupervisorEvent::CaughtUp) => {
                self.action = self.next_duty();
            },
            (SupervisorAction::Recover, SupervisorEvent::Recovery(restored)) => {
                if restored {
                    self.supervisor.recovered_this_term = true;
                    self.action = self.next_duty();
                } else {
                    self.action = SupervisorAction::Sleep;
                }
            },
            (SupervisorAction::Drain, SupervisorEvent::Drained) => {
                self.action = SupervisorAction::Sleep;
            },
            (SupervisorAction::Sleep, SupervisorEvent::Woke(shutdown)) => {
                self.action = if shutdown {
                    SupervisorAction::Stop
                } else {
                    SupervisorAction::Prune
                };
            },
            _ => {},
        }
        change
    }
}

/// A supervisor after a run of events, from its start.
pub open spec fn loop_of(shutdown: bool, events: Seq<SupervisorEvent>) -> SupervisorLoop
    decreases events.len(),
{
    if events.len() == 0 {
        loop_start(shutdown)
    } else {
        loop_next(loop_of(shutdown, events.drop_last()), events.last())
    }
}

/// Whether each event of a run is one of what the action before it can come to.
pub open spec fn in_step(shutdown: bool, events: Seq<SupervisorEvent>) -> bool
    decreases events.len(),
{
    events.len() == 0 || (in_step(shutdown, events.drop_last()) && comes_of(
        loop_of(shutdown, events.drop_last()).action,
        events.last(),
    ))
}

/// Law: a supervisor that is told to stop before its first tick does nothing.
pub proof fn stopped_supervisor_does_nothing(events: Seq<SupervisorEvent>)
    ensures
        loop_of(true, events) == loop_start(true),
        loop_start(true).action == SupervisorAction::Stop,
    decreases events.len(),
{
    if events.len() > 0 {
        stopped_supervisor_does_nothing(events.drop_last());
    }
}

/// Law: a supervisor drains only where the node is the leader and a recovery has
/// succeeded since it became the leader, and recovers only where it is the leader
/// and none has.
pub proof fn loop_drains_after_a_recovery(shutdown: bool, events: Seq<SupervisorEvent>)
    requires
        in_step(shutdown, events),
    ensures
        loop_of(shutdown, events).supervisor == run_of(events),
        loop_of(shutdown, events).action == SupervisorAction::Drain ==> exists|j: int| #[trigger]
            recovered_since(events, j),
        loop_of(shutdown, events).action == SupervisorAction::Recover ==> run_of(
            events,
        ).was_leader && forall|j: int| !#[trigger] recovered_since(events, j),
{
    lemma_loop_shape(shutdown, events);
    drain_follows_a_recovery(events);
}

/// What a supervisor remembers fits what it does next.
proof fn lemma_loop_shape(shutdown: bool, events: Seq<SupervisorEvent>)
    requires
        in_step(shutdown, events),
    ensures
        ({
            let s = loop_of(shutdown, events);
            &&& s.supervisor == run_of(events)
            &&& s.action == SupervisorAction::Drain || s.action == SupervisorAction::Recover
                ==> s.action == duty(s.supervisor)
        }),
    decreases events.len(),
{
    if events.len() > 0 {
        lemma_loop_shape(shutdown, events.drop_last());
    }
}

/// Law: where a recovery fails, the tick ends without a drain, and the next tick on
/// which the node is still the leader asks the peers again.
pub proof fn failed_recovery_is_tried_again(s: SupervisorLoop)
    requires
        s.action == SupervisorAction::Recover,
        s.action == duty(s.supervisor),
    ensures
        ({
            let failed = loop_next(s, SupervisorEvent::Recovery(false));
            let woken = loop_next(failed, SupervisorEvent::Woke(false));
            let pruned = loop_next(woken, SupervisorEvent::Pruned);
            &&& failed.action == SupervisorAction::Sleep
            &&& woken.action == SupervisorAction::Prune
            &&& pruned.action == SupervisorAction::Look
            &&& loop_next(pruned, SupervisorEvent::Looked(true)) == s
            &&& loop_next(pruned, SupervisorEvent::Looked(false)).action == SupervisorAction::Sleep
        }),
{
}

/// Law: a leader that has recovered goes on draining for as long as it is seen as
/// the leader.
pub proof fn recovered_leader_keeps_draining(s: Supervisor)
    requires
        may_drain(s),
    ensures
        may_drain(observed(s, true)),
{
}

} // verus!
