//! Fanning a batch of intents to a quorum.
//!
//! Writers that arrive together share one batch. The first one flushes it: it
//! records the batch locally, then asks one peer after the other, the leader
//! first, until enough replicas hold it. The calls to the peers are the
//! driver's; which peer is asked next, with which patience, and what the
//! writers are told, is decided here.

use vstd::prelude::*;

use crate::error::LogError;
use crate::ids::{NodeId, ShardId};
use crate::settings::{positive_or, text_of};
use crate::settings::{positive_u64_or, positive_usize_or};

verus! {

/// Most intents of a batch: the value of the variable, or sixteen.
pub fn batch_max_from_env(value: Option<&str>) -> (r: usize)
    ensures
        r == positive_or(text_of(value), usize::MAX as nat, 16),
        r >= 1,
{
    positive_usize_or(value, 16)
}

/// Microseconds to wait for a batch to fill: the value of the variable, or five
/// hundred.
pub fn batch_timeout_from_env(value: Option<&str>) -> (r: u64)
    ensures
        r == positive_or(text_of(value), u64::MAX as nat, 500),
        r >= 1,
{
    positive_u64_or(value, 500)
}

/// Milliseconds to wait for one peer of the top-up: the value of the variable, or
/// a hundred.
pub fn topup_timeout_from_env(value: Option<&str>) -> (r: u64)
    ensures
        r == positive_or(text_of(value), u64::MAX as nat, 100),
        r >= 1,
{
    positive_u64_or(value, 100)
}

/// What a writer does after joining the queue.
#[derive(Clone, Copy, Debug, PartialEq, Eq, Structural)]
pub enum SubmitRole {
    /// Flush the batch.
    Flusher,
    /// Wait for the flusher; wake it first, where the batch is full.
    Waiter {
        /// Whether to wake the flusher.
        wake: bool,
    },
}

/// What a writer does that finds so many waiting: where nobody flushes, flush; otherwise
/// wait, and wake the flusher where that makes `cap_max`.
pub open spec fn role_of(flusher_running: bool, waiting: nat, cap_max: usize) -> SubmitRole {
    if flusher_running {
        SubmitRole::Waiter { wake: waiting + 1 >= cap_max }
    } else {
        SubmitRole::Flusher
    }
}

/// The queue of one shard: what waits for the next flush, and whether somebody is
/// going to flush it.
pub struct CoalesceQueue<T> {
    /// What waits.
    pub pending: Vec<T>,
    /// Whether there is a flusher.
    pub flusher_running: bool,
}

impl<T> CoalesceQueue<T> {
    /// An empty queue.
    pub fn new() -> (r: Self)
        ensures
            r.pending@ == Seq::<T>::empty(),
            !r.flusher_running,
    {
        CoalesceQueue { pending: Vec::new(), flusher_running: false }
    }

    /// Joins the queue. The first to come is the flusher; a later one waits, and
    /// wakes the flusher once `cap_max` are waiting.
    pub fn submit(&mut self, req: T, cap_max: usize) -> (r: SubmitRole)
        ensures
            final(self).pending@ == old(self).pending@.push(req),
            final(self).flusher_running,
            r == role_of(old(self).flusher_running, old(self).pending@.len(), cap_max),
    {
        self.pending.push(req);
        if self.flusher_running {
            SubmitRole::Waiter { wake: self.pending.len() >= cap_max }
        } else {
            self.flusher_running = true;
            SubmitRole::Flusher
        }
    }

    /// The flusher takes the batch; the next to come will be a flusher again.
    pub fn take(&mut self) -> (r: Vec<T>)
        ensures
            r@ == old(self).pending@,
            final(self).pending@ == Seq::<T>::empty(),
            !final(self).flusher_running,
    {
        let mut taken: Vec<T> = Vec::new();
        taken.append(&mut self.pending);
        self.flusher_running = false;
        assert(taken@ =~= old(self).pending@);
        taken
    }
}

/// What the writers of a batch are told.
#[derive(Clone, Copy, Debug, PartialEq, Eq, Structural)]
pub enum FlushReply {
    /// Enough replicas hold the batch.
    Durable,
    /// The local store failed.
    Unavailable,
    /// Too few replicas hold the batch.
    QuorumLost,
}

/// The result that a reply stands for.
pub open spec fn outcome_of(reply: FlushReply, shard_id: ShardId) -> Result<(), LogError> {
    match reply {
        FlushReply::Durable => Ok(()),
        FlushReply::Unavailable => Err(LogError::Unavailable),
        FlushReply::QuorumLost => Err(LogError::QuorumLost(shard_id)),
    }
}

/// The result that a reply stands for.
pub fn reply_result(reply: FlushReply, shard_id: ShardId) -> (r: Result<(), LogError>)
    ensures
        r == outcome_of(reply, shard_id),
{
    match reply {
        FlushReply::Durable => Ok(()),
        FlushReply::Unavailable => Err(LogError::Unavailable),
        FlushReply::QuorumLost => Err(LogError::QuorumLost(shard_id)),
    }
}

/// The reply to a batch after the local store was asked, where there is one already.
pub open spec fn local_reply(recorded: bool, min_acks: usize) -> Option<FlushReply> {
    if !recorded {
        Some(FlushReply::Unavailable)
    } else if min_acks <= 1 {
        Some(FlushReply::Durable)
    } else {
        None
    }
}

/// What to do after the local store was asked to record the batch: refuse it
/// where that failed, answer at once where one copy is enough, and ask peers
/// otherwise.
pub fn after_local_put(recorded: bool, min_acks: usize) -> (r: Option<FlushReply>)
    ensures
        r == local_reply(recorded, min_acks),
{
    if !recorded {
        Some(FlushReply::Unavailable)
    } else if min_acks <= 1 {
        Some(FlushReply::Durable)
    } else {
        None
    }
}

/// Whether a peer's answer acknowledges the batch: there is at least one
/// acknowledgement, and none is negative.
pub open spec fn acknowledges(acks: Seq<bool>) -> bool {
    acks.len() > 0 && forall|i: int| 0 <= i < acks.len() ==> #[trigger] acks[i]
}

/// Decides whether a peer's answer acknowledges the batch.
pub fn batch_acked(acks: &[bool]) -> (r: bool)
    ensures
        r == acknowledges(acks@),
{
    if acks.len() == 0 {
        return false;
    }
    let mut i: usize = 0;
    while i < acks.len()
        invariant
            i <= acks@.len(),
            acks@.len() > 0,
            forall|j: int| 0 <= j < i ==> #[trigger] acks@[j],
        decreases acks@.len() - i,
    {
        if !acks[i] {
            return false;
        }
        i = i + 1;
    }
    true
}

/// Position of the leader among the peers, where the leader is one of them.
pub open spec fn leader_position(peers: Seq<NodeId>, leader: Option<u64>) -> Option<int>
    decreases peers.len(),
{
    match leader {
        None => None,
        Some(id) => if peers.len() == 0 {
            None
        } else {
            match leader_position(peers.drop_last(), leader) {
                Some(i) => Some(i),
                None => if peers.last().0 == id {
                    Some(peers.len() - 1)
                } else {
                    None
                },
            }
        },
    }
}

/// Positions of the peers other than the leader, in order.
pub open spec fn others(peers: Seq<NodeId>, leader: Option<u64>) -> Seq<usize>
    decreases peers.len(),
{
    if peers.len() == 0 {
        Seq::empty()
    } else {
        let front = others(peers.drop_last(), leader);
        if leader == Some(peers.last().0) {
            front
        } else {
            front.push((peers.len() - 1) as usize)
        }
    }
}

/// A list turned left by `k`.
pub open spec fn rotated<T>(s: Seq<T>, k: int) -> Seq<T> {
    s.skip(k) + s.take(k)
}

/// How far a list of `len` is turned by a counter.
pub open spec fn rotation(counter: u64, len: nat) -> int {
    if len == 0 {
        0
    } else if counter <= usize::MAX {
        counter as int % len as int
    } else {
        0
    }
}

/// Where a walk stands.
#[derive(Clone, Copy, Debug, PartialEq, Eq, Structural)]
pub enum WalkStage {
    /// The leader is asked.
    Leader,
    /// The others are about to be asked.
    BeforeTopUp,
    /// The others are asked, one after the other.
    TopUp,
    /// There is nobody left to ask.
    Over,
}

/// What a walk does next.
#[derive(Debug)]
pub enum WalkAction {
    /// Ask this peer, and wait long for its answer.
    AskLeader(usize),
    /// Draw the rotation of the top-up.
    DrawRotation,
    /// Ask this peer, and wait briefly for its answer.
    Ask(usize),
    /// Ask these peers at once, until so many have acknowledged.
    Rescue {
        /// The peers.
        pool: Vec<usize>,
        /// Acknowledgements that are missing.
        needed: usize,
    },
    /// Tell the writers.
    Reply(FlushReply),
}

/// A walk from peer to peer.
pub struct QuorumWalk {
    min_acks: usize,
    acks: usize,
    stage: WalkStage,
    leader: usize,
    candidates: Vec<usize>,
    next: usize,
    pool: Vec<usize>,
}

/// What a walk holds: acknowledgements wanted and got (the local one is the
/// first), the leader's position, the peers still to be asked, and those that
/// were asked in vain.
#[verifier::ext_equal]
pub struct WalkView {
    pub min_acks: nat,
    pub acks: nat,
    pub stage: WalkStage,
    pub leader: usize,
    pub ahead: Seq<usize>,
    pub pool: Seq<usize>,
}

/// A walk at its start.
pub open spec fn walk_begun(
    peers: Seq<NodeId>,
    leader: Option<u64>,
    local: NodeId,
    min_acks: nat,
) -> WalkView {
    let remote = leader is Some && leader != Some(local.0);
    let known = if remote {
        leader
    } else {
        None
    };
    WalkView {
        min_acks,
        acks: 1,
        stage: if leader_position(peers, known) is Some {
            WalkStage::Leader
        } else {
            WalkStage::BeforeTopUp
        },
        leader: match leader_position(peers, known) {
            Some(i) => i as usize,
            None => 0,
        },
        ahead: others(peers, known),
        pool: Seq::empty(),
    }
}

/// A peer answered, or did not.
pub open spec fn walk_answered(w: WalkView, acked: bool) -> WalkView {
    match w.stage {
        WalkStage::Leader => WalkView {
            acks: w.acks + (if acked {
                1nat
            } else {
                0nat
            }),
            pool: if acked {
                w.pool
            } else {
                w.pool.push(w.leader)
            },
            stage: WalkStage::BeforeTopUp,
            ..w
        },
        WalkStage::TopUp => if w.ahead.len() == 0 {
            w
        } else {
            WalkView {
                acks: w.acks + (if acked {
                    1nat
                } else {
                    0nat
                }),
                pool: if acked {
                    w.pool
                } else {
                    w.pool.push(w.ahead[0])
                },
                ahead: w.ahead.skip(1),
                ..w
            }
        },
        _ => w,
    }
}

/// The rotation was drawn.
pub open spec fn walk_rotated(w: WalkView, counter: u64) -> WalkView {
    WalkView {
        stage: WalkStage::TopUp,
        ahead: rotated(w.ahead, rotation(counter, w.ahead.len())),
        ..w
    }
}

/// So many peers acknowledged when they were asked again.
pub open spec fn walk_rescued(w: WalkView, acks: nat) -> WalkView {
    WalkView { acks: w.acks + acks, stage: WalkStage::Over, ..w }
}

/// The next action of a walk: enough acknowledgements end it; otherwise the
/// leader is asked, then the others in turn, then, once more and together, all
/// that did not acknowledge; and then the quorum is lost.
pub open spec fn walk_action(w: WalkView, a: WalkAction) -> bool {
    if w.acks >= w.min_acks {
        a == WalkAction::Reply(FlushReply::Durable)
    } else {
        match w.stage {
            WalkStage::Leader => a == WalkAction::AskLeader(w.leader),
            WalkStage::BeforeTopUp if w.ahead.len() > 0 => a is DrawRotation,
            WalkStage::TopUp if w.ahead.len() > 0 => a == WalkAction::Ask(w.ahead[0]),
            WalkStage::Over => a == WalkAction::Reply(FlushReply::QuorumLost),
            _ => if w.pool.len() > 0 {
                a matches WalkAction::Rescue { pool, needed } && pool@ == w.pool && needed
                    == w.min_acks - w.acks
            } else {
                a == WalkAction::Reply(FlushReply::QuorumLost)
            },
        }
    }
}

impl QuorumWalk {
    /// What the walk holds.
    pub closed spec fn view(&self) -> WalkView {
        WalkView {
            min_acks: self.min_acks as nat,
            acks: self.acks as nat,
            stage: self.stage,
            leader: self.leader,
            ahead: self.candidates@.skip(self.next as int),
            pool: self.pool@,
        }
    }

    /// The walk is in order.
    pub closed spec fn wf(&self) -> bool {
        self.next <= self.candidates@.len()
    }

    /// Starts a walk, after the local store recorded the batch. `peers` are the
    /// voters other than this node.
    pub fn begin(peers: &[NodeId], leader: Option<u64>, local: NodeId, min_acks: usize) -> (r: Self)
        ensures
            r.wf(),
            r.view() == walk_begun(peers@, leader, local, min_acks as nat),
    {
        let known: Option<u64> = match leader {
            Some(id) => if id == local.0 {
                None
            } else {
                Some(id)
            },
            None => None,
        };
        let mut found: Option<usize> = None;
        let mut candidates: Vec<usize> = Vec::new();
        let mut i: usize = 0;
        assert(peers@.take(0) =~= Seq::<NodeId>::empty());
        while i < peers.len()
            invariant
                i <= peers@.len(),
                match leader_position(peers@.take(i as int), known) {
                    Some(p) => found == Some(p as usize) && 0 <= p < i,
                    None => found is None,
                },
                candidates@ == others(peers@.take(i as int), known),
            decreases peers@.len() - i,
        {
            proof {
                let t = peers@.take(i + 1);
                assert(t.drop_last() =~= peers@.take(i as int));
                assert(t.last() == peers@[i as int]);
            }
            let is_leader: bool = match known {
                Some(id) => peers[i].0 == id,
                None => false,
            };
            if is_leader {
                if found.is_none() {
                    found = Some(i);
                }
            } else {
                candidates.push(i);
            }
            i = i + 1;
        }
        assert(peers@.take(i as int) =~= peers@);
        let r = QuorumWalk {
            min_acks,
            acks: 1,
            stage: if found.is_some() {
                WalkStage::Leader
            } else {
                WalkStage::BeforeTopUp
            },
            leader: match found {
                Some(p) => p,
                None => 0,
            },
            candidates,
            next: 0,
            pool: Vec::new(),
        };
        assert(r.candidates@.skip(0) =~= r.candidates@);
        assert(r.view() =~= walk_begun(peers@, leader, local, min_acks as nat));
        r
    }

    /// What the walk does next.
    pub fn action(&self) -> (r: WalkAction)
        requires
            self.wf(),
        ensures
            walk_action(self.view(), r),
    {
        if self.acks >= self.min_acks {
            return WalkAction::Reply(FlushReply::Durable);
        }
        match self.stage {
            WalkStage::Leader => {
                return WalkAction::AskLeader(self.leader);
            },
            WalkStage::BeforeTopUp => {
                if self.next < self.candidates.len() {
                    return WalkAction::DrawRotation;
                }
            },
            WalkStage::TopUp => {
                if self.next < self.candidates.len() {
                    return WalkAction::Ask(self.candidates[self.next]);
                }
            },
            WalkStage::Over => {
                return WalkAction::Reply(FlushReply::QuorumLost);
            },
        }
        if self.pool.len() == 0 {
            return WalkAction::Reply(FlushReply::QuorumLost);
        }
        let mut pool: Vec<usize> = Vec::new();
        let mut i: usize = 0;
        while i < self.pool.len()
            invariant
                i <= self.pool@.len(),
                pool@ == self.pool@.take(i as int),
            decreases self.pool@.len() - i,
        {
            pool.push(self.pool[i]);
            i = i + 1;
            assert(pool@ =~= self.pool@.take(i as int));
        }
        assert(pool@ =~= self.pool@);
        WalkAction::Rescue { pool, needed: self.min_acks - self.acks }
    }

    /// The peer that was asked acknowledged the batch, or did not.
    pub fn answered(&mut self, acked: bool)
        requires
            old(self).wf(),
            old(self).view().acks < old(self).view().min_acks,
        ensures
            final(self).wf(),
            final(self).view() == walk_answered(old(self).view(), acked),
    {
        let ghost w = self.view();
        match self.stage {
            WalkStage::Leader => {
                if acked {
                    self.acks = self.acks + 1;
                } else {
                    self.pool.push(self.leader);
                }
                self.stage = WalkStage::BeforeTopUp;
                assert(self.view() =~= walk_answered(w, acked));
            },
            WalkStage::TopUp => {
                if self.next < self.candidates.len() {
                    if acked {
                        self.acks = self.acks + 1;
                    } else {
                        self.pool.push(self.candidates[self.next]);
                    }
                    self.next = self.next + 1;
                    assert(self.candidates@.skip(self.next as int) =~= w.ahead.skip(1));
                }
                assert(self.view() =~= walk_answered(w, acked));
            },
            _ => {},
        }
    }

    /// The rotation of the top-up was drawn from a counter.
    pub fn rotate(&mut self, counter: u64)
        requires
            old(self).wf(),
        ensures
            final(self).wf(),
            final(self).view() == walk_rotated(old(self).view(), counter),
    {
        let ghost w = self.view();
        let total: usize = self.candidates.len();
        let len: usize = total - self.next;
        let mut k: usize = 0;
        if len > 0 {
            if counter <= usize::MAX as u64 {
                k = counter as usize % len;
            }
        }
        let mut turned: Vec<usize> = Vec::new();
        let mut i: usize = 0;
        let ghost goal = rotated(w.ahead, k as int);
        assert(goal.take(0) =~= Seq::<usize>::empty());
        while i < len
            invariant
                self.wf(),
                i <= len,
                len == w.ahead.len(),
                k <= len,
                w.ahead == self.candidates@.skip(self.next as int),
                goal == rotated(w.ahead, k as int),
                turned@ == goal.take(i as int),
                self.next + len == total,
                total == self.candidates@.len(),
            decreases len - i,
        {
            let at: usize = if i < len - k {
                self.next + k + i
            } else {
                self.next + (i - (len - k))
            };
            turned.push(self.candidates[at]);
            assert(goal[i as int] == self.candidates@[at as int]);
            i = i + 1;
            assert(turned@ =~= goal.take(i as int));
        }
        assert(goal.take(i as int) =~= goal);
        self.candidates = turned;
        self.next = 0;
        self.stage = WalkStage::TopUp;
        assert(self.candidates@.skip(0) =~= goal);
        assert(self.view() =~= walk_rotated(w, counter));
    }

    /// So many peers acknowledged when they were asked again.
    pub fn rescued(&mut self, acks: usize)
        requires
            old(self).wf(),
            old(self).view().acks + acks <= usize::MAX,
        ensures
            final(self).wf(),
            final(self).view() == walk_rescued(old(self).view(), acks as nat),
    {
        self.acks = self.acks + acks;
        self.stage = WalkStage::Over;
    }
}

/// Count of acknowledgements while peers are asked all at once.
pub struct RescueCount {
    /// Acknowledgements so far.
    pub acks: usize,
    /// Acknowledgements that are missing.
    pub needed: usize,
}

impl RescueCount {
    /// A count at its start.
    pub fn new(needed: usize) -> (r: Self)
        ensures
            r.acks == 0,
            r.needed == needed,
    {
        RescueCount { acks: 0, needed }
    }

    /// One peer answered; returns whether there are enough acknowledgements now.
    pub fn landed(&mut self, acked: bool) -> (r: bool)
        requires
            old(self).acks < old(self).needed,
        ensures
            final(self).needed == old(self).needed,
            final(self).acks == old(self).acks + (if acked {
                1int
            } else {
                0
            }),
            final(self).acks <= final(self).needed,
            r == (final(self).acks == final(self).needed),
    {
        if acked {
            self.acks = self.acks + 1;
        }
        self.acks >= self.needed
    }
}

/// Law: writers are told that a batch is durable only when at least `min_acks`
/// replicas hold it, and that the quorum is lost only when fewer do.
pub proof fn replies_are_honest(w: WalkView, a: WalkAction)
    requires
        walk_action(w, a),
    ensures
        a matches WalkAction::Reply(FlushReply::Durable) ==> w.acks >= w.min_acks,
        a matches WalkAction::Reply(FlushReply::QuorumLost) ==> w.acks < w.min_acks,
        a != WalkAction::Reply(FlushReply::Unavailable),
{
}

/// Law: the quorum is given up only once nobody is left to be asked: no peer is
/// ahead, and those that were asked in vain were asked again.
pub proof fn quorum_is_given_up_last(w: WalkView)
    requires
        walk_action(w, WalkAction::Reply(FlushReply::QuorumLost)),
        w.acks < w.min_acks,
    ensures
        w.stage == WalkStage::Over || (w.stage != WalkStage::Leader && w.pool.len() == 0
            && w.ahead.len() == 0),
{
}

/// Law: a leader on another node that is among the peers is asked before anybody
/// else.
pub proof fn leader_is_asked_first(
    peers: Seq<NodeId>,
    leader: u64,
    local: NodeId,
    min_acks: nat,
    i: int,
)
    requires
        leader != local.0,
        min_acks > 1,
        peers.len() <= usize::MAX,
        0 <= i < peers.len(),
        peers[i].0 == leader,
    ensures
        ({
            let w = walk_begun(peers, Some(leader), local, min_acks);
            &&& w.stage == WalkStage::Leader
            &&& w.leader < peers.len()
            &&& peers[w.leader as int].0 == leader
            &&& walk_action(w, WalkAction::AskLeader(w.leader))
        }),
{
    lemma_leader_position(peers, leader);
    lemma_positions_fit(peers, Some(leader));
    if leader_position(peers, Some(leader)) is None {
        assert(peers[i].0 != leader);
    }
}

proof fn lemma_leader_position(peers: Seq<NodeId>, leader: u64)
    ensures
        match leader_position(peers, Some(leader)) {
            Some(p) => 0 <= p < peers.len() && peers[p].0 == leader,
            None => forall|i: int| 0 <= i < peers.len() ==> (#[trigger] peers[i]).0 != leader,
        },
    decreases peers.len(),
{
    if peers.len() > 0 {
        let front = peers.drop_last();
        lemma_leader_position(front, leader);
        match leader_position(front, Some(leader)) {
            Some(p) => {
                assert(peers[p] == front[p]);
            },
            None => {
                assert forall|i: int| 0 <= i < front.len() implies (#[trigger] peers[i]).0
                    != leader by {
                    assert(peers[i] == front[i]);
                }
            },
        }
    }
}

/// Law: the others are asked at most once each, and the leader is not among them.
pub proof fn others_are_asked_once(peers: Seq<NodeId>, leader: Option<u64>)
    requires
        peers.len() <= usize::MAX,
    ensures
        others(peers, leader).no_duplicates(),
        forall|i: int|
            0 <= i < others(peers, leader).len() ==> (#[trigger] others(peers, leader)[i])
                < peers.len() && leader != Some(peers[others(peers, leader)[i] as int].0),
        forall|p: int|
            0 <= p < peers.len() && leader != Some((#[trigger] peers[p]).0) ==> others(
                peers,
                leader,
            ).contains(p as usize),
    decreases peers.len(),
{
    if peers.len() > 0 {
        let front = peers.drop_last();
        let o = others(front, leader);
        let all = others(peers, leader);
        let last = (peers.len() - 1) as usize;
        others_are_asked_once(front, leader);
        assert forall|i: int| 0 <= i < all.len() implies (#[trigger] all[i]) < peers.len()
            && leader != Some(peers[all[i] as int].0) by {
            if i < o.len() {
                assert(all[i] == o[i]);
                assert(peers[o[i] as int] == front[o[i] as int]);
            }
        }
        assert forall|p: int| 0 <= p < peers.len() && leader != Some(
            (#[trigger] peers[p]).0,
        ) implies all.contains(p as usize) by {
            if p < front.len() {
                assert(front[p] == peers[p]);
                assert(o.contains(p as usize));
                let i = choose|i: int| 0 <= i < o.len() && o[i] == p as usize;
                assert(all[i] == p as usize);
            } else {
                assert(all[all.len() - 1] == last);
            }
        }
        assert forall|i: int, j: int| 0 <= i < all.len() && 0 <= j < all.len() && i != j implies all[i]
            != all[j] by {
            if i < o.len() && j < o.len() {
                assert(o[i] != o[j]);
            } else if i < o.len() {
                assert(o[i] < front.len());
            } else if j < o.len() {
                assert(o[j] < front.len());
            }
        }
    }
}

proof fn lemma_positions_fit(peers: Seq<NodeId>, leader: Option<u64>)
    ensures
        leader_position(peers, leader) matches Some(p) ==> 0 <= p < peers.len(),
    decreases peers.len(),
{
    if peers.len() > 0 {
        lemma_positions_fit(peers.drop_last(), leader);
    }
}

/// Law: the rotation asks the same peers, in another order.
pub proof fn rotation_keeps_the_peers(s: Seq<usize>, counter: u64, q: usize)
    ensures
        rotated(s, rotation(counter, s.len())).contains(q) <==> s.contains(q),
        rotated(s, rotation(counter, s.len())).len() == s.len(),
{
    let k = rotation(counter, s.len());
    if s.len() > 0 {
        assert(0 <= k < s.len()) by (nonlinear_arith)
            requires
                s.len() > 0,
                k == (if counter <= usize::MAX {
                    counter as int % s.len() as int
                } else {
                    0
                }),
        ;
    }
    let t = rotated(s, k);
    if s.contains(q) {
        let i = choose|i: int| 0 <= i < s.len() && s[i] == q;
        if i >= k {
            assert(t[i - k] == q);
        } else {
            assert(t[s.len() - k + i] == q);
        }
    }
    if t.contains(q) {
        let i = choose|i: int| 0 <= i < t.len() && t[i] == q;
        if i < s.len() - k {
            assert(s[i + k] == q);
        } else {
            assert(s[i - (s.len() - k)] == q);
        }
    }
}

/// Law: an answer counts for what it is. While a peer is asked, an acknowledgement
/// raises the count by one, and a refusal by none; what is wanted never changes.
pub proof fn answer_counts_once(w: WalkView, acked: bool, peer: usize)
    requires
        walk_action(w, WalkAction::AskLeader(peer)) || walk_action(w, WalkAction::Ask(peer)),
    ensures
        walk_answered(w, true).acks == w.acks + 1,
        walk_answered(w, false).acks == w.acks,
        walk_answered(w, acked).min_acks == w.min_acks,
        walk_answered(w, acked).pool == (if acked {
            w.pool
        } else {
            w.pool.push(peer)
        }),
{
}

/// What happens to a walk between two of its actions.
pub enum WalkEvent {
    /// The peer that was asked answered.
    Answered {
        /// Its position.
        peer: usize,
        /// Whether it acknowledged the batch.
        acked: bool,
    },
    /// The rotation was drawn from a counter.
    Rotated(u64),
    /// Of the peers that were asked again, these acknowledged.
    Rescued(Set<usize>),
}

/// A walk after a run of events, and the peers that have acknowledged.
pub open spec fn walk_after(w: WalkView, events: Seq<WalkEvent>) -> (WalkView, Set<usize>)
    decreases events.len(),
{
    if events.len() == 0 {
        (w, Set::empty())
    } else {
        let (v, acked) = walk_after(w, events.drop_last());
        match events.last() {
            WalkEvent::Answered { peer, acked: yes } => (
                walk_answered(v, yes),
                if yes {
                    acked.insert(peer)
                } else {
                    acked
                },
            ),
            WalkEvent::Rotated(counter) => (walk_rotated(v, counter), acked),
            WalkEvent::Rescued(set) => (walk_rescued(v, set.len()), acked.union(set)),
        }
    }
}

/// Whether each event of a run is what the action before it calls for.
pub open spec fn walk_follows(w: WalkView, events: Seq<WalkEvent>) -> bool
    decreases events.len(),
{
    events.len() == 0 || {
        let v = walk_after(w, events.drop_last()).0;
        &&& walk_follows(w, events.drop_last())
        &&& match events.last() {
            WalkEvent::Answered { peer, .. } => walk_action(v, WalkAction::AskLeader(peer))
                || walk_action(v, WalkAction::Ask(peer)),
            WalkEvent::Rotated(_) => walk_action(v, WalkAction::DrawRotation),
            WalkEvent::Rescued(set) => exists|pool: Vec<usize>, needed: usize|
                {
                    &&& #[trigger] walk_action(v, WalkAction::Rescue { pool, needed })
                    &&& set.finite()
                    &&& forall|p: usize| #[trigger] set.contains(p) ==> pool@.contains(p)
                },
        }
    }
}

/// Whether a walk is in step with the peers that have acknowledged: each peer is ahead,
/// was asked in vain, has acknowledged, or is the leader that is asked first; and it is
/// one of these only.
spec fn walk_accounts(w: WalkView, peers: nat, acked: Set<usize>) -> bool {
    &&& w.ahead.no_duplicates()
    &&& w.pool.no_duplicates()
    &&& acked.finite()
    &&& w.acks == 1 + acked.len()
    &&& forall|i: int| 0 <= i < w.ahead.len() ==> (#[trigger] w.ahead[i]) < peers
    &&& forall|i: int| 0 <= i < w.pool.len() ==> (#[trigger] w.pool[i]) < peers
    &&& forall|p: usize| #[trigger] acked.contains(p) ==> p < peers
    &&& w.stage != WalkStage::Over ==> forall|p: usize|
        #![trigger w.ahead.contains(p)]
        #![trigger w.pool.contains(p)]
        #![trigger acked.contains(p)]
        !(w.ahead.contains(p) && w.pool.contains(p)) && !(w.ahead.contains(p) && acked.contains(p))
            && !(w.pool.contains(p) && acked.contains(p))
    &&& w.stage == WalkStage::Leader ==> w.leader < peers && !w.ahead.contains(w.leader)
        && !w.pool.contains(w.leader) && !acked.contains(w.leader)
}

proof fn lemma_walk_step(w: WalkView, peers: nat, acked: Set<usize>, event: WalkEvent)
    requires
        walk_accounts(w, peers, acked),
        match event {
            WalkEvent::Answered { peer, .. } => walk_action(w, WalkAction::AskLeader(peer))
                || walk_action(w, WalkAction::Ask(peer)),
            WalkEvent::Rotated(_) => walk_action(w, WalkAction::DrawRotation),
            WalkEvent::Rescued(set) => exists|pool: Vec<usize>, needed: usize|
                {
                    &&& #[trigger] walk_action(w, WalkAction::Rescue { pool, needed })
                    &&& set.finite()
                    &&& forall|p: usize| #[trigger] set.contains(p) ==> pool@.contains(p)
                },
        },
    ensures
        match event {
            WalkEvent::Answered { peer, acked: yes } => walk_accounts(
                walk_answered(w, yes),
                peers,
                if yes {
                    acked.insert(peer)
                } else {
                    acked
                },
            ) && !acked.contains(peer),
            WalkEvent::Rotated(counter) => walk_accounts(walk_rotated(w, counter), peers, acked),
            WalkEvent::Rescued(set) => walk_accounts(
                walk_rescued(w, set.len()),
                peers,
                acked.union(set),
            ) && acked.disjoint(set),
        },
{
    match event {
        WalkEvent::Answered { peer, acked: yes } => {
            let v = walk_answered(w, yes);
            let now = if yes {
                acked.insert(peer)
            } else {
                acked
            };
            if w.stage == WalkStage::Leader {
                assert(peer == w.leader);
                assert(v.ahead == w.ahead);
            } else {
                assert(w.stage == WalkStage::TopUp);
                assert(peer == w.ahead[0]);
                assert(w.ahead.contains(w.ahead[0]));
                assert forall|i: int| 0 <= i < v.ahead.len() implies (#[trigger] v.ahead[i])
                    == w.ahead[i + 1] by {}
                assert forall|p: usize| v.ahead.contains(p) implies w.ahead.contains(p) && p
                    != peer by {
                    let i = choose|i: int| 0 <= i < v.ahead.len() && v.ahead[i] == p;
                    assert(w.ahead[i + 1] == p);
                }
            }
            assert forall|p: usize| v.pool.contains(p) implies w.pool.contains(p) || (!yes && p
                == peer) by {
                let i = choose|i: int| 0 <= i < v.pool.len() && v.pool[i] == p;
                if i < w.pool.len() {
                    assert(w.pool[i] == p);
                }
            }
            assert forall|i: int| 0 <= i < v.pool.len() implies (#[trigger] v.pool[i]) < peers by {
                if i < w.pool.len() {
                    assert(v.pool[i] == w.pool[i]);
                }
            }
            assert(v.pool.no_duplicates()) by {
                assert forall|i: int, j: int| 0 <= i < v.pool.len() && 0 <= j < v.pool.len() && i
                    != j implies v.pool[i] != v.pool[j] by {
                    if i < w.pool.len() {
                        assert(w.pool.contains(w.pool[i]));
                    }
                    if j < w.pool.len() {
                        assert(w.pool.contains(w.pool[j]));
                    }
                }
            }
        },
        WalkEvent::Rotated(counter) => {
            let v = walk_rotated(w, counter);
            let k = rotation(counter, w.ahead.len());
            assert(0 <= k <= w.ahead.len()) by (nonlinear_arith)
                requires
                    k == (if w.ahead.len() == 0 {
                        0
                    } else if counter <= usize::MAX {
                        counter as int % w.ahead.len() as int
                    } else {
                        0
                    }),
            ;
            assert forall|p: usize| v.ahead.contains(p) <==> w.ahead.contains(p) by {
                rotation_keeps_the_peers(w.ahead, counter, p);
            }
            assert forall|i: int| 0 <= i < v.ahead.len() implies (#[trigger] v.ahead[i]) < peers by {
                assert(v.ahead.contains(v.ahead[i]));
                assert(w.ahead.contains(v.ahead[i]));
            }
        },
        WalkEvent::Rescued(set) => {
            let (pool, needed) = choose|pool: Vec<usize>, needed: usize|
                {
                    &&& #[trigger] walk_action(w, WalkAction::Rescue { pool, needed })
                    &&& set.finite()
                    &&& forall|p: usize| #[trigger] set.contains(p) ==> pool@.contains(p)
                };
            assert(pool@ == w.pool);
            assert forall|p: usize| #[trigger] set.contains(p) implies p < peers && !acked.contains(
                p,
            ) by {
                let i = choose|i: int| 0 <= i < w.pool.len() && w.pool[i] == p;
                assert(w.pool[i] < peers);
            }
            assert(acked.disjoint(set));
            vstd::set_lib::lemma_set_disjoint_lens(acked, set);
        },
    }
}

proof fn lemma_walk_accounts(
    peers: Seq<NodeId>,
    leader: Option<u64>,
    local: NodeId,
    min_acks: nat,
    events: Seq<WalkEvent>,
)
    requires
        peers.len() <= usize::MAX,
        walk_follows(walk_begun(peers, leader, local, min_acks), events),
    ensures
        ({
            let (w, acked) = walk_after(walk_begun(peers, leader, local, min_acks), events);
            walk_accounts(w, peers.len(), acked) && w.min_acks == min_acks
        }),
    decreases events.len(),
{
    let w0 = walk_begun(peers, leader, local, min_acks);
    if events.len() > 0 {
        let front = events.drop_last();
        lemma_walk_accounts(peers, leader, local, min_acks, front);
        let (w, acked) = walk_after(w0, front);
        lemma_walk_step(w, peers.len(), acked, events.last());
    } else {
        let known = if leader is Some && leader != Some(local.0) {
            leader
        } else {
            None
        };
        others_are_asked_once(peers, known);
        lemma_positions_fit(peers, known);
        if leader_position(peers, known) is Some {
            lemma_leader_position(peers, known->0);
        }
        assert forall|p: usize| others(peers, known).contains(p) implies p < peers.len()
            && known != Some(peers[p as int].0) by {
            let o = others(peers, known);
            let i = choose|i: int| 0 <= i < o.len() && o[i] == p;
            assert(o[i] < peers.len());
        }
    }
}

/// Law: writers are told that their batch is durable only where it is. Over every run of
/// answers, a walk counts one copy for the local store and one for each peer that
/// acknowledged, and no peer twice; it replies that the batch is durable only where
/// these are at least as many as are wanted, and that the quorum is lost only where
/// they are fewer.
pub proof fn durable_means_enough_copies(
    peers: Seq<NodeId>,
    leader: Option<u64>,
    local: NodeId,
    min_acks: nat,
    events: Seq<WalkEvent>,
)
    requires
        peers.len() <= usize::MAX,
        walk_follows(walk_begun(peers, leader, local, min_acks), events),
    ensures
        ({
            let (w, acked) = walk_after(walk_begun(peers, leader, local, min_acks), events);
            &&& acked.finite()
            &&& w.acks == 1 + acked.len()
            &&& forall|p: usize| #[trigger] acked.contains(p) ==> p < peers.len()
            &&& walk_action(w, WalkAction::Reply(FlushReply::Durable)) ==> acked.len() + 1
                >= min_acks
            &&& acked.len() + 1 >= min_acks ==> walk_action(
                w,
                WalkAction::Reply(FlushReply::Durable),
            )
            &&& walk_action(w, WalkAction::Reply(FlushReply::QuorumLost)) ==> acked.len() + 1
                < min_acks
            &&& !walk_action(w, WalkAction::Reply(FlushReply::Unavailable))
        }),
{
    lemma_walk_accounts(peers, leader, local, min_acks, events);
}

/// Law: nobody is passed over. Until a walk is over, each peer is still ahead, was asked
/// in vain and will be asked again, or has acknowledged, or is the leader that is asked
/// first; so a quorum is given up before the last round only where every peer has
/// acknowledged.
pub proof fn every_peer_is_asked(
    peers: Seq<NodeId>,
    leader: Option<u64>,
    local: NodeId,
    min_acks: nat,
    events: Seq<WalkEvent>,
    p: int,
)
    requires
        peers.len() <= usize::MAX,
        walk_follows(walk_begun(peers, leader, local, min_acks), events),
        0 <= p < peers.len(),
        forall|i: int, j: int|
            0 <= i < j < peers.len() ==> (#[trigger] peers[i]).0 != (#[trigger] peers[j]).0,
    ensures
        ({
            let (w, acked) = walk_after(walk_begun(peers, leader, local, min_acks), events);
            &&& w.ahead.contains(p as usize) || w.pool.contains(p as usize) || acked.contains(
                p as usize,
            ) || (w.stage == WalkStage::Leader && w.leader == p)
            &&& walk_action(w, WalkAction::Reply(FlushReply::QuorumLost)) && w.stage
                != WalkStage::Over ==> acked.contains(p as usize)
        }),
    decreases events.len(),
{
    let w0 = walk_begun(peers, leader, local, min_acks);
    let (w, acked) = walk_after(w0, events);
    let q = p as usize;
    if events.len() > 0 {
        let front = events.drop_last();
        every_peer_is_asked(peers, leader, local, min_acks, front, p);
        let (v, before) = walk_after(w0, front);
        match events.last() {
            WalkEvent::Answered { peer, acked: yes } => {
                if v.pool.contains(q) {
                    let i = choose|i: int| 0 <= i < v.pool.len() && v.pool[i] == q;
                    assert(w.pool[i] == q);
                }
                if q == peer && !yes {
                    assert(w.pool[w.pool.len() - 1] == q);
                }
                if v.ahead.contains(q) && q != peer {
                    let i = choose|i: int| 0 <= i < v.ahead.len() && v.ahead[i] == q;
                    if v.stage == WalkStage::TopUp {
                        assert(i > 0);
                        assert(w.ahead[i - 1] == q);
                    }
                }
            },
            WalkEvent::Rotated(counter) => {
                rotation_keeps_the_peers(v.ahead, counter, q);
            },
            WalkEvent::Rescued(_) => {},
        }
    } else {
        let known = if leader is Some && leader != Some(local.0) {
            leader
        } else {
            None
        };
        others_are_asked_once(peers, known);
        if known == Some(peers[p].0) {
            lemma_leader_position(peers, known->0);
            let l = leader_position(peers, known)->0;
            if leader_position(peers, known) is None {
                assert(peers[p].0 != known->0);
            }
            if l < p {
                assert(peers[l].0 != peers[p].0);
            } else if p < l {
                assert(peers[p].0 != peers[l].0);
            }
        }
    }
}

/// Law: a peer acknowledges a batch exactly where it answers for at least one intent, and
/// for none of them in the negative.
pub proof fn acknowledgement_needs_every_intent(acks: Seq<bool>, n: int)
    ensures
        acknowledges(acks) ==> acks.len() > 0,
        0 <= n < acks.len() && !acks[n] ==> !acknowledges(acks),
        acks.len() > 0 && (forall|i: int| 0 <= i < acks.len() ==> #[trigger] acks[i])
            ==> acknowledges(acks),
{
}

/// Law: of the writers that join an idle queue one after the other, the first flushes and
/// no other does; the others wait, and each of them wakes the flusher from the one on that
/// makes the batch full.
pub proof fn batch_has_one_flusher(i: nat, cap_max: usize)
    ensures
        role_of(i > 0, i, cap_max) == SubmitRole::Flusher <==> i == 0,
        i > 0 && i + 1 < cap_max ==> role_of(i > 0, i, cap_max) == (SubmitRole::Waiter {
            wake: false,
        }),
        i > 0 && i + 1 >= cap_max ==> role_of(i > 0, i, cap_max) == (SubmitRole::Waiter {
            wake: true,
        }),
{
}

/// Law: the local copy counts as one. A batch that was not recorded here is refused, one
/// for which one copy is enough is durable, and for any other the peers decide; a walk over
/// them starts with this one copy.
pub proof fn local_copy_counts_as_one(
    recorded: bool,
    min_acks: usize,
    peers: Seq<NodeId>,
    leader: Option<u64>,
    local: NodeId,
)
    ensures
        local_reply(recorded, min_acks) == Some(FlushReply::Unavailable) <==> !recorded,
        local_reply(recorded, min_acks) == Some(FlushReply::Durable) <==> recorded && min_acks <= 1,
        local_reply(recorded, min_acks) != Some(FlushReply::QuorumLost),
        walk_begun(peers, leader, local, min_acks as nat).acks == 1,
        walk_begun(peers, leader, local, min_acks as nat).min_acks == min_acks,
{
}

/// Law: a writer is told that its write holds exactly where its batch is durable, and
/// otherwise whether the quorum was lost.
pub proof fn writer_is_told_what_became_of_the_batch(reply: FlushReply, shard_id: ShardId)
    ensures
        outcome_of(reply, shard_id) is Ok <==> reply == FlushReply::Durable,
        outcome_of(reply, shard_id) == Err::<(), LogError>(LogError::QuorumLost(shard_id))
            <==> reply == FlushReply::QuorumLost,
        outcome_of(reply, shard_id) == Err::<(), LogError>(LogError::Unavailable) <==> reply
            == FlushReply::Unavailable,
{
}

/// Law: a rotation moves every peer the same number of places, round the end: by as many as
/// the counter says.
pub proof fn rotation_goes_round(s: Seq<usize>, counter: u64, i: int)
    requires
        0 <= i < s.len(),
        counter <= usize::MAX,
    ensures
        rotated(s, rotation(counter, s.len())).len() == s.len(),
        rotated(s, rotation(counter, s.len()))[i] == s[(i + counter) % s.len() as int],
{
    let n = s.len() as int;
    let k = counter as int % n;
    vstd::arithmetic::div_mod::lemma_mod_bound(counter as int, n);
    vstd::arithmetic::div_mod::lemma_add_mod_noop_right(i, counter as int, n);
    assert((i + k) % n == (i + counter) % n);
    if i + k < n {
        vstd::arithmetic::div_mod::lemma_small_mod((i + k) as nat, n as nat);
    } else {
        vstd::arithmetic::div_mod::lemma_mod_add_multiples_vanish(i + k - n, n);
        vstd::arithmetic::div_mod::lemma_small_mod((i + k - n) as nat, n as nat);
    }
}

} // verus!
