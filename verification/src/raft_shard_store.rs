//! The shards of a node: which it hosts, whom it fans writes to, and the split and
//! the merge of shards on top of consensus.

use vstd::prelude::*;

use crate::auto_split::halfway;
use crate::auto_split::key_average;
use crate::bytes::{be_value, lemma_be_value_injective};
use crate::bytes::{order_bytes, KeyOrder};
use crate::delta::{delta_views, DeltaView};
use crate::delta::Delta;
use crate::error::log_error_text;
use crate::error::LogError;
use crate::ids::{uuid_to_string, NodeId, SequenceNumber, ShardId};
use crate::ids::{lemma_array32_equal, uuid_text};
use crate::ordered_map::{OrderedKey, OrderedMap};
use crate::traits::{
    lemma_numbered_concat, lemma_numbered_none, lemma_total_cost_concat, lemma_total_cost_prefix,
};
use crate::raft_store::key_in_range;
use crate::reissue::{append_all, check_history};
use crate::reissue::{
    all_accepted, lemma_refilled_frame, pruned, pruned_refusal, refilled, refilled_to, reissued,
    reissues, stamped_as_asked,
};
use crate::settings::{number_or, positive_or, text_of};
use crate::settings::{positive_usize_or, usize_or};
use crate::shard::{busy_error, ShardState};
use crate::shard::{busy_reason, ShardInfoView};
use crate::text::join4;
use crate::time::TimestampView;
use crate::traits::{
    append_refusal, fresh_shard, in_range, key_between, numbered, ranged_in, requested_delta,
    shard_has_room_for, state_set_in, AppendView, ShardModel,
};
use crate::traits::{LogOps, ReadDeltasRequest};

verus! {

/// Replicas that an answered write is durable on, by default.
pub const DEFAULT_MIN_ACKS: usize = 2;

/// Milliseconds that a peer has to answer a fanned write.
pub const INTENT_FAN_PEER_TIMEOUT_MS: u64 = 3_000;

/// How often the construction of a shard's store is tried.
pub const MAX_CONSTRUCTION_ATTEMPTS: u32 = 5;

/// Milliseconds between two tries.
pub const CONSTRUCTION_RETRY_INTERVAL_MS: u64 = 500;

/// Replicas that an answered write is durable on: the setting, or the default.
pub fn min_acks_from_env(v: Option<&str>) -> (r: usize)
    ensures
        r == positive_or(text_of(v), usize::MAX as nat, DEFAULT_MIN_ACKS as nat),
{
    positive_usize_or(v, DEFAULT_MIN_ACKS)
}

/// Threads of the runtime by default: half of the processors, and at least four;
/// eight where the number of processors is not known.
pub open spec fn default_threads(processors: Option<usize>) -> usize {
    match processors {
        Some(n) => if n / 2 >= 4 {
            n / 2
        } else {
            4
        },
        None => 8,
    }
}

/// Threads of the runtime: the setting, or the default.
pub fn raft_threads(v: Option<&str>, processors: Option<usize>) -> (r: usize)
    ensures
        r == number_or(text_of(v), usize::MAX as nat, default_threads(processors) as nat),
{
    let default: usize = match processors {
        Some(n) => if n / 2 >= 4 {
            n / 2
        } else {
            4
        },
        None => 8,
    };
    usize_or(v, default)
}

/// Whether the construction of a store is tried again after attempt `attempt`.
pub fn attempt_again(attempt: u32) -> (r: bool)
    ensures
        r == (attempt < MAX_CONSTRUCTION_ATTEMPTS),
{
    attempt < MAX_CONSTRUCTION_ATTEMPTS
}

/// The message of a construction that failed for good.
pub fn construction_failed(shard_id: ShardId, last: Option<&LogError>) -> (r: String)
    ensures
        r@ == "OpenRaftLogStore::new failed after 5 attempts for shard "@ + uuid_text(shard_id.0)
            + ": "@ + (match last {
            Some(e) => log_error_text(*e),
            None => "no error recorded"@,
        }),
{
    let cause = match last {
        Some(e) => e.message(),
        None => "no error recorded".to_owned(),
    };
    let id = uuid_to_string(shard_id.0);
    join4(
        "OpenRaftLogStore::new failed after 5 attempts for shard ",
        id.as_str(),
        ": ",
        cause.as_str(),
    )
}

/// What runs for a shard besides its replica.
#[derive(Clone, Copy, Debug, PartialEq, Eq, Structural)]
pub struct ShardParts {
    /// Its intents survive a crash.
    pub durable: bool,
    /// A supervisor of its committer.
    pub supervisor: bool,
    /// A coalescer of fanned writes.
    pub fan_coalescer: bool,
    /// A coalescer of received writes.
    pub recv_coalescer: bool,
}

/// The shards of a node.
pub struct RaftShardStore {
    node_id: u64,
    peers: OrderedMap<NodeId, String>,
    min_acks: usize,
    durable: bool,
    shards: OrderedMap<ShardId, bool>,
}

/// The addresses of voters other than this node, in the order of the voters; one
/// without an address is left out.
pub open spec fn voter_peers(
    voters: Seq<u64>,
    local: u64,
    peers: Map<NodeId, Seq<char>>,
) -> Seq<(NodeId, Seq<char>)>
    decreases voters.len(),
{
    if voters.len() == 0 {
        Seq::empty()
    } else {
        let front = voter_peers(voters.drop_last(), local, peers);
        let id = voters.last();
        if id != local && peers.contains_key(NodeId(id)) {
            front.push((NodeId(id), peers[NodeId(id)]))
        } else {
            front
        }
    }
}

/// What a list of peers holds.
pub open spec fn address_views(s: Seq<(NodeId, String)>) -> Seq<(NodeId, Seq<char>)> {
    Seq::new(s.len(), |i: int| (s[i].0, s[i].1@))
}

/// The addresses that a list of nodes gives; of a node that is there twice, the
/// last.
pub open spec fn addresses(s: Seq<(u64, Seq<char>)>) -> Map<NodeId, Seq<char>>
    decreases s.len(),
{
    if s.len() == 0 {
        Map::empty()
    } else {
        addresses(s.drop_last()).insert(NodeId(s.last().0), s.last().1)
    }
}

/// What a list of nodes holds.
pub open spec fn node_views(s: Seq<(u64, String)>) -> Seq<(u64, Seq<char>)> {
    Seq::new(s.len(), |i: int| (s[i].0, s[i].1@))
}

impl RaftShardStore {
    /// The store is in order.
    pub closed spec fn wf(&self) -> bool {
        self.peers.wf() && self.shards.wf()
    }

    /// This node.
    pub closed spec fn local(&self) -> u64 {
        self.node_id
    }

    /// Replicas that an answered write is durable on.
    pub closed spec fn acks(&self) -> usize {
        self.min_acks
    }

    /// Whether shards have a directory for their intents.
    pub closed spec fn keeps_intents(&self) -> bool {
        self.durable
    }

    /// Addresses of the nodes.
    pub closed spec fn peer_addresses(&self) -> Map<NodeId, Seq<char>> {
        self.peers@.map_values(|s: String| s@)
    }

    /// The shards, and whether their intents survive a crash.
    pub closed spec fn hosted(&self) -> Map<ShardId, bool> {
        self.shards@
    }

    /// A store without shards.
    pub fn new(node_id: u64, peers: &Vec<(u64, String)>, durable: bool, min_acks: usize) -> (r: Self)
        ensures
            r.wf(),
            r.local() == node_id,
            r.acks() == min_acks,
            r.keeps_intents() == durable,
            r.peer_addresses() == addresses(node_views(peers@)),
            r.hosted() == Map::<ShardId, bool>::empty(),
    {
        let ghost views = node_views(peers@);
        let mut map: OrderedMap<NodeId, String> = OrderedMap::new();
        let mut i: usize = 0;
        proof {
            assert(views.take(0) =~= Seq::<(u64, Seq<char>)>::empty());
            assert(map@.map_values(|s: String| s@) =~= Map::<NodeId, Seq<char>>::empty());
        }
        while i < peers.len()
            invariant
                i <= peers@.len(),
                views == node_views(peers@),
                map.wf(),
                map@.map_values(|s: String| s@) =~= addresses(views.take(i as int)),
            decreases peers@.len() - i,
        {
            proof {
                let t = views.take(i + 1);
                assert(t.drop_last() =~= views.take(i as int));
                assert(t.last() == (peers@[i as int].0, peers@[i as int].1@));
            }
            map.insert(NodeId(peers[i].0), peers[i].1.clone());
            i = i + 1;
        }
        assert(views.take(i as int) =~= views);
        RaftShardStore { node_id, peers: map, min_acks, durable, shards: OrderedMap::new() }
    }

    /// Whether this node hosts a shard.
    pub fn has_shard(&self, shard_id: ShardId) -> (r: bool)
        requires
            self.wf(),
        ensures
            r == self.hosted().contains_key(shard_id),
    {
        self.shards.contains(&shard_id)
    }

    /// Refuses a shard that this node does not host.
    pub fn get_shard(&self, shard_id: ShardId) -> (r: Result<(), LogError>)
        requires
            self.wf(),
        ensures
            r == (if self.hosted().contains_key(shard_id) {
                Ok::<(), LogError>(())
            } else {
                Err::<(), LogError>(LogError::ShardNotFound(shard_id))
            }),
    {
        if self.shards.contains(&shard_id) {
            Ok(())
        } else {
            Err(LogError::ShardNotFound(shard_id))
        }
    }

    /// The shards of this node.
    pub fn shard_ids(&self) -> (r: Vec<ShardId>)
        requires
            self.wf(),
        ensures
            r@.to_set() == self.hosted().dom(),
            r@.no_duplicates(),
    {
        let m = &self.shards;
        proof {
            m.lemma_entries();
        }
        let mut out: Vec<ShardId> = Vec::new();
        let mut i: usize = 0;
        while i < m.len()
            invariant
                m.wf(),
                i <= m.entries().len(),
                out@.len() == i,
                forall|j: int| 0 <= j < i ==> (#[trigger] out@[j]) == m.entries()[j].0,
            decreases m.entries().len() - i,
        {
            out.push(m.at(i).0);
            i = i + 1;
        }
        proof {
            assert forall|a: int, b: int| 0 <= a < b < out@.len() implies (#[trigger] out@[a])
                != (#[trigger] out@[b]) by {
                assert(m.entries()[a].0.rank() < m.entries()[b].0.rank());
            }
            assert forall|q: ShardId| out@.to_set().contains(q)
                <==> m@.dom().contains(q) by {
                if out@.contains(q) {
                    let j = choose|j: int| 0 <= j < out@.len() && out@[j] == q;
                    assert(m.entries()[j].0 == q);
                }
                if m@.contains_key(q) {
                    let j = choose|j: int|
                        0 <= j < m.entries().len() && (#[trigger] m.entries()[j]).0 == q;
                    assert(out@[j] == q);
                }
            }
            assert(out@.to_set() =~= m@.dom());
        }
        out
    }

    /// Hosts a shard; returns what is to run for it. Only a shard whose intents
    /// survive a crash takes decoupled writes.
    pub fn create_shard(&mut self, shard_id: ShardId) -> (r: ShardParts)
        requires
            old(self).wf(),
        ensures
            final(self).wf(),
            final(self).local() == old(self).local(),
            final(self).acks() == old(self).acks(),
            final(self).keeps_intents() == old(self).keeps_intents(),
            final(self).peer_addresses() == old(self).peer_addresses(),
            final(self).hosted() == old(self).hosted().insert(shard_id, old(self).keeps_intents()),
            r == (ShardParts {
                durable: old(self).keeps_intents(),
                supervisor: old(self).keeps_intents(),
                fan_coalescer: old(self).keeps_intents(),
                recv_coalescer: old(self).keeps_intents(),
            }),
    {
        let durable: bool = self.durable;
        self.shards.insert(shard_id, durable);
        ShardParts {
            durable,
            supervisor: durable,
            fan_coalescer: durable,
            recv_coalescer: durable,
        }
    }

    /// Hosts a shard no longer; returns whether it did.
    pub fn retire_shard(&mut self, shard_id: ShardId) -> (r: bool)
        requires
            old(self).wf(),
        ensures
            final(self).wf(),
            final(self).local() == old(self).local(),
            final(self).acks() == old(self).acks(),
            final(self).keeps_intents() == old(self).keeps_intents(),
            final(self).peer_addresses() == old(self).peer_addresses(),
            final(self).hosted() == old(self).hosted().remove(shard_id),
            r == old(self).hosted().contains_key(shard_id),
    {
        self.shards.remove(&shard_id).is_some()
    }

    /// Whether a decoupled write to a shard may go on to the fan: only where this
    /// node hosts the shard and its intents survive a crash.
    pub fn put_intent_and_fan(&self, shard_id: ShardId) -> (r: Result<(), LogError>)
        requires
            self.wf(),
        ensures
            r == fan_admission(self.hosted(), shard_id),
    {
        match self.shards.get(&shard_id) {
            Some(durable) => if *durable {
                Ok(())
            } else {
                Err(LogError::Unavailable)
            },
            None => Err(LogError::ShardNotFound(shard_id)),
        }
    }

    /// The peers that a shard's writes are fanned to and its intents gathered from,
    /// given its voters; `None` for a shard that this node does not host.
    pub fn resolve_voter_peers(&self, shard_id: ShardId, voters: &Vec<u64>) -> (r: Option<
        Vec<(NodeId, String)>,
    >)
        requires
            self.wf(),
        ensures
            r is Some <==> self.hosted().contains_key(shard_id),
            r matches Some(v) ==> address_views(v@) == voter_peers(
                voters@,
                self.local(),
                self.peer_addresses(),
            ),
    {
        if !self.shards.contains(&shard_id) {
            return None;
        }
        let mut out: Vec<(NodeId, String)> = Vec::new();
        let mut i: usize = 0;
        assert(voters@.take(0) =~= Seq::<u64>::empty());
        assert(address_views(out@) =~= Seq::<(NodeId, Seq<char>)>::empty());
        while i < voters.len()
            invariant
                self.wf(),
                i <= voters@.len(),
                address_views(out@) == voter_peers(
                    voters@.take(i as int),
                    self.local(),
                    self.peer_addresses(),
                ),
            decreases voters@.len() - i,
        {
            let id: u64 = voters[i];
            proof {
                let t = voters@.take(i + 1);
                assert(t.drop_last() =~= voters@.take(i as int));
                assert(t.last() == id);
            }
            if id != self.node_id {
                match self.peers.get(&NodeId(id)) {
                    Some(addr) => {
                        let ghost o0 = out@;
                        out.push((NodeId(id), addr.clone()));
                        assert(address_views(out@) =~= address_views(o0).push(
                            (NodeId(id), addr@),
                        ));
                    },
                    None => {},
                }
            }
            i = i + 1;
        }
        assert(voters@.take(i as int) =~= voters@);
        Some(out)
    }

    /// Number of voters that recovery counts with.
    pub fn cluster_size(&self) -> (r: usize)
        requires
            self.wf(),
        ensures
            r == voters_counted(self.peer_addresses()),
    {
        let n: usize = self.peers.len();
        assert(self.peer_addresses().dom() =~= self.peers@.dom());
        if n >= 1 {
            n
        } else {
            1
        }
    }

    /// Whether a new shard is initialised at once: only where there is no other
    /// node.
    pub fn initializes_alone(&self) -> (r: bool)
        requires
            self.wf(),
        ensures
            r == (voters_counted(self.peer_addresses()) == 1),
    {
        assert(self.peer_addresses().dom() =~= self.peers@.dom());
        self.peers.len() <= 1
    }
}

/// Whether a decoupled write may go on to the fan, given the shards that a node hosts and
/// whether their intents survive a crash.
pub open spec fn fan_admission(hosted: Map<ShardId, bool>, shard_id: ShardId) -> Result<
    (),
    LogError,
> {
    if !hosted.contains_key(shard_id) {
        Err(LogError::ShardNotFound(shard_id))
    } else if !hosted[shard_id] {
        Err(LogError::Unavailable)
    } else {
        Ok(())
    }
}

/// Number of voters, given the addresses of the nodes.
pub open spec fn voters_counted(peers: Map<NodeId, Seq<char>>) -> nat {
    if peers.dom().len() >= 1 {
        peers.dom().len()
    } else {
        1
    }
}

/// Whether an error only sends a write on to the leader.
pub open spec fn routine(e: LogError) -> bool {
    e is ForwardToLeader || e is LeaderUnavailable
}

/// Whether an error of an append is routine: the write is sent on to the leader.
pub fn is_routine(e: &LogError) -> (r: bool)
    ensures
        r == routine(*e),
{
    match e {
        LogError::ForwardToLeader { .. } => true,
        LogError::LeaderUnavailable(_) => true,
        _ => false,
    }
}

// ---------------------------------------------------------------------------
// Split and merge
// ---------------------------------------------------------------------------

/// Most deltas that one read of a redistribution asks for.
pub const REDISTRIBUTE_BATCH: u64 = 1024;

/// Last number of the batch that starts at `from`.
pub open spec fn batch_end(from: u64, tip: u64) -> u64 {
    if tip - from >= REDISTRIBUTE_BATCH {
        (from + REDISTRIBUTE_BATCH - 1) as u64
    } else {
        tip
    }
}

/// The deltas numbered `from..=tip`, read batch by batch.
pub open spec fn batched(d: Seq<DeltaView>, from: int, tip: u64) -> Seq<DeltaView>
    decreases tip - from + 1,
{
    if from < 0 || from > tip {
        Seq::empty()
    } else {
        let to = batch_end(from as u64, tip);
        numbered(d, from as u64, to) + batched(d, to + 1, tip)
    }
}

/// The deltas with a key in `start..end`, in order.
pub open spec fn keys_within(d: Seq<DeltaView>, start: [u8; 32], end: [u8; 32]) -> Seq<DeltaView>
    decreases d.len(),
{
    if d.len() == 0 {
        d
    } else {
        let front = keys_within(d.drop_last(), start, end);
        if be_value(start@) <= be_value(d.last().header.hashed_key@) < be_value(end@) {
            front.push(d.last())
        } else {
            front
        }
    }
}

/// What a key range picks of a list, it picks part by part.
proof fn lemma_keys_concat(a: Seq<DeltaView>, b: Seq<DeltaView>, start: [u8; 32], end: [u8; 32])
    ensures
        keys_within(a + b, start, end) == keys_within(a, start, end) + keys_within(b, start, end),
    decreases b.len(),
{
    if b.len() == 0 {
        assert(a + b =~= a);
        assert(keys_within(a, start, end) + keys_within(b, start, end) =~= keys_within(
            a,
            start,
            end,
        ));
    } else {
        let f = b.drop_last();
        lemma_keys_concat(a, f, start, end);
        assert((a + b).drop_last() =~= a + f);
        assert((a + b).last() == b.last());
        assert(keys_within(a, start, end) + keys_within(f, start, end).push(b.last()) =~= (
        keys_within(a, start, end) + keys_within(f, start, end)).push(b.last()));
    }
}

/// Picks the deltas with a key in a range.
fn pick_within(deltas: &Vec<Delta>, start: &[u8; 32], end: &[u8; 32]) -> (r: Vec<Delta>)
    ensures
        delta_views(r@) == keys_within(delta_views(deltas@), *start, *end),
{
    let ghost d = delta_views(deltas@);
    let mut out: Vec<Delta> = Vec::new();
    let mut i: usize = 0;
    assert(d.take(0) =~= Seq::<DeltaView>::empty());
    assert(delta_views(out@) =~= Seq::<DeltaView>::empty());
    while i < deltas.len()
        invariant
            i <= deltas@.len(),
            d == delta_views(deltas@),
            delta_views(out@) == keys_within(d.take(i as int), *start, *end),
        decreases deltas@.len() - i,
    {
        proof {
            let t = d.take(i + 1);
            assert(t.drop_last() =~= d.take(i as int));
            assert(t.last() == deltas@[i as int]@);
        }
        if key_in_range(&deltas[i].header.hashed_key, start, end) {
            let ghost o0 = out@;
            out.push(deltas[i].clone());
            assert(delta_views(out@) =~= delta_views(o0).push(deltas@[i as int]@));
        }
        i = i + 1;
    }
    assert(d.take(i as int) =~= d);
    out
}

/// Appends in two parts are the appends of both.
proof fn lemma_refilled_concat(
    shards: Map<ShardId, ShardModel>,
    a: Seq<AppendView>,
    sa: Seq<TimestampView>,
    b: Seq<AppendView>,
    sb: Seq<TimestampView>,
)
    requires
        sa.len() == a.len(),
        sb.len() == b.len(),
    ensures
        refilled(refilled(shards, a, sa), b, sb) == refilled(shards, a + b, sa + sb),
    decreases b.len(),
{
    if b.len() == 0 {
        assert(a + b =~= a);
        assert(sa + sb =~= sa);
    } else {
        lemma_refilled_concat(shards, a, sa, b.drop_last(), sb.drop_last());
        assert((a + b).drop_last() =~= a + b.drop_last());
        assert((sa + sb).drop_last() =~= sa + sb.drop_last());
        assert((a + b).last() == b.last());
        assert((sa + sb).last() == sb.last());
    }
}

/// Appended deltas follow those that were there, numbered on from the tip.
pub proof fn lemma_refilled_numbers(
    shards: Map<ShardId, ShardModel>,
    reqs: Seq<AppendView>,
    stamps: Seq<TimestampView>,
    target: ShardId,
    i: int,
)
    requires
        shards.contains_key(target),
        stamps.len() == reqs.len(),
        shard_has_room_for(shards[target], reqs),
        forall|j: int| 0 <= j < reqs.len() ==> (#[trigger] reqs[j]).shard_id == target,
        0 <= i < reqs.len(),
    ensures
        shards[target].info.tip + 1 + i <= u64::MAX,
        refilled(shards, reqs, stamps)[target].deltas[shards[target].deltas.len() + i]
            == requested_delta(reqs[i], (shards[target].info.tip + 1 + i) as u64, stamps[i]),
    decreases reqs.len(),
{
    let r = reqs.drop_last();
    let t = stamps.drop_last();
    lemma_refilled_frame(shards, r, t, target);
    assert(reqs.last().shard_id == target);
    if i < reqs.len() - 1 {
        lemma_refilled_numbers(shards, r, t, target, i);
    }
}

/// What is read up to the tip does not change by appends.
proof fn lemma_read_unchanged(
    shards: Map<ShardId, ShardModel>,
    reqs: Seq<AppendView>,
    stamps: Seq<TimestampView>,
    source: ShardId,
    target: ShardId,
    from: u64,
    to: u64,
)
    requires
        shards.contains_key(source),
        reqs.len() > 0 ==> shards.contains_key(target) && shard_has_room_for(
            shards[target],
            reqs,
        ),
        stamps.len() == reqs.len(),
        forall|j: int| 0 <= j < reqs.len() ==> (#[trigger] reqs[j]).shard_id == target,
        to <= shards[source].info.tip,
    ensures
        refilled(shards, reqs, stamps).contains_key(source),
        numbered(refilled(shards, reqs, stamps)[source].deltas, from, to) == numbered(
            shards[source].deltas,
            from,
            to,
        ),
{
    if reqs.len() > 0 {
        lemma_refilled_frame(shards, reqs, stamps, target);
        assert(refilled(shards, reqs, stamps).dom().contains(source));
        if source == target {
            let d = shards[target].deltas;
            let all = refilled(shards, reqs, stamps)[target].deltas;
            let n = d.len() as int;
            let extra = all.skip(n);
            assert(all =~= d + extra);
            assert forall|i: int| 0 <= i < extra.len() implies !(from <= (
            #[trigger] extra[i]).header.sequence <= to) by {
                lemma_refilled_numbers(shards, reqs, stamps, target, i);
                assert(extra[i] == all[n + i]);
            }
            lemma_numbered_none(extra, from, to);
            lemma_numbered_concat(d, extra, from, to);
            assert(numbered(d, from, to) + Seq::<DeltaView>::empty() =~= numbered(d, from, to));
        }
    }
}

/// Whether an append is refused does not change by other appends.
proof fn lemma_refusal_unchanged(
    shards: Map<ShardId, ShardModel>,
    reqs: Seq<AppendView>,
    stamps: Seq<TimestampView>,
    target: ShardId,
    req: AppendView,
)
    requires
        reqs.len() > 0 ==> shards.contains_key(target) && shard_has_room_for(
            shards[target],
            reqs,
        ),
        stamps.len() == reqs.len(),
        forall|j: int| 0 <= j < reqs.len() ==> (#[trigger] reqs[j]).shard_id == target,
        req.shard_id == target,
    ensures
        append_refusal(refilled(shards, reqs, stamps), req) == append_refusal(shards, req),
{
    if reqs.len() > 0 {
        lemma_refilled_frame(shards, reqs, stamps, target);
        assert(refilled(shards, reqs, stamps).dom().contains(target));
    }
}

/// The timestamps of two parts of a list of appends are those of both.
proof fn lemma_stamped_concat(
    reqs: Seq<AppendView>,
    a: Seq<AppendView>,
    sa: Seq<TimestampView>,
    b: Seq<AppendView>,
    sb: Seq<TimestampView>,
)
    requires
        a.len() + b.len() <= reqs.len(),
        sa.len() == a.len(),
        sb.len() <= b.len(),
        forall|i: int| 0 <= i < b.len() ==> reqs[a.len() + i] == #[trigger] b[i],
        stamped_as_asked(reqs, sa),
        stamped_as_asked(b, sb),
    ensures
        stamped_as_asked(reqs, sa + sb),
{
    assert forall|i: int| 0 <= i < (sa + sb).len() implies #[trigger] (sa + sb)[i]
        == reqs[i].timestamp by {
        if i < sa.len() {
            assert((sa + sb)[i] == sa[i]);
        } else {
            let k = i - sa.len();
            assert((sa + sb)[i] == sb[k]);
            assert(reqs[a.len() + k] == b[k]);
        }
    }
}

/// The appends that a redistribution makes.
pub open spec fn redistributed(
    shards: Map<ShardId, ShardModel>,
    source: ShardId,
    target: ShardId,
    start: [u8; 32],
    end: [u8; 32],
) -> Seq<AppendView> {
    let m = shards[source];
    reissues(keys_within(batched(m.deltas, 1, m.info.tip), start, end), target, None, true)
}

/// The outcome of a redistribution: it is whole where no append is refused, and
/// otherwise stops at the first that is. Each delta keeps its timestamp.
pub open spec fn redistribution(
    before: Map<ShardId, ShardModel>,
    reqs: Seq<AppendView>,
    sound: bool,
    r: Result<u64, LogError>,
    after: Map<ShardId, ShardModel>,
) -> bool {
    exists|stamps: Seq<TimestampView>|
        {
            &&& #[trigger] refilled_to(before, reqs, stamps, after)
            &&& stamped_as_asked(reqs, stamps)
            &&& all_accepted(before, reqs.take(stamps.len() as int))
            &&& r matches Ok(n) ==> n == reqs.len() && stamps.len() == reqs.len() && all_accepted(
                before,
                reqs,
            )
            &&& r matches Err(e) ==> sound ==> stamps.len() < reqs.len() && append_refusal(
                before,
                reqs[stamps.len() as int],
            ) == Some(e)
        }
}

/// Appends to a shard the deltas of another with a key in a range, up to its tip;
/// returns how many. A delta keeps its tenant and its timestamp, and gets the next
/// number of its new shard. A source whose log was pruned is refused.
#[verifier::rlimit(50)]
pub fn redistribute_upper_half<L: LogOps>(
    log: &mut L,
    source: ShardId,
    target: ShardId,
    upper_start: [u8; 32],
    upper_end: [u8; 32],
) -> (r: Result<u64, LogError>)
    requires
        old(log).ready(),
        ({
            let s = old(log).shards();
            let reqs = redistributed(s, source, target, upper_start, upper_end);
            s.contains_key(source) ==> reqs.len() < u64::MAX && (s.contains_key(target)
                ==> shard_has_room_for(s[target], reqs))
        }),
    ensures
        final(log).ready(),
        final(log).reliable() == old(log).reliable(),
        !old(log).shards().contains_key(source) ==> r == Err::<u64, LogError>(
            LogError::ShardNotFound(source),
        ) && final(log).shards() == old(log).shards(),
        pruned(old(log).shards(), source) ==> {
            &&& r is Err
            &&& old(log).reliable() ==> r == Err::<u64, LogError>(
                pruned_refusal(old(log).shards(), source),
            )
            &&& final(log).shards() == old(log).shards()
        },
        old(log).shards().contains_key(source) && !pruned(old(log).shards(), source)
            ==> redistribution(
            old(log).shards(),
            redistributed(old(log).shards(), source, target, upper_start, upper_end),
            old(log).reliable(),
            r,
            final(log).shards(),
        ),
{
    let ghost s0 = log.shards();
    let ghost sound = log.reliable();
    let ghost reqs = redistributed(s0, source, target, upper_start, upper_end);
    let ghost none = Seq::<TimestampView>::empty();
    proof {
        assert(reqs.take(0) =~= Seq::<AppendView>::empty());
        assert(refilled_to(s0, reqs, none, s0));
        assert(stamped_as_asked(reqs, none));
    }
    let info = match log.shard_health(source) {
        Ok(i) => i,
        Err(e) => {
            return Err(e);
        },
    };
    match check_history(log, source) {
        Ok(()) => {},
        Err(e) => {
            return Err(e);
        },
    }
    let tip: u64 = info.tip.0;
    let ghost d = s0[source].deltas;
    let ghost whole = keys_within(batched(d, 1, tip), upper_start, upper_end);
    let ghost mut done: Seq<DeltaView> = Seq::empty();
    let ghost mut stamps: Seq<TimestampView> = none;
    if tip == 0 {
        assert(batched(d, 1, tip) =~= Seq::<DeltaView>::empty());
        assert(reqs =~= Seq::<AppendView>::empty());
        return Ok(0);
    }
    let mut count: u64 = 0;
    let mut from: u64 = 1;
    let mut more: bool = true;
    proof {
        assert(done + whole =~= whole);
        assert(reissues(done, target, None, true) =~= Seq::<AppendView>::empty());
    }
    while more
        invariant
            log.ready(),
            log.reliable() == sound,
            s0 == old(log).shards(),
            sound == old(log).reliable(),
            s0.contains_key(source),
            tip == s0[source].info.tip,
            d == s0[source].deltas,
            whole == keys_within(batched(d, 1, tip), upper_start, upper_end),
            reqs == redistributed(s0, source, target, upper_start, upper_end),
            reqs == reissues(whole, target, None, true),
            whole.len() < u64::MAX,
            !pruned(s0, source),
            s0.contains_key(target) ==> shard_has_room_for(s0[target], reqs),
            more ==> 1 <= from <= tip,
            done + (if more {
                keys_within(batched(d, from as int, tip), upper_start, upper_end)
            } else {
                Seq::empty()
            }) == whole,
            done.len() > 0 ==> s0.contains_key(target),
            stamps.len() == done.len(),
            count == done.len(),
            log.shards() == refilled(s0, reissues(done, target, None, true), stamps),
            all_accepted(s0, reissues(done, target, None, true)),
            stamped_as_asked(reqs, stamps),
        ensures
            !more,
        decreases (if more {
            tip - from + 1
        } else {
            0
        }),
    {
        let to: u64 = if tip - from >= REDISTRIBUTE_BATCH {
            from + (REDISTRIBUTE_BATCH - 1)
        } else {
            tip
        };
        let ghost part = reissues(done, target, None, true);
        let ghost current = log.shards();
        let ghost batch = keys_within(numbered(d, from, to), upper_start, upper_end);
        let ghost rest = keys_within(batched(d, to + 1, tip), upper_start, upper_end);
        proof {
            lemma_keys_concat(
                numbered(d, from, to),
                batched(d, to + 1, tip),
                upper_start,
                upper_end,
            );
            assert(done + batch + rest =~= whole);
            assert(reqs.take(done.len() as int) =~= part);
            lemma_total_cost_prefix(reqs, done.len() as int);
            lemma_read_unchanged(s0, part, stamps, source, target, from, to);
        }
        let deltas = match log.read_deltas(
            ReadDeltasRequest {
                shard_id: source,
                from: SequenceNumber(from),
                to: SequenceNumber(to),
            },
        ) {
            Ok(v) => v,
            Err(e) => {
                proof {
                    assert(reqs.take(stamps.len() as int) =~= part);
                    assert(refilled_to(s0, reqs, stamps, log.shards()));
                }
                return Err(e);
            },
        };
        let picked = pick_within(&deltas, &upper_start, &upper_end);
        let ghost reqs2 = reissues(batch, target, None, true);
        proof {
            assert(delta_views(picked@) == batch);
            assert(delta_views(picked@).len() == picked@.len());
            if current.contains_key(target) {
                if part.len() > 0 {
                    lemma_refilled_frame(s0, part, stamps, target);
                }
                assert(s0.contains_key(target));
                assert(reqs.take((done.len() + batch.len()) as int) =~= part + reqs2);
                lemma_total_cost_concat(part, reqs2);
                lemma_total_cost_prefix(reqs, (done.len() + batch.len()) as int);
            }
        }
        match append_all(log, target, None, &picked, true, true) {
            Ok(n) => {
                proof {
                    let st2 = choose|st2: Seq<TimestampView>|
                        {
                            &&& #[trigger] refilled_to(current, reqs2, st2, log.shards())
                            &&& st2.len() == batch.len()
                            &&& stamped_as_asked(reqs2, st2)
                        };
                    assert(reqs2.take(st2.len() as int) =~= reqs2);
                    lemma_refilled_concat(s0, part, stamps, reqs2, st2);
                    let next = done + batch;
                    assert(reissues(next, target, None, true) =~= part + reqs2);
                    assert forall|i: int| 0 <= i < next.len() implies append_refusal(
                        s0,
                        #[trigger] reissues(next, target, None, true)[i],
                    ) is None by {
                        if i < done.len() {
                            assert(reissues(next, target, None, true)[i] == part[i]);
                        } else {
                            let k = i - done.len();
                            assert(reissues(next, target, None, true)[i] == reqs2[k]);
                            lemma_refusal_unchanged(s0, part, stamps, target, reqs2[k]);
                        }
                    }
                    if next.len() > 0 && done.len() == 0 {
                        assert(append_refusal(s0, reissues(next, target, None, true)[0]) is None);
                    }
                    lemma_stamped_concat(reqs, part, stamps, reqs2, st2);
                    stamps = stamps + st2;
                    done = next;
                }
                count = count + n;
            },
            Err(e) => {
                proof {
                    let st2 = choose|st2: Seq<TimestampView>|
                        {
                            &&& #[trigger] refilled_to(current, reqs2, st2, log.shards())
                            &&& st2.len() < batch.len()
                            &&& stamped_as_asked(reqs2, st2)
                            &&& sound ==> append_refusal(current, reqs2[st2.len() as int]) == Some(
                                e,
                            )
                            &&& all_accepted(current, reqs2.take(st2.len() as int))
                        };
                    let k = st2.len() as int;
                    let taken = reqs.take(done.len() + k);
                    assert forall|i: int| 0 <= i < taken.len() implies append_refusal(
                        s0,
                        #[trigger] taken[i],
                    ) is None by {
                        if i < done.len() {
                            assert(taken[i] == part[i]);
                        } else {
                            let j = i - done.len();
                            assert(taken[i] == reqs2.take(k)[j]);
                            lemma_refusal_unchanged(s0, part, stamps, target, reqs2[j]);
                        }
                    }
                    lemma_refilled_concat(s0, part, stamps, reqs2.take(k), st2);
                    assert(reqs.take(done.len() + k) =~= part + reqs2.take(k));
                    assert((stamps + st2).len() == done.len() + k);
                    assert(refilled_to(s0, reqs, stamps + st2, log.shards()));
                    lemma_refusal_unchanged(s0, part, stamps, target, reqs2[k]);
                    lemma_stamped_concat(reqs, part, stamps, reqs2, st2);
                    assert(reqs[done.len() + k] == reqs2[k]);
                }
                return Err(e);
            },
        }
        if to == tip {
            more = false;
            assert(batched(d, to + 1, tip) =~= Seq::<DeltaView>::empty());
            assert(done + Seq::<DeltaView>::empty() =~= whole);
        } else {
            from = to + 1;
        }
    }
    proof {
        assert(done =~= whole);
        assert(reqs.take(stamps.len() as int) =~= reqs);
        assert(refilled_to(s0, reqs, stamps, log.shards()));
    }
    Ok(count)
}

/// The shards once a split has begun: the source is splitting, and the new shard
/// exists, over the upper half of the range.
pub open spec fn split_begun(
    shards: Map<ShardId, ShardModel>,
    shard_id: ShardId,
    new_shard_id: ShardId,
    node_id: NodeId,
    midpoint: [u8; 32],
) -> Map<ShardId, ShardModel> {
    let info = shards[shard_id].info;
    let marked = state_set_in(shards, shard_id, ShardState::Splitting);
    let created = if marked.contains_key(new_shard_id) {
        marked
    } else {
        marked.insert(
            new_shard_id,
            fresh_shard(new_shard_id, info.tenant_id, node_id, info.config),
        )
    };
    ranged_in(created, new_shard_id, midpoint, info.range_end)
}

/// The shards once a split has ended: the source keeps the lower half, and is
/// healthy.
pub open spec fn split_ended(
    shards: Map<ShardId, ShardModel>,
    shard_id: ShardId,
    info: ShardInfoView,
    midpoint: [u8; 32],
) -> Map<ShardId, ShardModel> {
    state_set_in(
        ranged_in(shards, shard_id, info.range_start, midpoint),
        shard_id,
        ShardState::Healthy,
    )
}

/// The outcome of a split at a midpoint, once it has begun. Each delta keeps its
/// timestamp.
pub open spec fn split_outcome(
    begun: Map<ShardId, ShardModel>,
    shard_id: ShardId,
    new_shard_id: ShardId,
    info: ShardInfoView,
    midpoint: [u8; 32],
    sound: bool,
    r: Result<ShardId, LogError>,
    after: Map<ShardId, ShardModel>,
) -> bool {
    let reqs = redistributed(begun, shard_id, new_shard_id, midpoint, info.range_end);
    exists|stamps: Seq<TimestampView>, moved: Map<ShardId, ShardModel>|
        {
            &&& #[trigger] refilled_to(begun, reqs, stamps, moved)
            &&& stamped_as_asked(reqs, stamps)
            &&& all_accepted(begun, reqs.take(stamps.len() as int))
            &&& r is Ok ==> r == Ok::<ShardId, LogError>(new_shard_id) && stamps.len()
                == reqs.len() && all_accepted(begun, reqs) && after == split_ended(
                moved,
                shard_id,
                info,
                midpoint,
            )
            &&& r matches Err(e) ==> after == moved && (sound ==> stamps.len() < reqs.len()
                && append_refusal(begun, reqs[stamps.len() as int]) == Some(e))
        }
}

/// The key at which a shard is split: halfway between the ends of its range, as
/// numbers of 256 bits.
pub open spec fn split_point(start: [u8; 32], end: [u8; 32]) -> [u8; 32] {
    choose|m: [u8; 32]| #[trigger] be_value(m@) == halfway(start, end)
}

/// The split point is the one key of its value.
pub proof fn lemma_split_point(start: [u8; 32], end: [u8; 32], m: [u8; 32])
    requires
        be_value(m@) == halfway(start, end),
    ensures
        m == split_point(start, end),
{
    let p = split_point(start, end);
    lemma_be_value_injective(m@, p@);
    lemma_array32_equal(m, p);
}

/// Splits a shard: marks it as splitting, creates the new shard where there is none,
/// gives it the upper half of the range and the deltas of that half, and takes the
/// source back to the lower half. A shard that is merging is not split. Where the
/// source's log was pruned, the split ends before a delta is moved.
pub fn split_shard<L: LogOps>(
    log: &mut L,
    shard_id: ShardId,
    new_shard_id: ShardId,
    node_id: NodeId,
) -> (r: Result<ShardId, LogError>)
    requires
        old(log).ready(),
        ({
            let s = old(log).shards();
            let info = s[shard_id].info;
            let mid = split_point(info.range_start, info.range_end);
            let begun = split_begun(s, shard_id, new_shard_id, node_id, mid);
            let reqs = redistributed(begun, shard_id, new_shard_id, mid, info.range_end);
            s.contains_key(shard_id) ==> reqs.len() < u64::MAX && shard_has_room_for(
                begun[new_shard_id],
                reqs,
            )
        }),
    ensures
        final(log).ready(),
        final(log).reliable() == old(log).reliable(),
        !old(log).shards().contains_key(shard_id) ==> r == Err::<ShardId, LogError>(
            LogError::ShardNotFound(shard_id),
        ) && final(log).shards() == old(log).shards(),
        old(log).shards().contains_key(shard_id) ==> ({
            let s = old(log).shards();
            let info = s[shard_id].info;
            let mid = split_point(info.range_start, info.range_end);
            let begun = split_begun(s, shard_id, new_shard_id, node_id, mid);
            ||| !old(log).reliable() && r is Err && final(log).shards() == s
            ||| if info.state == ShardState::Merging {
                &&& r == Err::<ShardId, LogError>(
                    (LogError::ShardBusy { shard_id, reason: busy_reason(info.state) }),
                )
                &&& final(log).shards() == s
            } else if pruned(s, shard_id) {
                &&& r is Err
                &&& old(log).reliable() ==> r == Err::<ShardId, LogError>(
                    pruned_refusal(s, shard_id),
                )
                &&& final(log).shards() == begun
            } else {
                split_outcome(
                    begun,
                    shard_id,
                    new_shard_id,
                    info,
                    mid,
                    old(log).reliable(),
                    r,
                    final(log).shards(),
                )
            }
        }),
{
    let ghost s0 = log.shards();
    let ghost sound = log.reliable();
    let info = match log.shard_health(shard_id) {
        Ok(i) => i,
        Err(e) => {
            return Err(e);
        },
    };
    if info.state == ShardState::Merging {
        return Err(busy_error(shard_id, info.state));
    }
    let midpoint = key_average(&info.range_start, &info.range_end);
    proof {
        lemma_split_point(info.range_start, info.range_end, midpoint);
    }
    log.set_shard_state(shard_id, ShardState::Splitting);
    if !log.has_shard(new_shard_id) {
        log.create_shard(new_shard_id, info.tenant_id, node_id, info.config);
    }
    log.update_shard_range(new_shard_id, midpoint, info.range_end);
    let ghost begun = log.shards();
    let ghost reqs = redistributed(begun, shard_id, new_shard_id, midpoint, info.range_end);
    assert(begun == split_begun(s0, shard_id, new_shard_id, node_id, midpoint));
    match redistribute_upper_half(log, shard_id, new_shard_id, midpoint, info.range_end) {
        Ok(_) => {},
        Err(e) => {
            proof {
                if !pruned(s0, shard_id) {
                    let stamps = choose|stamps: Seq<TimestampView>|
                        {
                            &&& #[trigger] refilled_to(begun, reqs, stamps, log.shards())
                            &&& stamped_as_asked(reqs, stamps)
                            &&& all_accepted(begun, reqs.take(stamps.len() as int))
                            &&& sound ==> stamps.len() < reqs.len() && append_refusal(
                                begun,
                                reqs[stamps.len() as int],
                            ) == Some(e)
                        };
                    assert(refilled_to(begun, reqs, stamps, log.shards()));
                }
            }
            return Err(e);
        },
    }
    let ghost moved = log.shards();
    let ghost stamps = choose|stamps: Seq<TimestampView>|
        {
            &&& #[trigger] refilled_to(begun, reqs, stamps, moved)
            &&& stamped_as_asked(reqs, stamps)
            &&& stamps.len() == reqs.len()
            &&& all_accepted(begun, reqs)
        };
    assert(reqs.take(stamps.len() as int) =~= reqs);
    log.update_shard_range(shard_id, info.range_start, midpoint);
    log.set_shard_state(shard_id, ShardState::Healthy);
    assert(refilled_to(begun, reqs, stamps, moved));
    Ok(new_shard_id)
}

/// Law: a split parts the range in two: a key of the range is below the split point
/// or not, and so in one of the halves and not in the other.
pub proof fn split_point_parts_the_range(
    start: [u8; 32],
    end: [u8; 32],
    m: [u8; 32],
    key: [u8; 32],
)
    requires
        be_value(start@) <= be_value(end@),
        be_value(m@) == halfway(start, end),
    ensures
        m == split_point(start, end),
        be_value(start@) <= be_value(m@) <= be_value(end@),
        key_between(key, start, end) <==> (key_between(key, start, m) || key_between(key, m, end)),
        !(key_between(key, start, m) && key_between(key, m, end)),
{
    lemma_split_point(start, end, m);
}

/// The lower of two keys.
pub open spec fn lower_key(a: [u8; 32], b: [u8; 32]) -> [u8; 32] {
    if be_value(b@) < be_value(a@) {
        b
    } else {
        a
    }
}

/// The higher of two keys.
pub open spec fn higher_key(a: [u8; 32], b: [u8; 32]) -> [u8; 32] {
    if be_value(b@) > be_value(a@) {
        b
    } else {
        a
    }
}

/// The shards once one has been merged into another: the target covers both ranges,
/// and the source retires.
pub open spec fn shards_merged(
    shards: Map<ShardId, ShardModel>,
    target: ShardId,
    source: ShardId,
) -> Map<ShardId, ShardModel> {
    let t = shards[target].info;
    let s = shards[source].info;
    state_set_in(
        ranged_in(
            shards,
            target,
            lower_key(t.range_start, s.range_start),
            higher_key(t.range_end, s.range_end),
        ),
        source,
        ShardState::Retiring,
    )
}

/// Why a shard cannot be merged into another, where it cannot: one does not exist,
/// or one is in a split.
pub open spec fn merge_into_refusal(
    shards: Map<ShardId, ShardModel>,
    target: ShardId,
    source: ShardId,
) -> Option<LogError> {
    if !shards.contains_key(target) {
        Some(LogError::ShardNotFound(target))
    } else if !shards.contains_key(source) {
        Some(LogError::ShardNotFound(source))
    } else if shards[target].info.state == ShardState::Splitting {
        Some(LogError::ShardBusy { shard_id: target, reason: busy_reason(ShardState::Splitting) })
    } else if shards[source].info.state == ShardState::Splitting {
        Some(LogError::ShardBusy { shard_id: source, reason: busy_reason(ShardState::Splitting) })
    } else {
        None
    }
}

/// Merges a shard into another. A shard that is splitting is not merged.
pub fn merge_shards<L: LogOps>(
    log: &mut L,
    target_shard_id: ShardId,
    source_shard_id: ShardId,
) -> (r: Result<(), LogError>)
    requires
        old(log).ready(),
    ensures
        final(log).ready(),
        final(log).reliable() == old(log).reliable(),
        r is Err ==> final(log).shards() == old(log).shards(),
        match merge_into_refusal(old(log).shards(), target_shard_id, source_shard_id) {
            Some(e) => r is Err && (old(log).reliable() ==> r == Err::<(), LogError>(e)),
            None => {
                &&& old(log).reliable() ==> r is Ok
                &&& r is Ok ==> final(log).shards() == shards_merged(
                    old(log).shards(),
                    target_shard_id,
                    source_shard_id,
                )
            },
        },
{
    if !log.has_shard(target_shard_id) {
        return Err(LogError::ShardNotFound(target_shard_id));
    }
    if !log.has_shard(source_shard_id) {
        return Err(LogError::ShardNotFound(source_shard_id));
    }
    let t = match log.shard_health(target_shard_id) {
        Ok(i) => i,
        Err(e) => {
            return Err(e);
        },
    };
    let s = match log.shard_health(source_shard_id) {
        Ok(i) => i,
        Err(e) => {
            return Err(e);
        },
    };
    if t.state == ShardState::Splitting {
        return Err(busy_error(target_shard_id, t.state));
    }
    if s.state == ShardState::Splitting {
        return Err(busy_error(source_shard_id, s.state));
    }
    let ts = t.range_start.as_slice();
    let ss = s.range_start.as_slice();
    let te = t.range_end.as_slice();
    let se = s.range_end.as_slice();
    assert(ts@ == t.range_start@ && ss@ == s.range_start@);
    assert(te@ == t.range_end@ && se@ == s.range_end@);
    let start: [u8; 32] = match order_bytes(ss, ts) {
        KeyOrder::Less => s.range_start,
        _ => t.range_start,
    };
    let end: [u8; 32] = match order_bytes(se, te) {
        KeyOrder::Greater => s.range_end,
        _ => t.range_end,
    };
    log.update_shard_range(target_shard_id, start, end);
    log.set_shard_state(source_shard_id, ShardState::Retiring);
    Ok(())
}

/// Law: a redistribution that succeeds moves every delta of the range whole, its
/// timestamp included: they follow the deltas of the target, in the order of the
/// source, numbered on from the tip of the target.
pub proof fn redistribution_keeps_every_delta(
    before: Map<ShardId, ShardModel>,
    source: ShardId,
    target: ShardId,
    start: [u8; 32],
    end: [u8; 32],
    sound: bool,
    n: u64,
    after: Map<ShardId, ShardModel>,
)
    requires
        before.contains_key(source),
        before.contains_key(target),
        shard_has_room_for(before[target], redistributed(before, source, target, start, end)),
        redistribution(
            before,
            redistributed(before, source, target, start, end),
            sound,
            Ok(n),
            after,
        ),
        forall|i: int, j: int|
            0 <= i < j < before[source].deltas.len() ==> (
            #[trigger] before[source].deltas[i]).header.sequence < (
            #[trigger] before[source].deltas[j]).header.sequence,
    ensures
        ({
            let m = before[source];
            let moved = keys_within(numbered(m.deltas, 1, m.info.tip), start, end);
            let held = before[target].deltas;
            let holds = after[target].deltas;
            &&& n == moved.len()
            &&& holds.len() == held.len() + n
            &&& holds.take(held.len() as int) == held
            &&& forall|i: int|
                0 <= i < n ==> {
                    let sequence = (before[target].info.tip + 1 + i) as u64;
                    &&& sequence == before[target].info.tip + 1 + i
                    &&& (#[trigger] holds[held.len() + i]) == requested_delta(
                        reissued(moved[i], target, None, true),
                        sequence,
                        moved[i].header.timestamp,
                    )
                }
        }),
{
    let m = before[source];
    let reqs = redistributed(before, source, target, start, end);
    let held = before[target].deltas;
    if m.info.tip >= 1 {
        batches_are_one_read(m.deltas, 1, m.info.tip);
    } else {
        assert(batched(m.deltas, 1, m.info.tip) =~= Seq::<DeltaView>::empty());
        lemma_numbered_none(m.deltas, 1, m.info.tip);
    }
    let stamps = choose|stamps: Seq<TimestampView>|
        {
            &&& #[trigger] refilled_to(before, reqs, stamps, after)
            &&& stamped_as_asked(reqs, stamps)
            &&& n == reqs.len() && stamps.len() == reqs.len() && all_accepted(before, reqs)
        };
    assert(reqs.take(stamps.len() as int) =~= reqs);
    lemma_refilled_frame(before, reqs, stamps, target);
    assert forall|i: int| 0 <= i < n implies {
        let sequence = (before[target].info.tip + 1 + i) as u64;
        &&& sequence == before[target].info.tip + 1 + i
        &&& (#[trigger] after[target].deltas[held.len() + i]) == requested_delta(
            reqs[i],
            sequence,
            reqs[i].timestamp,
        )
    } by {
        lemma_refilled_numbers(before, reqs, stamps, target, i);
        assert(stamps[i] == reqs[i].timestamp);
    }
}

/// Law: reading batch by batch gives what one read gives, where the deltas are in
/// order.
pub proof fn batches_are_one_read(d: Seq<DeltaView>, from: u64, tip: u64)
    requires
        from <= tip,
        forall|i: int, j: int|
            0 <= i < j < d.len() ==> (#[trigger] d[i]).header.sequence < (
            #[trigger] d[j]).header.sequence,
    ensures
        batched(d, from as int, tip) == numbered(d, from, tip),
    decreases tip - from,
{
    let to = batch_end(from, tip);
    if to == tip {
        assert(batched(d, to + 1, tip) =~= Seq::<DeltaView>::empty());
        assert(numbered(d, from, to) + Seq::<DeltaView>::empty() =~= numbered(d, from, tip));
    } else {
        batches_are_one_read(d, (to + 1) as u64, tip);
        lemma_numbered_adjacent(d, from, to, tip);
    }
}

/// Two adjacent ranges of numbers pick what their union picks.
proof fn lemma_numbered_adjacent(d: Seq<DeltaView>, from: u64, to: u64, tip: u64)
    requires
        from <= to < tip,
        forall|i: int, j: int|
            0 <= i < j < d.len() ==> (#[trigger] d[i]).header.sequence < (
            #[trigger] d[j]).header.sequence,
    ensures
        numbered(d, from, to) + numbered(d, (to + 1) as u64, tip) == numbered(d, from, tip),
    decreases d.len(),
{
    if d.len() > 0 {
        let f = d.drop_last();
        assert forall|i: int, j: int| 0 <= i < j < f.len() implies (
        #[trigger] f[i]).header.sequence < (#[trigger] f[j]).header.sequence by {
            assert(f[i] == d[i] && f[j] == d[j]);
        }
        lemma_numbered_adjacent(f, from, to, tip);
        let last = d.last();
        let a = numbered(f, from, to);
        let b = numbered(f, (to + 1) as u64, tip);
        if from <= last.header.sequence <= to {
            assert forall|i: int| 0 <= i < f.len() implies !((to + 1) as u64 <= (
            #[trigger] f[i]).header.sequence <= tip) by {
                assert(f[i] == d[i]);
                assert(d[d.len() - 1] == last);
                assert(d[i].header.sequence < d[d.len() - 1].header.sequence);
            }
            lemma_numbered_none(f, (to + 1) as u64, tip);
            assert(a.push(last) + b =~= (a + b).push(last));
        } else {
            assert(a + b.push(last) =~= (a + b).push(last));
        }
    } else {
        assert(numbered(d, from, to) + numbered(d, (to + 1) as u64, tip) =~= numbered(
            d,
            from,
            tip,
        ));
    }
}

/// Law: a merged range holds every key of both.
pub proof fn merged_range_covers_both(t: ShardInfoView, s: ShardInfoView, key: [u8; 32])
    requires
        in_range(t, key) || in_range(s, key),
    ensures
        in_range(
            ShardInfoView {
                range_start: lower_key(t.range_start, s.range_start),
                range_end: higher_key(t.range_end, s.range_end),
                ..t
            },
            key,
        ),
{
}

} // verus!
