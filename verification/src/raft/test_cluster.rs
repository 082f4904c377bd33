//! The bookkeeping of an in-process group of replicas: who is up, which links
//! are cut, who leads, and who votes next.

use vstd::prelude::*;

use crate::bytes::be_bytes;
use crate::command::LogCommand;
use crate::error::LogError;
use crate::ids::{lemma_split_order, lemma_split_unique};
use crate::ids::{uuid_to_bytes, NodeId, OrgId, SequenceNumber, ShardId};
use crate::ordered_map::{OrderedKey, OrderedMap};
use crate::raft::types::LogResponse;
use crate::text::decimal_text;
use crate::text::{decimal, join2};
use crate::watermark::same_text;

verus! {

/// The port that the ports of the members count from.
pub const BASE_PORT: u64 = 9100;

/// Bytes of the payload of a probe write.
pub const PROBE_BYTES: usize = 64;

/// A link from one node to another.
#[derive(Clone, Copy, Debug, PartialEq, Eq, Structural)]
pub struct Link {
    /// The sender.
    pub from: u64,
    /// The receiver.
    pub to: u64,
}

impl OrderedKey for Link {
    open spec fn rank(self) -> int {
        self.from as int * 0x1_0000_0000_0000_0000 + self.to as int
    }

    proof fn rank_injective(a: Self, b: Self) {
        lemma_split_unique(
            a.from as int,
            a.to as int,
            b.from as int,
            b.to as int,
            0x1_0000_0000_0000_0000,
        );
    }

    fn before(&self, other: &Self) -> (r: bool) {
        proof {
            let m = 0x1_0000_0000_0000_0000int;
            lemma_split_order(self.from as int, self.to as int, other.from as int, other.to as int, m);
            lemma_split_order(other.from as int, other.to as int, self.from as int, self.to as int, m);
        }
        self.from < other.from || (self.from == other.from && self.to < other.to)
    }
}

/// What becomes of a message.
#[derive(Clone, Copy, Debug, PartialEq, Eq, Structural)]
pub enum Delivery {
    /// The link is cut.
    Partitioned,
    /// Nobody answers at the receiver.
    NodeNotFound,
    /// The message arrives.
    Delivered,
}

/// What becomes of a message from one node to another.
pub open spec fn delivery(nodes: Set<NodeId>, blocked: Set<Link>, from: u64, to: u64) -> Delivery {
    if blocked.contains(Link { from, to }) {
        Delivery::Partitioned
    } else if !nodes.contains(NodeId(to)) {
        Delivery::NodeNotFound
    } else {
        Delivery::Delivered
    }
}

/// Which nodes can be reached, and which links are cut.
pub struct TestRouter {
    nodes: OrderedMap<NodeId, ()>,
    blocked: OrderedMap<Link, ()>,
}

impl TestRouter {
    /// The nodes that answer.
    pub closed spec fn nodes(&self) -> Set<NodeId> {
        self.nodes@.dom()
    }

    /// The cut links.
    pub closed spec fn blocked(&self) -> Set<Link> {
        self.blocked@.dom()
    }

    /// Both tables are in order.
    pub closed spec fn wf(&self) -> bool {
        self.nodes.wf() && self.blocked.wf()
    }

    /// A router without nodes and without cut links.
    pub fn new() -> (r: Self)
        ensures
            r.wf(),
            r.nodes() == Set::<NodeId>::empty(),
            r.blocked() == Set::<Link>::empty(),
    {
        let r = TestRouter { nodes: OrderedMap::new(), blocked: OrderedMap::new() };
        assert(r.nodes() =~= Set::<NodeId>::empty());
        assert(r.blocked() =~= Set::<Link>::empty());
        r
    }

    /// Makes a node answer.
    pub fn register(&mut self, node_id: u64)
        requires
            old(self).wf(),
        ensures
            final(self).wf(),
            final(self).nodes() == old(self).nodes().insert(NodeId(node_id)),
            final(self).blocked() == old(self).blocked(),
    {
        self.nodes.insert(NodeId(node_id), ());
        assert(self.nodes() =~= old(self).nodes().insert(NodeId(node_id)));
    }

    /// Makes a node answer no more.
    pub fn deregister(&mut self, node_id: u64)
        requires
            old(self).wf(),
        ensures
            final(self).wf(),
            final(self).nodes() == old(self).nodes().remove(NodeId(node_id)),
            final(self).blocked() == old(self).blocked(),
    {
        self.nodes.remove(&NodeId(node_id));
        assert(self.nodes() =~= old(self).nodes().remove(NodeId(node_id)));
    }

    /// Whether a link is cut.
    pub fn is_blocked(&self, from: u64, to: u64) -> (r: bool)
        requires
            self.wf(),
        ensures
            r == self.blocked().contains(Link { from, to }),
    {
        self.blocked.contains(&Link { from, to })
    }

    /// What becomes of a message from one node to another.
    pub fn route(&self, from: u64, to: u64) -> (r: Delivery)
        requires
            self.wf(),
        ensures
            r == delivery(self.nodes(), self.blocked(), from, to),
    {
        if self.is_blocked(from, to) {
            Delivery::Partitioned
        } else if !self.nodes.contains(&NodeId(to)) {
            Delivery::NodeNotFound
        } else {
            Delivery::Delivered
        }
    }
}

/// The link joins `node` and another of `all`.
pub open spec fn joins(l: Link, node: u64, all: Set<NodeId>) -> bool {
    ||| l.from == node && l.to != node && all.contains(NodeId(l.to))
    ||| l.to == node && l.from != node && all.contains(NodeId(l.from))
}

/// The link touches `node` and one of `all`.
pub open spec fn touches(l: Link, node: u64, all: Set<NodeId>) -> bool {
    ||| l.from == node && all.contains(NodeId(l.to))
    ||| l.to == node && all.contains(NodeId(l.from))
}

/// How many of the reports name `leader`.
pub open spec fn votes_for(reports: Seq<Option<u64>>, leader: u64) -> nat
    decreases reports.len(),
{
    if reports.len() == 0 {
        0
    } else {
        votes_for(reports.drop_last(), leader) + if reports.last() == Some(leader) {
            1nat
        } else {
            0nat
        }
    }
}

/// More than half of the reports name `leader`.
pub open spec fn has_majority(reports: Seq<Option<u64>>, leader: u64) -> bool {
    2 * votes_for(reports, leader) > reports.len()
}

/// Who has a vote has a report that names it.
proof fn lemma_vote_is_named(reports: Seq<Option<u64>>, leader: u64)
    requires
        votes_for(reports, leader) > 0,
    ensures
        exists|i: int| 0 <= i < reports.len() && #[trigger] reports[i] == Some(leader),
    decreases reports.len(),
{
    if reports.last() == Some(leader) {
        assert(reports[reports.len() - 1] == Some(leader));
    } else {
        lemma_vote_is_named(reports.drop_last(), leader);
        let i = choose|i: int|
            0 <= i < reports.drop_last().len() && #[trigger] reports.drop_last()[i] == Some(leader);
        assert(reports[i] == Some(leader));
    }
}

/// The votes of two nodes are at most the reports.
proof fn lemma_votes_add_up(reports: Seq<Option<u64>>, a: u64, b: u64)
    requires
        a != b,
    ensures
        votes_for(reports, a) + votes_for(reports, b) <= reports.len(),
    decreases reports.len(),
{
    if reports.len() > 0 {
        lemma_votes_add_up(reports.drop_last(), a, b);
    }
}

/// Law: at most one node is named by a majority.
pub proof fn majority_is_unique(reports: Seq<Option<u64>>, a: u64, b: u64)
    requires
        has_majority(reports, a),
        has_majority(reports, b),
    ensures
        a == b,
{
    if a != b {
        lemma_votes_add_up(reports, a, b);
    }
}

/// Law: a leader that no other node names is no leader of a group of two or
/// more, whatever it says of itself.
pub proof fn isolated_leader_is_not_seen(reports: Seq<Option<u64>>, leader: u64)
    requires
        reports.len() >= 2,
        votes_for(reports, leader) <= 1,
    ensures
        !has_majority(reports, leader),
{
}

/// Counts the reports that name a node.
fn count_votes(reports: &Vec<Option<u64>>, leader: u64) -> (r: usize)
    ensures
        r == votes_for(reports@, leader),
        r <= reports@.len(),
{
    let mut n: usize = 0;
    let mut i: usize = 0;
    while i < reports.len()
        invariant
            i <= reports@.len(),
            n <= i,
            n == votes_for(reports@.take(i as int), leader),
        decreases reports@.len() - i,
    {
        assert(reports@.take(i + 1).drop_last() =~= reports@.take(i as int));
        if let Some(l) = reports[i] {
            if l == leader {
                n = n + 1;
            }
        }
        i = i + 1;
    }
    assert(reports@.take(i as int) =~= reports@);
    n
}

/// The address of a member.
pub open spec fn member_text(id: nat) -> Seq<char> {
    "127.0.0.1:"@ + decimal_text(BASE_PORT as nat + id)
}

/// Writes the address of a member.
pub fn member_address(id: u64) -> (r: String)
    requires
        id <= u64::MAX - BASE_PORT,
    ensures
        r@ == member_text(id as nat),
{
    join2("127.0.0.1:", decimal(BASE_PORT + id).as_str())
}

/// Identifiers in ascending order, each once.
pub open spec fn ascending_ids(s: Seq<u64>) -> bool {
    forall|i: int, j: int| 0 <= i < j < s.len() ==> s[i] < s[j]
}

/// The keys of a set of nodes, in ascending order.
fn ids_of(m: &OrderedMap<NodeId, ()>) -> (r: Vec<u64>)
    requires
        m.wf(),
    ensures
        ascending_ids(r@),
        r@.len() == m@.dom().len(),
        forall|id: u64| #[trigger] r@.contains(id) <==> m@.contains_key(NodeId(id)),
{
    let mut out: Vec<u64> = Vec::new();
    let n: usize = m.len();
    proof {
        m.lemma_entries();
    }
    let mut i: usize = 0;
    while i < n
        invariant
            i <= n == m.entries().len(),
            out@.len() == i,
            forall|j: int| 0 <= j < i ==> #[trigger] out@[j] == m.entries()[j].0.0,
        decreases n - i,
    {
        out.push(m.at(i).0.0);
        i = i + 1;
    }
    assert forall|a: int, b: int| 0 <= a < b < out@.len() implies out@[a] < out@[b] by {
        assert(m.entries()[a].0.rank() < m.entries()[b].0.rank());
    }
    assert forall|id: u64| #[trigger] out@.contains(id) <==> m@.contains_key(NodeId(id)) by {
        if out@.contains(id) {
            let j = choose|j: int| 0 <= j < out@.len() && out@[j] == id;
            assert(m.entries()[j].0 == NodeId(id));
        }
        if m@.contains_key(NodeId(id)) {
            let j = choose|j: int|
                0 <= j < m.entries().len() && (#[trigger] m.entries()[j]).0 == NodeId(id);
            assert(out@[j] == id);
        }
    }
    out
}

/// A group of replicas of one shard.
pub struct RaftTestCluster {
    /// Who can reach whom.
    pub router: TestRouter,
    /// Nodes that are up.
    pub nodes: OrderedMap<NodeId, ()>,
    /// Nodes with a log on disk.
    pub logs: OrderedMap<NodeId, ()>,
    /// Failure domains of the labelled nodes.
    pub topologies: OrderedMap<NodeId, String>,
    /// The tenant.
    pub tenant_id: OrgId,
    /// The shard.
    pub shard_id: ShardId,
}

impl RaftTestCluster {
    /// The nodes that are up.
    pub open spec fn nodes(&self) -> Set<NodeId> {
        self.nodes@.dom()
    }

    /// The nodes with a log on disk.
    pub open spec fn logs(&self) -> Set<NodeId> {
        self.logs@.dom()
    }

    /// The failure domain of each labelled node.
    pub open spec fn topologies(&self) -> Map<NodeId, String> {
        self.topologies@
    }

    /// All tables are in order.
    pub open spec fn wf(&self) -> bool {
        self.router.wf() && self.nodes.wf() && self.logs.wf() && self.topologies.wf()
    }

    /// A group of the nodes from one to `node_count`, all up and all reachable.
    pub fn new(node_count: u64, shard_id: ShardId, tenant_id: OrgId) -> (r: Self)
        ensures
            r.wf(),
            r.shard_id == shard_id,
            r.tenant_id == tenant_id,
            forall|n: NodeId| #[trigger] r.nodes().contains(n) <==> 1 <= n.0 <= node_count,
            r.logs() == r.nodes(),
            r.router.nodes() == r.nodes(),
            r.router.blocked() == Set::<Link>::empty(),
            r.topologies() == Map::<NodeId, String>::empty(),
    {
        let mut r = RaftTestCluster {
            router: TestRouter::new(),
            nodes: OrderedMap::new(),
            logs: OrderedMap::new(),
            topologies: OrderedMap::new(),
            tenant_id,
            shard_id,
        };
        assert(r.nodes() =~= Set::<NodeId>::empty());
        assert(r.logs() =~= Set::<NodeId>::empty());
        let mut id: u64 = 0;
        while id < node_count
            invariant
                id <= node_count,
                r.wf(),
                r.shard_id == shard_id,
                r.tenant_id == tenant_id,
                forall|n: NodeId| #[trigger] r.nodes().contains(n) <==> 1 <= n.0 <= id,
                r.logs() == r.nodes(),
                r.router.nodes() == r.nodes(),
                r.router.blocked() == Set::<Link>::empty(),
                r.topologies() == Map::<NodeId, String>::empty(),
            decreases node_count - id,
        {
            let ghost before = r;
            id = id + 1;
            r.logs.insert(NodeId(id), ());
            r.router.register(id);
            r.nodes.insert(NodeId(id), ());
            assert(r.nodes() =~= before.nodes().insert(NodeId(id)));
            assert(r.logs() =~= before.logs().insert(NodeId(id)));
        }
        r
    }

    /// Labels a node with its failure domain.
    pub fn set_topology(&mut self, node_id: u64, domain: String)
        requires
            old(self).wf(),
        ensures
            final(self).wf(),
            final(self).topologies() == old(self).topologies().insert(NodeId(node_id), domain),
            final(self).nodes() == old(self).nodes(),
            final(self).logs() == old(self).logs(),
            final(self).router == old(self).router,
    {
        self.topologies.insert(NodeId(node_id), domain);
    }

    /// The failure domain of a node.
    pub fn topology_of(&self, node_id: u64) -> (r: Option<&String>)
        requires
            self.wf(),
        ensures
            match r {
                Some(d) => self.topologies().contains_key(NodeId(node_id))
                    && self.topologies()[NodeId(node_id)] == *d,
                None => !self.topologies().contains_key(NodeId(node_id)),
            },
    {
        self.topologies.get(&NodeId(node_id))
    }

    /// How many nodes are up.
    pub fn node_count(&self) -> (r: usize)
        requires
            self.wf(),
        ensures
            r == self.nodes().len(),
    {
        self.nodes.len()
    }

    /// Cuts every link between a node and the others that are up.
    pub fn isolate_node(&mut self, node_id: u64)
        requires
            old(self).wf(),
        ensures
            final(self).wf(),
            final(self).nodes() == old(self).nodes(),
            final(self).logs() == old(self).logs(),
            final(self).topologies() == old(self).topologies(),
            final(self).router.nodes() == old(self).router.nodes(),
            forall|l: Link| #[trigger]
                final(self).router.blocked().contains(l) <==> old(self).router.blocked().contains(l)
                    || joins(l, node_id, old(self).nodes()),
    {
        let all = ids_of(&self.nodes);
        let ghost live = self.nodes();
        assert forall|id: u64| #[trigger] all@.contains(id) <==> live.contains(NodeId(id)) by {
            assert(self.nodes@.contains_key(NodeId(id)) <==> live.contains(NodeId(id)));
        }
        let ghost b0 = self.router.blocked();
        let mut i: usize = 0;
        while i < all.len()
            invariant
                i <= all@.len(),
                self.wf(),
                self.nodes() == live,
                self.logs() == old(self).logs(),
                self.topologies() == old(self).topologies(),
                self.router.nodes() == old(self).router.nodes(),
                forall|l: Link| #[trigger]
                    self.router.blocked().contains(l) <==> b0.contains(l) || joined_by(
                        l,
                        node_id,
                        all@.take(i as int),
                    ),
            decreases all@.len() - i,
        {
            let other: u64 = all[i];
            let ghost mid = self.router.blocked();
            if other != node_id {
                self.router.blocked.insert(Link { from: node_id, to: other }, ());
                self.router.blocked.insert(Link { from: other, to: node_id }, ());
                assert(self.router.blocked() =~= mid.insert(
                    Link { from: node_id, to: other },
                ).insert(Link { from: other, to: node_id }));
            }
            proof {
                lemma_taken(all@, i as int);
            }
            i = i + 1;
        }
        assert(all@.take(i as int) =~= all@);
    }

    /// Heals every link between a node and those that are up.
    pub fn restore_node(&mut self, node_id: u64)
        requires
            old(self).wf(),
        ensures
            final(self).wf(),
            final(self).nodes() == old(self).nodes(),
            final(self).logs() == old(self).logs(),
            final(self).topologies() == old(self).topologies(),
            final(self).router.nodes() == old(self).router.nodes(),
            forall|l: Link| #[trigger]
                final(self).router.blocked().contains(l) <==> old(self).router.blocked().contains(l)
                    && !touches(l, node_id, old(self).nodes()),
    {
        let all = ids_of(&self.nodes);
        let ghost live = self.nodes();
        assert forall|id: u64| #[trigger] all@.contains(id) <==> live.contains(NodeId(id)) by {
            assert(self.nodes@.contains_key(NodeId(id)) <==> live.contains(NodeId(id)));
        }
        let ghost b0 = self.router.blocked();
        let mut i: usize = 0;
        while i < all.len()
            invariant
                i <= all@.len(),
                self.wf(),
                self.nodes() == live,
                self.logs() == old(self).logs(),
                self.topologies() == old(self).topologies(),
                self.router.nodes() == old(self).router.nodes(),
                forall|l: Link| #[trigger]
                    self.router.blocked().contains(l) <==> b0.contains(l) && !touched_by(
                        l,
                        node_id,
                        all@.take(i as int),
                    ),
            decreases all@.len() - i,
        {
            let other: u64 = all[i];
            let ghost mid = self.router.blocked();
            self.router.blocked.remove(&Link { from: node_id, to: other });
            self.router.blocked.remove(&Link { from: other, to: node_id });
            assert(self.router.blocked() =~= mid.remove(Link { from: node_id, to: other }).remove(
                Link { from: other, to: node_id },
            ));
            proof {
                lemma_taken(all@, i as int);
            }
            i = i + 1;
        }
        assert(all@.take(i as int) =~= all@);
    }

    /// Adds a node as a learner: its log exists and it answers at once; it counts as
    /// up when a leader was found and accepted it.
    pub fn add_learner(&mut self, new_id: u64, leader: Option<u64>, accepted: bool) -> (r: Result<
        (),
        LogError,
    >)
        requires
            old(self).wf(),
        ensures
            final(self).wf(),
            final(self).logs() == old(self).logs().insert(NodeId(new_id)),
            final(self).router.nodes() == old(self).router.nodes().insert(NodeId(new_id)),
            final(self).router.blocked() == old(self).router.blocked(),
            final(self).topologies() == old(self).topologies(),
            r == (if leader is Some && accepted {
                Ok::<(), LogError>(())
            } else {
                Err::<(), LogError>(LogError::Unavailable)
            }),
            final(self).nodes() == (if r is Ok {
                old(self).nodes().insert(NodeId(new_id))
            } else {
                old(self).nodes()
            }),
    {
        self.router.register(new_id);
        self.logs.insert(NodeId(new_id), ());
        assert(self.logs() =~= old(self).logs().insert(NodeId(new_id)));
        if leader.is_none() || !accepted {
            return Err(LogError::Unavailable);
        }
        self.nodes.insert(NodeId(new_id), ());
        assert(self.nodes() =~= old(self).nodes().insert(NodeId(new_id)));
        Ok(())
    }

    /// Takes a node down; its log stays. A node that is not up is unavailable.
    pub fn crash_node(&mut self, node_id: u64) -> (r: Result<(), LogError>)
        requires
            old(self).wf(),
        ensures
            final(self).wf(),
            final(self).logs() == old(self).logs(),
            final(self).topologies() == old(self).topologies(),
            final(self).router.blocked() == old(self).router.blocked(),
            final(self).nodes() == old(self).nodes().remove(NodeId(node_id)),
            old(self).nodes().contains(NodeId(node_id)) ==> r is Ok && final(self).router.nodes()
                == old(self).router.nodes().remove(NodeId(node_id)),
            !old(self).nodes().contains(NodeId(node_id)) ==> r == Err::<(), LogError>(
                LogError::Unavailable,
            ) && final(self).router.nodes() == old(self).router.nodes(),
    {
        let gone = self.nodes.remove(&NodeId(node_id));
        assert(self.nodes() =~= old(self).nodes().remove(NodeId(node_id)));
        match gone {
            Some(_) => {
                self.router.deregister(node_id);
                Ok(())
            },
            None => Err(LogError::Unavailable),
        }
    }

    /// Brings a node back up from its log. A node without a log is unavailable.
    pub fn restart_node(&mut self, node_id: u64) -> (r: Result<(), LogError>)
        requires
            old(self).wf(),
        ensures
            final(self).wf(),
            final(self).logs() == old(self).logs(),
            final(self).topologies() == old(self).topologies(),
            final(self).router.blocked() == old(self).router.blocked(),
            old(self).logs().contains(NodeId(node_id)) ==> r is Ok && final(self).nodes() == old(
                self,
            ).nodes().insert(NodeId(node_id)) && final(self).router.nodes() == old(
                self,
            ).router.nodes().insert(NodeId(node_id)),
            !old(self).logs().contains(NodeId(node_id)) ==> r == Err::<(), LogError>(
                LogError::Unavailable,
            ) && *final(self) == *old(self),
    {
        if !self.logs.contains(&NodeId(node_id)) {
            return Err(LogError::Unavailable);
        }
        self.router.register(node_id);
        self.nodes.insert(NodeId(node_id), ());
        assert(self.nodes() =~= old(self).nodes().insert(NodeId(node_id)));
        Ok(())
    }

    /// The leader as a client sees it: the node that a majority of the reports name.
    pub fn leader(reports: &Vec<Option<u64>>) -> (r: Option<u64>)
        ensures
            match r {
                Some(l) => has_majority(reports@, l),
                None => forall|l: u64| !has_majority(reports@, l),
            },
    {
        let total: usize = reports.len();
        let mut i: usize = 0;
        while i < reports.len()
            invariant
                i <= reports@.len(),
                total == reports@.len(),
                forall|j: int, l: u64|
                    0 <= j < i && #[trigger] reports@[j] == Some(l) ==> !(#[trigger] has_majority(
                        reports@,
                        l,
                    )),
            decreases reports@.len() - i,
        {
            if let Some(l) = reports[i] {
                let n: usize = count_votes(reports, l);
                if n > total - n {
                    return Some(l);
                }
            }
            i = i + 1;
        }
        assert forall|l: u64| !has_majority(reports@, l) by {
            if has_majority(reports@, l) {
                lemma_vote_is_named(reports@, l);
            }
        }
        None
    }

    /// The voters after one takes the place of another: everyone but `target`, and
    /// `replacement`, in ascending order.
    pub fn replace_voter(current: &Vec<u64>, target: NodeId, replacement: NodeId) -> (r: Vec<u64>)
        ensures
            ascending_ids(r@),
            forall|id: u64| #[trigger]
                r@.contains(id) <==> id == replacement.0 || (id != target.0 && current@.contains(id)),
    {
        let mut voters: OrderedMap<NodeId, ()> = OrderedMap::new();
        let mut i: usize = 0;
        while i < current.len()
            invariant
                i <= current@.len(),
                voters.wf(),
                forall|id: u64| #[trigger]
                    voters@.contains_key(NodeId(id)) <==> id != target.0 && current@.take(
                        i as int,
                    ).contains(id),
            decreases current@.len() - i,
        {
            let ghost before = voters@;
            let id: u64 = current[i];
            if id != target.0 {
                voters.insert(NodeId(id), ());
            }
            assert forall|k: u64| #[trigger]
                voters@.contains_key(NodeId(k)) <==> k != target.0 && current@.take(i + 1).contains(
                    k,
                ) by {
                let a = current@.take(i as int);
                let b = current@.take(i + 1);
                assert(b =~= a.push(id));
                assert(before.contains_key(NodeId(k)) <==> k != target.0 && a.contains(k));
                if a.contains(k) {
                    let j = choose|j: int| 0 <= j < a.len() && a[j] == k;
                    assert(b[j] == k);
                }
                if k == id {
                    assert(b[i as int] == k);
                }
                if b.contains(k) && k != id {
                    let j = choose|j: int| 0 <= j < b.len() && b[j] == k;
                    assert(a[j] == k);
                }
            }
            i = i + 1;
        }
        assert(current@.take(i as int) =~= current@);
        voters.insert(replacement, ());
        ids_of(&voters)
    }

    /// The write that a probe hands to the leader: a creation under a key of equal
    /// bytes.
    pub fn write_delta(&self, key_byte: u8) -> (r: LogCommand)
        ensures
            r matches LogCommand::AppendDelta {
                tenant_id_bytes,
                operation,
                hashed_key,
                chunk_refs,
                payload,
                has_inline_data,
            } && tenant_id_bytes@ == be_bytes(self.tenant_id.0 as nat, 16) && operation == 0 && (forall|
                i: int,
            |
                0 <= i < 32 ==> hashed_key@[i] == key_byte) && chunk_refs@.len() == 0 && payload@
                == Seq::new(PROBE_BYTES as nat, |i: int| 0xabu8) && !has_inline_data,
    {
        let mut payload: Vec<u8> = Vec::new();
        while payload.len() < PROBE_BYTES
            invariant
                payload@.len() <= PROBE_BYTES,
                forall|i: int| 0 <= i < payload@.len() ==> payload@[i] == 0xab,
            decreases PROBE_BYTES - payload@.len(),
        {
            payload.push(0xab);
        }
        assert(payload@ =~= Seq::new(PROBE_BYTES as nat, |i: int| 0xabu8));
        LogCommand::AppendDelta {
            tenant_id_bytes: uuid_to_bytes(self.tenant_id.0),
            operation: 0,
            hashed_key: [key_byte;32],
            chunk_refs: Vec::new(),
            payload,
            has_inline_data: false,
        }
    }

    /// The answer to a probe: the number of its delta, or zero where the command
    /// appended none. No leader, or a write that did not commit, is unavailability.
    pub fn written_delta(leader: Option<u64>, committed: Option<LogResponse>) -> (r: Result<
        SequenceNumber,
        LogError,
    >)
        ensures
            match (leader, committed) {
                (Some(_), Some(LogResponse::Appended(seq))) => r == Ok::<SequenceNumber, LogError>(
                    SequenceNumber(seq),
                ),
                (Some(_), Some(_)) => r == Ok::<SequenceNumber, LogError>(SequenceNumber(0)),
                _ => r == Err::<SequenceNumber, LogError>(LogError::Unavailable),
            },
    {
        if leader.is_none() {
            return Err(LogError::Unavailable);
        }
        match committed {
            Some(LogResponse::Appended(seq)) => Ok(SequenceNumber(seq)),
            Some(_) => Ok(SequenceNumber(0)),
            None => Err(LogError::Unavailable),
        }
    }

    /// The distinct failure domains of the voters that have a label.
    pub fn voter_failure_domains(&self, voters: &Vec<u64>) -> (r: Vec<String>)
        requires
            self.wf(),
        ensures
            forall|i: int, j: int| 0 <= i < j < r@.len() ==> r@[i]@ != r@[j]@,
            forall|i: int|
                0 <= i < r@.len() ==> labelled(
                    self.topologies(),
                    voters@,
                    voters@.len() as int,
                    (#[trigger] r@[i])@,
                ),
            forall|d: Seq<char>|
                labelled(self.topologies(), voters@, voters@.len() as int, d) ==> #[trigger] has_text(
                    r@,
                    d,
                ),
    {
        let mut out: Vec<String> = Vec::new();
        let mut i: usize = 0;
        while i < voters.len()
            invariant
                i <= voters@.len(),
                self.wf(),
                forall|a: int, b: int| 0 <= a < b < out@.len() ==> out@[a]@ != out@[b]@,
                forall|a: int|
                    0 <= a < out@.len() ==> labelled(
                        self.topologies(),
                        voters@,
                        i as int,
                        (#[trigger] out@[a])@,
                    ),
                forall|d: Seq<char>|
                    labelled(self.topologies(), voters@, i as int, d) ==> #[trigger] has_text(
                        out@,
                        d,
                    ),
            decreases voters@.len() - i,
        {
            let ghost before = out@;
            let ghost id = NodeId(voters@[i as int]);
            match self.topologies.get(&NodeId(voters[i])) {
                Some(d) => {
                    assert(labelled_at(self.topologies(), voters@, i as int, d@));
                    if !holds_text(&out, d.as_str()) {
                        out.push(d.clone());
                        assert(out@[before.len() as int]@ == d@);
                        assert(has_text(out@, d@));
                        assert forall|a: int, b: int| 0 <= a < b < out@.len() implies out@[a]@
                            != out@[b]@ by {
                            if b == before.len() {
                                assert(!has_text(before, d@));
                                assert(out@[a] == before[a]);
                            }
                        }
                    }
                },
                None => {},
            }
            assert forall|d: Seq<char>|
                labelled(self.topologies(), voters@, i + 1, d) implies #[trigger] has_text(
                out@,
                d,
            ) by {
                let k = choose|k: int|
                    0 <= k < i + 1 && #[trigger] labelled_at(self.topologies(), voters@, k, d);
                if k < i {
                    assert(labelled(self.topologies(), voters@, i as int, d));
                    assert(has_text(before, d));
                    let a = choose|a: int| 0 <= a < before.len() && (#[trigger] before[a])@ == d;
                    assert(out@[a]@ == d);
                }
            }
            assert forall|a: int| 0 <= a < out@.len() implies labelled(
                self.topologies(),
                voters@,
                i + 1,
                (#[trigger] out@[a])@,
            ) by {
                if a < before.len() {
                    assert(out@[a] == before[a]);
                    assert(labelled(self.topologies(), voters@, i as int, before[a]@));
                }
            }
            i = i + 1;
        }
        out
    }
}

/// The voter at position `i` is labelled `domain`.
pub open spec fn labelled_at(
    t: Map<NodeId, String>,
    voters: Seq<u64>,
    i: int,
    domain: Seq<char>,
) -> bool {
    t.contains_key(NodeId(voters[i])) && t[NodeId(voters[i])]@ == domain
}

/// One of the first `n` voters is labelled `domain`.
pub open spec fn labelled(t: Map<NodeId, String>, voters: Seq<u64>, n: int, domain: Seq<char>) -> bool {
    exists|i: int| 0 <= i < n && #[trigger] labelled_at(t, voters, i, domain)
}

/// The list holds the text.
pub open spec fn has_text(s: Seq<String>, text: Seq<char>) -> bool {
    exists|i: int| 0 <= i < s.len() && (#[trigger] s[i])@ == text
}

/// Whether a list holds a text.
fn holds_text(s: &Vec<String>, text: &str) -> (r: bool)
    ensures
        r == has_text(s@, text@),
{
    let mut i: usize = 0;
    while i < s.len()
        invariant
            i <= s@.len(),
            forall|j: int| 0 <= j < i ==> (#[trigger] s@[j])@ != text@,
        decreases s@.len() - i,
    {
        if same_text(s[i].as_str(), text) {
            assert(s@[i as int]@ == text@);
            return true;
        }
        i = i + 1;
    }
    false
}

/// The link joins `node` and another of the list.
spec fn joined_by(l: Link, node: u64, all: Seq<u64>) -> bool {
    ||| l.from == node && l.to != node && all.contains(l.to)
    ||| l.to == node && l.from != node && all.contains(l.from)
}

/// The link touches `node` and one of the list.
spec fn touched_by(l: Link, node: u64, all: Seq<u64>) -> bool {
    ||| l.from == node && all.contains(l.to)
    ||| l.to == node && all.contains(l.from)
}

/// What one more element of a list adds to its prefix.
proof fn lemma_taken(s: Seq<u64>, i: int)
    requires
        0 <= i < s.len(),
    ensures
        forall|x: u64| #[trigger] s.take(i + 1).contains(x) <==> s.take(i).contains(x) || x == s[i],
{
    assert(s.take(i + 1) =~= s.take(i).push(s[i]));
    assert forall|x: u64| #[trigger] s.take(i + 1).contains(x) <==> s.take(i).contains(x) || x
        == s[i] by {
        let a = s.take(i);
        let b = s.take(i + 1);
        if a.contains(x) {
            let j = choose|j: int| 0 <= j < a.len() && a[j] == x;
            assert(b[j] == x);
        }
        if x == s[i] {
            assert(b[i] == x);
        }
        if b.contains(x) && x != s[i] {
            let j = choose|j: int| 0 <= j < b.len() && b[j] == x;
            assert(a[j] == x);
        }
    }
}

/// Law: healing a node after cutting it off leaves the links as they were, but
/// for those of the node that had been cut before.
pub proof fn restoring_heals_isolation(
    b0: Set<Link>,
    b1: Set<Link>,
    b2: Set<Link>,
    node: u64,
    live: Set<NodeId>,
    l: Link,
)
    requires
        forall|k: Link| #[trigger] b1.contains(k) <==> b0.contains(k) || joins(k, node, live),
        forall|k: Link| #[trigger] b2.contains(k) <==> b1.contains(k) && !touches(k, node, live),
    ensures
        b2.contains(l) <==> b0.contains(l) && !touches(l, node, live),
{
    assert(b1.contains(l) <==> b0.contains(l) || joins(l, node, live));
    assert(b2.contains(l) <==> b1.contains(l) && !touches(l, node, live));
}

} // verus!
