//! The committer of one shard: drains the local store, and recovers it after an
//! election.

use vstd::prelude::*;

use crate::ids::NodeId;
use crate::intent::{
    empty_table, intent_views, lists, put_all_table, put_in_part, store_fault, IntentTable,
    IntentView,
};
use crate::intent::{copy_intents, InMemIntentStore, IntentError, IntentStore, WriteIntent};
use crate::intent_committer::{
    count_new, drained, gather_need, keyless, union_of,
};
use crate::intent_committer::{recover_views, restore_into, Committer, IncorporationSink};
use crate::ordered_map::{OrderedKey, OrderedMap};

verus! {

/// The committer of one shard.
pub struct ShardCommitter<St, K> {
    /// The local store.
    pub local_store: St,
    /// Where drained intents go.
    pub sink: K,
    /// Number of voters.
    pub cluster_size: usize,
    /// Replicas that an answered write is durable on.
    pub min_acks: usize,
}

/// Pending lists of peers.
pub open spec fn peer_views(s: Seq<(NodeId, Vec<WriteIntent>)>) -> Seq<(NodeId, Seq<IntentView>)> {
    Seq::new(s.len(), |i: int| (s[i].0, intent_views(s[i].1@)))
}

/// The last list that each peer sent.
pub open spec fn last_by_node(s: Seq<(NodeId, Seq<IntentView>)>) -> Map<NodeId, Seq<IntentView>>
    decreases s.len(),
{
    if s.len() == 0 {
        Map::empty()
    } else {
        last_by_node(s.drop_last()).insert(s.last().0, s.last().1)
    }
}

/// Views of the pending intents that a leader holds: its own, and one of each distinct peer.
pub open spec fn views_held(s: Seq<(NodeId, Seq<IntentView>)>) -> nat {
    last_by_node(s).dom().len() + 1
}

/// Nodes in strictly ascending order.
pub open spec fn nodes_ascending(nodes: Seq<NodeId>) -> bool {
    forall|i: int, j: int|
        0 <= i < j < nodes.len() ==> (#[trigger] nodes[i]).0 < (#[trigger] nodes[j]).0
}

/// `nodes` are the distinct peers, in ascending order.
pub open spec fn distinct_peers(s: Seq<(NodeId, Seq<IntentView>)>, nodes: Seq<NodeId>) -> bool {
    &&& nodes_ascending(nodes)
    &&& forall|n: NodeId| #[trigger]
        last_by_node(s).contains_key(n) <==> exists|i: int|
            0 <= i < nodes.len() && #[trigger] nodes[i] == n
}

/// What the peers hold, in the order of `nodes`: each list recorded into an empty
/// table.
pub open spec fn peer_tables(
    s: Seq<(NodeId, Seq<IntentView>)>,
    nodes: Seq<NodeId>,
) -> Seq<IntentTable> {
    Seq::new(nodes.len(), |i: int| put_all_table(empty_table(), last_by_node(s)[nodes[i]]))
}

/// What a recovery does, for a given list of distinct peers and a list of the
/// union.
pub open spec fn recovered_as(
    before: IntentTable,
    after: IntentTable,
    s: Seq<(NodeId, Seq<IntentView>)>,
    nodes: Seq<NodeId>,
    union: Seq<IntentView>,
    n: usize,
) -> bool {
    &&& distinct_peers(s, nodes)
    &&& lists(union, keyless(union_of(seq![before] + peer_tables(s, nodes))))
    &&& after == put_all_table(before, union)
    &&& n == count_new(before, union)
}

/// What a recovery that failed leaves in the store: what was there, or with it the
/// first intents of the union.
pub open spec fn recovered_in_part(
    before: IntentTable,
    after: IntentTable,
    s: Seq<(NodeId, Seq<IntentView>)>,
) -> bool {
    after == before || exists|nodes: Seq<NodeId>, union: Seq<IntentView>|
        {
            &&& #[trigger] distinct_peers(s, nodes)
            &&& #[trigger] lists(union, keyless(union_of(seq![before] + peer_tables(s, nodes))))
            &&& put_in_part(before, union, after)
        }
}

impl<St: IntentStore, K: IncorporationSink> ShardCommitter<St, K> {
    /// Store and sink are in order.
    pub open spec fn ready(&self) -> bool {
        self.local_store.ready() && self.sink.ready()
    }

    /// A committer over a store and a sink.
    pub fn new(local_store: St, sink: K, cluster_size: usize, min_acks: usize) -> (r: Self)
        ensures
            r.local_store == local_store,
            r.sink == sink,
            r.cluster_size == cluster_size,
            r.min_acks == min_acks,
    {
        ShardCommitter { local_store, sink, cluster_size, min_acks }
    }

    /// Drains all pending intents of the local store into the sink; stops at the
    /// first failure.
    pub fn drain_local(&mut self) -> (r: Result<usize, IntentError>)
        requires
            old(self).ready(),
        ensures
            final(self).ready(),
            final(self).local_store == old(self).local_store,
            final(self).cluster_size == old(self).cluster_size,
            final(self).min_acks == old(self).min_acks,
            old(self).local_store.reliable() && old(self).sink.reliable() ==> r is Ok,
            drained(
                old(self).local_store.table(),
                old(self).local_store.reliable(),
                old(self).sink.batches(),
                old(self).sink.refusals(),
                r,
                final(self).sink.batches(),
                final(self).sink.refusals(),
            ),
    {
        Committer::run(&self.local_store, &mut self.sink)
    }

    /// Recovers the pending intents of a new leader from the local store and the
    /// lists of its peers. A peer that sent more than one list counts once, with
    /// its last. Refused where local store and distinct peers are fewer than the
    /// gather threshold. Returns how many orders are new to the local store.
    pub fn recover(&mut self, peer_pending: &Vec<(NodeId, Vec<WriteIntent>)>) -> (r: Result<
        usize,
        IntentError,
    >)
        requires
            old(self).ready(),
            peer_pending@.len() < usize::MAX,
        ensures
            final(self).ready(),
            final(self).sink == old(self).sink,
            final(self).cluster_size == old(self).cluster_size,
            final(self).min_acks == old(self).min_acks,
            ({
                let have = views_held(peer_views(peer_pending@));
                let need = gather_need(old(self).cluster_size as int, old(self).min_acks as int);
                &&& have < need ==> r == Err::<usize, IntentError>(
                    (IntentError::InsufficientQuorum { have: have as usize, need: need as usize }),
                ) && final(self).local_store == old(self).local_store
                &&& have >= need && old(self).local_store.reliable() ==> r is Ok
                &&& have >= need ==> (r matches Ok(n) ==> exists|
                    nodes: Seq<NodeId>,
                    union: Seq<IntentView>,
                | #[trigger]
                    recovered_as(
                        old(self).local_store.table(),
                        final(self).local_store.table(),
                        peer_views(peer_pending@),
                        nodes,
                        union,
                        n,
                    ))
                &&& have >= need ==> (r matches Err(e) ==> store_fault(e) && recovered_in_part(
                    old(self).local_store.table(),
                    final(self).local_store.table(),
                    peer_views(peer_pending@),
                ))
            }),
    {
        let ghost views = peer_views(peer_pending@);
        let mut by_node: OrderedMap<NodeId, usize> = OrderedMap::new();
        let mut i: usize = 0;
        assert(views.take(0) =~= Seq::<(NodeId, Seq<IntentView>)>::empty());
        while i < peer_pending.len()
            invariant
                i <= peer_pending@.len(),
                views == peer_views(peer_pending@),
                by_node.wf(),
                forall|n: NodeId| #[trigger]
                    by_node@.contains_key(n) <==> last_by_node(
                        views.take(i as int),
                    ).contains_key(n),
                forall|n: NodeId| #[trigger]
                    by_node@.contains_key(n) ==> by_node@[n] < i && last_by_node(
                        views.take(i as int),
                    )[n] == views[by_node@[n] as int].1,
                by_node@.dom().len() <= i,
                by_node@.dom() =~= last_by_node(views.take(i as int)).dom(),
            decreases peer_pending@.len() - i,
        {
            proof {
                let p = views.take(i + 1);
                assert(p.drop_last() =~= views.take(i as int));
                assert(p.last() == views[i as int]);
                by_node.lemma_entries();
            }
            by_node.insert(peer_pending[i].0, i);
            i = i + 1;
        }
        proof {
            assert(views.take(i as int) =~= views);
            by_node.lemma_entries();
        }
        let ghost nodes = Seq::new(
            by_node.entries().len(),
            |j: int| by_node.entries()[j].0,
        );
        let mut lists_out: Vec<Vec<WriteIntent>> = Vec::new();
        let mut k: usize = 0;
        while k < by_node.len()
            invariant
                k <= by_node.entries().len(),
                views == peer_views(peer_pending@),
                by_node.wf(),
                nodes == Seq::new(by_node.entries().len(), |j: int| by_node.entries()[j].0),
                forall|n: NodeId| #[trigger]
                    by_node@.contains_key(n) ==> by_node@[n] < peer_pending@.len()
                        && last_by_node(views)[n] == views[by_node@[n] as int].1,
                lists_out@.len() == k,
                forall|j: int|
                    0 <= j < k ==> lists(
                        intent_views((#[trigger] lists_out@[j])@),
                        peer_tables(views, nodes)[j],
                    ),
            decreases by_node.entries().len() - k,
        {
            proof {
                by_node.lemma_entries();
                assert(by_node@.contains_key(by_node.entries()[k as int].0));
            }
            let idx: usize = by_node.at(k).1;
            let mut store = InMemIntentStore::new();
            let copy = copy_intents(&peer_pending[idx].1);
            match crate::intent::put_batch(&mut store, copy) {
                Ok(_) => {},
                Err(e) => {
                    return Err(e);
                },
            }
            let pending = match store.pending() {
                Ok(v) => v,
                Err(e) => {
                    return Err(e);
                },
            };
            assert(nodes[k as int] == by_node.entries()[k as int].0);
            assert(views[idx as int].1 == intent_views(peer_pending@[idx as int].1@));
            lists_out.push(pending);
            k = k + 1;
        }
        proof {
            by_node.lemma_entries();
            assert forall|a: int, b: int| 0 <= a < b < nodes.len() implies (#[trigger] nodes[a]).0
                < (#[trigger] nodes[b]).0 by {
                assert(by_node.entries()[a].0.rank() < by_node.entries()[b].0.rank());
            }
            assert forall|n: NodeId| #[trigger] last_by_node(views).contains_key(n)
                <==> exists|j: int| 0 <= j < nodes.len() && #[trigger] nodes[j] == n by {
                if last_by_node(views).contains_key(n) {
                    assert(by_node@.contains_key(n));
                    let j = choose|j: int|
                        0 <= j < by_node.entries().len() && (#[trigger] by_node.entries()[j]).0
                            == n;
                    assert(nodes[j] == n);
                }
                if exists|j: int| 0 <= j < nodes.len() && #[trigger] nodes[j] == n {
                    let j = choose|j: int| 0 <= j < nodes.len() && #[trigger] nodes[j] == n;
                    assert(by_node@.contains_key(by_node.entries()[j].0));
                }
            }
            assert(distinct_peers(views, nodes));
        }
        let union = match recover_views(
            &self.local_store,
            &lists_out,
            Ghost(peer_tables(views, nodes)),
            self.cluster_size,
            self.min_acks,
        ) {
            Ok(v) => v,
            Err(e) => {
                return Err(e);
            },
        };
        let ghost before = self.local_store.table();
        let r = restore_into(&mut self.local_store, union.as_slice());
        proof {
            if r is Ok {
                assert(recovered_as(
                    before,
                    self.local_store.table(),
                    views,
                    nodes,
                    intent_views(union@),
                    r->Ok_0,
                ));
            }
        }
        r
    }
}

/// Law: after a recovery the local store holds every intent without a client key
/// that the gathered union holds.
pub proof fn recovery_loads_the_union(
    before: IntentTable,
    union: Seq<IntentView>,
    i: int,
)
    requires
        crate::intent::ascending(union),
        0 <= i < union.len(),
        union[i].key is None,
    ensures
        put_all_table(before, union).by_seq.contains_key(union[i].seq),
        put_all_table(before, union).by_seq[union[i].seq] == union[i],
{
    crate::intent_committer::lemma_recorded(before, union, i);
}

} // verus!
