//! Appending deltas of one shard to another.

use vstd::prelude::*;

use crate::bytes::copy_bytes;
use crate::delta::{copy_chunk_ids, Delta};
use crate::delta::{delta_views, DeltaView};
use crate::error::LogError;
use crate::ids::{OrgId, ShardId};
use crate::raft_store::boundary_of;
use crate::shard::busy_reason;
use crate::shard::{busy_error, ShardState};
use crate::time::TimestampView;
use crate::traits::{
    append_refusal, lemma_total_cost_prefix, shard_appended, shard_has_room_for, total_cost,
    AppendView, ShardModel,
};
use crate::traits::{AppendDeltaRequest, LogOps};

verus! {

/// The request that appends a delta to another shard, for the given tenant or for
/// that of the delta. Without `keep_inline` the delta is marked as holding no
/// inline data.
pub open spec fn reissued(
    d: DeltaView,
    target: ShardId,
    tenant: Option<OrgId>,
    keep_inline: bool,
) -> AppendView {
    AppendView {
        shard_id: target,
        tenant_id: match tenant {
            Some(t) => t,
            None => d.header.tenant_id,
        },
        operation: d.header.operation,
        timestamp: d.header.timestamp,
        hashed_key: d.header.hashed_key,
        chunk_refs: d.header.chunk_refs,
        payload: d.payload.ciphertext,
        has_inline_data: keep_inline && d.header.has_inline_data,
    }
}

/// The requests that append a list of deltas to another shard.
pub open spec fn reissues(
    d: Seq<DeltaView>,
    target: ShardId,
    tenant: Option<OrgId>,
    keep_inline: bool,
) -> Seq<AppendView> {
    Seq::new(d.len(), |i: int| reissued(d[i], target, tenant, keep_inline))
}

/// The shards after a list of appends, each with its timestamp.
pub open spec fn refilled(
    shards: Map<ShardId, ShardModel>,
    reqs: Seq<AppendView>,
    stamps: Seq<TimestampView>,
) -> Map<ShardId, ShardModel>
    decreases reqs.len(),
{
    if reqs.len() == 0 {
        shards
    } else {
        let s = refilled(shards, reqs.drop_last(), stamps.drop_last());
        let id = reqs.last().shard_id;
        s.insert(id, shard_appended(s[id], reqs.last(), stamps.last()))
    }
}

/// Whether a list of appends leads from `before` to `after`: the backend took the
/// first `stamps.len()` of them, and gave them these timestamps.
pub open spec fn refilled_to(
    before: Map<ShardId, ShardModel>,
    reqs: Seq<AppendView>,
    stamps: Seq<TimestampView>,
    after: Map<ShardId, ShardModel>,
) -> bool {
    &&& stamps.len() <= reqs.len()
    &&& after == refilled(before, reqs.take(stamps.len() as int), stamps)
}

/// Whether each append got the timestamp of its request.
pub open spec fn stamped_as_asked(reqs: Seq<AppendView>, stamps: Seq<TimestampView>) -> bool {
    forall|i: int| 0 <= i < stamps.len() ==> #[trigger] stamps[i] == reqs[i].timestamp
}

/// Whether no append of a list is refused.
pub open spec fn all_accepted(shards: Map<ShardId, ShardModel>, reqs: Seq<AppendView>) -> bool {
    forall|i: int| 0 <= i < reqs.len() ==> append_refusal(shards, #[trigger] reqs[i]) is None
}

/// What a list of appends to one existing shard leaves as it was: the other
/// shards, and the state and the range of this one. Its counters grow.
pub proof fn lemma_refilled_frame(
    shards: Map<ShardId, ShardModel>,
    reqs: Seq<AppendView>,
    stamps: Seq<TimestampView>,
    target: ShardId,
)
    requires
        shards.contains_key(target),
        stamps.len() == reqs.len(),
        shard_has_room_for(shards[target], reqs),
        forall|i: int| 0 <= i < reqs.len() ==> (#[trigger] reqs[i]).shard_id == target,
    ensures
        refilled(shards, reqs, stamps).dom() == shards.dom(),
        forall|id: ShardId|
            id != target && shards.contains_key(id) ==> (#[trigger] refilled(
                shards,
                reqs,
                stamps,
            )[id]) == shards[id],
        ({
            let m = shards[target];
            let n = refilled(shards, reqs, stamps)[target];
            &&& n.info == (crate::shard::ShardInfoView {
                tip: n.info.tip,
                delta_count: n.info.delta_count,
                byte_size: n.info.byte_size,
                ..m.info
            })
            &&& n.info.tip == m.info.tip + reqs.len()
            &&& n.info.delta_count == m.info.delta_count + reqs.len()
            &&& n.info.byte_size == m.info.byte_size + total_cost(reqs)
            &&& n.log_len == m.log_len + reqs.len()
            &&& n.deltas.len() == m.deltas.len() + reqs.len()
            &&& n.deltas.take(m.deltas.len() as int) == m.deltas
            &&& n.watermarks == m.watermarks
        }),
    decreases reqs.len(),
{
    if reqs.len() > 0 {
        let r = reqs.drop_last();
        lemma_refilled_frame(shards, r, stamps.drop_last(), target);
        let s = refilled(shards, r, stamps.drop_last());
        assert(reqs.last().shard_id == target);
        assert(refilled(shards, reqs, stamps).dom() =~= shards.dom());
        let k = shards[target].deltas.len() as int;
        assert(refilled(shards, reqs, stamps)[target].deltas.take(k) =~= s[target].deltas.take(k));
    } else {
        assert(shards[target].deltas.take(shards[target].deltas.len() as int)
            =~= shards[target].deltas);
    }
}

/// Whether the log of a shard was pruned: its consumers let go of its first deltas,
/// so that a replay from the start would miss them.
pub open spec fn pruned(shards: Map<ShardId, ShardModel>, shard_id: ShardId) -> bool {
    shards.contains_key(shard_id) && boundary_of(shards[shard_id].watermarks) > 1
}

/// The refusal to replay a shard whose log was pruned.
pub open spec fn pruned_refusal(shards: Map<ShardId, ShardModel>, shard_id: ShardId) -> LogError {
    LogError::DeltaLogPruned {
        shard_id,
        gc_boundary: boundary_of(shards[shard_id].watermarks),
    }
}

/// Checks that a shard, where it exists, can be replayed from the start.
pub(crate) fn check_history<L: LogOps>(log: &L, shard_id: ShardId) -> (r: Result<(), LogError>)
    requires
        log.ready(),
    ensures
        pruned(log.shards(), shard_id) ==> r is Err && (log.reliable() ==> r == Err::<
            (),
            LogError,
        >(pruned_refusal(log.shards(), shard_id))),
        !pruned(log.shards(), shard_id) && log.reliable() ==> r is Ok,
        !log.shards().contains_key(shard_id) ==> r is Ok,
{
    if !log.has_shard(shard_id) {
        return Ok(());
    }
    match log.gc_boundary(shard_id) {
        Ok(boundary) => if boundary.0 > 1 {
            Err(LogError::DeltaLogPruned { shard_id, gc_boundary: boundary.0 })
        } else {
            Ok(())
        },
        Err(e) => Err(e),
    }
}

/// Why a shard, where it exists, cannot be split: it is in a merge, or its log was
/// pruned.
pub open spec fn split_refusal(
    shards: Map<ShardId, ShardModel>,
    shard_id: ShardId,
) -> Option<LogError> {
    if !shards.contains_key(shard_id) {
        None
    } else if shards[shard_id].info.state == ShardState::Merging {
        Some(LogError::ShardBusy { shard_id, reason: busy_reason(ShardState::Merging) })
    } else if pruned(shards, shard_id) {
        Some(pruned_refusal(shards, shard_id))
    } else {
        None
    }
}

/// Checks that a shard, where it exists, can be split; returns whether it is marked
/// as splitting.
pub(crate) fn check_split_source<L: LogOps>(log: &L, shard_id: ShardId) -> (r: Result<
    bool,
    LogError,
>)
    requires
        log.ready(),
    ensures
        match split_refusal(log.shards(), shard_id) {
            Some(e) => r is Err && (log.reliable() ==> r == Err::<bool, LogError>(e)),
            None => {
                &&& log.reliable() || !log.shards().contains_key(shard_id) ==> r is Ok
                &&& r matches Ok(splitting) ==> splitting == (log.shards().contains_key(shard_id)
                    && log.shards()[shard_id].info.state == ShardState::Splitting)
            },
        },
{
    if !log.has_shard(shard_id) {
        return Ok(false);
    }
    let info = match log.shard_health(shard_id) {
        Ok(i) => i,
        Err(e) => {
            return Err(e);
        },
    };
    if info.state == ShardState::Merging {
        return Err(busy_error(shard_id, info.state));
    }
    match check_history(log, shard_id) {
        Ok(()) => Ok(info.state == ShardState::Splitting),
        Err(e) => Err(e),
    }
}

/// Appends deltas to a shard, in order; returns how many. Stops at the first that
/// the backend does not take. With `keep_stamps` each delta keeps its timestamp;
/// without, it gets the one that the backend gives.
pub fn append_all<L: LogOps>(
    log: &mut L,
    target: ShardId,
    tenant: Option<OrgId>,
    deltas: &Vec<Delta>,
    keep_inline: bool,
    keep_stamps: bool,
) -> (r: Result<u64, LogError>)
    requires
        old(log).ready(),
        deltas@.len() < u64::MAX,
        old(log).shards().contains_key(target) ==> shard_has_room_for(
            old(log).shards()[target],
            reissues(delta_views(deltas@), target, tenant, keep_inline),
        ),
    ensures
        final(log).ready(),
        final(log).reliable() == old(log).reliable(),
        ({
            let reqs = reissues(delta_views(deltas@), target, tenant, keep_inline);
            exists|stamps: Seq<TimestampView>|
                {
                    &&& #[trigger] refilled_to(old(log).shards(), reqs, stamps, final(log).shards())
                    &&& keep_stamps || L::keeps_timestamps() ==> stamped_as_asked(reqs, stamps)
                    &&& r matches Ok(n) ==> n == deltas@.len() && stamps.len() == deltas@.len()
                        && all_accepted(old(log).shards(), reqs)
                    &&& r is Err ==> stamps.len() < deltas@.len()
                    &&& r matches Err(e) ==> old(log).reliable() ==> append_refusal(
                        old(log).shards(),
                        reqs[stamps.len() as int],
                    ) == Some(e)
                    &&& all_accepted(old(log).shards(), reqs.take(stamps.len() as int))
                }
        }),
{
    let ghost s0 = log.shards();
    let ghost sound = log.reliable();
    let ghost reqs = reissues(delta_views(deltas@), target, tenant, keep_inline);
    let ghost mut stamps: Seq<TimestampView> = Seq::empty();
    let mut i: usize = 0;
    assert(reqs.take(0) =~= Seq::<AppendView>::empty());
    while i < deltas.len()
        invariant
            i <= deltas@.len(),
            deltas@.len() < u64::MAX,
            log.ready(),
            s0 == old(log).shards(),
            sound == old(log).reliable(),
            log.reliable() == sound,
            reqs == reissues(delta_views(deltas@), target, tenant, keep_inline),
            s0.contains_key(target) ==> shard_has_room_for(s0[target], reqs),
            i > 0 ==> s0.contains_key(target),
            stamps.len() == i,
            log.shards() == refilled(s0, reqs.take(i as int), stamps),
            all_accepted(s0, reqs.take(i as int)),
            keep_stamps || L::keeps_timestamps() ==> stamped_as_asked(reqs, stamps),
        decreases deltas@.len() - i,
    {
        let delta = &deltas[i];
        let req = AppendDeltaRequest {
            shard_id: target,
            tenant_id: match tenant {
                Some(t) => t,
                None => delta.header.tenant_id,
            },
            operation: delta.header.operation,
            timestamp: delta.header.timestamp.clone(),
            hashed_key: delta.header.hashed_key,
            chunk_refs: copy_chunk_ids(&delta.header.chunk_refs),
            payload: copy_bytes(&delta.payload.ciphertext),
            has_inline_data: keep_inline && delta.header.has_inline_data,
        };
        let ghost before = log.shards();
        let ghost stamp = if keep_stamps {
            req@.timestamp
        } else {
            log.stamp(req@)
        };
        proof {
            assert(delta_views(deltas@)[i as int] == deltas@[i as int]@);
            assert(req@ =~= reqs[i as int]);
            if s0.contains_key(target) {
                lemma_total_cost_prefix(reqs, i as int);
                lemma_refilled_frame(s0, reqs.take(i as int), stamps, target);
                lemma_total_cost_prefix(reqs, i + 1);
                assert(reqs.take(i + 1).drop_last() =~= reqs.take(i as int));
                assert(reqs.take(i + 1).last() == reqs[i as int]);
            }
            assert(append_refusal(before, reqs[i as int]) == append_refusal(s0, reqs[i as int]));
        }
        let appended = if keep_stamps {
            log.move_delta(req)
        } else {
            log.append_delta(req)
        };
        match appended {
            Ok(_) => {
                proof {
                    let t = reqs.take(i + 1);
                    assert(t.drop_last() =~= reqs.take(i as int));
                    assert(t.last() == reqs[i as int]);
                    assert(stamps.push(stamp).drop_last() =~= stamps);
                    assert(append_refusal(s0, reqs[i as int]) is None);
                    assert(log.shards() == refilled(s0, t, stamps.push(stamp)));
                    assert forall|j: int| 0 <= j < t.len() implies append_refusal(
                        s0,
                        #[trigger] t[j],
                    ) is None by {
                        if j < i {
                            assert(reqs.take(i as int)[j] == t[j]);
                        }
                    }
                    stamps = stamps.push(stamp);
                }
            },
            Err(e) => {
                assert(refilled_to(s0, reqs, stamps, log.shards()));
                return Err(e);
            },
        }
        i = i + 1;
    }
    proof {
        assert(reqs.take(i as int) =~= reqs);
        assert(refilled_to(s0, reqs, stamps, log.shards()));
    }
    Ok(i as u64)
}

} // verus!
