//! What happens to the deltas and the keys of a shard over its life: as it is written
//! and read, split in two, and merged with its neighbour.

use vstd::prelude::*;

use crate::auto_split::{
    halfway, split_created, split_done, split_due, split_needed, split_requests, splits,
    upper_half, SplitCheck, SplitPlan,
};
use crate::bytes::{be_value, lemma_be_value_injective, lemma_be_value_lexicographic};
use crate::compaction_worker::picked_deltas;
use crate::delta::{DeltaView, OperationType};
use crate::error::LogError;
use crate::ids::{NodeId, OrgId, ShardId};
use crate::merge::{
    copied, copied_from, interleaved, lemma_merge_order, merge_input, merge_keeps_every_delta,
    merge_prepared, merge_ranks, merge_refusal, permutation, MergeKey, MergeState,
};
use crate::ordered_map::OrderedKey;
use crate::raft_shard_store::{
    batched, batches_are_one_read, keys_within, lemma_refilled_numbers, merge_into_refusal,
    redistributed, redistribution, shards_merged, split_begun, split_outcome, split_point,
};
use crate::reissue::{
    all_accepted, lemma_refilled_frame, pruned, refilled_to, reissued, reissues, split_refusal,
    stamped_as_asked,
};
use crate::shard::{default_config, ShardConfig, ShardInfoView, ShardState};
use crate::time::{hlc_rank, HybridLogicalClock, TimestampView};
use crate::traits::{
    append_refusal, fresh_shard, key_between, lemma_total_cost_least, numbered, ranged_in,
    shard_appended, shard_has_room_for, shard_maintained, state_set_in, total_cost, AppendView,
    ShardModel,
};

verus! {

// ---------------------------------------------------------------------------
// Order of keys and of clock readings
// ---------------------------------------------------------------------------

/// Whether one byte string goes before another of its length: it is lower at the first
/// byte in which they differ.
pub open spec fn key_less(a: Seq<u8>, b: Seq<u8>) -> bool {
    exists|i: int|
        0 <= i < a.len() && i < b.len() && #[trigger] a[i] < b[i] && forall|j: int|
            0 <= j < i ==> a[j] == b[j]
}

/// Two different byte strings of one length differ first somewhere.
proof fn lemma_first_difference(a: Seq<u8>, b: Seq<u8>, n: int)
    requires
        a.len() == b.len(),
        0 <= n <= a.len(),
        forall|j: int| 0 <= j < n ==> a[j] == b[j],
        a != b,
    ensures
        key_less(a, b) || key_less(b, a),
    decreases a.len() - n,
{
    if n == a.len() {
        assert(a =~= b);
    } else if a[n] < b[n] {
        assert(key_less(a, b));
    } else if b[n] < a[n] {
        assert(key_less(b, a));
    } else {
        lemma_first_difference(a, b, n + 1);
    }
}

/// Law: keys are ordered as the numbers they spell.
pub proof fn keys_are_ordered_as_bytes(a: Seq<u8>, b: Seq<u8>)
    requires
        a.len() == b.len(),
    ensures
        key_less(a, b) <==> be_value(a) < be_value(b),
        a == b <==> be_value(a) == be_value(b),
{
    if key_less(a, b) {
        let i = choose|i: int|
            0 <= i < a.len() && i < b.len() && #[trigger] a[i] < b[i] && forall|j: int|
                0 <= j < i ==> a[j] == b[j];
        lemma_be_value_lexicographic(a, b, i);
    }
    if key_less(b, a) {
        let i = choose|i: int|
            0 <= i < b.len() && i < a.len() && #[trigger] b[i] < a[i] && forall|j: int|
                0 <= j < i ==> b[j] == a[j];
        lemma_be_value_lexicographic(b, a, i);
    }
    if be_value(a) == be_value(b) {
        lemma_be_value_injective(a, b);
    }
    if a != b {
        lemma_first_difference(a, b, 0);
    }
}

/// Whether a key is at or past the start of a range, and before its end, as bytes.
pub open spec fn key_inside(key: [u8; 32], start: [u8; 32], end: [u8; 32]) -> bool {
    !key_less(key@, start@) && key_less(key@, end@)
}

/// Law: a key is in a range exactly where it is not before the start, and before the end.
pub proof fn range_holds_the_keys_inside(key: [u8; 32], start: [u8; 32], end: [u8; 32])
    ensures
        key_between(key, start, end) <==> key_inside(key, start, end),
{
    keys_are_ordered_as_bytes(key@, start@);
    keys_are_ordered_as_bytes(key@, end@);
}

/// Whether one clock reading is earlier than another: by its physical part, then by
/// its logical part, then by its node.
pub open spec fn reading_less(a: HybridLogicalClock, b: HybridLogicalClock) -> bool {
    a.physical_ms < b.physical_ms || (a.physical_ms == b.physical_ms && (a.logical < b.logical || (
    a.logical == b.logical && a.node_id.0 < b.node_id.0)))
}

/// Law: clock readings are ordered part by part.
pub proof fn readings_are_ordered_by_parts(a: HybridLogicalClock, b: HybridLogicalClock)
    ensures
        reading_less(a, b) <==> hlc_rank(a) < hlc_rank(b),
        a == b <==> hlc_rank(a) == hlc_rank(b),
{
    if hlc_rank(a) == hlc_rank(b) {
        HybridLogicalClock::rank_injective(a, b);
    }
}

// ---------------------------------------------------------------------------
// Writing and reading
// ---------------------------------------------------------------------------

/// Law: an append is taken exactly where its shard exists, is healthy, splitting or
/// merging, and has the key in its range. A refusal names what is missing, and a state
/// that takes no writes is named before a key that is out of range.
pub proof fn append_is_taken_where_it_may_be(shards: Map<ShardId, ShardModel>, req: AppendView)
    ensures
        ({
            let id = req.shard_id;
            let info = shards[id].info;
            let open = info.state == ShardState::Healthy || info.state == ShardState::Splitting
                || info.state == ShardState::Merging;
            let inside = key_inside(req.hashed_key, info.range_start, info.range_end);
            &&& append_refusal(shards, req) is None <==> shards.contains_key(id) && open && inside
            &&& append_refusal(shards, req) == Some(LogError::ShardNotFound(id))
                <==> !shards.contains_key(id)
            &&& shards.contains_key(id) ==> {
                &&& append_refusal(shards, req) == Some(LogError::MaintenanceMode(id)) <==> info.state
                    == ShardState::Maintenance
                &&& append_refusal(shards, req) == Some(LogError::LeaderUnavailable(id))
                    <==> info.state == ShardState::Election
                &&& append_refusal(shards, req) == Some(LogError::QuorumLost(id)) <==> info.state
                    == ShardState::QuorumLost
                &&& append_refusal(shards, req) == Some(
                    LogError::ShardBusy { shard_id: id, reason: "shard retiring" },
                ) <==> info.state == ShardState::Retiring
                &&& append_refusal(shards, req) == Some(LogError::KeyOutOfRange(id)) <==> open
                    && !inside
            }
        }),
{
    let info = shards[req.shard_id].info;
    range_holds_the_keys_inside(req.hashed_key, info.range_start, info.range_end);
}

/// Whether a delta holds what a request asked for, under a number.
pub open spec fn answers(d: DeltaView, req: AppendView, sequence: int) -> bool {
    &&& d.header.sequence == sequence
    &&& d.header.shard_id == req.shard_id
    &&& d.header.tenant_id == req.tenant_id
    &&& d.header.operation == req.operation
    &&& d.header.hashed_key == req.hashed_key
    &&& d.header.tombstone <==> req.operation == OperationType::Delete
    &&& d.header.chunk_refs == req.chunk_refs
    &&& d.header.payload_size == req.payload.len() % 0x1_0000_0000
    &&& d.header.has_inline_data == req.has_inline_data
    &&& d.payload.ciphertext == req.payload
    &&& d.payload.auth_tag.len() == 0 && d.payload.nonce.len() == 0
    &&& d.payload.tenant_wrapped_material.len() == 0
    &&& d.payload.system_epoch is None && d.payload.tenant_epoch is None
}

/// Law: an append leaves one delta more, with what it asked for, under the next number;
/// the shard counts one delta more, and grows by the payload and a header. Nothing else
/// of the shard changes.
pub proof fn append_grows_a_shard_by_one(m: ShardModel, req: AppendView, timestamp: TimestampView)
    requires
        m.info.tip < u64::MAX,
        m.info.delta_count < u64::MAX,
        m.info.byte_size + req.payload.len() % 0x1_0000_0000 + 128 <= u64::MAX,
    ensures
        ({
            let next = shard_appended(m, req, timestamp);
            &&& next.deltas.len() == m.deltas.len() + 1
            &&& next.deltas.drop_last() == m.deltas
            &&& answers(next.deltas.last(), req, m.info.tip + 1)
            &&& next.deltas.last().header.timestamp == timestamp
            &&& next.info.tip == m.info.tip + 1
            &&& next.info.delta_count == m.info.delta_count + 1
            &&& next.info.byte_size == m.info.byte_size + req.payload.len() % 0x1_0000_0000 + 128
            &&& next.info == (ShardInfoView {
                tip: next.info.tip,
                delta_count: next.info.delta_count,
                byte_size: next.info.byte_size,
                ..m.info
            })
            &&& next.watermarks == m.watermarks
            &&& next.log_len == m.log_len + 1
        }),
{
    assert(shard_appended(m, req, timestamp).deltas.drop_last() =~= m.deltas);
}

/// Law: a read of a range of numbers gives the deltas with these numbers, all of them, in
/// order, and no others.
pub proof fn read_gives_the_numbers_asked_for(d: Seq<DeltaView>, from: u64, to: u64)
    ensures
        numbered(d, from, to) == d.filter(|x: DeltaView| from <= x.header.sequence <= to),
    decreases d.len(),
{
    reveal(Seq::filter);
    if d.len() > 0 {
        read_gives_the_numbers_asked_for(d.drop_last(), from, to);
    }
}

/// What a predicate holds of throughout, a filter leaves as it is.
proof fn lemma_filter_all<T>(s: Seq<T>, p: spec_fn(T) -> bool)
    requires
        forall|i: int| 0 <= i < s.len() ==> p(#[trigger] s[i]),
    ensures
        s.filter(p) == s,
    decreases s.len(),
{
    reveal(Seq::filter);
    if s.len() > 0 {
        lemma_filter_all(s.drop_last(), p);
        assert(s.last() == s[s.len() - 1]);
        assert(s.drop_last().push(s.last()) =~= s);
    }
}

/// Two predicates that agree pick the same.
pub proof fn lemma_filter_same<T>(s: Seq<T>, p: spec_fn(T) -> bool, q: spec_fn(T) -> bool)
    requires
        forall|x: T| #[trigger] p(x) == q(x),
    ensures
        s.filter(p) == s.filter(q),
    decreases s.len(),
{
    reveal(Seq::filter);
    if s.len() > 0 {
        lemma_filter_same(s.drop_last(), p, q);
        assert(p(s.last()) == q(s.last()));
    }
}

/// Law: a shard that is created is healthy and empty, led by its first member, over all
/// keys but the highest, with the ceilings it was given.
pub proof fn created_shard_is_empty(
    shard_id: ShardId,
    tenant_id: OrgId,
    node_id: NodeId,
    config: ShardConfig,
)
    ensures
        ({
            let m = fresh_shard(shard_id, tenant_id, node_id, config);
            &&& m.info.shard_id == shard_id
            &&& m.info.tenant_id == tenant_id
            &&& m.info.raft_members.len() == 1
            &&& m.info.raft_members[0] == node_id
            &&& m.info.leader == Some(node_id)
            &&& m.info.tip == 0 && m.info.delta_count == 0 && m.info.byte_size == 0
            &&& m.info.state == ShardState::Healthy
            &&& m.info.config == config
            &&& m.deltas.len() == 0 && m.watermarks.len() == 0 && m.log_len == 0
            &&& forall|i: int| 0 <= i < 32 ==> #[trigger] m.info.range_start@[i] == 0
            &&& forall|i: int| 0 <= i < 32 ==> #[trigger] m.info.range_end@[i] == 0xff
        }),
        default_config().max_delta_count == 10_000_000,
        default_config().max_byte_size == 10_737_418_240,
        default_config().inline_threshold_bytes == 4096,
        default_config().inline_floor_bytes == 128,
        default_config().inline_ceiling_bytes == 65536,
{
}

/// Law: setting maintenance, the range or the state of a shard sets that and nothing
/// else; maintenance counts as a command. A shard that does not exist is not made.
pub proof fn shard_settings_are_set(
    shards: Map<ShardId, ShardModel>,
    id: ShardId,
    other: ShardId,
    start: [u8; 32],
    end: [u8; 32],
    state: ShardState,
    enabled: bool,
)
    ensures
        ({
            let m = shards[id];
            let on = shard_maintained(m, enabled);
            let set = state_set_in(shards, id, state);
            let ranged = ranged_in(shards, id, start, end);
            &&& enabled ==> on.info.state == ShardState::Maintenance
            &&& !enabled ==> on.info.state == ShardState::Healthy
            &&& on.info == (ShardInfoView { state: on.info.state, ..m.info })
            &&& on.deltas == m.deltas && on.watermarks == m.watermarks && on.log_len == m.log_len
                + 1
            &&& set.dom() == shards.dom() && ranged.dom() == shards.dom()
            &&& shards.contains_key(id) ==> {
                &&& set[id] == (ShardModel { info: ShardInfoView { state, ..m.info }, ..m })
                &&& ranged[id] == (ShardModel {
                    info: ShardInfoView { range_start: start, range_end: end, ..m.info },
                    ..m
                })
            }
            &&& other != id && shards.contains_key(other) ==> set[other] == shards[other]
                && ranged[other] == shards[other]
        }),
{
    assert(state_set_in(shards, id, state).dom() =~= shards.dom());
    assert(ranged_in(shards, id, start, end).dom() =~= shards.dom());
}

/// Law: a delta that is appended to another shard is asked for as it is, for the tenant
/// that is given, or else its own.
pub proof fn reissued_delta_is_the_same(
    d: DeltaView,
    target: ShardId,
    tenant: Option<OrgId>,
    keep_inline: bool,
)
    ensures
        ({
            let req = reissued(d, target, tenant, keep_inline);
            &&& req.shard_id == target
            &&& tenant matches Some(t) ==> req.tenant_id == t
            &&& tenant is None ==> req.tenant_id == d.header.tenant_id
            &&& req.operation == d.header.operation
            &&& req.timestamp == d.header.timestamp
            &&& req.hashed_key == d.header.hashed_key
            &&& req.chunk_refs == d.header.chunk_refs
            &&& req.payload == d.payload.ciphertext
            &&& req.has_inline_data <==> keep_inline && d.header.has_inline_data
        }),
{
}

// ---------------------------------------------------------------------------
// Splits
// ---------------------------------------------------------------------------

/// Law: a shard is within its ceilings exactly where both its deltas and its bytes are
/// below theirs. Too many deltas are reported as such, whatever the bytes; too many
/// bytes where only they are.
pub proof fn shard_is_split_at_its_ceilings(info: ShardInfoView)
    ensures
        split_needed(info) is Within <==> info.delta_count < info.config.max_delta_count
            && info.byte_size < info.config.max_byte_size,
        split_needed(info) is DeltaCountExceeded <==> info.delta_count
            >= info.config.max_delta_count,
        split_needed(info) is ByteSizeExceeded <==> info.delta_count < info.config.max_delta_count
            && info.byte_size >= info.config.max_byte_size,
        split_needed(info) matches SplitCheck::DeltaCountExceeded { current, threshold }
            ==> current == info.delta_count && threshold == info.config.max_delta_count,
        split_needed(info) matches SplitCheck::ByteSizeExceeded { current, threshold } ==> current
            == info.byte_size && threshold == info.config.max_byte_size,
{
}

/// Law: a split is planned exactly where a ceiling is reached and the range is wide enough
/// to have a key between its ends; the plan keeps the shard, its tenant and its range,
/// and cuts the range in the middle.
pub proof fn split_is_planned_in_the_middle(info: ShardInfoView, plan: SplitPlan)
    requires
        be_value(info.range_start@) <= be_value(info.range_end@),
    ensures
        split_due(info) <==> (info.delta_count >= info.config.max_delta_count || info.byte_size
            >= info.config.max_byte_size) && be_value(info.range_end@) - be_value(
            info.range_start@,
        ) >= 2,
        splits(plan, info) ==> {
            &&& plan.original_shard == info.shard_id
            &&& plan.tenant_id == info.tenant_id
            &&& plan.range_start == info.range_start
            &&& plan.range_end == info.range_end
            &&& info.leader matches Some(n) ==> plan.initial_node == n
            &&& info.leader is None ==> plan.initial_node.0 == 1
            &&& 2 * be_value(plan.midpoint@) <= be_value(info.range_start@) + be_value(
                info.range_end@,
            ) <= 2 * be_value(plan.midpoint@) + 1
        },
{
    shard_is_split_at_its_ceilings(info);
}

proof fn lemma_upper_half(d: Seq<DeltaView>, midpoint: [u8; 32])
    ensures
        upper_half(d, midpoint) == d.filter(
            |x: DeltaView| !key_less(x.header.hashed_key@, midpoint@),
        ),
    decreases d.len(),
{
    reveal(Seq::filter);
    if d.len() > 0 {
        lemma_upper_half(d.drop_last(), midpoint);
        keys_are_ordered_as_bytes(d.last().header.hashed_key@, midpoint@);
    }
}

proof fn lemma_keys_within(d: Seq<DeltaView>, start: [u8; 32], end: [u8; 32])
    ensures
        keys_within(d, start, end) == d.filter(
            |x: DeltaView| key_inside(x.header.hashed_key, start, end),
        ),
    decreases d.len(),
{
    reveal(Seq::filter);
    if d.len() > 0 {
        lemma_keys_within(d.drop_last(), start, end);
        range_holds_the_keys_inside(d.last().header.hashed_key, start, end);
    }
}

/// Whether a delta of one shard is that of another in a new place: under a number, for a
/// tenant.
pub open spec fn is_copy(
    d: DeltaView,
    of: DeltaView,
    shard_id: ShardId,
    tenant: OrgId,
    sequence: int,
    inline: bool,
) -> bool {
    &&& d.header.sequence == sequence
    &&& d.header.shard_id == shard_id
    &&& d.header.tenant_id == tenant
    &&& d.header.operation == of.header.operation
    &&& d.header.hashed_key == of.header.hashed_key
    &&& d.header.chunk_refs == of.header.chunk_refs
    &&& d.header.tombstone <==> of.header.operation == OperationType::Delete
    &&& d.header.payload_size == of.payload.ciphertext.len() % 0x1_0000_0000
    &&& d.header.has_inline_data <==> inline && of.header.has_inline_data
    &&& d.payload.ciphertext == of.payload.ciphertext
}

/// Law: a split leaves two shards that hold what one held. The new shard holds every
/// delta of the old one with a key at or past the midpoint, in order, numbered from
/// one; the old one keeps its deltas. The ranges meet at the midpoint, both shards are
/// healthy where the old one was splitting, and no other shard changes.
pub proof fn split_leaves_two_halves(
    shards: Map<ShardId, ShardModel>,
    plan: SplitPlan,
    stamps: Seq<TimestampView>,
    other: ShardId,
)
    requires
        shards.contains_key(plan.original_shard),
        plan.new_shard != plan.original_shard,
        total_cost(split_requests(shards, plan)) <= u64::MAX,
        stamps.len() == split_requests(shards, plan).len(),
    ensures
        ({
            let done = split_done(shards, plan, stamps);
            let was = shards[plan.original_shard];
            let moved = was.deltas.filter(
                |x: DeltaView| !key_less(x.header.hashed_key@, plan.midpoint@),
            );
            let low = done[plan.original_shard];
            let high = done[plan.new_shard];
            &&& done.contains_key(plan.original_shard) && done.contains_key(plan.new_shard)
            &&& low.deltas == was.deltas
            &&& low.info.range_start == plan.range_start && low.info.range_end == plan.midpoint
            &&& low.info == (ShardInfoView {
                range_start: low.info.range_start,
                range_end: low.info.range_end,
                state: low.info.state,
                ..was.info
            })
            &&& was.info.state == ShardState::Splitting ==> low.info.state == ShardState::Healthy
            &&& was.info.state != ShardState::Splitting ==> low.info.state == was.info.state
            &&& high.info.range_start == plan.midpoint && high.info.range_end == plan.range_end
            &&& high.info.state == ShardState::Healthy
            &&& high.info.tenant_id == plan.tenant_id
            &&& high.info.leader == Some(plan.initial_node)
            &&& high.info.tip == moved.len() && high.info.delta_count == moved.len()
            &&& high.deltas.len() == moved.len()
            &&& forall|i: int|
                0 <= i < moved.len() ==> is_copy(
                    #[trigger] high.deltas[i],
                    moved[i],
                    plan.new_shard,
                    plan.tenant_id,
                    i + 1,
                    true,
                ) && high.deltas[i].header.timestamp == stamps[i]
            &&& other != plan.original_shard && other != plan.new_shard ==> done.contains_key(
                other,
            ) == shards.contains_key(other) && (shards.contains_key(other) ==> done[other]
                == shards[other])
        }),
{
    let created = split_created(shards, plan);
    let reqs = split_requests(shards, plan);
    lemma_total_cost_least(reqs);
    lemma_refilled_frame(created, reqs, stamps, plan.new_shard);
    lemma_upper_half(created[plan.original_shard].deltas, plan.midpoint);
    let filled = crate::reissue::refilled(created, reqs, stamps);
    assert(filled.dom().contains(plan.original_shard) && filled.dom().contains(plan.new_shard));
    assert(filled.contains_key(other) == created.contains_key(other)) by {
        assert(filled.dom().contains(other) == created.dom().contains(other));
    }
    assert(filled[plan.original_shard] == shards[plan.original_shard]);
    let done = split_done(shards, plan, stamps);
    let moved = shards[plan.original_shard].deltas.filter(
        |x: DeltaView| !key_less(x.header.hashed_key@, plan.midpoint@),
    );
    assert forall|i: int| 0 <= i < moved.len() implies is_copy(
        #[trigger] done[plan.new_shard].deltas[i],
        moved[i],
        plan.new_shard,
        plan.tenant_id,
        i + 1,
        true,
    ) && done[plan.new_shard].deltas[i].header.timestamp == stamps[i] by {
        crate::auto_split::lemma_refilled_delta(created, reqs, stamps, plan.new_shard, i);
        assert(done[plan.new_shard].deltas == filled[plan.new_shard].deltas);
    }
}

/// Whether the numbers of a shard's deltas are between one and a bound.
pub open spec fn numbered_up_to(m: ShardModel, bound: u64) -> bool {
    forall|i: int| 0 <= i < m.deltas.len() ==> 1 <= (#[trigger] m.deltas[i]).header.sequence
        <= bound
}

/// Law: a redistribution moves every delta of the source with a key in the range, and no
/// other: they follow the deltas of the target, in the order of the source, numbered on
/// from its tip, for the tenants that they had, with the timestamps that they had. The
/// source and every other shard stay as they were.
#[verifier::spinoff_prover]
#[verifier::rlimit(40)]
pub proof fn redistribution_moves_the_range(
    before: Map<ShardId, ShardModel>,
    source: ShardId,
    target: ShardId,
    start: [u8; 32],
    end: [u8; 32],
    sound: bool,
    n: u64,
    after: Map<ShardId, ShardModel>,
    other: ShardId,
)
    requires
        before.contains_key(source),
        before.contains_key(target),
        crate::traits::shard_ordered(before[source]),
        numbered_up_to(before[source], before[source].info.tip),
        shard_has_room_for(before[target], redistributed(before, source, target, start, end)),
        redistribution(
            before,
            redistributed(before, source, target, start, end),
            sound,
            Ok(n),
            after,
        ),
    ensures
        ({
            let moved = before[source].deltas.filter(
                |x: DeltaView| key_inside(x.header.hashed_key, start, end),
            );
            let held = before[target].deltas;
            let holds = after[target].deltas;
            &&& n == moved.len()
            &&& after.dom() == before.dom()
            &&& holds.len() == held.len() + n
            &&& holds.take(held.len() as int) == held
            &&& after[target].info.tip == before[target].info.tip + n
            &&& forall|i: int|
                0 <= i < n ==> is_copy(
                    #[trigger] holds[held.len() + i],
                    moved[i],
                    target,
                    moved[i].header.tenant_id,
                    before[target].info.tip + 1 + i,
                    true,
                ) && holds[held.len() + i].header.timestamp == moved[i].header.timestamp
            &&& other != target && before.contains_key(other) ==> after[other] == before[other]
        }),
{
    let m = before[source];
    let reqs = redistributed(before, source, target, start, end);
    if m.info.tip >= 1 {
        batches_are_one_read(m.deltas, 1, m.info.tip);
    } else {
        if m.deltas.len() > 0 {
            assert(m.deltas[0].header.sequence <= m.info.tip);
        }
        assert(batched(m.deltas, 1, m.info.tip) =~= m.deltas);
        assert(numbered(m.deltas, 1, m.info.tip) =~= m.deltas);
    }
    read_gives_the_numbers_asked_for(m.deltas, 1, m.info.tip);
    lemma_filter_all(m.deltas, |x: DeltaView| 1 <= x.header.sequence <= m.info.tip);
    lemma_keys_within(m.deltas, start, end);
    let stamps = choose|stamps: Seq<TimestampView>|
        {
            &&& #[trigger] refilled_to(before, reqs, stamps, after)
            &&& stamped_as_asked(reqs, stamps)
            &&& n == reqs.len() && stamps.len() == reqs.len() && all_accepted(before, reqs)
        };
    assert(reqs.take(stamps.len() as int) =~= reqs);
    lemma_refilled_frame(before, reqs, stamps, target);
    let held = before[target].deltas;
    let moved = m.deltas.filter(|x: DeltaView| key_inside(x.header.hashed_key, start, end));
    assert forall|i: int| 0 <= i < n implies is_copy(
        #[trigger] after[target].deltas[held.len() + i],
        moved[i],
        target,
        moved[i].header.tenant_id,
        before[target].info.tip + 1 + i,
        true,
    ) && after[target].deltas[held.len() + i].header.timestamp == moved[i].header.timestamp by {
        lemma_refilled_numbers(before, reqs, stamps, target, i);
        assert(reqs[i] == reissued(moved[i], target, None, true));
        assert(stamps[i] == reqs[i].timestamp);
    }
}

/// Law: a split in place parts the range in the middle. The source keeps the lower half
/// and is healthy; the new shard, created where it was not there, has the upper half.
pub proof fn split_in_place_parts_the_range(
    shards: Map<ShardId, ShardModel>,
    shard_id: ShardId,
    new_shard_id: ShardId,
    node_id: NodeId,
    mid: [u8; 32],
    sound: bool,
    after: Map<ShardId, ShardModel>,
)
    requires
        shards.contains_key(shard_id),
        shard_id != new_shard_id,
        ({
            let info = shards[shard_id].info;
            let begun = split_begun(shards, shard_id, new_shard_id, node_id, mid);
            let reqs = redistributed(begun, shard_id, new_shard_id, mid, info.range_end);
            &&& shard_has_room_for(begun[new_shard_id], reqs)
            &&& split_outcome(
                begun,
                shard_id,
                new_shard_id,
                info,
                mid,
                sound,
                Ok(new_shard_id),
                after,
            )
        }),
    ensures
        ({
            let was = shards[shard_id];
            let low = after[shard_id];
            let high = after[new_shard_id];
            &&& low.deltas == was.deltas
            &&& low.info.range_start == was.info.range_start && low.info.range_end == mid
            &&& low.info.state == ShardState::Healthy
            &&& low.info == (ShardInfoView {
                range_end: low.info.range_end,
                state: low.info.state,
                ..was.info
            })
            &&& high.info.range_start == mid && high.info.range_end == was.info.range_end
            &&& !shards.contains_key(new_shard_id) ==> high.info.tenant_id == was.info.tenant_id
                && high.info.config == was.info.config && high.info.state == ShardState::Healthy
        }),
{
    let info = shards[shard_id].info;
    let begun = split_begun(shards, shard_id, new_shard_id, node_id, mid);
    let reqs = redistributed(begun, shard_id, new_shard_id, mid, info.range_end);
    let (stamps, moved) = choose|stamps: Seq<TimestampView>, moved: Map<ShardId, ShardModel>|
        {
            &&& #[trigger] refilled_to(begun, reqs, stamps, moved)
            &&& stamps.len() == reqs.len()
            &&& after == crate::raft_shard_store::split_ended(moved, shard_id, info, mid)
        };
    assert(reqs.take(stamps.len() as int) =~= reqs);
    lemma_refilled_frame(begun, reqs, stamps, new_shard_id);
    assert(moved.dom().contains(shard_id) && moved.dom().contains(new_shard_id));
    assert(moved[shard_id] == begun[shard_id]);
}

/// Law: the point at which a range is cut is its middle, rounded down.
pub proof fn split_point_is_the_middle(start: [u8; 32], end: [u8; 32], m: [u8; 32])
    requires
        be_value(m@) == halfway(start, end),
    ensures
        m == split_point(start, end),
        2 * be_value(split_point(start, end)@) <= be_value(start@) + be_value(end@) <= 2 * be_value(
            split_point(start, end)@,
        ) + 1,
{
    crate::raft_shard_store::lemma_split_point(start, end, m);
}

/// Law: a shard may be split unless it is merging, or its log was pruned: every consumer
/// is past its first delta.
pub proof fn split_is_refused_where_it_must_be(shards: Map<ShardId, ShardModel>, id: ShardId)
    ensures
        ({
            let w = shards[id].watermarks;
            let lost = w.len() > 0 && forall|i: int| 0 <= i < w.len() ==> (#[trigger] w[i]).1 > 1;
            &&& pruned(shards, id) <==> shards.contains_key(id) && lost
            &&& split_refusal(shards, id) is None <==> !shards.contains_key(id) || (
            shards[id].info.state != ShardState::Merging && !lost)
            &&& shards.contains_key(id) && shards[id].info.state == ShardState::Merging
                ==> split_refusal(shards, id) == Some(
                LogError::ShardBusy { shard_id: id, reason: "merge in progress" },
            )
            &&& split_refusal(shards, id) matches Some(LogError::DeltaLogPruned {
                shard_id,
                gc_boundary,
            }) ==> shard_id == id && (exists|i: int|
                0 <= i < w.len() && (#[trigger] w[i]).1 == gc_boundary) && forall|i: int|
                0 <= i < w.len() ==> gc_boundary <= (#[trigger] w[i]).1
        }),
{
    let w = shards[id].watermarks;
    crate::watermark::lowest_position_is_minimum(w);
    if shards.contains_key(id) && w.len() > 0 {
        let b = crate::watermark::lowest_position(w)->0;
        let i = choose|i: int| 0 <= i < w.len() && (#[trigger] w[i]).1 == b;
        assert(b <= w[i].1);
    }
}

// ---------------------------------------------------------------------------
// Merges
// ---------------------------------------------------------------------------

/// Law: two shards can be merged exactly where both exist, the first ends where the second
/// begins, and neither is in a split or a merge.
pub proof fn neighbours_can_be_merged(shards: Map<ShardId, ShardModel>, a: ShardId, b: ShardId)
    ensures
        ({
            let x = shards[a].info;
            let y = shards[b].info;
            let busy_x = x.state == ShardState::Splitting || x.state == ShardState::Merging;
            let busy_y = y.state == ShardState::Splitting || y.state == ShardState::Merging;
            let there = shards.contains_key(a) && shards.contains_key(b);
            &&& merge_refusal(shards, a, b) is None <==> there && x.range_end == y.range_start
                && !busy_x && !busy_y
            &&& !shards.contains_key(a) ==> merge_refusal(shards, a, b) == Some(
                LogError::ShardNotFound(a),
            )
            &&& shards.contains_key(a) && !shards.contains_key(b) ==> merge_refusal(shards, a, b)
                == Some(LogError::ShardNotFound(b))
            &&& there && x.range_end != y.range_start ==> merge_refusal(shards, a, b) == Some(
                LogError::ShardBusy { shard_id: a, reason: "shards are not adjacent" },
            )
            &&& there && x.range_end == y.range_start && busy_x ==> merge_refusal(shards, a, b)
                == Some(
                LogError::ShardBusy {
                    shard_id: a,
                    reason: if x.state == ShardState::Merging {
                        "merge in progress"
                    } else {
                        "split in progress"
                    },
                },
            )
            &&& there && x.range_end == y.range_start && !busy_x && busy_y ==> merge_refusal(
                shards,
                a,
                b,
            ) == Some(
                LogError::ShardBusy {
                    shard_id: b,
                    reason: if y.state == ShardState::Merging {
                        "merge in progress"
                    } else {
                        "split in progress"
                    },
                },
            )
        }),
{
}

/// Law: preparing a merge marks both inputs as merging, creates an empty shard over both
/// ranges for the tenant, and leaves every other shard and all deltas alone.
pub proof fn prepared_merge_waits_for_its_copy(
    shards: Map<ShardId, ShardModel>,
    a: ShardId,
    b: ShardId,
    tenant_id: OrgId,
    merged: ShardId,
    other: ShardId,
)
    requires
        shards.contains_key(a),
        shards.contains_key(b),
        a != b,
        merged != a,
        merged != b,
    ensures
        ({
            let next = merge_prepared(shards, a, b, tenant_id, merged);
            &&& next[a].info == (ShardInfoView { state: ShardState::Merging, ..shards[a].info })
            &&& next[b].info == (ShardInfoView { state: ShardState::Merging, ..shards[b].info })
            &&& next[a].deltas == shards[a].deltas && next[b].deltas == shards[b].deltas
            &&& next[a].watermarks == shards[a].watermarks && next[b].watermarks
                == shards[b].watermarks
            &&& next.contains_key(merged)
            &&& next[merged].deltas.len() == 0 && next[merged].info.tip == 0
                && next[merged].info.delta_count == 0 && next[merged].info.byte_size == 0
            &&& next[merged].info.range_start == shards[a].info.range_start
            &&& next[merged].info.range_end == shards[b].info.range_end
            &&& next[merged].info.state == ShardState::Healthy
            &&& next[merged].info.tenant_id == tenant_id
            &&& shards[a].info.leader matches Some(n) ==> next[merged].info.leader == Some(n)
            &&& shards[a].info.leader is None ==> next[merged].info.leader == Some(NodeId(1))
            &&& other != a && other != b && other != merged ==> next.contains_key(other)
                == shards.contains_key(other) && (shards.contains_key(other) ==> next[other]
                == shards[other])
        }),
{
}

/// Law: the input of a merge is everything the two shards hold: up to the tips, the deltas
/// of the one and then those of the other.
pub proof fn merge_reads_all_of_both(shards: Map<ShardId, ShardModel>, st: MergeState)
    requires
        numbered_up_to(shards[st.shard_a], st.hwm_a.0),
        numbered_up_to(shards[st.shard_b], st.hwm_b.0),
    ensures
        merge_input(shards, st) == shards[st.shard_a].deltas + shards[st.shard_b].deltas,
{
    lemma_copied_from(shards[st.shard_a], st.hwm_a.0);
    lemma_copied_from(shards[st.shard_b], st.hwm_b.0);
}

proof fn lemma_copied_from(m: ShardModel, hwm: u64)
    requires
        numbered_up_to(m, hwm),
    ensures
        copied_from(m, hwm) == m.deltas,
{
    if hwm > 0 {
        read_gives_the_numbers_asked_for(m.deltas, 1, hwm);
        lemma_filter_all(m.deltas, |x: DeltaView| 1 <= x.header.sequence <= hwm);
    } else {
        if m.deltas.len() > 0 {
            assert(1 <= m.deltas[0].header.sequence <= hwm);
        }
        assert(m.deltas =~= Seq::<DeltaView>::empty());
    }
}

/// Whether a delta of one shard goes before a delta of another in a merge, or may: its key
/// is lower, or the same and its reading is earlier, or both are the same and its shard
/// is not the higher.
pub open spec fn merge_ordered(
    x: DeltaView,
    of_x: ShardId,
    y: DeltaView,
    of_y: ShardId,
) -> bool {
    let kx = x.header.hashed_key;
    let ky = y.header.hashed_key;
    let rx = x.header.timestamp.hlc;
    let ry = y.header.timestamp.hlc;
    key_less(kx@, ky@) || (kx@ == ky@ && (reading_less(rx, ry) || (rx == ry && of_x.0 <= of_y.0)))
}

/// Law: a merge that succeeds leaves nothing out. The merged shard gets every delta of
/// both inputs, each once, with its key, operation, chunks and payload, for the tenant of
/// the merge, numbered on from its tip; by key, then by clock reading, then by shard. No
/// other shard changes.
pub proof fn merged_shard_holds_both_inputs(
    before: Map<ShardId, ShardModel>,
    st: MergeState,
    out: Seq<DeltaView>,
    keeps: bool,
    sound: bool,
    n: u64,
    after: Map<ShardId, ShardModel>,
    other: ShardId,
)
    requires
        before.contains_key(st.merged_shard),
        numbered_up_to(before[st.shard_a], st.hwm_a.0),
        numbered_up_to(before[st.shard_b], st.hwm_b.0),
        before[st.shard_a].deltas.len() + before[st.shard_b].deltas.len() <= usize::MAX,
        shard_has_room_for(
            before[st.merged_shard],
            reissues(out, st.merged_shard, Some(st.tenant_id), false),
        ),
        interleaved(before, st, out),
        copied(before, st, out, keeps, sound, Ok(n), after),
    ensures
        ({
            let input = before[st.shard_a].deltas + before[st.shard_b].deltas;
            let lower = before[st.shard_a].deltas.len();
            let held = before[st.merged_shard].deltas;
            let holds = after[st.merged_shard].deltas;
            &&& n == input.len()
            &&& holds.len() == held.len() + n
            &&& holds.take(held.len() as int) == held
            &&& exists|p: Seq<usize>|
                {
                    &&& #[trigger] permutation(p, input.len())
                    &&& forall|i: int|
                        0 <= i < n ==> is_copy(
                            #[trigger] holds[held.len() + i],
                            input[p[i] as int],
                            st.merged_shard,
                            st.tenant_id,
                            before[st.merged_shard].info.tip + 1 + i,
                            false,
                        )
                    &&& keeps ==> forall|i: int|
                        0 <= i < n ==> (#[trigger] holds[held.len() + i]).header.timestamp
                            == input[p[i] as int].header.timestamp
                    &&& forall|i: int, j: int|
                        0 <= i < j < n ==> merge_ordered(
                            input[(#[trigger] p[i]) as int],
                            if p[i] < lower {
                                st.shard_a
                            } else {
                                st.shard_b
                            },
                            input[(#[trigger] p[j]) as int],
                            if p[j] < lower {
                                st.shard_a
                            } else {
                                st.shard_b
                            },
                        )
                }
            &&& other != st.merged_shard && before.contains_key(other) ==> after[other]
                == before[other]
        }),
{
    let input = before[st.shard_a].deltas + before[st.shard_b].deltas;
    let lower = before[st.shard_a].deltas.len();
    merge_reads_all_of_both(before, st);
    lemma_copied_from(before[st.shard_a], st.hwm_a.0);
    merge_keeps_every_delta(before, st, out);
    let ranks = merge_ranks(before, st);
    let q = choose|q: Seq<usize>| #[trigger]
        crate::sort::selection(ranks, crate::merge::everything(), q) && picked_deltas(
            input,
            q,
            out,
        );
    lemma_selected_permutation(before, st, q);
    let reqs = reissues(out, st.merged_shard, Some(st.tenant_id), false);
    let stamps = choose|stamps: Seq<TimestampView>|
        {
            &&& #[trigger] refilled_to(before, reqs, stamps, after)
            &&& keeps ==> stamped_as_asked(reqs, stamps)
            &&& n == out.len() && stamps.len() == out.len()
        };
    assert(reqs.take(stamps.len() as int) =~= reqs);
    lemma_refilled_frame(before, reqs, stamps, st.merged_shard);
    let held = before[st.merged_shard].deltas;
    let holds = after[st.merged_shard].deltas;
    assert forall|i: int| 0 <= i < n implies is_copy(
        #[trigger] holds[held.len() + i],
        input[q[i] as int],
        st.merged_shard,
        st.tenant_id,
        before[st.merged_shard].info.tip + 1 + i,
        false,
    ) && (keeps ==> holds[held.len() + i].header.timestamp
        == input[q[i] as int].header.timestamp) by {
        lemma_refilled_numbers(before, reqs, stamps, st.merged_shard, i);
        assert(out[i] == input[q[i] as int]);
        assert(reqs[i] == reissued(out[i], st.merged_shard, Some(st.tenant_id), false));
        if keeps {
            assert(stamps[i] == reqs[i].timestamp);
        }
    }
    assert forall|i: int, j: int| 0 <= i < j < n implies merge_ordered(
        input[(#[trigger] q[i]) as int],
        if q[i] < lower {
            st.shard_a
        } else {
            st.shard_b
        },
        input[(#[trigger] q[j]) as int],
        if q[j] < lower {
            st.shard_a
        } else {
            st.shard_b
        },
    ) by {
        let x = input[q[i] as int];
        let y = input[q[j] as int];
        let kx = MergeKey {
            hashed_key: x.header.hashed_key,
            hlc: x.header.timestamp.hlc,
            shard: if q[i] < lower {
                st.shard_a
            } else {
                st.shard_b
            },
        };
        let ky = MergeKey {
            hashed_key: y.header.hashed_key,
            hlc: y.header.timestamp.hlc,
            shard: if q[j] < lower {
                st.shard_a
            } else {
                st.shard_b
            },
        };
        assert(kx.rank() == ranks[q[i] as int] && ky.rank() == ranks[q[j] as int]);
        lemma_merge_order(ky, kx);
        keys_are_ordered_as_bytes(kx.hashed_key@, ky.hashed_key@);
        keys_are_ordered_as_bytes(ky.hashed_key@, kx.hashed_key@);
        readings_are_ordered_by_parts(kx.hlc, ky.hlc);
        readings_are_ordered_by_parts(ky.hlc, kx.hlc);
    }
}

/// The positions that a merge picks are all positions, each once.
proof fn lemma_selected_permutation(
    shards: Map<ShardId, ShardModel>,
    st: MergeState,
    q: Seq<usize>,
)
    requires
        merge_input(shards, st).len() <= usize::MAX,
        crate::sort::selection(merge_ranks(shards, st), crate::merge::everything(), q),
    ensures
        permutation(q, merge_input(shards, st).len()),
{
    let d = merge_input(shards, st);
    let ranks = merge_ranks(shards, st);
    let out = Seq::new(q.len(), |k: int| d[q[k] as int]);
    assert(picked_deltas(d, q, out));
    assert(interleaved(shards, st, out));
    merge_keeps_every_delta(shards, st, out);
    let p = choose|p: Seq<usize>| #[trigger] permutation(p, d.len()) && picked_deltas(d, p, out);
    assert(q.len() == d.len());
    assert forall|i: int, j: int| 0 <= i < q.len() && 0 <= j < q.len() && i != j implies q[i]
        != q[j] by {
        if i < j {
            assert(ranks[q[i] as int] < ranks[q[j] as int] || q[i] < q[j]);
        } else {
            assert(ranks[q[j] as int] < ranks[q[i] as int] || q[j] < q[i]);
        }
    }
    assert forall|k: int| 0 <= k < q.len() implies (#[trigger] q[k]) < d.len() by {
        assert(q[k] < ranks.len());
    }
}

/// Law: merging a shard into another needs both, and neither in a split; the target then
/// reaches from the lower of the starts to the higher of the ends, the source retires,
/// and nothing else changes.
pub proof fn merge_in_place_joins_the_ranges(
    shards: Map<ShardId, ShardModel>,
    target: ShardId,
    source: ShardId,
    other: ShardId,
)
    requires
        target != source,
    ensures
        merge_into_refusal(shards, target, source) is None <==> shards.contains_key(target)
            && shards.contains_key(source) && shards[target].info.state != ShardState::Splitting
            && shards[source].info.state != ShardState::Splitting,
        shards.contains_key(target) && shards.contains_key(source) ==> {
            let next = shards_merged(shards, target, source);
            let t = shards[target].info;
            let s = shards[source].info;
            let u = next[target].info;
            &&& next.dom() == shards.dom()
            &&& u.range_start == t.range_start || u.range_start == s.range_start
            &&& !key_less(t.range_start@, u.range_start@) && !key_less(
                s.range_start@,
                u.range_start@,
            )
            &&& u.range_end == t.range_end || u.range_end == s.range_end
            &&& !key_less(u.range_end@, t.range_end@) && !key_less(u.range_end@, s.range_end@)
            &&& next[target] == (ShardModel {
                info: ShardInfoView {
                    range_start: u.range_start,
                    range_end: u.range_end,
                    ..t
                },
                ..shards[target]
            })
            &&& next[source] == (ShardModel {
                info: ShardInfoView { state: ShardState::Retiring, ..s },
                ..shards[source]
            })
            &&& other != target && other != source && shards.contains_key(other) ==> next[other]
                == shards[other]
        },
{
    let t = shards[target].info;
    let s = shards[source].info;
    keys_are_ordered_as_bytes(t.range_start@, s.range_start@);
    keys_are_ordered_as_bytes(s.range_start@, t.range_start@);
    keys_are_ordered_as_bytes(t.range_end@, s.range_end@);
    keys_are_ordered_as_bytes(s.range_end@, t.range_end@);
    keys_are_ordered_as_bytes(t.range_start@, t.range_start@);
    keys_are_ordered_as_bytes(s.range_start@, s.range_start@);
    keys_are_ordered_as_bytes(t.range_end@, t.range_end@);
    keys_are_ordered_as_bytes(s.range_end@, s.range_end@);
    if shards.contains_key(target) && shards.contains_key(source) {
        assert(shards_merged(shards, target, source).dom() =~= shards.dom());
    }
}

// ---------------------------------------------------------------------------
// Compaction and truncation
// ---------------------------------------------------------------------------

/// Whether no two deltas have one number.
pub open spec fn numbers_distinct(d: Seq<DeltaView>) -> bool {
    forall|i: int, j: int|
        0 <= i < j < d.len() ==> (#[trigger] d[i]).header.sequence != (
        #[trigger] d[j]).header.sequence
}

/// What a selection by number leaves: exactly what it keeps, in ascending order.
proof fn lemma_selected(
    d: Seq<DeltaView>,
    keep: spec_fn(int) -> bool,
    picked: Seq<usize>,
    out: Seq<DeltaView>,
    i: int,
)
    requires
        numbers_distinct(d),
        d.len() <= usize::MAX,
        crate::sort::selection(crate::compaction_worker::sequences(d), keep, picked),
        picked_deltas(d, picked, out),
        0 <= i < d.len(),
    ensures
        out.contains(d[i]) <==> keep(i),
        forall|k: int| 0 <= k < out.len() ==> d.contains(#[trigger] out[k]),
        forall|a: int, b: int|
            0 <= a < b < out.len() ==> (#[trigger] out[a]).header.sequence < (
            #[trigger] out[b]).header.sequence,
{
    let ranks = crate::compaction_worker::sequences(d);
    if keep(i) {
        assert(picked.contains(i as usize));
        let k = choose|k: int| 0 <= k < picked.len() && picked[k] == i as usize;
        assert(out[k] == d[i]);
    }
    if out.contains(d[i]) {
        let k = choose|k: int| 0 <= k < out.len() && out[k] == d[i];
        let x = picked[k] as int;
        assert(x < ranks.len() && keep(x));
        assert(d[x] == d[i]);
        if x < i {
            assert(d[x].header.sequence != d[i].header.sequence);
        } else if i < x {
            assert(d[i].header.sequence != d[x].header.sequence);
        }
    }
    assert forall|k: int| 0 <= k < out.len() implies d.contains(#[trigger] out[k]) by {
        assert(picked[k] < ranks.len());
        assert(d[picked[k] as int] == out[k]);
    }
    assert forall|a: int, b: int| 0 <= a < b < out.len() implies (
    #[trigger] out[a]).header.sequence < (#[trigger] out[b]).header.sequence by {
        let x = picked[a] as int;
        let y = picked[b] as int;
        assert(x < ranks.len() && y < ranks.len());
        assert(ranks[x] <= ranks[y]);
        assert(out[a] == d[x] && out[b] == d[y]);
        if ranks[x] == ranks[y] {
            assert(x < y);
            assert(d[x].header.sequence != d[y].header.sequence);
        }
    }
}

/// Law: a compaction keeps a delta exactly where it is no deletion and fewer than the versions
/// to keep of its key are newer; at least one is kept. What it keeps it keeps in
/// ascending order, and it makes nothing up.
pub proof fn compaction_keeps_the_newest_versions(
    d: Seq<DeltaView>,
    min_versions: u64,
    out: Seq<DeltaView>,
    i: int,
)
    requires
        numbers_distinct(d),
        d.len() <= usize::MAX,
        crate::compaction_worker::compacted(
            d,
            crate::compaction_worker::versions_kept(min_versions),
            out,
        ),
        0 <= i < d.len(),
    ensures
        ({
            let newer = Set::new(
                |j: int|
                    0 <= j < d.len() && d[j].header.hashed_key == d[i].header.hashed_key
                        && d[j].header.sequence > d[i].header.sequence,
            );
            out.contains(d[i]) <==> d[i].header.operation != OperationType::Delete && newer.len()
                < (if min_versions < 1 {
                1
            } else {
                min_versions as int
            })
        }),
        forall|k: int| 0 <= k < out.len() ==> d.contains(#[trigger] out[k]),
        forall|a: int, b: int|
            0 <= a < b < out.len() ==> (#[trigger] out[a]).header.sequence < (
            #[trigger] out[b]).header.sequence,
{
    let keep = crate::compaction_worker::versions_kept(min_versions);
    let f = crate::compaction_worker::kept_by(d, keep);
    let picked = choose|picked: Seq<usize>| #[trigger]
        crate::sort::selection(crate::compaction_worker::sequences(d), f, picked) && picked_deltas(
            d,
            picked,
            out,
        );
    lemma_selected(d, f, picked, out, i);
    let newer = Set::new(
        |j: int|
            0 <= j < d.len() && d[j].header.hashed_key == d[i].header.hashed_key
                && d[j].header.sequence > d[i].header.sequence,
    );
    assert forall|j: int| newer.contains(j) <==> crate::compaction_worker::newer_versions(
        d,
        i,
    ).contains(j) by {
        if 0 <= j < d.len() && j < i {
            assert(d[j].header.sequence != d[i].header.sequence);
        }
    }
    assert(newer =~= crate::compaction_worker::newer_versions(d, i));
    let all = vstd::set_lib::set_int_range(0, d.len() as int);
    vstd::set_lib::lemma_int_range(0, d.len() as int);
    assert(newer.subset_of(all.remove(i)));
    vstd::set_lib::lemma_len_subset(newer, all.remove(i));
}

/// Law: compacting a replicated shard keeps a delta exactly where no delta of its key is newer,
/// and it is no tombstone that every consumer has passed; in ascending order, and
/// nothing else.
pub proof fn shard_compaction_keeps_the_latest(
    d: Seq<DeltaView>,
    boundary: u64,
    out: Seq<DeltaView>,
    i: int,
)
    requires
        numbers_distinct(d),
        d.len() <= usize::MAX,
        crate::raft_store::shard_compacted(d, boundary, out),
        0 <= i < d.len(),
    ensures
        out.contains(d[i]) <==> (forall|j: int|
            0 <= j < d.len() && (#[trigger] d[j]).header.hashed_key == d[i].header.hashed_key
                ==> d[j].header.sequence <= d[i].header.sequence) && !(d[i].header.tombstone
            && d[i].header.sequence < boundary),
        forall|k: int| 0 <= k < out.len() ==> d.contains(#[trigger] out[k]),
        forall|a: int, b: int|
            0 <= a < b < out.len() ==> (#[trigger] out[a]).header.sequence < (
            #[trigger] out[b]).header.sequence,
{
    let f = crate::raft_store::survivors(d, boundary);
    let picked = choose|picked: Seq<usize>| #[trigger]
        crate::sort::selection(crate::compaction_worker::sequences(d), f, picked) && picked_deltas(
            d,
            picked,
            out,
        );
    lemma_selected(d, f, picked, out, i);
    let latest = forall|j: int|
        0 <= j < d.len() && (#[trigger] d[j]).header.hashed_key == d[i].header.hashed_key
            ==> d[j].header.sequence <= d[i].header.sequence;
    assert(crate::raft_store::latest_of_key(d, i) == latest) by {
        if latest {
            assert forall|j: int| 0 <= j < d.len() && (#[trigger] d[j]).header.hashed_key
                == d[i].header.hashed_key implies d[j].header.sequence < d[i].header.sequence || (
            d[j].header.sequence == d[i].header.sequence && i <= j) by {
                if j < i {
                    assert(d[j].header.sequence != d[i].header.sequence);
                }
            }
        }
    }
}

/// Law: a truncation keeps the deltas from the boundary on, all of them, in order; the boundary
/// is the lowest position of a consumer, and without consumers nothing is dropped.
pub proof fn truncation_keeps_what_may_be_read(
    d: Seq<DeltaView>,
    watermarks: Seq<(Seq<char>, u64)>,
)
    ensures
        ({
            let b = crate::raft_store::boundary_of(watermarks);
            &&& crate::raft_store::from_boundary(d, b) == d.filter(
                |x: DeltaView| b <= x.header.sequence,
            )
            &&& watermarks.len() == 0 ==> b == 0
            &&& watermarks.len() > 0 ==> exists|i: int|
                0 <= i < watermarks.len() && (#[trigger] watermarks[i]).1 == b
            &&& forall|i: int| 0 <= i < watermarks.len() ==> b <= (#[trigger] watermarks[i]).1
        }),
{
    let b = crate::raft_store::boundary_of(watermarks);
    crate::watermark::lowest_position_is_minimum(watermarks);
    read_gives_the_numbers_asked_for(d, b, u64::MAX);
    lemma_filter_same(
        d,
        |x: DeltaView| b <= x.header.sequence <= u64::MAX,
        |x: DeltaView| b <= x.header.sequence,
    );
}

/// Law: deletions are counted one by one.
pub proof fn deletions_are_counted(d: Seq<DeltaView>)
    ensures
        crate::compaction_worker::deletions(d) == d.filter(
            |x: DeltaView| x.header.operation == OperationType::Delete,
        ).len(),
    decreases d.len(),
{
    reveal(Seq::filter);
    if d.len() > 0 {
        deletions_are_counted(d.drop_last());
    }
}

/// Law: consumers move without touching the deltas: registering one and advancing one
/// change the positions, as a list of positions does, and nothing else; an advance is a
/// command of the log.
pub proof fn consumers_move_without_touching_deltas(
    m: ShardModel,
    name: Seq<char>,
    position: u64,
)
    ensures
        ({
            let r = crate::raft_store::consumer_registered(m, name, position);
            let a = crate::raft_store::consumer_advanced(m, name, position);
            &&& r.info == m.info && a.info == m.info
            &&& r.deltas == m.deltas && a.deltas == m.deltas
            &&& r.log_len == m.log_len && a.log_len == m.log_len + 1
            &&& r.watermarks == crate::watermark::watermarks_registered(
                m.watermarks,
                name,
                position,
            )
            &&& a.watermarks == crate::watermark::watermarks_advanced(m.watermarks, name, position)
        }),
{
}

/// Law: a truncation drops the deltas below the lowest position of a consumer, and those
/// only; without consumers none. Tip, counts, size and positions stay.
pub proof fn truncation_drops_what_all_have_passed(m: ShardModel, b: u64)
    requires
        m.watermarks.len() == 0 ==> b == 0,
        m.watermarks.len() > 0 ==> exists|i: int|
            0 <= i < m.watermarks.len() && (#[trigger] m.watermarks[i]).1 == b,
        forall|i: int| 0 <= i < m.watermarks.len() ==> b <= (#[trigger] m.watermarks[i]).1,
    ensures
        ({
            let n = crate::raft_store::shard_truncated(m);
            &&& n.deltas == m.deltas.filter(|x: DeltaView| b <= x.header.sequence)
            &&& n.info == m.info
            &&& n.watermarks == m.watermarks
            &&& n.log_len == m.log_len
        }),
{
    truncation_keeps_what_may_be_read(m.deltas, m.watermarks);
    let c = crate::raft_store::boundary_of(m.watermarks);
    if m.watermarks.len() > 0 {
        let i = choose|i: int|
            0 <= i < m.watermarks.len() && (#[trigger] m.watermarks[i]).1 == b;
        let j = choose|j: int|
            0 <= j < m.watermarks.len() && (#[trigger] m.watermarks[j]).1 == c;
        assert(c <= m.watermarks[i].1 && b <= m.watermarks[j].1);
    }
    assert(b == c);
}

/// Law: a compacted shard counts the deltas that it kept, and keeps its tip, its size, its
/// range, its state and the positions of its consumers.
pub proof fn compacted_shard_counts_what_it_kept(m: ShardModel, n: ShardModel)
    requires
        crate::raft_store::compacts(m, n),
    ensures
        n.info == (ShardInfoView { delta_count: n.deltas.len() as u64, ..m.info }),
        n.watermarks == m.watermarks,
        n.log_len == m.log_len,
        crate::raft_store::shard_compacted(
            m.deltas,
            crate::raft_store::boundary_of(m.watermarks),
            n.deltas,
        ),
{
}

/// Law: every delta that a compaction examines is counted as removed or as retained, and
/// the counts go on from what they were.
pub proof fn examined_deltas_are_removed_or_retained(
    p: crate::compaction_worker::CompactionProgress,
    examined: u64,
    kept: u64,
)
    requires
        kept <= examined,
        p.examined + examined <= u64::MAX,
        p.removed + p.retained == p.examined,
    ensures
        ({
            let q = crate::compaction_worker::progress_after(p, examined, kept);
            &&& q.examined == p.examined + examined
            &&& q.retained == p.retained + kept
            &&& q.removed + q.retained == q.examined
            &&& !q.cancelled
        }),
{
}

/// Law: a merge that is given up leaves its two inputs healthy, where they are there, and
/// changes nothing else.
pub proof fn given_up_merge_restores_its_inputs(
    shards: Map<ShardId, ShardModel>,
    st: MergeState,
    id: ShardId,
)
    ensures
        ({
            let after = crate::merge::inputs_restored(shards, st);
            &&& after.contains_key(id) <==> shards.contains_key(id)
            &&& shards.contains_key(id) && id != st.shard_a && id != st.shard_b ==> after[id]
                == shards[id]
            &&& shards.contains_key(id) && (id == st.shard_a || id == st.shard_b) ==> after[id] == (
            ShardModel {
                info: ShardInfoView { state: ShardState::Healthy, ..shards[id].info },
                ..shards[id]
            })
        }),
{
}

/// Law: the copy of a merge is refused exactly where it could not read an input from its
/// first delta: the log of an input was pruned, or an input with deltas is gone.
pub proof fn copy_needs_the_whole_history(shards: Map<ShardId, ShardModel>, st: MergeState)
    ensures
        crate::merge::copy_refusal(shards, st) is None <==> !pruned(shards, st.shard_a) && !pruned(
            shards,
            st.shard_b,
        ) && (st.hwm_a.0 > 0 ==> shards.contains_key(st.shard_a)) && (st.hwm_b.0 > 0
            ==> shards.contains_key(st.shard_b)),
        crate::merge::copy_refusal(shards, st) matches Some(e) ==> e == LogError::ShardNotFound(
            st.shard_a,
        ) || e == LogError::ShardNotFound(st.shard_b) || e == crate::reissue::pruned_refusal(
            shards,
            st.shard_a,
        ) || e == crate::reissue::pruned_refusal(shards, st.shard_b),
{
}

} // verus!
