//! Requests of the log, and the interface of a log backend.

use vstd::prelude::*;

use crate::bytes::be_value;
use crate::bytes::copy_bytes;
use crate::command::{copy_new_chunks, NewChunkMeta};
use crate::command::{new_chunk_views, InlinePutView, NewChunkView};
use crate::delta::{bare_payload, delta_views, DeltaView, HeaderView};
use crate::delta::{copy_chunk_ids, Delta, OperationType};
use crate::error::LogError;
use crate::ids::{ChunkId, NodeId, OrgId, SequenceNumber, ShardId};
use crate::raft::state_machine::{highest_key, lowest_key, truncated_size};
use crate::raft_store::boundary_of;
use crate::raft_store::key_in_range;
use crate::shard::ShardInfoView;
use crate::shard::{ShardConfig, ShardInfo, ShardState};
use crate::time::DeltaTimestamp;
use crate::time::TimestampView;

verus! {

/// A request to append a delta.
#[derive(Debug, PartialEq, Eq)]
pub struct AppendDeltaRequest {
    /// The shard.
    pub shard_id: ShardId,
    /// The tenant.
    pub tenant_id: OrgId,
    /// What the delta does.
    pub operation: OperationType,
    /// The writer's timestamp.
    pub timestamp: DeltaTimestamp,
    /// Routing key.
    pub hashed_key: [u8; 32],
    /// Chunks referred to.
    pub chunk_refs: Vec<ChunkId>,
    /// Encrypted payload.
    pub payload: Vec<u8>,
    /// Whether the payload holds inline data.
    pub has_inline_data: bool,
}

/// A request to read deltas `from..=to`.
#[derive(Clone, Copy, Debug, PartialEq, Eq, Structural)]
pub struct ReadDeltasRequest {
    /// The shard.
    pub shard_id: ShardId,
    /// First sequence number.
    pub from: SequenceNumber,
    /// Last sequence number.
    pub to: SequenceNumber,
}

/// A request to create chunk rows and append a delta in one step.
#[derive(Debug, PartialEq, Eq)]
pub struct AppendChunkAndDeltaRequest {
    /// The delta.
    pub delta: AppendDeltaRequest,
    /// Chunks introduced.
    pub new_chunks: Vec<NewChunkMeta>,
    /// Inline bytes by chunk.
    pub inline_payloads: Vec<(ChunkId, Vec<u8>)>,
}

/// What an [`AppendDeltaRequest`] holds.
#[verifier::ext_equal]
pub struct AppendView {
    pub shard_id: ShardId,
    pub tenant_id: OrgId,
    pub operation: OperationType,
    pub timestamp: TimestampView,
    pub hashed_key: [u8; 32],
    pub chunk_refs: Seq<ChunkId>,
    pub payload: Seq<u8>,
    pub has_inline_data: bool,
}

/// What an [`AppendChunkAndDeltaRequest`] holds.
#[verifier::ext_equal]
pub struct ChunkAppendView {
    pub delta: AppendView,
    pub new_chunks: Seq<NewChunkView>,
    pub inline_payloads: Seq<InlinePutView>,
}

impl View for AppendDeltaRequest {
    type V = AppendView;

    open spec fn view(&self) -> AppendView {
        AppendView {
            shard_id: self.shard_id,
            tenant_id: self.tenant_id,
            operation: self.operation,
            timestamp: self.timestamp@,
            hashed_key: self.hashed_key,
            chunk_refs: self.chunk_refs@,
            payload: self.payload@,
            has_inline_data: self.has_inline_data,
        }
    }
}

/// What a list of inline bytes by chunk holds.
pub open spec fn chunk_payload_views(s: Seq<(ChunkId, Vec<u8>)>) -> Seq<InlinePutView> {
    Seq::new(s.len(), |i: int| InlinePutView { key: s[i].0.0@, payload: s[i].1@ })
}

impl View for AppendChunkAndDeltaRequest {
    type V = ChunkAppendView;

    open spec fn view(&self) -> ChunkAppendView {
        ChunkAppendView {
            delta: self.delta@,
            new_chunks: new_chunk_views(self.new_chunks@),
            inline_payloads: chunk_payload_views(self.inline_payloads@),
        }
    }
}

impl Clone for AppendDeltaRequest {
    fn clone(&self) -> (r: Self)
        ensures
            r@ == self@,
    {
        AppendDeltaRequest {
            shard_id: self.shard_id,
            tenant_id: self.tenant_id,
            operation: self.operation,
            timestamp: self.timestamp.clone(),
            hashed_key: self.hashed_key,
            chunk_refs: copy_chunk_ids(&self.chunk_refs),
            payload: copy_bytes(&self.payload),
            has_inline_data: self.has_inline_data,
        }
    }
}

impl Clone for AppendChunkAndDeltaRequest {
    fn clone(&self) -> (r: Self)
        ensures
            r@ == self@,
    {
        let mut inline: Vec<(ChunkId, Vec<u8>)> = Vec::new();
        let mut i: usize = 0;
        while i < self.inline_payloads.len()
            invariant
                i <= self.inline_payloads@.len(),
                inline@.len() == i,
                forall|j: int|
                    0 <= j < i ==> (#[trigger] inline@[j]).0 == self.inline_payloads@[j].0
                        && inline@[j].1@ == self.inline_payloads@[j].1@,
            decreases self.inline_payloads@.len() - i,
        {
            inline.push((self.inline_payloads[i].0, copy_bytes(&self.inline_payloads[i].1)));
            i = i + 1;
        }
        assert(chunk_payload_views(inline@) =~= chunk_payload_views(self.inline_payloads@));
        AppendChunkAndDeltaRequest {
            delta: self.delta.clone(),
            new_chunks: copy_new_chunks(&self.new_chunks),
            inline_payloads: inline,
        }
    }
}

/// What a backend holds of a shard: its metadata, its deltas, the watermarks of
/// its consumers, and the length of its command log.
#[verifier::ext_equal]
pub struct ShardModel {
    pub info: ShardInfoView,
    pub deltas: Seq<DeltaView>,
    pub watermarks: Seq<(Seq<char>, u64)>,
    pub log_len: nat,
}

/// A shard without deltas, over the whole key space.
pub open spec fn fresh_shard(
    shard_id: ShardId,
    tenant_id: OrgId,
    node_id: NodeId,
    config: ShardConfig,
) -> ShardModel {
    ShardModel {
        info: ShardInfoView {
            shard_id,
            tenant_id,
            raft_members: seq![node_id],
            leader: Some(node_id),
            tip: 0,
            delta_count: 0,
            byte_size: 0,
            state: ShardState::Healthy,
            config,
            range_start: lowest_key(),
            range_end: highest_key(),
        },
        deltas: Seq::empty(),
        watermarks: Seq::empty(),
        log_len: 0,
    }
}

/// Whether a key is at or past a range's start and before its end.
pub open spec fn key_between(key: [u8; 32], start: [u8; 32], end: [u8; 32]) -> bool {
    be_value(start@) <= be_value(key@) < be_value(end@)
}

/// Whether a key is in a shard's range: at or past its start, and before its end.
pub open spec fn in_range(info: ShardInfoView, key: [u8; 32]) -> bool {
    key_between(key, info.range_start, info.range_end)
}

/// Why a shard refuses a write of a key, where it does: a state that takes no
/// writes, or a key outside the range.
pub open spec fn write_refusal(
    info: ShardInfoView,
    shard_id: ShardId,
    key: [u8; 32],
) -> Option<LogError> {
    match info.state {
        ShardState::Maintenance => Some(LogError::MaintenanceMode(shard_id)),
        ShardState::Election => Some(LogError::LeaderUnavailable(shard_id)),
        ShardState::QuorumLost => Some(LogError::QuorumLost(shard_id)),
        ShardState::Retiring => Some(LogError::ShardBusy { shard_id, reason: "shard retiring" }),
        _ => if in_range(info, key) {
            None
        } else {
            Some(LogError::KeyOutOfRange(shard_id))
        },
    }
}

/// Checks whether a shard takes a write of a key.
pub fn check_write(info: &ShardInfo, shard_id: ShardId, key: &[u8; 32]) -> (r: Result<
    (),
    LogError,
>)
    ensures
        r == (match write_refusal(info@, shard_id, *key) {
            Some(e) => Err::<(), LogError>(e),
            None => Ok::<(), LogError>(()),
        }),
{
    match info.state {
        ShardState::Maintenance => Err(LogError::MaintenanceMode(shard_id)),
        ShardState::Election => Err(LogError::LeaderUnavailable(shard_id)),
        ShardState::QuorumLost => Err(LogError::QuorumLost(shard_id)),
        ShardState::Retiring => Err(LogError::ShardBusy { shard_id, reason: "shard retiring" }),
        _ => if key_in_range(key, &info.range_start, &info.range_end) {
            Ok(())
        } else {
            Err(LogError::KeyOutOfRange(shard_id))
        },
    }
}

/// Why an append is refused, where it is: no such shard, a state that takes no
/// writes, or a key outside the range.
pub open spec fn append_refusal(
    shards: Map<ShardId, ShardModel>,
    req: AppendView,
) -> Option<LogError> {
    if !shards.contains_key(req.shard_id) {
        Some(LogError::ShardNotFound(req.shard_id))
    } else {
        write_refusal(shards[req.shard_id].info, req.shard_id, req.hashed_key)
    }
}

/// The delta that a request becomes.
pub open spec fn requested_delta(req: AppendView, sequence: u64, timestamp: TimestampView) -> DeltaView {
    DeltaView {
        header: HeaderView {
            sequence,
            shard_id: req.shard_id,
            tenant_id: req.tenant_id,
            operation: req.operation,
            timestamp,
            hashed_key: req.hashed_key,
            tombstone: req.operation == OperationType::Delete,
            chunk_refs: req.chunk_refs,
            payload_size: truncated_size(req.payload.len()),
            has_inline_data: req.has_inline_data,
        },
        payload: bare_payload(req.payload),
    }
}

/// What a delta with a payload of this length adds to the size of its shard: the
/// low 32 bits of the length, and the size of a header.
pub open spec fn payload_cost(len: nat) -> nat {
    truncated_size(len) as nat + 128
}

/// A shard after an append.
pub open spec fn shard_appended(m: ShardModel, req: AppendView, timestamp: TimestampView) -> ShardModel {
    let sequence = (m.info.tip + 1) as u64;
    ShardModel {
        info: ShardInfoView {
            tip: sequence,
            delta_count: (m.info.delta_count + 1) as u64,
            byte_size: (m.info.byte_size + payload_cost(req.payload.len())) as u64,
            ..m.info
        },
        deltas: m.deltas.push(requested_delta(req, sequence, timestamp)),
        log_len: m.log_len + 1,
        ..m
    }
}

/// What a delta with a payload of this length adds to the size of its shard.
pub fn cost_of_payload(len: usize) -> (r: u64)
    ensures
        r == payload_cost(len as nat),
{
    let wide: u64 = len as u64;
    assert(wide as u32 == wide % 0x1_0000_0000) by (bit_vector);
    let size: u32 = #[verifier::truncate] (wide as u32);
    size as u64 + 128
}

/// What all of a list of appends add to the size of their shards.
pub open spec fn total_cost(reqs: Seq<AppendView>) -> nat
    decreases reqs.len(),
{
    if reqs.len() == 0 {
        0
    } else {
        total_cost(reqs.drop_last()) + payload_cost(reqs.last().payload.len())
    }
}

/// Each append adds at least the size of a header.
pub proof fn lemma_total_cost_least(reqs: Seq<AppendView>)
    ensures
        total_cost(reqs) >= 128 * reqs.len(),
    decreases reqs.len(),
{
    if reqs.len() > 0 {
        lemma_total_cost_least(reqs.drop_last());
    }
}

/// What a list of appends adds is what its parts add.
pub proof fn lemma_total_cost_concat(a: Seq<AppendView>, b: Seq<AppendView>)
    ensures
        total_cost(a + b) == total_cost(a) + total_cost(b),
    decreases b.len(),
{
    if b.len() == 0 {
        assert(a + b =~= a);
    } else {
        lemma_total_cost_concat(a, b.drop_last());
        assert((a + b).drop_last() =~= a + b.drop_last());
        assert((a + b).last() == b.last());
    }
}

/// The first appends of a list add no more than all of them.
pub proof fn lemma_total_cost_prefix(reqs: Seq<AppendView>, n: int)
    requires
        0 <= n <= reqs.len(),
    ensures
        total_cost(reqs.take(n)) <= total_cost(reqs),
{
    lemma_total_cost_concat(reqs.take(n), reqs.skip(n));
    assert(reqs.take(n) + reqs.skip(n) =~= reqs);
}

/// Whether the counters of a shard have room for `n` more deltas that add `bytes`
/// to its size.
pub open spec fn shard_has_room(m: ShardModel, n: nat, bytes: nat) -> bool {
    &&& m.info.tip + n <= u64::MAX
    &&& m.info.delta_count + n <= u64::MAX
    &&& m.info.byte_size + bytes <= u64::MAX
    &&& m.log_len + n < u64::MAX
}

/// Whether the counters of a shard have room for a list of appends.
pub open spec fn shard_has_room_for(m: ShardModel, reqs: Seq<AppendView>) -> bool {
    shard_has_room(m, reqs.len(), total_cost(reqs))
}

/// Deltas numbered `from..=to`, in order.
pub open spec fn numbered(d: Seq<DeltaView>, from: u64, to: u64) -> Seq<DeltaView>
    decreases d.len(),
{
    if d.len() == 0 {
        d
    } else {
        let front = numbered(d.drop_last(), from, to);
        if from <= d.last().header.sequence <= to {
            front.push(d.last())
        } else {
            front
        }
    }
}

/// A shard with maintenance mode set or cleared.
pub open spec fn shard_maintained(m: ShardModel, enabled: bool) -> ShardModel {
    ShardModel {
        info: ShardInfoView {
            state: if enabled {
                ShardState::Maintenance
            } else {
                ShardState::Healthy
            },
            ..m.info
        },
        log_len: m.log_len + 1,
        ..m
    }
}

/// A shard with another key range.
pub open spec fn shard_ranged(m: ShardModel, start: [u8; 32], end: [u8; 32]) -> ShardModel {
    ShardModel {
        info: ShardInfoView { range_start: start, range_end: end, ..m.info },
        ..m
    }
}

/// The shards with another key range on one of them, where it exists.
pub open spec fn ranged_in(
    shards: Map<ShardId, ShardModel>,
    shard_id: ShardId,
    start: [u8; 32],
    end: [u8; 32],
) -> Map<ShardId, ShardModel> {
    if shards.contains_key(shard_id) {
        shards.insert(shard_id, shard_ranged(shards[shard_id], start, end))
    } else {
        shards
    }
}

/// A shard in another state.
pub open spec fn shard_in_state(m: ShardModel, state: ShardState) -> ShardModel {
    ShardModel { info: ShardInfoView { state, ..m.info }, ..m }
}

/// The shards with another state on one of them, where it exists.
pub open spec fn state_set_in(
    shards: Map<ShardId, ShardModel>,
    shard_id: ShardId,
    state: ShardState,
) -> Map<ShardId, ShardModel> {
    if shards.contains_key(shard_id) {
        shards.insert(shard_id, shard_in_state(shards[shard_id], state))
    } else {
        shards
    }
}

/// The shards of a backend.
pub type ShardModels = Map<ShardId, ShardModel>;

/// A backend of the log.
pub trait LogOps {
    /// The shards.
    spec fn shards(&self) -> ShardModels;

    /// The backend is in order.
    spec fn ready(&self) -> bool;

    /// The backend fails only where it refuses.
    spec fn reliable(&self) -> bool;

    /// The timestamp that the delta of a request gets, where it comes next.
    spec fn stamp(&self, req: AppendView) -> TimestampView;

    /// Deltas get the timestamps of their requests.
    spec fn keeps_timestamps() -> bool;

    /// Creates a shard over the whole key space.
    fn create_shard(
        &mut self,
        shard_id: ShardId,
        tenant_id: OrgId,
        node_id: NodeId,
        config: ShardConfig,
    )
        requires
            old(self).ready(),
        ensures
            final(self).ready(),
            final(self).reliable() == old(self).reliable(),
            final(self).shards() == old(self).shards().insert(
                shard_id,
                fresh_shard(shard_id, tenant_id, node_id, config),
            ),
    ;

    /// Appends a delta; returns its sequence number.
    fn append_delta(&mut self, req: AppendDeltaRequest) -> (r: Result<SequenceNumber, LogError>)
        requires
            old(self).ready(),
            old(self).shards().contains_key(req@.shard_id) ==> shard_has_room(
                old(self).shards()[req@.shard_id],
                1,
                payload_cost(req@.payload.len()),
            ),
        ensures
            final(self).ready(),
            final(self).reliable() == old(self).reliable(),
            r is Err ==> final(self).shards() == old(self).shards(),
            Self::keeps_timestamps() ==> old(self).stamp(req@) == req@.timestamp,
            match append_refusal(old(self).shards(), req@) {
                Some(e) => r == Err::<SequenceNumber, LogError>(e),
                None => {
                    let m = old(self).shards()[req@.shard_id];
                    &&& old(self).reliable() ==> r is Ok
                    &&& r matches Ok(seq) ==> seq.0 == m.info.tip + 1 && final(self).shards()
                        == old(self).shards().insert(
                        req@.shard_id,
                        shard_appended(m, req@, old(self).stamp(req@)),
                    )
                },
            },
    ;

    /// Appends a delta that another shard held, as [`LogOps::append_delta`] does, but
    /// with the timestamp of the request.
    fn move_delta(&mut self, req: AppendDeltaRequest) -> (r: Result<SequenceNumber, LogError>)
        requires
            old(self).ready(),
            old(self).shards().contains_key(req@.shard_id) ==> shard_has_room(
                old(self).shards()[req@.shard_id],
                1,
                payload_cost(req@.payload.len()),
            ),
        ensures
            final(self).ready(),
            final(self).reliable() == old(self).reliable(),
            r is Err ==> final(self).shards() == old(self).shards(),
            match append_refusal(old(self).shards(), req@) {
                Some(e) => r == Err::<SequenceNumber, LogError>(e),
                None => {
                    let m = old(self).shards()[req@.shard_id];
                    &&& old(self).reliable() ==> r is Ok
                    &&& r matches Ok(seq) ==> seq.0 == m.info.tip + 1 && final(self).shards()
                        == old(self).shards().insert(
                        req@.shard_id,
                        shard_appended(m, req@, req@.timestamp),
                    )
                },
            },
    ;

    /// Reads the deltas of a range of sequence numbers.
    fn read_deltas(&self, req: ReadDeltasRequest) -> (r: Result<Vec<Delta>, LogError>)
        requires
            self.ready(),
        ensures
            if !self.shards().contains_key(req.shard_id) {
                r == Err::<Vec<Delta>, LogError>(LogError::ShardNotFound(req.shard_id))
            } else if req.from.0 > req.to.0 {
                r == Err::<Vec<Delta>, LogError>(LogError::InvalidRange(req.shard_id))
            } else {
                &&& self.reliable() ==> r is Ok
                &&& r matches Ok(v) ==> delta_views(v@) == numbered(
                    self.shards()[req.shard_id].deltas,
                    req.from.0,
                    req.to.0,
                )
            },
    ;

    /// Whether there is such a shard.
    fn has_shard(&self, shard_id: ShardId) -> (r: bool)
        requires
            self.ready(),
        ensures
            r == self.shards().contains_key(shard_id),
    ;

    /// Metadata of a shard.
    fn shard_health(&self, shard_id: ShardId) -> (r: Result<ShardInfo, LogError>)
        requires
            self.ready(),
        ensures
            if !self.shards().contains_key(shard_id) {
                r == Err::<ShardInfo, LogError>(LogError::ShardNotFound(shard_id))
            } else {
                &&& self.reliable() ==> r is Ok
                &&& r matches Ok(info) ==> info@ == self.shards()[shard_id].info
            },
    ;

    /// The position below which no consumer of a shard will read again; zero without
    /// consumers. Deltas below it may be gone.
    fn gc_boundary(&self, shard_id: ShardId) -> (r: Result<SequenceNumber, LogError>)
        requires
            self.ready(),
        ensures
            if !self.shards().contains_key(shard_id) {
                r == Err::<SequenceNumber, LogError>(LogError::ShardNotFound(shard_id))
            } else {
                &&& self.reliable() ==> r is Ok
                &&& r matches Ok(b) ==> b.0 == boundary_of(self.shards()[shard_id].watermarks)
            },
    ;

    /// Sets or clears maintenance mode.
    fn set_maintenance(&mut self, shard_id: ShardId, enabled: bool) -> (r: Result<(), LogError>)
        requires
            old(self).ready(),
            old(self).shards().contains_key(shard_id) ==> shard_has_room(
                old(self).shards()[shard_id],
                0,
                0,
            ),
        ensures
            final(self).ready(),
            final(self).reliable() == old(self).reliable(),
            r is Err ==> final(self).shards() == old(self).shards(),
            if !old(self).shards().contains_key(shard_id) {
                r == Err::<(), LogError>(LogError::ShardNotFound(shard_id))
            } else {
                &&& old(self).reliable() ==> r is Ok
                &&& r is Ok ==> final(self).shards() == old(self).shards().insert(
                    shard_id,
                    shard_maintained(old(self).shards()[shard_id], enabled),
                )
            },
    ;

    /// Sets the key range of a shard, where there is such a shard.
    fn update_shard_range(&mut self, shard_id: ShardId, start: [u8; 32], end: [u8; 32])
        requires
            old(self).ready(),
        ensures
            final(self).ready(),
            final(self).reliable() == old(self).reliable(),
            final(self).shards() == ranged_in(old(self).shards(), shard_id, start, end),
    ;

    /// Sets the state of a shard, where there is such a shard.
    fn set_shard_state(&mut self, shard_id: ShardId, state: ShardState)
        requires
            old(self).ready(),
        ensures
            final(self).ready(),
            final(self).reliable() == old(self).reliable(),
            final(self).shards() == state_set_in(old(self).shards(), shard_id, state),
    ;
}

/// Deltas outside a range of numbers leave nothing.
pub proof fn lemma_numbered_none(d: Seq<DeltaView>, from: u64, to: u64)
    requires
        forall|i: int|
            0 <= i < d.len() ==> !(from <= (#[trigger] d[i]).header.sequence <= to),
    ensures
        numbered(d, from, to) == Seq::<DeltaView>::empty(),
    decreases d.len(),
{
    if d.len() > 0 {
        assert(d[d.len() - 1] == d.last());
        let f = d.drop_last();
        assert forall|i: int| 0 <= i < f.len() implies !(from <= (
        #[trigger] f[i]).header.sequence <= to) by {
            assert(f[i] == d[i]);
        }
        lemma_numbered_none(f, from, to);
    }
}

/// What a range of numbers picks of a list, it picks part by part.
pub proof fn lemma_numbered_concat(a: Seq<DeltaView>, b: Seq<DeltaView>, from: u64, to: u64)
    ensures
        numbered(a + b, from, to) == numbered(a, from, to) + numbered(b, from, to),
    decreases b.len(),
{
    if b.len() == 0 {
        assert(a + b =~= a);
        assert(numbered(a, from, to) + numbered(b, from, to) =~= numbered(a, from, to));
    } else {
        let f = b.drop_last();
        lemma_numbered_concat(a, f, from, to);
        assert((a + b).drop_last() =~= a + f);
        assert((a + b).last() == b.last());
        if from <= b.last().header.sequence <= to {
            assert(numbered(a, from, to) + numbered(f, from, to).push(b.last()) =~= (numbered(
                a,
                from,
                to,
            ) + numbered(f, from, to)).push(b.last()));
        }
    }
}

/// The deltas of a shard are in strictly ascending order, none past the tip.
pub open spec fn shard_ordered(m: ShardModel) -> bool {
    &&& forall|i: int, j: int|
        0 <= i < j < m.deltas.len() ==> (#[trigger] m.deltas[i]).header.sequence < (
        #[trigger] m.deltas[j]).header.sequence
    &&& forall|i: int|
        0 <= i < m.deltas.len() ==> (#[trigger] m.deltas[i]).header.sequence <= m.info.tip
}

/// Law: a fresh shard is in order, and every append keeps a shard in order.
pub proof fn appends_keep_total_order(
    m: ShardModel,
    req: AppendView,
    timestamp: TimestampView,
    shard_id: ShardId,
    tenant_id: OrgId,
    node_id: NodeId,
    config: ShardConfig,
)
    requires
        m.info.tip < u64::MAX,
    ensures
        shard_ordered(fresh_shard(shard_id, tenant_id, node_id, config)),
        shard_ordered(m) ==> shard_ordered(shard_appended(m, req, timestamp)),
{
    if shard_ordered(m) {
        let next = shard_appended(m, req, timestamp);
        let n = m.deltas.len() as int;
        assert forall|i: int, j: int| 0 <= i < j < next.deltas.len() implies (
        #[trigger] next.deltas[i]).header.sequence < (
        #[trigger] next.deltas[j]).header.sequence by {
            assert(next.deltas[i] == m.deltas[i]);
            if j < n {
                assert(next.deltas[j] == m.deltas[j]);
            }
        }
        assert forall|i: int| 0 <= i < next.deltas.len() implies (
        #[trigger] next.deltas[i]).header.sequence <= next.info.tip by {
            if i < n {
                assert(next.deltas[i] == m.deltas[i]);
            }
        }
    }
}

/// Law: what was appended is what is read under its number, and a read that ends
/// before it is not changed by it.
pub proof fn appended_delta_is_read_back(
    m: ShardModel,
    req: AppendView,
    timestamp: TimestampView,
    from: u64,
    to: u64,
)
    requires
        shard_ordered(m),
        m.info.tip < u64::MAX,
    ensures
        ({
            let next = shard_appended(m, req, timestamp);
            let seq = next.info.tip;
            &&& numbered(next.deltas, seq, seq) == seq![requested_delta(req, seq, timestamp)]
            &&& to < seq ==> numbered(next.deltas, from, to) == numbered(m.deltas, from, to)
        }),
{
    let next = shard_appended(m, req, timestamp);
    let seq = next.info.tip;
    assert(next.deltas.drop_last() =~= m.deltas);
    assert forall|i: int| 0 <= i < m.deltas.len() implies !(seq <= (
    #[trigger] m.deltas[i]).header.sequence <= seq) by {}
    lemma_numbered_none(m.deltas, seq, seq);
    assert(numbered(next.deltas, seq, seq) =~= seq![requested_delta(req, seq, timestamp)]);
}

/// Law: a shard in maintenance takes no writes, and the same writes are taken or
/// refused for their key alone once maintenance is over.
pub proof fn maintenance_refuses_writes(
    shards: Map<ShardId, ShardModel>,
    req: AppendView,
)
    requires
        shards.contains_key(req.shard_id),
    ensures
        ({
            let id = req.shard_id;
            let on = shards.insert(id, shard_maintained(shards[id], true));
            let off = shards.insert(id, shard_maintained(shards[id], false));
            &&& append_refusal(on, req) == Some(LogError::MaintenanceMode(id))
            &&& append_refusal(off, req) == (if in_range(shards[id].info, req.hashed_key) {
                None
            } else {
                Some(LogError::KeyOutOfRange(id))
            })
        }),
{
}

} // verus!
