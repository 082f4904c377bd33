//! The state machine that every replica of a shard runs.
//!
//! The machine is deterministic: applying the same commands at the same log
//! positions and apply times gives the same state and the same responses. What
//! has to happen in the inline store is not done here but returned, as lists of
//! payloads to put and keys to delete.

use std::collections::VecDeque;

use vstd::prelude::*;

use crate::bytes::copy_bytes;
use crate::command::{
    copy_inline, copy_keys, copy_new_chunks, copy_u64s, extend_inline, to_chunk_ids,
    IncorporateItem, InlinePayload, LogCommand, NewChunkMeta,
};
use crate::command::{
    chunk_ids, inline_views, item_views, new_chunk_views, tenant_of, DraftView, InlinePutView,
    ItemView, NewChunkView,
};
use crate::delta::{bare_payload, delta_views, op_of_code, DeltaView, HeaderView};
use crate::delta::{u8_to_op, Delta, DeltaHeader, DeltaPayload};
use crate::ids::{uuid_from_bytes, ChunkId, ChunkKey, OrgId, SequenceNumber, ShardId};
use crate::inline_store::derive_inline_key;
use crate::inline_store::inline_key;
use crate::ordered_map::{OrderedKey, OrderedMap};
use crate::raft::types::LogResponse;
use crate::shard::{default_config, state_of_code};
use crate::shard::{ShardConfig, ShardState};
use crate::time::{applied_timestamp, hlc_rank, TimestampView};
use crate::time::{timestamp_at, DeltaTimestamp, HybridLogicalClock};
use crate::watermark::ConsumerWatermarks;
use crate::watermark::{lowest_position, watermarks_advanced};

verus! {

/// Entries that the window of recent intents holds by default.
pub const DEFAULT_DEDUP_WINDOW_ENTRIES: usize = 100_000;

/// Milliseconds that an intent stays in the window by default.
pub const DEFAULT_DEDUP_WINDOW_MS: u64 = 60_000;

/// Most chunk keys for which dropped references are parked.
pub const PENDING_CHUNK_DECREMENTS_CAP: usize = 65_536;

/// Replicated metadata of a chunk in one tenant.
#[derive(Debug, PartialEq, Eq)]
pub struct ClusterChunkStateEntry {
    /// Compositions that refer to the chunk.
    pub refcount: u64,
    /// Nodes that hold its fragments.
    pub placement: Vec<u64>,
    /// Whether the last reference is gone.
    pub tombstoned: bool,
    /// Log position at which the row was created.
    pub created_ms: u64,
    /// Length of the ciphertext before it was encoded.
    pub original_len: u64,
}

/// What a [`ClusterChunkStateEntry`] holds.
#[verifier::ext_equal]
pub struct ChunkRow {
    pub refcount: u64,
    pub placement: Seq<u64>,
    pub tombstoned: bool,
    pub created_ms: u64,
    pub original_len: u64,
}

impl View for ClusterChunkStateEntry {
    type V = ChunkRow;

    open spec fn view(&self) -> ChunkRow {
        ChunkRow {
            refcount: self.refcount,
            placement: self.placement@,
            tombstoned: self.tombstoned,
            created_ms: self.created_ms,
            original_len: self.original_len,
        }
    }
}

impl Clone for ClusterChunkStateEntry {
    fn clone(&self) -> (r: Self)
        ensures
            r@ == self@,
    {
        ClusterChunkStateEntry {
            refcount: self.refcount,
            placement: copy_u64s(&self.placement),
            tombstoned: self.tombstoned,
            created_ms: self.created_ms,
            original_len: self.original_len,
        }
    }
}

/// An intent in the window of recent intents.
#[derive(Clone, Copy, Debug, PartialEq, Eq, Structural)]
pub struct RecentIncorporatedEntry {
    /// Log position at which it was incorporated.
    pub log_index: u64,
    /// The clock reading that identifies it.
    pub perspective_seq: HybridLogicalClock,
    /// Wall-clock milliseconds at which it was incorporated.
    pub apply_ms: u64,
}

/// State of the machine.
#[verifier::ext_equal]
pub struct SmView {
    pub delta_count: u64,
    pub tip: u64,
    pub maintenance: bool,
    pub deltas: Seq<DeltaView>,
    pub watermarks: Seq<(Seq<char>, u64)>,
    pub shard_id: ShardId,
    pub tenant_id: OrgId,
    pub inline_attached: bool,
    pub chunks: Map<ChunkKey, ChunkRow>,
    pub range_start: [u8; 32],
    pub range_end: [u8; 32],
    pub state: ShardState,
    pub config: ShardConfig,
    pub cutoff: u64,
    pub recent: Seq<RecentIncorporatedEntry>,
    pub recent_seqs: Set<HybridLogicalClock>,
    pub window_entries: usize,
    pub window_ms: u64,
    pub parked: Map<ChunkKey, u64>,
    pub ancient_refused: u64,
}

/// `a - b`, or zero.
pub open spec fn sat_sub(a: u64, b: u64) -> u64 {
    if a >= b {
        (a - b) as u64
    } else {
        0
    }
}

/// `a + b`, or the largest number.
pub open spec fn sat_add(a: u64, b: u64) -> u64 {
    if a + b <= u64::MAX {
        (a + b) as u64
    } else {
        u64::MAX
    }
}

/// Creates the row of a new chunk. A row that exists is kept as it is. A new row
/// starts with one reference; references that were dropped before it existed
/// are settled at once, which leaves it tombstoned with none.
pub open spec fn chunk_created(
    st: SmView,
    tenant: OrgId,
    meta: NewChunkView,
    log_index: u64,
) -> SmView {
    let key = ChunkKey { tenant, chunk: meta.chunk };
    if st.chunks.contains_key(key) {
        st
    } else {
        let parked = if st.parked.contains_key(key) {
            st.parked[key]
        } else {
            0
        };
        SmView {
            chunks: st.chunks.insert(
                key,
                ChunkRow {
                    refcount: if parked == 0 {
                        1
                    } else {
                        0
                    },
                    placement: meta.placement,
                    tombstoned: parked > 0,
                    created_ms: log_index,
                    original_len: meta.original_len,
                },
            ),
            parked: st.parked.remove(key),
            ..st
        }
    }
}

/// Creates the rows of a list of new chunks, in order.
pub open spec fn chunks_created(
    st: SmView,
    tenant: OrgId,
    metas: Seq<NewChunkView>,
    log_index: u64,
) -> SmView
    decreases metas.len(),
{
    if metas.len() == 0 {
        st
    } else {
        chunk_created(
            chunks_created(st, tenant, metas.drop_last(), log_index),
            tenant,
            metas.last(),
            log_index,
        )
    }
}

/// The low 32 bits of a length.
pub open spec fn truncated_size(len: nat) -> u32 {
    (len % 0x1_0000_0000) as u32
}

/// The delta that a draft becomes as number `sequence` of the shard. Inline
/// data goes to the inline store, where one is attached, and is then not kept
/// in the delta.
pub open spec fn drafted_delta(
    shard_id: ShardId,
    inline_attached: bool,
    d: DraftView,
    sequence: u64,
    log_index: u64,
) -> DeltaView {
    DeltaView {
        header: HeaderView {
            sequence,
            shard_id,
            tenant_id: d.tenant,
            operation: op_of_code(d.operation),
            timestamp: match d.timestamp {
                Some(t) => t,
                None => applied_timestamp(log_index),
            },
            hashed_key: d.hashed_key,
            tombstone: d.operation == 2,
            chunk_refs: d.chunk_refs,
            payload_size: truncated_size(d.payload.len()),
            has_inline_data: d.has_inline_data,
        },
        payload: bare_payload(
            if d.has_inline_data && inline_attached {
                Seq::empty()
            } else {
                d.payload
            },
        ),
    }
}

/// Appends a delta under the next sequence number.
pub open spec fn delta_appended(st: SmView, d: DraftView, log_index: u64) -> SmView {
    let sequence = (st.tip + 1) as u64;
    SmView {
        tip: sequence,
        delta_count: (st.delta_count + 1) as u64,
        deltas: st.deltas.push(
            drafted_delta(st.shard_id, st.inline_attached, d, sequence, log_index),
        ),
        ..st
    }
}

/// What appending a delta puts into the inline store.
pub open spec fn append_puts(st: SmView, d: DraftView) -> Seq<InlinePutView> {
    if d.has_inline_data && st.inline_attached {
        seq![
            InlinePutView {
                key: inline_key(d.hashed_key@, (st.tip + 1) as u64),
                payload: d.payload,
            },
        ]
    } else {
        Seq::empty()
    }
}

/// Inline payloads of a command, where an inline store is attached.
pub open spec fn attached_puts(st: SmView, puts: Seq<InlinePutView>) -> Seq<InlinePutView> {
    if st.inline_attached {
        puts
    } else {
        Seq::empty()
    }
}

/// Whether the oldest recent intent has to leave the window.
pub open spec fn must_evict(st: SmView, now_ms: u64) -> bool {
    ||| st.recent.len() > st.window_entries
    ||| st.recent.len() > 0 && sat_sub(now_ms, st.recent[0].apply_ms) > st.window_ms
}

/// The oldest recent intent leaves the window; log positions up to its own are
/// ancient from now on.
pub open spec fn oldest_evicted(st: SmView) -> SmView {
    let front = st.recent[0];
    let bound = sat_add(front.log_index, 1);
    SmView {
        recent: st.recent.subrange(1, st.recent.len() as int),
        recent_seqs: st.recent_seqs.remove(front.perspective_seq),
        cutoff: if st.cutoff < bound {
            bound
        } else {
            st.cutoff
        },
        ..st
    }
}

/// Everything that has to leave the window leaves it, oldest first.
pub open spec fn evicted(st: SmView, now_ms: u64) -> SmView
    decreases st.recent.len(),
{
    if st.recent.len() > 0 && must_evict(st, now_ms) {
        evicted(oldest_evicted(st), now_ms)
    } else {
        st
    }
}

/// A new recent intent enters the window, and the window is trimmed.
pub open spec fn recent_pushed(
    st: SmView,
    log_index: u64,
    seq: HybridLogicalClock,
    now_ms: u64,
) -> SmView {
    evicted(
        SmView {
            recent: st.recent.push(
                RecentIncorporatedEntry { log_index, perspective_seq: seq, apply_ms: now_ms },
            ),
            recent_seqs: st.recent_seqs.insert(seq),
            ..st
        },
        now_ms,
    )
}

/// Whether an intent passes both gates: it is not in the window, and its log
/// position is not ancient.
pub open spec fn gate_open(st: SmView, seq: HybridLogicalClock, log_index: u64) -> bool {
    !st.recent_seqs.contains(seq) && st.cutoff <= log_index
}

/// Incorporates one intent. One that is in the window already changes nothing;
/// one at an ancient log position is refused and counted; any other creates its
/// chunk rows, appends its delta and enters the window.
pub open spec fn incorporated(st: SmView, item: ItemView, log_index: u64, now_ms: u64) -> SmView {
    if st.recent_seqs.contains(item.seq) {
        st
    } else if log_index < st.cutoff {
        SmView { ancient_refused: sat_add(st.ancient_refused, 1), ..st }
    } else {
        recent_pushed(
            delta_appended(
                chunks_created(st, item.draft.tenant, item.new_chunks, log_index),
                item.draft,
                log_index,
            ),
            log_index,
            item.seq,
            now_ms,
        )
    }
}

/// What incorporating one intent puts into the inline store.
pub open spec fn incorporate_puts(st: SmView, item: ItemView, log_index: u64) -> Seq<
    InlinePutView,
> {
    if gate_open(st, item.seq, log_index) {
        attached_puts(st, item.inline_payloads) + append_puts(st, item.draft)
    } else {
        Seq::empty()
    }
}

/// Incorporates a batch of intents, in order.
pub open spec fn incorporated_all(
    st: SmView,
    items: Seq<ItemView>,
    log_index: u64,
    now_ms: u64,
) -> SmView
    decreases items.len(),
{
    if items.len() == 0 {
        st
    } else {
        incorporated(
            incorporated_all(st, items.drop_last(), log_index, now_ms),
            items.last(),
            log_index,
            now_ms,
        )
    }
}

/// What incorporating a batch puts into the inline store.
pub open spec fn incorporate_all_puts(
    st: SmView,
    items: Seq<ItemView>,
    log_index: u64,
    now_ms: u64,
) -> Seq<InlinePutView>
    decreases items.len(),
{
    if items.len() == 0 {
        Seq::empty()
    } else {
        incorporate_all_puts(st, items.drop_last(), log_index, now_ms) + incorporate_puts(
            incorporated_all(st, items.drop_last(), log_index, now_ms),
            items.last(),
            log_index,
        )
    }
}

/// Adds a reference; a chunk without a row is left alone.
pub open spec fn reference_added(st: SmView, key: ChunkKey) -> SmView {
    if st.chunks.contains_key(key) {
        SmView {
            chunks: st.chunks.insert(
                key,
                ChunkRow {
                    refcount: sat_add(st.chunks[key].refcount, 1),
                    tombstoned: false,
                    ..st.chunks[key]
                },
            ),
            ..st
        }
    } else {
        st
    }
}

/// Whether dropping a reference tombstones the chunk.
pub open spec fn drop_tombstones(st: SmView, key: ChunkKey) -> bool {
    st.chunks.contains_key(key) && sat_sub(st.chunks[key].refcount, 1) == 0
        && !st.chunks[key].tombstoned
}

/// Whether a dropped reference of a chunk without a row is parked: not where
/// that would be one key too many.
pub open spec fn parks(st: SmView, key: ChunkKey) -> bool {
    !st.chunks.contains_key(key) && (st.parked.contains_key(key) || st.parked.dom().len()
        < PENDING_CHUNK_DECREMENTS_CAP)
}

/// Drops a reference. The last one tombstones the row. Of a chunk without a row
/// the drop is parked until the row is created, or lost at the cap.
pub open spec fn reference_dropped(st: SmView, key: ChunkKey) -> SmView {
    if st.chunks.contains_key(key) {
        let row = st.chunks[key];
        SmView {
            chunks: st.chunks.insert(
                key,
                ChunkRow {
                    refcount: sat_sub(row.refcount, 1),
                    tombstoned: row.tombstoned || sat_sub(row.refcount, 1) == 0,
                    ..row
                },
            ),
            ..st
        }
    } else if parks(st, key) {
        let before = if st.parked.contains_key(key) {
            st.parked[key]
        } else {
            0
        };
        SmView { parked: st.parked.insert(key, (before + 1) as u64), ..st }
    } else {
        st
    }
}

/// How many leading deltas are below a sequence number.
pub open spec fn below_count(deltas: Seq<DeltaView>, boundary: u64) -> nat
    decreases deltas.len(),
{
    if deltas.len() > 0 && deltas[0].header.sequence < boundary {
        1 + below_count(deltas.subrange(1, deltas.len() as int), boundary)
    } else {
        0
    }
}

/// Inline keys of the deltas with inline data.
pub open spec fn inline_keys_of(deltas: Seq<DeltaView>) -> Seq<Seq<u8>>
    decreases deltas.len(),
{
    if deltas.len() == 0 {
        Seq::empty()
    } else {
        let rest = inline_keys_of(deltas.drop_last());
        let d = deltas.last();
        if d.header.has_inline_data {
            rest.push(inline_key(d.header.hashed_key@, d.header.sequence))
        } else {
            rest
        }
    }
}

/// How many leading deltas are below the boundary that the consumers set; none
/// where there is no consumer.
pub open spec fn prunable(st: SmView) -> nat {
    match lowest_position(st.watermarks) {
        Some(b) => below_count(st.deltas, b),
        None => 0,
    }
}

/// Drops the deltas that no consumer will read again.
pub open spec fn pruned(st: SmView) -> SmView {
    SmView { deltas: st.deltas.skip(prunable(st) as int), ..st }
}

/// Inline keys that pruning frees, where an inline store is attached.
pub open spec fn prune_deletes(st: SmView) -> Seq<Seq<u8>> {
    if st.inline_attached {
        inline_keys_of(st.deltas.take(prunable(st) as int))
    } else {
        Seq::empty()
    }
}

/// A consumer moved.
pub open spec fn consumer_advanced(st: SmView, consumer: Seq<char>, position: u64) -> SmView {
    SmView { watermarks: watermarks_advanced(st.watermarks, consumer, position), ..st }
}

/// The draft of a delta, from the fields of a command.
pub open spec fn draft(
    tenant_id_bytes: [u8; 16],
    operation: u8,
    hashed_key: [u8; 32],
    chunk_refs: Seq<[u8; 32]>,
    payload: Seq<u8>,
    has_inline_data: bool,
) -> DraftView {
    DraftView {
        tenant: tenant_of(tenant_id_bytes),
        operation,
        hashed_key,
        chunk_refs: chunk_ids(chunk_refs),
        payload,
        has_inline_data,
        timestamp: None,
    }
}

/// The draft of a delta that keeps a timestamp.
pub open spec fn stamped(d: DraftView, timestamp: Option<TimestampView>) -> DraftView {
    DraftView { timestamp, ..d }
}

/// What a timestamp holds, where there is one.
pub open spec fn stamp_view(timestamp: Option<&DeltaTimestamp>) -> Option<TimestampView> {
    match timestamp {
        Some(t) => Some(t@),
        None => None,
    }
}

/// State after a command.
pub open spec fn applied(st: SmView, cmd: LogCommand, log_index: u64, now_ms: u64) -> SmView {
    match cmd {
        LogCommand::AppendDelta {
            tenant_id_bytes,
            operation,
            hashed_key,
            chunk_refs,
            payload,
            has_inline_data,
        } => delta_appended(
            st,
            draft(tenant_id_bytes, operation, hashed_key, chunk_refs@, payload@, has_inline_data),
            log_index,
        ),
        LogCommand::MoveDelta {
            tenant_id_bytes,
            operation,
            hashed_key,
            chunk_refs,
            payload,
            has_inline_data,
            timestamp,
        } => delta_appended(
            st,
            stamped(
                draft(
                    tenant_id_bytes,
                    operation,
                    hashed_key,
                    chunk_refs@,
                    payload@,
                    has_inline_data,
                ),
                Some(timestamp@),
            ),
            log_index,
        ),
        LogCommand::ChunkAndDelta {
            tenant_id_bytes,
            operation,
            hashed_key,
            chunk_refs,
            payload,
            has_inline_data,
            new_chunks,
            inline_payloads,
        } => delta_appended(
            chunks_created(
                st,
                tenant_of(tenant_id_bytes),
                new_chunk_views(new_chunks@),
                log_index,
            ),
            draft(tenant_id_bytes, operation, hashed_key, chunk_refs@, payload@, has_inline_data),
            log_index,
        ),
        LogCommand::IncorporateIntent {
            tenant_id_bytes,
            operation,
            hashed_key,
            chunk_refs,
            payload,
            has_inline_data,
            new_chunks,
            perspective_seq,
            inline_payloads,
        } => incorporated(
            st,
            ItemView {
                draft: draft(
                    tenant_id_bytes,
                    operation,
                    hashed_key,
                    chunk_refs@,
                    payload@,
                    has_inline_data,
                ),
                new_chunks: new_chunk_views(new_chunks@),
                seq: perspective_seq,
                inline_payloads: inline_views(inline_payloads@),
            },
            log_index,
            now_ms,
        ),
        LogCommand::IncorporateIntents { items } => incorporated_all(
            st,
            item_views(items@),
            log_index,
            now_ms,
        ),
        LogCommand::IncrementChunkRefcount { tenant_id_bytes, chunk_id } => reference_added(
            st,
            ChunkKey { tenant: tenant_of(tenant_id_bytes), chunk: ChunkId(chunk_id) },
        ),
        LogCommand::DecrementChunkRefcount { tenant_id_bytes, chunk_id } => reference_dropped(
            st,
            ChunkKey { tenant: tenant_of(tenant_id_bytes), chunk: ChunkId(chunk_id) },
        ),
        LogCommand::SetMaintenance { enabled } => SmView { maintenance: enabled, ..st },
        LogCommand::AdvanceWatermark { consumer, position } => pruned(
            consumer_advanced(st, consumer@, position),
        ),
        LogCommand::SetShardState { state } => match state_of_code(state) {
            Some(s) => SmView { state: s, ..st },
            None => st,
        },
        LogCommand::UpdateShardRange { range_start, range_end } => SmView {
            range_start,
            range_end,
            ..st
        },
        LogCommand::SetShardConfig {
            max_delta_count,
            max_byte_size,
            inline_threshold_bytes,
            inline_floor_bytes,
            inline_ceiling_bytes,
        } => SmView {
            config: ShardConfig {
                max_delta_count,
                max_byte_size,
                inline_threshold_bytes,
                inline_floor_bytes,
                inline_ceiling_bytes,
            },
            ..st
        },
    }
}

/// Response to a command.
pub open spec fn response(st: SmView, cmd: LogCommand, log_index: u64, now_ms: u64) -> LogResponse {
    match cmd {
        LogCommand::AppendDelta { .. } | LogCommand::MoveDelta { .. }
        | LogCommand::ChunkAndDelta { .. }
        | LogCommand::IncorporateIntent { .. } | LogCommand::IncorporateIntents {
            ..
        } => LogResponse::Appended(applied(st, cmd, log_index, now_ms).tip),
        LogCommand::DecrementChunkRefcount {
            tenant_id_bytes,
            chunk_id,
        } => LogResponse::DecrementOutcome(
            drop_tombstones(
                st,
                ChunkKey { tenant: tenant_of(tenant_id_bytes), chunk: ChunkId(chunk_id) },
            ),
        ),
        _ => LogResponse::Done,
    }
}

/// What a command puts into the inline store, in order.
pub open spec fn inline_puts(
    st: SmView,
    cmd: LogCommand,
    log_index: u64,
    now_ms: u64,
) -> Seq<InlinePutView> {
    match cmd {
        LogCommand::AppendDelta {
            tenant_id_bytes,
            operation,
            hashed_key,
            chunk_refs,
            payload,
            has_inline_data,
        } => append_puts(
            st,
            draft(tenant_id_bytes, operation, hashed_key, chunk_refs@, payload@, has_inline_data),
        ),
        LogCommand::MoveDelta {
            tenant_id_bytes,
            operation,
            hashed_key,
            chunk_refs,
            payload,
            has_inline_data,
            timestamp,
        } => append_puts(
            st,
            draft(tenant_id_bytes, operation, hashed_key, chunk_refs@, payload@, has_inline_data),
        ),
        LogCommand::ChunkAndDelta {
            tenant_id_bytes,
            operation,
            hashed_key,
            chunk_refs,
            payload,
            has_inline_data,
            new_chunks,
            inline_payloads,
        } => attached_puts(st, inline_views(inline_payloads@)) + append_puts(
            st,
            draft(tenant_id_bytes, operation, hashed_key, chunk_refs@, payload@, has_inline_data),
        ),
        LogCommand::IncorporateIntent {
            tenant_id_bytes,
            operation,
            hashed_key,
            chunk_refs,
            payload,
            has_inline_data,
            new_chunks,
            perspective_seq,
            inline_payloads,
        } => incorporate_puts(
            st,
            ItemView {
                draft: draft(
                    tenant_id_bytes,
                    operation,
                    hashed_key,
                    chunk_refs@,
                    payload@,
                    has_inline_data,
                ),
                new_chunks: new_chunk_views(new_chunks@),
                seq: perspective_seq,
                inline_payloads: inline_views(inline_payloads@),
            },
            log_index,
        ),
        LogCommand::IncorporateIntents { items } => incorporate_all_puts(
            st,
            item_views(items@),
            log_index,
            now_ms,
        ),
        _ => Seq::empty(),
    }
}

/// Keys that a command deletes from the inline store, in order.
pub open spec fn inline_deletes(st: SmView, cmd: LogCommand) -> Seq<Seq<u8>> {
    match cmd {
        LogCommand::AdvanceWatermark { consumer, position } => prune_deletes(
            consumer_advanced(st, consumer@, position),
        ),
        _ => Seq::empty(),
    }
}

/// How many deltas a command can append.
pub open spec fn append_bound(cmd: LogCommand) -> nat {
    match cmd {
        LogCommand::IncorporateIntents { items } => items@.len(),
        LogCommand::AppendDelta { .. } | LogCommand::MoveDelta { .. }
        | LogCommand::ChunkAndDelta { .. }
        | LogCommand::IncorporateIntent { .. } => 1,
        _ => 0,
    }
}

/// Whether the counters of the machine have room for a command.
pub open spec fn has_room(st: SmView, cmd: LogCommand) -> bool {
    &&& st.tip + append_bound(cmd) <= u64::MAX
    &&& st.delta_count + append_bound(cmd) <= u64::MAX
    &&& cmd matches LogCommand::DecrementChunkRefcount { tenant_id_bytes, chunk_id } ==> {
        let key = ChunkKey { tenant: tenant_of(tenant_id_bytes), chunk: ChunkId(chunk_id) };
        st.parked.contains_key(key) ==> st.parked[key] < u64::MAX
    }
}

/// What applying a command calls for.
pub struct Applied {
    /// The response.
    pub response: LogResponse,
    /// Payloads to put into the inline store, in one batch.
    pub inline_puts: Vec<InlinePayload>,
    /// Keys to delete from the inline store.
    pub inline_deletes: Vec<[u8; 32]>,
}

/// The bytes of a list of keys.
pub open spec fn key_views(s: Seq<[u8; 32]>) -> Seq<Seq<u8>> {
    Seq::new(s.len(), |i: int| s[i]@)
}

/// The state machine of a shard.
pub struct ShardSmInner {
    /// Deltas committed so far; pruning does not lower it.
    pub delta_count: u64,
    /// Highest sequence number given out.
    pub tip: u64,
    /// Whether maintenance mode is on.
    pub maintenance: bool,
    /// Deltas that have not been pruned, in ascending order.
    pub deltas: Vec<Delta>,
    /// Consumer watermarks.
    pub watermarks: ConsumerWatermarks,
    /// The shard.
    pub shard_id: ShardId,
    /// The tenant.
    pub tenant_id: OrgId,
    /// Whether an inline store takes inline payloads.
    pub inline_attached: bool,
    /// Chunk rows.
    pub cluster_chunk_state: OrderedMap<ChunkKey, ClusterChunkStateEntry>,
    /// Lower bound of the key range, inclusive.
    pub range_start: [u8; 32],
    /// Upper bound of the key range, exclusive.
    pub range_end: [u8; 32],
    /// Lifecycle state.
    pub state: ShardState,
    /// Thresholds.
    pub config: ShardConfig,
    /// Log positions below this are ancient.
    pub ancient_cutoff_log_index: u64,
    /// Window of recent intents, oldest first.
    pub recent_incorporated: VecDeque<RecentIncorporatedEntry>,
    /// The clock readings of the window.
    pub recent_incorporated_seqs: OrderedMap<HybridLogicalClock, ()>,
    /// Most entries of the window.
    pub dedup_window_entries: usize,
    /// Most milliseconds in the window.
    pub dedup_window_ms: u64,
    /// References dropped before their row existed.
    pub pending_chunk_decrements: OrderedMap<ChunkKey, u64>,
    /// Intents refused at an ancient log position.
    pub ancient_refused: u64,
}

/// What the chunk rows hold.
pub open spec fn row_views(m: Map<ChunkKey, ClusterChunkStateEntry>) -> Map<ChunkKey, ChunkRow> {
    m.map_values(|e: ClusterChunkStateEntry| e@)
}

impl View for ShardSmInner {
    type V = SmView;

    open spec fn view(&self) -> SmView {
        SmView {
            delta_count: self.delta_count,
            tip: self.tip,
            maintenance: self.maintenance,
            deltas: delta_views(self.deltas@),
            watermarks: self.watermarks@,
            shard_id: self.shard_id,
            tenant_id: self.tenant_id,
            inline_attached: self.inline_attached,
            chunks: row_views(self.cluster_chunk_state@),
            range_start: self.range_start,
            range_end: self.range_end,
            state: self.state,
            config: self.config,
            cutoff: self.ancient_cutoff_log_index,
            recent: self.recent_incorporated@,
            recent_seqs: self.recent_incorporated_seqs@.dom(),
            window_entries: self.dedup_window_entries,
            window_ms: self.dedup_window_ms,
            parked: self.pending_chunk_decrements@,
            ancient_refused: self.ancient_refused,
        }
    }
}

/// State of a fresh machine.
pub open spec fn fresh(
    shard_id: ShardId,
    tenant_id: OrgId,
    window_entries: usize,
    window_ms: u64,
) -> SmView {
    SmView {
        delta_count: 0,
        tip: 0,
        maintenance: false,
        deltas: Seq::empty(),
        watermarks: Seq::empty(),
        shard_id,
        tenant_id,
        inline_attached: false,
        chunks: Map::empty(),
        range_start: lowest_key(),
        range_end: highest_key(),
        state: ShardState::Healthy,
        config: default_config(),
        cutoff: 0,
        recent: Seq::empty(),
        recent_seqs: Set::empty(),
        window_entries,
        window_ms,
        parked: Map::empty(),
        ancient_refused: 0,
    }
}

/// The key of thirty-two zero bytes.
pub open spec fn lowest_key() -> [u8; 32] {
    vstd::array::spec_array_fill_for_copy_type::<u8, 32>(0)
}

/// The key of thirty-two bytes of all ones.
pub open spec fn highest_key() -> [u8; 32] {
    vstd::array::spec_array_fill_for_copy_type::<u8, 32>(0xff)
}

/// The larger of a bound and one.
pub open spec fn at_least_one(n: int) -> int {
    if n < 1 {
        1
    } else {
        n
    }
}

impl ShardSmInner {
    /// The maps of the machine are well formed.
    pub open spec fn wf(&self) -> bool {
        &&& self.cluster_chunk_state.wf()
        &&& self.recent_incorporated_seqs.wf()
        &&& self.pending_chunk_decrements.wf()
    }

    /// A fresh machine with the default window.
    pub fn new(shard_id: ShardId, tenant_id: OrgId) -> (r: Self)
        ensures
            r.wf(),
            r@ == fresh(
                shard_id,
                tenant_id,
                DEFAULT_DEDUP_WINDOW_ENTRIES,
                DEFAULT_DEDUP_WINDOW_MS,
            ),
    {
        Self::new_with_bounds(
            shard_id,
            tenant_id,
            DEFAULT_DEDUP_WINDOW_ENTRIES,
            DEFAULT_DEDUP_WINDOW_MS,
        )
    }

    /// A fresh machine with the given window; both bounds are at least one.
    pub fn new_with_bounds(
        shard_id: ShardId,
        tenant_id: OrgId,
        window_entries: usize,
        window_ms: u64,
    ) -> (r: Self)
        ensures
            r.wf(),
            r@ == fresh(
                shard_id,
                tenant_id,
                at_least_one(window_entries as int) as usize,
                at_least_one(window_ms as int) as u64,
            ),
    {
        let r = ShardSmInner {
            delta_count: 0,
            tip: 0,
            maintenance: false,
            deltas: Vec::new(),
            watermarks: ConsumerWatermarks::new(),
            shard_id,
            tenant_id,
            inline_attached: false,
            cluster_chunk_state: OrderedMap::new(),
            range_start: [0u8; 32],
            range_end: [0xffu8; 32],
            state: ShardState::Healthy,
            config: ShardConfig::default(),
            ancient_cutoff_log_index: 0,
            recent_incorporated: VecDeque::new(),
            recent_incorporated_seqs: OrderedMap::new(),
            dedup_window_entries: if window_entries < 1 {
                1
            } else {
                window_entries
            },
            dedup_window_ms: if window_ms < 1 {
                1
            } else {
                window_ms
            },
            pending_chunk_decrements: OrderedMap::new(),
            ancient_refused: 0,
        };
        assert(r@ =~= fresh(
            shard_id,
            tenant_id,
            at_least_one(window_entries as int) as usize,
            at_least_one(window_ms as int) as u64,
        ));
        r
    }

    /// The same machine with an inline store attached.
    pub fn with_inline_store(self) -> (r: Self)
        ensures
            self.wf() ==> r.wf(),
            r@ == (SmView { inline_attached: true, ..self@ }),
    {
        let mut s = self;
        s.inline_attached = true;
        s
    }

    /// Whether an intent is in the window.
    pub fn dedup_contains(&self, seq: &HybridLogicalClock) -> (r: bool)
        requires
            self.wf(),
        ensures
            r == self@.recent_seqs.contains(*seq),
    {
        self.recent_incorporated_seqs.contains(seq)
    }

    /// The clock readings of the window, in ascending order.
    pub fn recent_incorporated_snapshot(&self) -> (r: Vec<HybridLogicalClock>)
        requires
            self.wf(),
        ensures
            r@.to_set() == self@.recent_seqs,
            r@.no_duplicates(),
            forall|i: int, j: int|
                0 <= i < j < r@.len() ==> hlc_rank(#[trigger] r@[i])
                    < hlc_rank(#[trigger] r@[j]),
    {
        let m = &self.recent_incorporated_seqs;
        proof {
            m.lemma_entries();
        }
        let mut out: Vec<HybridLogicalClock> = Vec::new();
        let mut i: usize = 0;
        while i < m.len()
            invariant
                m.wf(),
                i <= m.entries().len(),
                out@.len() == i,
                forall|j: int| 0 <= j < i ==> (#[trigger] out@[j]) == m.entries()[j].0,
            decreases m.entries().len() - i,
        {
            out.push(m.at(i).0);
            i = i + 1;
        }
        proof {
            assert forall|i: int, j: int| 0 <= i < j < out@.len() implies hlc_rank(
                #[trigger] out@[i],
            ) < hlc_rank(#[trigger] out@[j]) by {
                assert(m.entries()[i].0.rank() < m.entries()[j].0.rank());
            }
            assert forall|q: HybridLogicalClock| out@.to_set().contains(q)
                <==> self@.recent_seqs.contains(q) by {
                if out@.contains(q) {
                    let j = choose|j: int| 0 <= j < out@.len() && out@[j] == q;
                    assert(m.entries()[j].0 == q);
                }
                if m@.contains_key(q) {
                    let j = choose|j: int|
                        0 <= j < m.entries().len() && (#[trigger] m.entries()[j]).0 == q;
                    assert(out@[j] == q);
                }
            }
            assert(out@.to_set() =~= self@.recent_seqs);
        }
        out
    }

    /// A new recent intent enters the window, and the window is trimmed.
    fn push_recent_and_evict(&mut self, log_index: u64, perspective_seq: HybridLogicalClock, now_ms: u64)
        requires
            old(self).wf(),
        ensures
            final(self).wf(),
            final(self)@ == recent_pushed(old(self)@, log_index, perspective_seq, now_ms),
    {
        let ghost goal = recent_pushed(self@, log_index, perspective_seq, now_ms);
        let ghost start = SmView {
            recent: self@.recent.push(
                RecentIncorporatedEntry { log_index, perspective_seq, apply_ms: now_ms },
            ),
            recent_seqs: self@.recent_seqs.insert(perspective_seq),
            ..self@
        };
        self.recent_incorporated.push_back(
            RecentIncorporatedEntry { log_index, perspective_seq, apply_ms: now_ms },
        );
        self.recent_incorporated_seqs.insert(perspective_seq, ());
        assert(self@ =~= start);
        while self.evict_due(now_ms)
            invariant
                self.wf(),
                goal == evicted(self@, now_ms),
            decreases self@.recent.len(),
        {
            let ghost pre = self@;
            match self.recent_incorporated.pop_front() {
                Some(front) => {
                    let _ = self.recent_incorporated_seqs.remove(&front.perspective_seq);
                    let bound: u64 = front.log_index.saturating_add(1);
                    if self.ancient_cutoff_log_index < bound {
                        self.ancient_cutoff_log_index = bound;
                    }
                    assert(self@ =~= oldest_evicted(pre));
                },
                None => {},
            }
        }
    }

    /// Whether the oldest recent intent has to leave the window.
    fn evict_due(&self, now_ms: u64) -> (r: bool)
        ensures
            r == (self@.recent.len() > 0 && must_evict(self@, now_ms)),
    {
        if self.recent_incorporated.len() == 0 {
            return false;
        }
        self.recent_incorporated.len() > self.dedup_window_entries || now_ms.saturating_sub(
            self.recent_incorporated[0].apply_ms,
        ) > self.dedup_window_ms
    }

    /// Creates the rows of new chunks.
    pub fn apply_new_chunks(
        &mut self,
        tenant_id_bytes: &[u8; 16],
        new_chunks: &[NewChunkMeta],
        log_index: u64,
    )
        requires
            old(self).wf(),
        ensures
            final(self).wf(),
            final(self)@ == chunks_created(
                old(self)@,
                tenant_of(*tenant_id_bytes),
                new_chunk_views(new_chunks@),
                log_index,
            ),
    {
        let tenant = OrgId(uuid_from_bytes(*tenant_id_bytes));
        let ghost st = self@;
        let ghost metas = new_chunk_views(new_chunks@);
        let mut i: usize = 0;
        assert(metas.take(0) =~= Seq::<NewChunkView>::empty());
        while i < new_chunks.len()
            invariant
                self.wf(),
                i <= new_chunks@.len(),
                metas == new_chunk_views(new_chunks@),
                tenant == tenant_of(*tenant_id_bytes),
                self@ == chunks_created(st, tenant, metas.take(i as int), log_index),
            decreases new_chunks@.len() - i,
        {
            let nc = &new_chunks[i];
            let ghost pre = self@;
            proof {
                let t = metas.take(i + 1);
                assert(t.drop_last() =~= metas.take(i as int));
                assert(t.last() == nc@);
            }
            let key = ChunkKey { tenant, chunk: ChunkId(nc.chunk_id) };
            if !self.cluster_chunk_state.contains(&key) {
                let parked: u64 = match self.pending_chunk_decrements.remove(&key) {
                    Some(n) => n,
                    None => 0,
                };
                let ghost rows = self.cluster_chunk_state@;
                let entry = ClusterChunkStateEntry {
                    refcount: if parked == 0 {
                        1
                    } else {
                        0
                    },
                    placement: copy_u64s(&nc.placement),
                    tombstoned: parked > 0,
                    created_ms: log_index,
                    original_len: nc.original_len,
                };
                let ghost row = entry@;
                self.cluster_chunk_state.insert(key, entry);
                assert(row_views(self.cluster_chunk_state@) =~= row_views(rows).insert(key, row));
                assert(self@ =~= chunk_created(pre, tenant, nc@, log_index));
            }
            i = i + 1;
        }
        assert(metas.take(i as int) =~= metas);
    }

    /// Appends a delta under the next sequence number, and adds what goes to the
    /// inline store to `inline_batch`.
    fn append_delta_inner(
        &mut self,
        tenant_id_bytes: &[u8; 16],
        operation: u8,
        hashed_key: &[u8; 32],
        chunk_refs: &[[u8; 32]],
        payload: &[u8],
        has_inline_data: bool,
        timestamp: Option<&DeltaTimestamp>,
        log_index: u64,
        inline_batch: &mut Vec<InlinePayload>,
    ) -> (r: u64)
        requires
            old(self).wf(),
            old(self).tip < u64::MAX,
            old(self).delta_count < u64::MAX,
        ensures
            final(self).wf(),
            ({
                let d = stamped(
                    draft(
                        *tenant_id_bytes,
                        operation,
                        *hashed_key,
                        chunk_refs@,
                        payload@,
                        has_inline_data,
                    ),
                    stamp_view(timestamp),
                );
                &&& final(self)@ == delta_appended(old(self)@, d, log_index)
                &&& inline_views(final(inline_batch)@) == inline_views(old(inline_batch)@)
                    + append_puts(old(self)@, d)
            }),
            r == final(self)@.tip,
    {
        let ghost st = self@;
        let ghost batch = inline_views(inline_batch@);
        let ghost deltas = self.deltas@;
        self.tip = self.tip + 1;
        self.delta_count = self.delta_count + 1;
        let len: u64 = payload.len() as u64;
        let payload_size: u32 = #[verifier::truncate] (len as u32);
        assert(payload_size == truncated_size(payload@.len())) by {
            assert(len as u32 == len % 0x1_0000_0000) by (bit_vector);
        }
        let ciphertext: Vec<u8> = if has_inline_data && self.inline_attached {
            let ghost pre = inline_batch@;
            inline_batch.push(
                InlinePayload {
                    chunk_id: derive_inline_key(hashed_key, self.tip),
                    payload: copy_bytes(payload),
                },
            );
            assert(inline_views(inline_batch@) =~= inline_views(pre).push(
                inline_batch@[pre.len() as int]@,
            ));
            Vec::new()
        } else {
            copy_bytes(payload)
        };
        let delta = Delta {
            header: DeltaHeader {
                sequence: SequenceNumber(self.tip),
                shard_id: self.shard_id,
                tenant_id: OrgId(uuid_from_bytes(*tenant_id_bytes)),
                operation: u8_to_op(operation),
                timestamp: match timestamp {
                    Some(t) => t.clone(),
                    None => timestamp_at(log_index),
                },
                hashed_key: *hashed_key,
                tombstone: operation == 2,
                chunk_refs: to_chunk_ids(chunk_refs),
                payload_size,
                has_inline_data,
            },
            payload: DeltaPayload::bare(ciphertext),
        };
        let ghost d = stamped(
            draft(
                *tenant_id_bytes,
                operation,
                *hashed_key,
                chunk_refs@,
                payload@,
                has_inline_data,
            ),
            stamp_view(timestamp),
        );
        assert(delta@ =~= drafted_delta(st.shard_id, st.inline_attached, d, self.tip, log_index));
        self.deltas.push(delta);
        proof {
            assert(delta_views(self.deltas@) =~= delta_views(deltas).push(delta@));
            assert(self@ =~= delta_appended(st, d, log_index));
            assert(inline_views(inline_batch@) =~= batch + append_puts(st, d));
        }
        self.tip
    }

    /// Incorporates one intent, and adds what goes to the inline store to
    /// `inline_batch`. Returns the tip, which a duplicate or refused intent
    /// leaves where it was.
    fn apply_one_incorporate(
        &mut self,
        item: &IncorporateItem,
        log_index: u64,
        now_ms: u64,
        inline_batch: &mut Vec<InlinePayload>,
    ) -> (r: u64)
        requires
            old(self).wf(),
            old(self).tip < u64::MAX,
            old(self).delta_count < u64::MAX,
        ensures
            final(self).wf(),
            final(self)@ == incorporated(old(self)@, item@, log_index, now_ms),
            inline_views(final(inline_batch)@) == inline_views(old(inline_batch)@)
                + incorporate_puts(old(self)@, item@, log_index),
            r == final(self)@.tip,
    {
        let ghost st = self@;
        let ghost batch = inline_views(inline_batch@);
        if self.dedup_contains(&item.perspective_seq) {
            assert(batch + Seq::<InlinePutView>::empty() =~= batch);
            return self.tip;
        }
        if log_index < self.ancient_cutoff_log_index {
            self.ancient_refused = self.ancient_refused.saturating_add(1);
            assert(self@ =~= incorporated(st, item@, log_index, now_ms));
            assert(batch + Seq::<InlinePutView>::empty() =~= batch);
            return self.tip;
        }
        self.apply_new_chunks(&item.tenant_id_bytes, &item.new_chunks, log_index);
        let ghost st1 = self@;
        proof {
            lemma_chunks_created_frame(st, item@.draft.tenant, item@.new_chunks, log_index);
        }
        if self.inline_attached {
            extend_inline(inline_batch, &item.inline_payloads);
        }
        let ghost batch1 = inline_views(inline_batch@);
        assert(batch1 =~= batch + attached_puts(st, item@.inline_payloads));
        let tip: u64 = self.append_delta_inner(
            &item.tenant_id_bytes,
            item.operation,
            &item.hashed_key,
            &item.chunk_refs,
            &item.payload,
            item.has_inline_data,
            None,
            log_index,
            inline_batch,
        );
        let ghost st2 = self@;
        self.push_recent_and_evict(log_index, item.perspective_seq, now_ms);
        proof {
            lemma_recent_pushed_frame(st2, log_index, item.perspective_seq, now_ms);
            assert(append_puts(st1, item@.draft) == append_puts(st, item@.draft));
            assert(inline_views(inline_batch@) =~= batch + incorporate_puts(st, item@, log_index));
        }
        tip
    }

    /// Drops the deltas that no consumer will read again; returns the inline
    /// keys that this frees.
    pub fn prune_deltas_below_gc_boundary(&mut self) -> (r: Vec<[u8; 32]>)
        requires
            old(self).wf(),
        ensures
            final(self).wf(),
            final(self)@ == pruned(old(self)@),
            key_views(r@) == prune_deletes(old(self)@),
    {
        let ghost st = self@;
        let mut keys: Vec<[u8; 32]> = Vec::new();
        let boundary = match self.watermarks.gc_boundary() {
            Some(b) => b,
            None => {
                assert(self@.deltas.skip(0) =~= self@.deltas);
                assert(st.deltas.take(0) =~= Seq::<DeltaView>::empty());
                assert(key_views(keys@) =~= Seq::<Seq<u8>>::empty());
                return keys;
            },
        };
        let mut cut: usize = 0;
        assert(st.deltas.skip(0) =~= st.deltas);
        assert(st.deltas.take(0) =~= Seq::<DeltaView>::empty());
        assert(key_views(keys@) =~= Seq::<Seq<u8>>::empty());
        while cut < self.deltas.len() && self.deltas[cut].header.sequence.0 < boundary.0
            invariant
                self@ == st,
                self.wf(),
                cut <= self.deltas@.len(),
                lowest_position(st.watermarks) == Some(boundary.0),
                prunable(st) == cut + below_count(st.deltas.skip(cut as int), boundary.0),
                key_views(keys@) == (if st.inline_attached {
                    inline_keys_of(st.deltas.take(cut as int))
                } else {
                    Seq::empty()
                }),
            decreases self.deltas@.len() - cut,
        {
            let d = &self.deltas[cut];
            proof {
                let rest = st.deltas.skip(cut as int);
                assert(rest[0] == d@);
                assert(rest.subrange(1, rest.len() as int) =~= st.deltas.skip(cut + 1));
                let t = st.deltas.take(cut + 1);
                assert(t.drop_last() =~= st.deltas.take(cut as int));
                assert(t.last() == d@);
            }
            if self.inline_attached && d.header.has_inline_data {
                let ghost before = keys@;
                keys.push(derive_inline_key(&d.header.hashed_key, d.header.sequence.0));
                assert(key_views(keys@) =~= key_views(before).push(
                    inline_key(d.header.hashed_key@, d.header.sequence.0),
                ));
            }
            cut = cut + 1;
        }
        proof {
            let rest = st.deltas.skip(cut as int);
            if cut < self.deltas@.len() {
                assert(rest[0] == self.deltas@[cut as int]@);
            }
            assert(below_count(rest, boundary.0) == 0);
        }
        let ghost whole = self.deltas@;
        let kept = self.deltas.split_off(cut);
        self.deltas = kept;
        assert(delta_views(self.deltas@) =~= st.deltas.skip(cut as int));
        assert(self@ =~= pruned(st));
        keys
    }

    /// Whether the counters of the machine have room for a command.
    pub fn room_for(&self, cmd: &LogCommand) -> (r: bool)
        requires
            self.wf(),
        ensures
            r == has_room(self@, *cmd),
    {
        let bound: usize = match cmd {
            LogCommand::IncorporateIntents { items } => items.len(),
            LogCommand::AppendDelta { .. } | LogCommand::MoveDelta { .. }
        | LogCommand::ChunkAndDelta { .. }
            | LogCommand::IncorporateIntent { .. } => 1,
            _ => 0,
        };
        if self.tip > u64::MAX - bound as u64 || self.delta_count > u64::MAX - bound as u64 {
            return false;
        }
        match cmd {
            LogCommand::DecrementChunkRefcount { tenant_id_bytes, chunk_id } => {
                let key = ChunkKey {
                    tenant: OrgId(uuid_from_bytes(*tenant_id_bytes)),
                    chunk: ChunkId(*chunk_id),
                };
                match self.pending_chunk_decrements.get(&key) {
                    Some(n) => *n < u64::MAX,
                    None => true,
                }
            },
            _ => true,
        }
    }

    /// Applies a command at a log position and an apply time.
    pub fn apply_command_at(&mut self, cmd: &LogCommand, log_index: u64, now_ms: u64) -> (r: Applied)
        requires
            old(self).wf(),
            has_room(old(self)@, *cmd),
        ensures
            final(self).wf(),
            final(self)@ == applied(old(self)@, *cmd, log_index, now_ms),
            r.response == response(old(self)@, *cmd, log_index, now_ms),
            inline_views(r.inline_puts@) == inline_puts(old(self)@, *cmd, log_index, now_ms),
            key_views(r.inline_deletes@) == inline_deletes(old(self)@, *cmd),
    {
        let ghost st = self@;
        let mut batch: Vec<InlinePayload> = Vec::new();
        let mut deletes: Vec<[u8; 32]> = Vec::new();
        assert(inline_views(batch@) =~= Seq::<InlinePutView>::empty());
        assert(key_views(deletes@) =~= Seq::<Seq<u8>>::empty());
        let response = match cmd {
            LogCommand::AppendDelta {
                tenant_id_bytes,
                operation,
                hashed_key,
                chunk_refs,
                payload,
                has_inline_data,
            } => {
                let tip: u64 = self.append_delta_inner(
                    tenant_id_bytes,
                    *operation,
                    hashed_key,
                    chunk_refs,
                    payload,
                    *has_inline_data,
                    None,
                    log_index,
                    &mut batch,
                );
                assert(inline_views(batch@) =~= inline_puts(st, *cmd, log_index, now_ms));
                LogResponse::Appended(tip)
            },
            LogCommand::MoveDelta {
                tenant_id_bytes,
                operation,
                hashed_key,
                chunk_refs,
                payload,
                has_inline_data,
                timestamp,
            } => {
                let tip: u64 = self.append_delta_inner(
                    tenant_id_bytes,
                    *operation,
                    hashed_key,
                    chunk_refs,
                    payload,
                    *has_inline_data,
                    Some(timestamp),
                    log_index,
                    &mut batch,
                );
                assert(inline_views(batch@) =~= inline_puts(st, *cmd, log_index, now_ms));
                LogResponse::Appended(tip)
            },
            LogCommand::ChunkAndDelta {
                tenant_id_bytes,
                operation,
                hashed_key,
                chunk_refs,
                payload,
                has_inline_data,
                new_chunks,
                inline_payloads,
            } => {
                self.apply_new_chunks(tenant_id_bytes, new_chunks, log_index);
                proof {
                    lemma_chunks_created_frame(
                        st,
                        tenant_of(*tenant_id_bytes),
                        new_chunk_views(new_chunks@),
                        log_index,
                    );
                }
                let ghost st1 = self@;
                if self.inline_attached {
                    extend_inline(&mut batch, inline_payloads);
                }
                assert(inline_views(batch@) =~= attached_puts(st, inline_views(inline_payloads@)));
                let tip: u64 = self.append_delta_inner(
                    tenant_id_bytes,
                    *operation,
                    hashed_key,
                    chunk_refs,
                    payload,
                    *has_inline_data,
                    None,
                    log_index,
                    &mut batch,
                );
                proof {
                    let d = draft(
                        *tenant_id_bytes,
                        *operation,
                        *hashed_key,
                        chunk_refs@,
                        payload@,
                        *has_inline_data,
                    );
                    assert(append_puts(st1, d) == append_puts(st, d));
                    assert(inline_views(batch@) =~= inline_puts(st, *cmd, log_index, now_ms));
                }
                LogResponse::Appended(tip)
            },
            LogCommand::IncorporateIntent {
                tenant_id_bytes,
                operation,
                hashed_key,
                chunk_refs,
                payload,
                has_inline_data,
                new_chunks,
                perspective_seq,
                inline_payloads,
            } => {
                let item = IncorporateItem {
                    tenant_id_bytes: *tenant_id_bytes,
                    operation: *operation,
                    hashed_key: *hashed_key,
                    chunk_refs: copy_keys(chunk_refs),
                    payload: copy_bytes(payload),
                    has_inline_data: *has_inline_data,
                    new_chunks: copy_new_chunks(new_chunks),
                    perspective_seq: *perspective_seq,
                    inline_payloads: copy_inline(inline_payloads),
                };
                let tip: u64 = self.apply_one_incorporate(&item, log_index, now_ms, &mut batch);
                assert(inline_views(batch@) =~= inline_puts(st, *cmd, log_index, now_ms));
                LogResponse::Appended(tip)
            },
            LogCommand::IncorporateIntents { items } => {
                self.apply_incorporate_batch(items, log_index, now_ms, &mut batch);
                assert(inline_views(batch@) =~= inline_puts(st, *cmd, log_index, now_ms));
                LogResponse::Appended(self.tip)
            },
            LogCommand::IncrementChunkRefcount { tenant_id_bytes, chunk_id } => {
                let key = ChunkKey {
                    tenant: OrgId(uuid_from_bytes(*tenant_id_bytes)),
                    chunk: ChunkId(*chunk_id),
                };
                self.add_reference(key);
                LogResponse::Done
            },
            LogCommand::DecrementChunkRefcount { tenant_id_bytes, chunk_id } => {
                let key = ChunkKey {
                    tenant: OrgId(uuid_from_bytes(*tenant_id_bytes)),
                    chunk: ChunkId(*chunk_id),
                };
                let tombstoned: bool = self.drop_reference(key);
                LogResponse::DecrementOutcome(tombstoned)
            },
            LogCommand::SetMaintenance { enabled } => {
                self.maintenance = *enabled;
                LogResponse::Done
            },
            LogCommand::AdvanceWatermark { consumer, position } => {
                self.watermarks.advance(consumer.as_str(), SequenceNumber(*position));
                assert(self@ =~= consumer_advanced(st, consumer@, *position));
                deletes = self.prune_deltas_below_gc_boundary();
                LogResponse::Done
            },
            LogCommand::SetShardState { state } => {
                match ShardState::from_u8(*state) {
                    Some(s) => {
                        self.state = s;
                    },
                    None => {},
                }
                LogResponse::Done
            },
            LogCommand::UpdateShardRange { range_start, range_end } => {
                self.range_start = *range_start;
                self.range_end = *range_end;
                LogResponse::Done
            },
            LogCommand::SetShardConfig {
                max_delta_count,
                max_byte_size,
                inline_threshold_bytes,
                inline_floor_bytes,
                inline_ceiling_bytes,
            } => {
                self.config = ShardConfig {
                    max_delta_count: *max_delta_count,
                    max_byte_size: *max_byte_size,
                    inline_threshold_bytes: *inline_threshold_bytes,
                    inline_floor_bytes: *inline_floor_bytes,
                    inline_ceiling_bytes: *inline_ceiling_bytes,
                };
                LogResponse::Done
            },
        };
        assert(self@ =~= applied(st, *cmd, log_index, now_ms));
        Applied { response, inline_puts: batch, inline_deletes: deletes }
    }

    /// Applies a command at a log position, at the current time of this node.
    /// The time decides only which recent intents leave the window.
    pub fn apply_command(&mut self, cmd: &LogCommand, log_index: u64) -> (r: Applied)
        requires
            old(self).wf(),
            has_room(old(self)@, *cmd),
        ensures
            final(self).wf(),
            exists|now_ms: u64|
                {
                    &&& final(self)@ == #[trigger] applied(old(self)@, *cmd, log_index, now_ms)
                    &&& r.response == response(old(self)@, *cmd, log_index, now_ms)
                    &&& inline_views(r.inline_puts@) == inline_puts(
                        old(self)@,
                        *cmd,
                        log_index,
                        now_ms,
                    )
                },
            key_views(r.inline_deletes@) == inline_deletes(old(self)@, *cmd),
    {
        let now: u64 = now_ms();
        self.apply_command_at(cmd, log_index, now)
    }

    /// Incorporates a batch of intents, in order.
    fn apply_incorporate_batch(
        &mut self,
        items: &[IncorporateItem],
        log_index: u64,
        now_ms: u64,
        batch: &mut Vec<InlinePayload>,
    )
        requires
            old(self).wf(),
            old(self).tip + items@.len() <= u64::MAX,
            old(self).delta_count + items@.len() <= u64::MAX,
        ensures
            final(self).wf(),
            final(self)@ == incorporated_all(old(self)@, item_views(items@), log_index, now_ms),
            inline_views(final(batch)@) == inline_views(old(batch)@) + incorporate_all_puts(
                old(self)@,
                item_views(items@),
                log_index,
                now_ms,
            ),
    {
        let ghost st = self@;
        let ghost puts = inline_views(batch@);
        let ghost views = item_views(items@);
        let mut i: usize = 0;
        assert(views.take(0) =~= Seq::<ItemView>::empty());
        assert(puts + Seq::<InlinePutView>::empty() =~= puts);
        while i < items.len()
            invariant
                self.wf(),
                i <= items@.len(),
                views == item_views(items@),
                st.tip + items@.len() <= u64::MAX,
                st.delta_count + items@.len() <= u64::MAX,
                self.tip <= st.tip + i,
                self.delta_count <= st.delta_count + i,
                self@ == incorporated_all(st, views.take(i as int), log_index, now_ms),
                inline_views(batch@) == puts + incorporate_all_puts(
                    st,
                    views.take(i as int),
                    log_index,
                    now_ms,
                ),
            decreases items@.len() - i,
        {
            let ghost pre = self@;
            proof {
                let t = views.take(i + 1);
                assert(t.drop_last() =~= views.take(i as int));
                assert(t.last() == items@[i as int]@);
                lemma_incorporated_counts(pre, items@[i as int]@, log_index, now_ms);
            }
            let _ = self.apply_one_incorporate(&items[i], log_index, now_ms, batch);
            i = i + 1;
            assert(inline_views(batch@) =~= puts + incorporate_all_puts(
                st,
                views.take(i as int),
                log_index,
                now_ms,
            ));
        }
        assert(views.take(i as int) =~= views);
    }

    /// Adds a reference to a chunk.
    fn add_reference(&mut self, key: ChunkKey)
        requires
            old(self).wf(),
        ensures
            final(self).wf(),
            final(self)@ == reference_added(old(self)@, key),
    {
        let ghost st = self@;
        let ghost rows = self.cluster_chunk_state@;
        match self.cluster_chunk_state.get_mut(&key) {
            Some(entry) => {
                entry.refcount = entry.refcount.saturating_add(1);
                entry.tombstoned = false;
            },
            None => {},
        }
        proof {
            if rows.contains_key(key) {
                let now = self.cluster_chunk_state@;
                assert(row_views(now) =~= row_views(rows).insert(key, now[key]@));
            }
            assert(self@ =~= reference_added(st, key));
        }
    }

    /// Drops a reference to a chunk; returns whether that tombstoned it.
    fn drop_reference(&mut self, key: ChunkKey) -> (r: bool)
        requires
            old(self).wf(),
            old(self)@.parked.contains_key(key) ==> old(self)@.parked[key] < u64::MAX,
        ensures
            final(self).wf(),
            final(self)@ == reference_dropped(old(self)@, key),
            r == drop_tombstones(old(self)@, key),
    {
        let ghost st = self@;
        let ghost rows = self.cluster_chunk_state@;
        let mut tombstoned_now: bool = false;
        let mut found: bool = false;
        match self.cluster_chunk_state.get_mut(&key) {
            Some(entry) => {
                found = true;
                entry.refcount = entry.refcount.saturating_sub(1);
                if entry.refcount == 0 && !entry.tombstoned {
                    entry.tombstoned = true;
                    tombstoned_now = true;
                }
            },
            None => {},
        }
        if !found {
            let parked: Option<u64> = match self.pending_chunk_decrements.get(&key) {
                Some(n) => Some(*n),
                None => None,
            };
            match parked {
                Some(n) => {
                    self.pending_chunk_decrements.insert(key, n + 1);
                },
                None => {
                    if self.pending_chunk_decrements.len() < PENDING_CHUNK_DECREMENTS_CAP {
                        self.pending_chunk_decrements.insert(key, 1);
                    }
                },
            }
        }
        proof {
            let now = self.cluster_chunk_state@;
            if rows.contains_key(key) {
                assert(row_views(now) =~= row_views(rows).insert(key, now[key]@));
            }
            assert(self@ =~= reference_dropped(st, key));
        }
        tombstoned_now
    }
}

/// Milliseconds since the Unix epoch, from `std::time::SystemTime::now`; none
/// where the clock is set before the epoch. Nothing is known of the reading.
#[verifier::external_body]
fn epoch_millis() -> (r: Option<u128>) {
    std::time::SystemTime::now().duration_since(std::time::UNIX_EPOCH).ok().map(|d| d.as_millis())
}

/// A clock reading in milliseconds: zero before the epoch, and never past the
/// largest 64-bit number.
pub open spec fn reading_ms(reading: Option<u128>) -> u64 {
    match reading {
        Some(ms) => if ms > u64::MAX {
            u64::MAX
        } else {
            ms as u64
        },
        None => 0,
    }
}

/// Brings a clock reading into the range of the apply time.
pub fn clamp_millis(reading: Option<u128>) -> (r: u64)
    ensures
        r == reading_ms(reading),
{
    match reading {
        Some(ms) => if ms > u64::MAX as u128 {
            u64::MAX
        } else {
            ms as u64
        },
        None => 0,
    }
}

/// The current apply time of this node.
pub(crate) fn now_ms() -> (r: u64) {
    clamp_millis(epoch_millis())
}

/// Incorporating an intent gives out at most one sequence number.
pub proof fn lemma_incorporated_counts(
    st: SmView,
    item: ItemView,
    log_index: u64,
    now_ms: u64,
)
    requires
        st.tip < u64::MAX,
        st.delta_count < u64::MAX,
    ensures
        incorporated(st, item, log_index, now_ms).tip == st.tip + (if gate_open(
            st,
            item.seq,
            log_index,
        ) {
            1int
        } else {
            0
        }),
        incorporated(st, item, log_index, now_ms).delta_count == st.delta_count + (if gate_open(
            st,
            item.seq,
            log_index,
        ) {
            1int
        } else {
            0
        }),
{
    if gate_open(st, item.seq, log_index) {
        lemma_incorporated_shape(st, item, log_index, now_ms);
    }
}

/// What incorporating an intent changes, and what it leaves alone.
pub proof fn lemma_incorporated_shape(
    st: SmView,
    item: ItemView,
    log_index: u64,
    now_ms: u64,
)
    requires
        gate_open(st, item.seq, log_index),
    ensures
        ({
            let rows = chunks_created(st, item.draft.tenant, item.new_chunks, log_index);
            let next = incorporated(st, item, log_index, now_ms);
            next == SmView {
                chunks: rows.chunks,
                parked: rows.parked,
                recent: next.recent,
                recent_seqs: next.recent_seqs,
                cutoff: next.cutoff,
                ..delta_appended(st, item.draft, log_index)
            }
        }),
{
    lemma_chunks_created_frame(st, item.draft.tenant, item.new_chunks, log_index);
    lemma_recent_pushed_frame(
        delta_appended(
            chunks_created(st, item.draft.tenant, item.new_chunks, log_index),
            item.draft,
            log_index,
        ),
        log_index,
        item.seq,
        now_ms,
    );
}

/// Creating chunk rows touches nothing but rows and parked references.
pub proof fn lemma_chunks_created_frame(
    st: SmView,
    tenant: OrgId,
    metas: Seq<NewChunkView>,
    log_index: u64,
)
    ensures
        chunks_created(st, tenant, metas, log_index) == (SmView {
            chunks: chunks_created(st, tenant, metas, log_index).chunks,
            parked: chunks_created(st, tenant, metas, log_index).parked,
            ..st
        }),
    decreases metas.len(),
{
    if metas.len() > 0 {
        lemma_chunks_created_frame(st, tenant, metas.drop_last(), log_index);
    }
}

/// Trimming the window touches nothing but the window and the cutoff.
pub proof fn lemma_evicted_frame(st: SmView, now_ms: u64)
    ensures
        evicted(st, now_ms) == (SmView {
            recent: evicted(st, now_ms).recent,
            recent_seqs: evicted(st, now_ms).recent_seqs,
            cutoff: evicted(st, now_ms).cutoff,
            ..st
        }),
    decreases st.recent.len(),
{
    if st.recent.len() > 0 && must_evict(st, now_ms) {
        lemma_evicted_frame(oldest_evicted(st), now_ms);
    }
}

/// Recording an intent touches nothing but the window and the cutoff.
pub proof fn lemma_recent_pushed_frame(
    st: SmView,
    log_index: u64,
    seq: HybridLogicalClock,
    now_ms: u64,
)
    ensures
        recent_pushed(st, log_index, seq, now_ms) == (SmView {
            recent: recent_pushed(st, log_index, seq, now_ms).recent,
            recent_seqs: recent_pushed(st, log_index, seq, now_ms).recent_seqs,
            cutoff: recent_pushed(st, log_index, seq, now_ms).cutoff,
            ..st
        }),
{
    lemma_evicted_frame(
        SmView {
            recent: st.recent.push(
                RecentIncorporatedEntry { log_index, perspective_seq: seq, apply_ms: now_ms },
            ),
            recent_seqs: st.recent_seqs.insert(seq),
            ..st
        },
        now_ms,
    );
}

/// What an entry of the replicated log carries.
pub enum EntryPayload {
    /// Nothing: the entry only commits what came before it.
    Blank,
    /// A command.
    Normal(LogCommand),
    /// A change of the voters.
    Membership,
}

/// The counters of the machine have room for an entry.
pub open spec fn has_room_for_entry(st: SmView, payload: EntryPayload) -> bool {
    payload matches EntryPayload::Normal(cmd) ==> has_room(st, cmd)
}

/// State after an entry.
pub open spec fn entry_applied(
    st: SmView,
    payload: EntryPayload,
    log_index: u64,
    now_ms: u64,
) -> SmView {
    match payload {
        EntryPayload::Normal(cmd) => applied(st, cmd, log_index, now_ms),
        _ => st,
    }
}

/// The response to an entry.
pub open spec fn entry_response(
    st: SmView,
    payload: EntryPayload,
    log_index: u64,
    now_ms: u64,
) -> LogResponse {
    match payload {
        EntryPayload::Normal(cmd) => response(st, cmd, log_index, now_ms),
        _ => LogResponse::Done,
    }
}

/// The machine and how far it has read the replicated log.
pub struct ShardStateMachine {
    /// The machine.
    pub inner: ShardSmInner,
    /// Position of the last entry that was applied.
    pub last_applied: Option<u64>,
    /// Position of the last change of the voters.
    pub last_membership: Option<u64>,
}

impl ShardStateMachine {
    /// A machine that has read nothing.
    pub fn new(inner: ShardSmInner) -> (r: Self)
        ensures
            r.inner == inner,
            r.last_applied is None,
            r.last_membership is None,
    {
        ShardStateMachine { inner, last_applied: None, last_membership: None }
    }

    /// The positions of the last entry and of the last change of the voters.
    pub fn applied_state(&self) -> (r: (Option<u64>, Option<u64>))
        ensures
            r == (self.last_applied, self.last_membership),
    {
        (self.last_applied, self.last_membership)
    }

    /// Whether the counters of the machine have room for an entry.
    pub fn room_for(&self, payload: &EntryPayload) -> (r: bool)
        requires
            self.inner.wf(),
        ensures
            r == has_room_for_entry(self.inner@, *payload),
    {
        match payload {
            EntryPayload::Normal(cmd) => self.inner.room_for(cmd),
            _ => true,
        }
    }

    /// Applies an entry of the log at an apply time.
    pub fn apply(&mut self, payload: &EntryPayload, log_index: u64, now_ms: u64) -> (r: Applied)
        requires
            old(self).inner.wf(),
            has_room_for_entry(old(self).inner@, *payload),
        ensures
            final(self).inner.wf(),
            final(self).inner@ == entry_applied(old(self).inner@, *payload, log_index, now_ms),
            final(self).last_applied == Some(log_index),
            final(self).last_membership == (if *payload is Membership {
                Some(log_index)
            } else {
                old(self).last_membership
            }),
            r.response == entry_response(old(self).inner@, *payload, log_index, now_ms),
            inline_views(r.inline_puts@) == (match *payload {
                EntryPayload::Normal(cmd) => inline_puts(old(self).inner@, cmd, log_index, now_ms),
                _ => Seq::<InlinePutView>::empty(),
            }),
            key_views(r.inline_deletes@) == (match *payload {
                EntryPayload::Normal(cmd) => inline_deletes(old(self).inner@, cmd),
                _ => Seq::<Seq<u8>>::empty(),
            }),
    {
        self.last_applied = Some(log_index);
        match payload {
            EntryPayload::Normal(cmd) => self.inner.apply_command_at(cmd, log_index, now_ms),
            EntryPayload::Blank => nothing_done(),
            EntryPayload::Membership => {
                self.last_membership = Some(log_index);
                nothing_done()
            },
        }
    }
}

/// The outcome of an entry without a command.
fn nothing_done() -> (r: Applied)
    ensures
        r.response == LogResponse::Done,
        inline_views(r.inline_puts@) == Seq::<InlinePutView>::empty(),
        key_views(r.inline_deletes@) == Seq::<Seq<u8>>::empty(),
{
    let r = Applied {
        response: LogResponse::Done,
        inline_puts: Vec::new(),
        inline_deletes: Vec::new(),
    };
    assert(inline_views(r.inline_puts@) =~= Seq::<InlinePutView>::empty());
    assert(key_views(r.inline_deletes@) =~= Seq::<Seq<u8>>::empty());
    r
}

} // verus!
