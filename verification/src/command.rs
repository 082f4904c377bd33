//! Commands of a shard's replicated log.

use vstd::prelude::*;

use crate::bytes::be_value;
use crate::bytes::copy_bytes;
use crate::ids::{ChunkId, OrgId};
use crate::text::{decimal, flag_string, join3};
use crate::text::{decimal_text, flag_text};
use crate::time::{DeltaTimestamp, HybridLogicalClock, TimestampView};

verus! {

/// Metadata of a chunk that a command introduces.
#[derive(Debug, PartialEq, Eq)]
pub struct NewChunkMeta {
    /// The chunk.
    pub chunk_id: [u8; 32],
    /// Nodes that hold its fragments.
    pub placement: Vec<u64>,
    /// Length of the ciphertext before it was encoded.
    pub original_len: u64,
}

/// Inline bytes of a small file, stored under the chunk's identifier.
#[derive(Debug, PartialEq, Eq)]
pub struct InlinePayload {
    /// The chunk.
    pub chunk_id: [u8; 32],
    /// Its bytes.
    pub payload: Vec<u8>,
}

/// One intent of a batch to be incorporated.
#[derive(Debug, PartialEq, Eq)]
pub struct IncorporateItem {
    /// The tenant's UUID.
    pub tenant_id_bytes: [u8; 16],
    /// Operation code.
    pub operation: u8,
    /// Routing key.
    pub hashed_key: [u8; 32],
    /// Chunks referred to.
    pub chunk_refs: Vec<[u8; 32]>,
    /// Encrypted payload.
    pub payload: Vec<u8>,
    /// Whether the payload holds inline data.
    pub has_inline_data: bool,
    /// Chunks introduced.
    pub new_chunks: Vec<NewChunkMeta>,
    /// The clock reading that identifies the intent.
    pub perspective_seq: HybridLogicalClock,
    /// Inline bytes to store under their chunk identifiers.
    pub inline_payloads: Vec<InlinePayload>,
}

/// Commands applied to a shard's state machine through the replicated log.
#[derive(Debug, PartialEq, Eq)]
pub enum LogCommand {
    /// Append a delta.
    AppendDelta {
        tenant_id_bytes: [u8; 16],
        operation: u8,
        hashed_key: [u8; 32],
        chunk_refs: Vec<[u8; 32]>,
        payload: Vec<u8>,
        has_inline_data: bool,
    },
    /// Append a delta that another shard held, with its timestamp.
    MoveDelta {
        tenant_id_bytes: [u8; 16],
        operation: u8,
        hashed_key: [u8; 32],
        chunk_refs: Vec<[u8; 32]>,
        payload: Vec<u8>,
        has_inline_data: bool,
        timestamp: DeltaTimestamp,
    },
    /// Create chunk rows, then append a delta, in one step.
    ChunkAndDelta {
        tenant_id_bytes: [u8; 16],
        operation: u8,
        hashed_key: [u8; 32],
        chunk_refs: Vec<[u8; 32]>,
        payload: Vec<u8>,
        has_inline_data: bool,
        new_chunks: Vec<NewChunkMeta>,
        inline_payloads: Vec<InlinePayload>,
    },
    /// Incorporate one asynchronously committed intent.
    IncorporateIntent {
        tenant_id_bytes: [u8; 16],
        operation: u8,
        hashed_key: [u8; 32],
        chunk_refs: Vec<[u8; 32]>,
        payload: Vec<u8>,
        has_inline_data: bool,
        new_chunks: Vec<NewChunkMeta>,
        perspective_seq: HybridLogicalClock,
        inline_payloads: Vec<InlinePayload>,
    },
    /// Incorporate a batch of intents.
    IncorporateIntents { items: Vec<IncorporateItem> },
    /// Add a reference to a chunk.
    IncrementChunkRefcount { tenant_id_bytes: [u8; 16], chunk_id: [u8; 32] },
    /// Drop a reference to a chunk.
    DecrementChunkRefcount { tenant_id_bytes: [u8; 16], chunk_id: [u8; 32] },
    /// Set or clear maintenance mode.
    SetMaintenance { enabled: bool },
    /// Advance a consumer watermark.
    AdvanceWatermark { consumer: String, position: u64 },
    /// Set the lifecycle state, by its code.
    SetShardState { state: u8 },
    /// Set the key range.
    UpdateShardRange { range_start: [u8; 32], range_end: [u8; 32] },
    /// Set the thresholds.
    SetShardConfig {
        max_delta_count: u64,
        max_byte_size: u64,
        inline_threshold_bytes: u64,
        inline_floor_bytes: u64,
        inline_ceiling_bytes: u64,
    },
}

/// The text of a command in logs: its name, with what tells it apart.
pub open spec fn command_text(cmd: LogCommand) -> Seq<char> {
    match cmd {
        LogCommand::AppendDelta { operation, .. } => "AppendDelta(op="@ + decimal_text(
            operation as nat,
        ) + ")"@,
        LogCommand::MoveDelta { operation, .. } => "MoveDelta(op="@ + decimal_text(
            operation as nat,
        ) + ")"@,
        LogCommand::ChunkAndDelta { operation, .. } => "ChunkAndDelta(op="@ + decimal_text(
            operation as nat,
        ) + ")"@,
        LogCommand::IncorporateIntent { operation, .. } => "IncorporateIntent(op="@ + decimal_text(
            operation as nat,
        ) + ")"@,
        LogCommand::IncorporateIntents { items } => "IncorporateIntents("@ + decimal_text(
            items@.len(),
        ) + ")"@,
        LogCommand::IncrementChunkRefcount { .. } => "IncrementChunkRefcount"@,
        LogCommand::DecrementChunkRefcount { .. } => "DecrementChunkRefcount"@,
        LogCommand::SetMaintenance { enabled } => "SetMaintenance("@ + flag_text(enabled) + ")"@,
        LogCommand::AdvanceWatermark { consumer, position } => "AdvanceWatermark("@ + (consumer@
            + "="@ + decimal_text(position as nat)) + ")"@,
        LogCommand::SetShardState { state } => "SetShardState("@ + decimal_text(state as nat) + ")"@,
        LogCommand::UpdateShardRange { .. } => "UpdateShardRange"@,
        LogCommand::SetShardConfig { .. } => "SetShardConfig"@,
    }
}

impl LogCommand {
    /// The text of the command in logs.
    pub fn message(&self) -> (r: String)
        ensures
            r@ == command_text(*self),
    {
        match self {
            LogCommand::AppendDelta { operation, .. } => join3(
                "AppendDelta(op=",
                decimal(*operation as u64).as_str(),
                ")",
            ),
            LogCommand::MoveDelta { operation, .. } => join3(
                "MoveDelta(op=",
                decimal(*operation as u64).as_str(),
                ")",
            ),
            LogCommand::ChunkAndDelta { operation, .. } => join3(
                "ChunkAndDelta(op=",
                decimal(*operation as u64).as_str(),
                ")",
            ),
            LogCommand::IncorporateIntent { operation, .. } => join3(
                "IncorporateIntent(op=",
                decimal(*operation as u64).as_str(),
                ")",
            ),
            LogCommand::IncorporateIntents { items } => join3(
                "IncorporateIntents(",
                decimal(items.len() as u64).as_str(),
                ")",
            ),
            LogCommand::IncrementChunkRefcount { .. } => "IncrementChunkRefcount".to_owned(),
            LogCommand::DecrementChunkRefcount { .. } => "DecrementChunkRefcount".to_owned(),
            LogCommand::SetMaintenance { enabled } => join3(
                "SetMaintenance(",
                flag_string(*enabled).as_str(),
                ")",
            ),
            LogCommand::AdvanceWatermark { consumer, position } => join3(
                "AdvanceWatermark(",
                join3(consumer.as_str(), "=", decimal(*position).as_str()).as_str(),
                ")",
            ),
            LogCommand::SetShardState { state } => join3(
                "SetShardState(",
                decimal(*state as u64).as_str(),
                ")",
            ),
            LogCommand::UpdateShardRange { .. } => "UpdateShardRange".to_owned(),
            LogCommand::SetShardConfig { .. } => "SetShardConfig".to_owned(),
        }
    }
}

/// What a [`NewChunkMeta`] holds.
#[verifier::ext_equal]
pub struct NewChunkView {
    pub chunk: ChunkId,
    pub placement: Seq<u64>,
    pub original_len: u64,
}

/// What an [`InlinePayload`] holds: bytes to be stored under a key.
#[verifier::ext_equal]
pub struct InlinePutView {
    pub key: Seq<u8>,
    pub payload: Seq<u8>,
}

/// What a command says of the delta to append.
#[verifier::ext_equal]
pub struct DraftView {
    pub tenant: OrgId,
    pub operation: u8,
    pub hashed_key: [u8; 32],
    pub chunk_refs: Seq<ChunkId>,
    pub payload: Seq<u8>,
    pub has_inline_data: bool,
    /// The timestamp that the delta keeps; without one it gets that of its command.
    pub timestamp: Option<TimestampView>,
}

/// What an [`IncorporateItem`] holds.
#[verifier::ext_equal]
pub struct ItemView {
    pub draft: DraftView,
    pub new_chunks: Seq<NewChunkView>,
    pub seq: HybridLogicalClock,
    pub inline_payloads: Seq<InlinePutView>,
}

/// The tenant whose UUID has the given bytes.
pub open spec fn tenant_of(bytes: [u8; 16]) -> OrgId {
    OrgId(be_value(bytes@) as u128)
}

/// Chunk identifiers of raw keys.
pub open spec fn chunk_ids(s: Seq<[u8; 32]>) -> Seq<ChunkId> {
    Seq::new(s.len(), |i: int| ChunkId(s[i]))
}

impl View for NewChunkMeta {
    type V = NewChunkView;

    open spec fn view(&self) -> NewChunkView {
        NewChunkView {
            chunk: ChunkId(self.chunk_id),
            placement: self.placement@,
            original_len: self.original_len,
        }
    }
}

impl View for InlinePayload {
    type V = InlinePutView;

    open spec fn view(&self) -> InlinePutView {
        InlinePutView { key: self.chunk_id@, payload: self.payload@ }
    }
}

/// What a list of chunk metadata holds.
pub open spec fn new_chunk_views(s: Seq<NewChunkMeta>) -> Seq<NewChunkView> {
    Seq::new(s.len(), |i: int| s[i]@)
}

/// What a list of inline payloads holds.
pub open spec fn inline_views(s: Seq<InlinePayload>) -> Seq<InlinePutView> {
    Seq::new(s.len(), |i: int| s[i]@)
}

impl View for IncorporateItem {
    type V = ItemView;

    open spec fn view(&self) -> ItemView {
        ItemView {
            draft: DraftView {
                tenant: tenant_of(self.tenant_id_bytes),
                operation: self.operation,
                hashed_key: self.hashed_key,
                chunk_refs: chunk_ids(self.chunk_refs@),
                payload: self.payload@,
                has_inline_data: self.has_inline_data,
                timestamp: None,
            },
            new_chunks: new_chunk_views(self.new_chunks@),
            seq: self.perspective_seq,
            inline_payloads: inline_views(self.inline_payloads@),
        }
    }
}

/// What a batch of items holds.
pub open spec fn item_views(s: Seq<IncorporateItem>) -> Seq<ItemView> {
    Seq::new(s.len(), |i: int| s[i]@)
}

/// A copy of a list of node numbers.
pub fn copy_u64s(s: &[u64]) -> (r: Vec<u64>)
    ensures
        r@ == s@,
{
    let mut out: Vec<u64> = Vec::new();
    let mut i: usize = 0;
    while i < s.len()
        invariant
            i <= s@.len(),
            out@ == s@.take(i as int),
        decreases s@.len() - i,
    {
        out.push(s[i]);
        i = i + 1;
        assert(out@ =~= s@.take(i as int));
    }
    assert(out@ =~= s@);
    out
}

/// A copy of a list of raw keys.
pub fn copy_keys(s: &[[u8; 32]]) -> (r: Vec<[u8; 32]>)
    ensures
        r@ == s@,
{
    let mut out: Vec<[u8; 32]> = Vec::new();
    let mut i: usize = 0;
    while i < s.len()
        invariant
            i <= s@.len(),
            out@ == s@.take(i as int),
        decreases s@.len() - i,
    {
        out.push(s[i]);
        i = i + 1;
        assert(out@ =~= s@.take(i as int));
    }
    assert(out@ =~= s@);
    out
}

/// Reads raw keys as chunk identifiers.
pub fn to_chunk_ids(s: &[[u8; 32]]) -> (r: Vec<ChunkId>)
    ensures
        r@ == chunk_ids(s@),
{
    let mut out: Vec<ChunkId> = Vec::new();
    let mut i: usize = 0;
    while i < s.len()
        invariant
            i <= s@.len(),
            out@ == chunk_ids(s@.take(i as int)),
        decreases s@.len() - i,
    {
        out.push(ChunkId(s[i]));
        i = i + 1;
        assert(out@ =~= chunk_ids(s@.take(i as int)));
    }
    assert(s@.take(i as int) =~= s@);
    out
}

/// Writes chunk identifiers as raw keys.
pub fn to_raw_keys(s: &[ChunkId]) -> (r: Vec<[u8; 32]>)
    ensures
        chunk_ids(r@) == s@,
{
    let mut out: Vec<[u8; 32]> = Vec::new();
    let mut i: usize = 0;
    while i < s.len()
        invariant
            i <= s@.len(),
            chunk_ids(out@) == s@.take(i as int),
        decreases s@.len() - i,
    {
        let ghost before = out@;
        out.push(s[i].0);
        assert(chunk_ids(out@) =~= chunk_ids(before).push(ChunkId(s@[i as int].0)));
        assert(s@.take(i + 1) =~= s@.take(i as int).push(s@[i as int]));
        i = i + 1;
    }
    assert(s@.take(i as int) =~= s@);
    out
}

impl Clone for NewChunkMeta {
    fn clone(&self) -> (r: Self)
        ensures
            r@ == self@,
    {
        NewChunkMeta {
            chunk_id: self.chunk_id,
            placement: copy_u64s(&self.placement),
            original_len: self.original_len,
        }
    }
}

impl Clone for InlinePayload {
    fn clone(&self) -> (r: Self)
        ensures
            r@ == self@,
    {
        InlinePayload { chunk_id: self.chunk_id, payload: copy_bytes(&self.payload) }
    }
}

/// A copy of a list of chunk metadata.
pub fn copy_new_chunks(s: &[NewChunkMeta]) -> (r: Vec<NewChunkMeta>)
    ensures
        new_chunk_views(r@) == new_chunk_views(s@),
{
    let mut out: Vec<NewChunkMeta> = Vec::new();
    let mut i: usize = 0;
    while i < s.len()
        invariant
            i <= s@.len(),
            out@.len() == i,
            forall|j: int| 0 <= j < i ==> (#[trigger] out@[j])@ == s@[j]@,
        decreases s@.len() - i,
    {
        out.push(s[i].clone());
        i = i + 1;
    }
    assert(new_chunk_views(out@) =~= new_chunk_views(s@));
    out
}

/// Adds copies of inline payloads to a batch.
pub fn extend_inline(batch: &mut Vec<InlinePayload>, s: &[InlinePayload])
    ensures
        inline_views(final(batch)@) == inline_views(old(batch)@) + inline_views(s@),
{
    let ghost before = inline_views(batch@);
    let mut i: usize = 0;
    assert(s@.take(0) =~= Seq::<InlinePayload>::empty());
    assert(before + inline_views(s@.take(0)) =~= before);
    while i < s.len()
        invariant
            i <= s@.len(),
            inline_views(batch@) == before + inline_views(s@.take(i as int)),
        decreases s@.len() - i,
    {
        let ghost pre = batch@;
        batch.push(s[i].clone());
        assert(inline_views(batch@) =~= inline_views(pre).push(s@[i as int]@));
        assert(inline_views(s@.take(i + 1)) =~= inline_views(s@.take(i as int)).push(
            s@[i as int]@,
        ));
        i = i + 1;
        assert(inline_views(batch@) =~= before + inline_views(s@.take(i as int)));
    }
    assert(s@.take(i as int) =~= s@);
}

/// A copy of a list of inline payloads.
pub fn copy_inline(s: &[InlinePayload]) -> (r: Vec<InlinePayload>)
    ensures
        inline_views(r@) == inline_views(s@),
{
    let mut out: Vec<InlinePayload> = Vec::new();
    extend_inline(&mut out, s);
    assert(inline_views(out@) =~= inline_views(s@));
    out
}

impl Clone for IncorporateItem {
    fn clone(&self) -> (r: Self)
        ensures
            r@ == self@,
    {
        IncorporateItem {
            tenant_id_bytes: self.tenant_id_bytes,
            operation: self.operation,
            hashed_key: self.hashed_key,
            chunk_refs: copy_keys(&self.chunk_refs),
            payload: copy_bytes(&self.payload),
            has_inline_data: self.has_inline_data,
            new_chunks: copy_new_chunks(&self.new_chunks),
            perspective_seq: self.perspective_seq,
            inline_payloads: copy_inline(&self.inline_payloads),
        }
    }
}

} // verus!
