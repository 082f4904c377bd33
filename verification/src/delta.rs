//! Deltas: a system-visible header and an opaque, tenant-encrypted payload.
//!
//! Routing, ordering and compaction read the header alone; the payload is
//! carried along without being interpreted.

use vstd::prelude::*;

use crate::bytes::copy_bytes;
use crate::ids::{ChunkId, OrgId, SequenceNumber, ShardId};
use crate::time::DeltaTimestamp;
use crate::time::TimestampView;

verus! {

/// What a delta does.
#[derive(Clone, Copy, Debug, PartialEq, Eq, Hash, Structural)]
pub enum OperationType {
    /// Create a new composition or entry.
    Create,
    /// Update an existing composition.
    Update,
    /// Delete a composition or entry: the delta is a tombstone.
    Delete,
    /// Rename within the shard.
    Rename,
    /// Set attributes.
    SetAttribute,
    /// Finalize a multipart upload.
    Finalize,
    /// Create a namespace.
    NamespaceCreate,
    /// Record new chunk locations.
    MigrateChunkLocations,
}

/// The code of an operation in commands and snapshots.
pub open spec fn op_code(op: OperationType) -> u8 {
    match op {
        OperationType::Create => 0,
        OperationType::Update => 1,
        OperationType::Delete => 2,
        OperationType::Rename => 3,
        OperationType::SetAttribute => 4,
        OperationType::Finalize => 5,
        OperationType::NamespaceCreate => 6,
        OperationType::MigrateChunkLocations => 7,
    }
}

/// The operation of a code; a code past the last one reads as the last one.
pub open spec fn op_of_code(v: u8) -> OperationType {
    if v == 0 {
        OperationType::Create
    } else if v == 1 {
        OperationType::Update
    } else if v == 2 {
        OperationType::Delete
    } else if v == 3 {
        OperationType::Rename
    } else if v == 4 {
        OperationType::SetAttribute
    } else if v == 5 {
        OperationType::Finalize
    } else if v == 6 {
        OperationType::NamespaceCreate
    } else {
        OperationType::MigrateChunkLocations
    }
}

/// Writes an operation as its code.
pub fn op_to_u8(op: OperationType) -> (r: u8)
    ensures
        r == op_code(op),
{
    match op {
        OperationType::Create => 0,
        OperationType::Update => 1,
        OperationType::Delete => 2,
        OperationType::Rename => 3,
        OperationType::SetAttribute => 4,
        OperationType::Finalize => 5,
        OperationType::NamespaceCreate => 6,
        OperationType::MigrateChunkLocations => 7,
    }
}

/// Reads an operation from its code.
pub fn u8_to_op(v: u8) -> (r: OperationType)
    ensures
        r == op_of_code(v),
{
    match v {
        0 => OperationType::Create,
        1 => OperationType::Update,
        2 => OperationType::Delete,
        3 => OperationType::Rename,
        4 => OperationType::SetAttribute,
        5 => OperationType::Finalize,
        6 => OperationType::NamespaceCreate,
        _ => OperationType::MigrateChunkLocations,
    }
}

/// The code of an operation where codes end with that of `Finalize`: the two
/// operations past it share its code.
pub open spec fn short_code(op: OperationType) -> u8 {
    if op_code(op) < 5 {
        op_code(op)
    } else {
        5
    }
}

/// Which of the two operations past `Finalize` an operation is; zero for any other.
pub open spec fn past_code(op: OperationType) -> u8 {
    match op {
        OperationType::NamespaceCreate => 1,
        OperationType::MigrateChunkLocations => 2,
        _ => 0,
    }
}

/// The operation of a short code. From five up it is `Finalize`, unless it is marked
/// as one of the two past it.
pub open spec fn op_of_short(code: u8, past: u8) -> OperationType {
    if code < 5 {
        op_of_code(code)
    } else if past == 1 {
        OperationType::NamespaceCreate
    } else if past == 2 {
        OperationType::MigrateChunkLocations
    } else {
        OperationType::Finalize
    }
}

/// The short code of an operation, with its mark.
pub fn shorten_op(op: OperationType) -> (r: (u8, u8))
    ensures
        r == (short_code(op), past_code(op)),
{
    match op {
        OperationType::NamespaceCreate => (5, 1),
        OperationType::MigrateChunkLocations => (5, 2),
        _ => (op_to_u8(op), 0),
    }
}

/// Reads a short code with its mark.
pub fn read_short_op(code: u8, past: u8) -> (r: OperationType)
    ensures
        r == op_of_short(code, past),
{
    if code < 5 {
        u8_to_op(code)
    } else if past == 1 {
        OperationType::NamespaceCreate
    } else if past == 2 {
        OperationType::MigrateChunkLocations
    } else {
        OperationType::Finalize
    }
}

/// Law: an operation survives being written as a short code with its mark.
pub proof fn short_code_round_trip(op: OperationType)
    ensures
        op_of_short(short_code(op), past_code(op)) == op,
        short_code(op) == 2 <==> op == OperationType::Delete,
{
}

/// Law: an operation survives being written as a code and read back, and only
/// the deletion has the tombstone code.
pub proof fn op_code_round_trip(op: OperationType)
    ensures
        op_of_code(op_code(op)) == op,
        op_code(op) == 2 <==> op == OperationType::Delete,
{
}

/// System-visible part of a delta.
#[derive(Debug, PartialEq, Eq)]
pub struct DeltaHeader {
    /// Position in the shard: monotonic and gap-free as deltas are committed.
    pub sequence: SequenceNumber,
    /// The shard.
    pub shard_id: ShardId,
    /// The tenant.
    pub tenant_id: OrgId,
    /// What the delta does.
    pub operation: OperationType,
    /// Dual-clock timestamp.
    pub timestamp: DeltaTimestamp,
    /// Hash of parent directory and name; routes the delta to a shard.
    pub hashed_key: [u8; 32],
    /// Whether the delta is a tombstone.
    pub tombstone: bool,
    /// Chunks that hold the data, where it is not inline.
    pub chunk_refs: Vec<ChunkId>,
    /// Size of the encrypted payload in bytes.
    pub payload_size: u32,
    /// Whether the payload holds inline data.
    pub has_inline_data: bool,
}

/// Tenant-encrypted part of a delta; opaque to the log.
#[derive(Debug, PartialEq, Eq)]
pub struct DeltaPayload {
    /// Encrypted bytes.
    pub ciphertext: Vec<u8>,
    /// AEAD authentication tag.
    pub auth_tag: Vec<u8>,
    /// AEAD nonce.
    pub nonce: Vec<u8>,
    /// System key epoch.
    pub system_epoch: Option<u64>,
    /// Tenant key epoch.
    pub tenant_epoch: Option<u64>,
    /// Wrapped derivation material.
    pub tenant_wrapped_material: Vec<u8>,
}

/// A delta; immutable once committed.
#[derive(Debug, PartialEq, Eq)]
pub struct Delta {
    /// System-visible header.
    pub header: DeltaHeader,
    /// Opaque payload.
    pub payload: DeltaPayload,
}

/// What a [`DeltaHeader`] holds.
#[verifier::ext_equal]
pub struct HeaderView {
    pub sequence: u64,
    pub shard_id: ShardId,
    pub tenant_id: OrgId,
    pub operation: OperationType,
    pub timestamp: TimestampView,
    pub hashed_key: [u8; 32],
    pub tombstone: bool,
    pub chunk_refs: Seq<ChunkId>,
    pub payload_size: u32,
    pub has_inline_data: bool,
}

/// What a [`DeltaPayload`] holds.
#[verifier::ext_equal]
pub struct PayloadView {
    pub ciphertext: Seq<u8>,
    pub auth_tag: Seq<u8>,
    pub nonce: Seq<u8>,
    pub system_epoch: Option<u64>,
    pub tenant_epoch: Option<u64>,
    pub tenant_wrapped_material: Seq<u8>,
}

/// What a [`Delta`] holds.
#[verifier::ext_equal]
pub struct DeltaView {
    pub header: HeaderView,
    pub payload: PayloadView,
}

impl View for DeltaHeader {
    type V = HeaderView;

    open spec fn view(&self) -> HeaderView {
        HeaderView {
            sequence: self.sequence.0,
            shard_id: self.shard_id,
            tenant_id: self.tenant_id,
            operation: self.operation,
            timestamp: self.timestamp@,
            hashed_key: self.hashed_key,
            tombstone: self.tombstone,
            chunk_refs: self.chunk_refs@,
            payload_size: self.payload_size,
            has_inline_data: self.has_inline_data,
        }
    }
}

impl View for DeltaPayload {
    type V = PayloadView;

    open spec fn view(&self) -> PayloadView {
        PayloadView {
            ciphertext: self.ciphertext@,
            auth_tag: self.auth_tag@,
            nonce: self.nonce@,
            system_epoch: self.system_epoch,
            tenant_epoch: self.tenant_epoch,
            tenant_wrapped_material: self.tenant_wrapped_material@,
        }
    }
}

impl View for Delta {
    type V = DeltaView;

    open spec fn view(&self) -> DeltaView {
        DeltaView { header: self.header@, payload: self.payload@ }
    }
}

/// What a sequence of deltas holds.
pub open spec fn delta_views(s: Seq<Delta>) -> Seq<DeltaView> {
    Seq::new(s.len(), |i: int| s[i]@)
}

/// A payload of bare bytes: no AEAD metadata.
pub open spec fn bare_payload(bytes: Seq<u8>) -> PayloadView {
    PayloadView {
        ciphertext: bytes,
        auth_tag: Seq::empty(),
        nonce: Seq::empty(),
        system_epoch: None,
        tenant_epoch: None,
        tenant_wrapped_material: Seq::empty(),
    }
}

impl DeltaPayload {
    /// A payload of bare bytes.
    pub fn bare(bytes: Vec<u8>) -> (r: Self)
        ensures
            r@ == bare_payload(bytes@),
    {
        DeltaPayload {
            ciphertext: bytes,
            auth_tag: Vec::new(),
            nonce: Vec::new(),
            system_epoch: None,
            tenant_epoch: None,
            tenant_wrapped_material: Vec::new(),
        }
    }
}

/// A copy of a list of chunk identifiers.
pub fn copy_chunk_ids(s: &[ChunkId]) -> (r: Vec<ChunkId>)
    ensures
        r@ == s@,
{
    let mut out: Vec<ChunkId> = Vec::new();
    let mut i: usize = 0;
    while i < s.len()
        invariant
            i <= s@.len(),
            out@ == s@.take(i as int),
        decreases s@.len() - i,
    {
        out.push(s[i]);
        i = i + 1;
        assert(out@ =~= s@.take(i as int));
    }
    assert(out@ =~= s@);
    out
}

impl Clone for DeltaHeader {
    fn clone(&self) -> (r: Self)
        ensures
            r@ == self@,
    {
        DeltaHeader {
            sequence: self.sequence,
            shard_id: self.shard_id,
            tenant_id: self.tenant_id,
            operation: self.operation,
            timestamp: self.timestamp.clone(),
            hashed_key: self.hashed_key,
            tombstone: self.tombstone,
            chunk_refs: copy_chunk_ids(&self.chunk_refs),
            payload_size: self.payload_size,
            has_inline_data: self.has_inline_data,
        }
    }
}

impl Clone for DeltaPayload {
    fn clone(&self) -> (r: Self)
        ensures
            r@ == self@,
    {
        DeltaPayload {
            ciphertext: copy_bytes(&self.ciphertext),
            auth_tag: copy_bytes(&self.auth_tag),
            nonce: copy_bytes(&self.nonce),
            system_epoch: self.system_epoch,
            tenant_epoch: self.tenant_epoch,
            tenant_wrapped_material: copy_bytes(&self.tenant_wrapped_material),
        }
    }
}

impl Clone for Delta {
    fn clone(&self) -> (r: Self)
        ensures
            r@ == self@,
    {
        Delta { header: self.header.clone(), payload: self.payload.clone() }
    }
}

} // verus!
