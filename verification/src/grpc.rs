//! The remote interface of the log: reading requests, mapping errors to status
//! codes, and shaping answers.
//!
//! Messages are plain structs here, field for field those of the wire protocol.

use vstd::prelude::*;

use crate::bytes::copy_bytes;
use crate::delta::{Delta, OperationType};
use crate::delta::{delta_views, DeltaView};
use crate::error::LogError;
use crate::error::log_error_text;
use crate::ids::{uuid_parse, uuid_to_string, ChunkId, NodeId, OrgId, SequenceNumber, ShardId};
use crate::ids::{uuid_parsed, uuid_text};
use crate::shard::{ShardInfo, ShardState};
use crate::shard::ShardInfoView;
use crate::text::{decimal, join2, join3};
use crate::text::decimal_text;
use crate::time::{ClockQuality, DeltaTimestamp, HybridLogicalClock, WallTime};
use crate::time::TimestampView;
use crate::traits::{
    append_refusal, numbered, payload_cost, shard_appended, shard_has_room, shard_maintained,
    AppendView,
};
use crate::traits::{AppendDeltaRequest, LogOps, ReadDeltasRequest};

verus! {

/// Kinds of failures.
#[derive(Clone, Copy, Debug, PartialEq, Eq, Structural)]
pub enum StatusCode {
    NotFound,
    FailedPrecondition,
    Unavailable,
    OutOfRange,
    InvalidArgument,
    Internal,
}

/// A failure, as the caller sees it.
#[derive(Debug, PartialEq, Eq)]
pub struct Status {
    pub code: StatusCode,
    pub message: String,
}

/// What a [`Status`] holds.
#[verifier::ext_equal]
pub struct StatusView {
    pub code: StatusCode,
    pub message: Seq<char>,
}

impl View for Status {
    type V = StatusView;

    open spec fn view(&self) -> StatusView {
        StatusView { code: self.code, message: self.message@ }
    }
}

/// The status code of an error.
pub open spec fn status_code(e: LogError) -> StatusCode {
    match e {
        LogError::ShardNotFound(_) => StatusCode::NotFound,
        LogError::MaintenanceMode(_) => StatusCode::FailedPrecondition,
        LogError::ShardSplitting(_) => StatusCode::Unavailable,
        LogError::LeaderUnavailable(_) => StatusCode::Unavailable,
        LogError::ForwardToLeader { .. } => StatusCode::Unavailable,
        LogError::QuorumLost(_) => StatusCode::Unavailable,
        LogError::ShardBusy { .. } => StatusCode::Unavailable,
        LogError::Unavailable => StatusCode::Unavailable,
        LogError::KeyOutOfRange(_) => StatusCode::OutOfRange,
        LogError::InvalidRange(_) => StatusCode::InvalidArgument,
        LogError::DeltaLogPruned { .. } => StatusCode::FailedPrecondition,
        LogError::StoreConstruction(_) => StatusCode::Internal,
        LogError::Io(_) => StatusCode::Internal,
    }
}

/// The status of an error.
pub open spec fn status_of(e: LogError) -> StatusView {
    StatusView { code: status_code(e), message: log_error_text(e) }
}

/// Maps an error to its status.
pub fn to_status(e: &LogError) -> (r: Status)
    ensures
        r@ == status_of(*e),
{
    let code = match e {
        LogError::ShardNotFound(_) => StatusCode::NotFound,
        LogError::MaintenanceMode(_) => StatusCode::FailedPrecondition,
        LogError::ShardSplitting(_)
        | LogError::LeaderUnavailable(_)
        | LogError::ForwardToLeader { .. }
        | LogError::QuorumLost(_)
        | LogError::ShardBusy { .. }
        | LogError::Unavailable => StatusCode::Unavailable,
        LogError::KeyOutOfRange(_) => StatusCode::OutOfRange,
        LogError::InvalidRange(_) => StatusCode::InvalidArgument,
        LogError::DeltaLogPruned { .. } => StatusCode::FailedPrecondition,
        LogError::StoreConstruction(_) | LogError::Io(_) => StatusCode::Internal,
    };
    Status { code, message: e.message() }
}

/// The status of a request that cannot be read.
pub open spec fn bad_request(message: Seq<char>) -> StatusView {
    StatusView { code: StatusCode::InvalidArgument, message }
}

fn invalid(message: String) -> (r: Status)
    ensures
        r@ == bad_request(message@),
{
    Status { code: StatusCode::InvalidArgument, message }
}

/// The decimal text of a signed number.
pub open spec fn signed_text(n: int) -> Seq<char> {
    if n < 0 {
        "-"@ + decimal_text((-n) as nat)
    } else {
        decimal_text(n as nat)
    }
}

fn signed(n: i32) -> (r: String)
    ensures
        r@ == signed_text(n as int),
{
    let wide: i64 = n as i64;
    if wide < 0 {
        let digits = decimal((-wide) as u64);
        join2("-", digits.as_str())
    } else {
        decimal(wide as u64)
    }
}

/// The operation of a wire code; the operations that are not asked for remotely
/// have none.
pub open spec fn wire_op(op: i32) -> Option<OperationType> {
    if op == 1 {
        Some(OperationType::Create)
    } else if op == 2 {
        Some(OperationType::Update)
    } else if op == 3 {
        Some(OperationType::Delete)
    } else if op == 4 {
        Some(OperationType::Rename)
    } else if op == 5 {
        Some(OperationType::SetAttribute)
    } else if op == 6 {
        Some(OperationType::Finalize)
    } else {
        None
    }
}

/// Reads an operation.
pub fn proto_op_to_domain(op: i32) -> (r: Result<OperationType, Status>)
    ensures
        match wire_op(op) {
            Some(o) => r == Ok::<OperationType, Status>(o),
            None => r is Err && r->Err_0@ == bad_request(
                "unknown operation type: "@ + signed_text(op as int),
            ),
        },
{
    match op {
        1 => Ok(OperationType::Create),
        2 => Ok(OperationType::Update),
        3 => Ok(OperationType::Delete),
        4 => Ok(OperationType::Rename),
        5 => Ok(OperationType::SetAttribute),
        6 => Ok(OperationType::Finalize),
        _ => {
            let digits = signed(op);
            Err(invalid(join2("unknown operation type: ", digits.as_str())))
        },
    }
}

/// The wire code of an operation.
pub open spec fn wire_op_code(op: OperationType) -> i32 {
    match op {
        OperationType::Create => 1,
        OperationType::Update => 2,
        OperationType::Delete => 3,
        OperationType::Rename => 4,
        OperationType::SetAttribute => 5,
        OperationType::Finalize => 6,
        OperationType::NamespaceCreate => 7,
        OperationType::MigrateChunkLocations => 8,
    }
}

/// Writes an operation.
pub fn domain_op_to_proto(op: OperationType) -> (r: i32)
    ensures
        r == wire_op_code(op),
{
    match op {
        OperationType::Create => 1,
        OperationType::Update => 2,
        OperationType::Delete => 3,
        OperationType::Rename => 4,
        OperationType::SetAttribute => 5,
        OperationType::Finalize => 6,
        OperationType::NamespaceCreate => 7,
        OperationType::MigrateChunkLocations => 8,
    }
}

/// The wire code of a lifecycle state.
pub open spec fn wire_state_code(state: ShardState) -> i32 {
    match state {
        ShardState::Healthy => 1,
        ShardState::Election => 2,
        ShardState::QuorumLost => 3,
        ShardState::Splitting => 4,
        ShardState::Maintenance => 5,
        ShardState::Merging => 6,
        ShardState::Retiring => 7,
    }
}

/// Writes a lifecycle state.
pub fn proto_shard_state(state: ShardState) -> (r: i32)
    ensures
        r == wire_state_code(state),
{
    match state {
        ShardState::Healthy => 1,
        ShardState::Election => 2,
        ShardState::QuorumLost => 3,
        ShardState::Splitting => 4,
        ShardState::Maintenance => 5,
        ShardState::Merging => 6,
        ShardState::Retiring => 7,
    }
}

/// The text of a field, where it is set.
pub open spec fn field_text(v: Option<String>) -> Option<Seq<char>> {
    match v {
        Some(s) => Some(s@),
        None => None,
    }
}

/// Reads the identifier in a field: it has to be set, and a UUID.
pub open spec fn identifier(v: Option<Seq<char>>, field: Seq<char>) -> Result<u128, StatusView> {
    match v {
        None => Err(bad_request(field + " required"@)),
        Some(s) => match uuid_parsed(s) {
            Ok(x) => Ok(x),
            Err(m) => Err(bad_request("invalid "@ + field + ": "@ + m)),
        },
    }
}

/// What the outcome of reading a field holds.
pub open spec fn outcome_view<T>(r: Result<T, Status>) -> Result<T, StatusView> {
    match r {
        Ok(x) => Ok(x),
        Err(s) => Err(s@),
    }
}

fn read_identifier(v: &Option<String>, field: &str) -> (r: Result<u128, Status>)
    ensures
        outcome_view(r) == identifier(field_text(*v), field@),
{
    match v {
        None => Err(invalid(join2(field, " required"))),
        Some(s) => match uuid_parse(s.as_str()) {
            Ok(x) => Ok(x),
            Err(m) => {
                let head = join3("invalid ", field, ": ");
                Err(invalid(join2(head.as_str(), m.as_str())))
            },
        },
    }
}

/// Reads a shard identifier.
pub fn extract_shard_id(v: &Option<String>) -> (r: Result<ShardId, Status>)
    ensures
        match identifier(field_text(*v), "shard_id"@) {
            Ok(x) => r == Ok::<ShardId, Status>(ShardId(x)),
            Err(s) => r is Err && r->Err_0@ == s,
        },
{
    match read_identifier(v, "shard_id") {
        Ok(x) => Ok(ShardId(x)),
        Err(s) => Err(s),
    }
}

/// A clock reading on the wire.
#[derive(Clone, Copy, Debug, PartialEq, Eq, Structural)]
pub struct HlcMessage {
    pub physical_ms: u64,
    pub logical: u32,
    pub node_id: u64,
}

/// A wall time on the wire.
#[derive(Debug, PartialEq, Eq)]
pub struct WallMessage {
    pub millis_since_epoch: u64,
    pub timezone: String,
}

/// A timestamp on the wire.
#[derive(Debug, PartialEq, Eq)]
pub struct TimestampMessage {
    pub hlc: Option<HlcMessage>,
    pub wall: Option<WallMessage>,
    pub quality: i32,
}

/// What a [`TimestampMessage`] holds.
#[verifier::ext_equal]
pub struct TimestampMessageView {
    pub hlc: Option<HlcMessage>,
    pub wall: Option<(u64, Seq<char>)>,
    pub quality: i32,
}

impl View for TimestampMessage {
    type V = TimestampMessageView;

    open spec fn view(&self) -> TimestampMessageView {
        TimestampMessageView {
            hlc: self.hlc,
            wall: match self.wall {
                Some(w) => Some((w.millis_since_epoch, w.timezone@)),
                None => None,
            },
            quality: self.quality,
        }
    }
}

/// The wire code of a clock quality.
pub open spec fn quality_code(q: ClockQuality) -> i32 {
    match q {
        ClockQuality::Ntp => 1,
        ClockQuality::Ptp => 2,
        ClockQuality::Gps => 3,
        ClockQuality::Unsync => 4,
    }
}

/// The clock quality of a wire code.
pub open spec fn quality_of(code: i32) -> ClockQuality {
    if code == 2 {
        ClockQuality::Ptp
    } else if code == 3 {
        ClockQuality::Gps
    } else if code == 4 {
        ClockQuality::Unsync
    } else {
        ClockQuality::Ntp
    }
}

/// A timestamp as it is written.
pub open spec fn timestamp_written(t: TimestampView) -> TimestampMessageView {
    TimestampMessageView {
        hlc: Some(
            HlcMessage {
                physical_ms: t.hlc.physical_ms,
                logical: t.hlc.logical,
                node_id: t.hlc.node_id.0,
            },
        ),
        wall: Some((t.millis, t.timezone)),
        quality: quality_code(t.quality),
    }
}

/// A timestamp as it is read: all of its parts have to be set.
pub open spec fn timestamp_read(t: Option<TimestampMessageView>) -> Result<
    TimestampView,
    StatusView,
> {
    match t {
        None => Err(bad_request("timestamp required"@)),
        Some(t) => match t.hlc {
            None => Err(bad_request("timestamp.hlc required"@)),
            Some(h) => match t.wall {
                None => Err(bad_request("timestamp.wall required"@)),
                Some(w) => Ok(
                    TimestampView {
                        hlc: HybridLogicalClock {
                            physical_ms: h.physical_ms,
                            logical: h.logical,
                            node_id: NodeId(h.node_id),
                        },
                        millis: w.0,
                        timezone: w.1,
                        quality: quality_of(t.quality),
                    },
                ),
            },
        },
    }
}

/// What an optional timestamp holds.
pub open spec fn timestamp_field(t: Option<TimestampMessage>) -> Option<TimestampMessageView> {
    match t {
        Some(t) => Some(t@),
        None => None,
    }
}

/// Writes a timestamp.
pub fn to_proto_timestamp(ts: &DeltaTimestamp) -> (r: TimestampMessage)
    ensures
        r@ == timestamp_written(ts@),
{
    let r = TimestampMessage {
        hlc: Some(
            HlcMessage {
                physical_ms: ts.hlc.physical_ms,
                logical: ts.hlc.logical,
                node_id: ts.hlc.node_id.0,
            },
        ),
        wall: Some(
            WallMessage {
                millis_since_epoch: ts.wall.millis_since_epoch,
                timezone: ts.wall.timezone.clone(),
            },
        ),
        quality: match ts.quality {
            ClockQuality::Ntp => 1,
            ClockQuality::Ptp => 2,
            ClockQuality::Gps => 3,
            ClockQuality::Unsync => 4,
        },
    };
    assert(r@ =~= timestamp_written(ts@));
    r
}

/// Reads a timestamp.
pub fn from_proto_timestamp(ts: Option<TimestampMessage>) -> (r: Result<DeltaTimestamp, Status>)
    ensures
        match timestamp_read(timestamp_field(ts)) {
            Ok(t) => r is Ok && r->Ok_0@ == t,
            Err(s) => r is Err && r->Err_0@ == s,
        },
{
    let ts = match ts {
        Some(t) => t,
        None => {
            return Err(invalid("timestamp required".to_owned()));
        },
    };
    let hlc = match ts.hlc {
        Some(h) => h,
        None => {
            return Err(invalid("timestamp.hlc required".to_owned()));
        },
    };
    let wall = match ts.wall {
        Some(w) => w,
        None => {
            return Err(invalid("timestamp.wall required".to_owned()));
        },
    };
    Ok(
        DeltaTimestamp {
            hlc: HybridLogicalClock {
                physical_ms: hlc.physical_ms,
                logical: hlc.logical,
                node_id: NodeId(hlc.node_id),
            },
            wall: WallTime {
                millis_since_epoch: wall.millis_since_epoch,
                timezone: wall.timezone,
            },
            quality: match ts.quality {
                2 => ClockQuality::Ptp,
                3 => ClockQuality::Gps,
                4 => ClockQuality::Unsync,
                _ => ClockQuality::Ntp,
            },
        },
    )
}

/// A request to append, on the wire.
#[derive(Debug, PartialEq, Eq)]
pub struct AppendMessage {
    pub shard_id: Option<String>,
    pub tenant_id: Option<String>,
    pub operation: i32,
    pub timestamp: Option<TimestampMessage>,
    pub hashed_key: Vec<u8>,
    pub chunk_refs: Vec<Vec<u8>>,
    pub payload: Vec<u8>,
    pub has_inline_data: bool,
}

/// What an [`AppendMessage`] holds.
#[verifier::ext_equal]
pub struct AppendMessageView {
    pub shard_id: Option<Seq<char>>,
    pub tenant_id: Option<Seq<char>>,
    pub operation: i32,
    pub timestamp: Option<TimestampMessageView>,
    pub hashed_key: Seq<u8>,
    pub chunk_refs: Seq<Seq<u8>>,
    pub payload: Seq<u8>,
    pub has_inline_data: bool,
}

/// What a list of byte strings holds.
pub open spec fn string_views(s: Seq<Vec<u8>>) -> Seq<Seq<u8>> {
    Seq::new(s.len(), |i: int| s[i]@)
}

impl View for AppendMessage {
    type V = AppendMessageView;

    open spec fn view(&self) -> AppendMessageView {
        AppendMessageView {
            shard_id: field_text(self.shard_id),
            tenant_id: field_text(self.tenant_id),
            operation: self.operation,
            timestamp: timestamp_field(self.timestamp),
            hashed_key: self.hashed_key@,
            chunk_refs: string_views(self.chunk_refs@),
            payload: self.payload@,
            has_inline_data: self.has_inline_data,
        }
    }
}

/// Whether every byte string of a list has thirty-two bytes.
pub open spec fn all_keys(s: Seq<Seq<u8>>) -> bool {
    forall|i: int| 0 <= i < s.len() ==> (#[trigger] s[i]).len() == 32
}

/// What is wrong with a request to append, where something is. The fields are
/// looked at in order.
pub open spec fn append_fault(m: AppendMessageView) -> Option<StatusView> {
    match identifier(m.shard_id, "shard_id"@) {
        Err(s) => Some(s),
        Ok(_) => match identifier(m.tenant_id, "tenant_id"@) {
            Err(s) => Some(s),
            Ok(_) => if wire_op(m.operation) is None {
                Some(
                    bad_request("unknown operation type: "@ + signed_text(m.operation as int)),
                )
            } else {
                match timestamp_read(m.timestamp) {
                    Err(s) => Some(s),
                    Ok(_) => if m.hashed_key.len() != 32 {
                        Some(bad_request("hashed_key must be 32 bytes"@))
                    } else if !all_keys(m.chunk_refs) {
                        Some(bad_request("chunk_id must be 32 bytes"@))
                    } else {
                        None
                    },
                }
            },
        },
    }
}

/// Whether a request is what a message without fault asks for.
pub open spec fn asks_for(m: AppendMessageView, req: AppendView) -> bool {
    &&& identifier(m.shard_id, "shard_id"@) == Ok::<u128, StatusView>(req.shard_id.0)
    &&& identifier(m.tenant_id, "tenant_id"@) == Ok::<u128, StatusView>(req.tenant_id.0)
    &&& wire_op(m.operation) == Some(req.operation)
    &&& timestamp_read(m.timestamp) == Ok::<TimestampView, StatusView>(req.timestamp)
    &&& req.hashed_key@ == m.hashed_key
    &&& req.chunk_refs.len() == m.chunk_refs.len()
    &&& forall|i: int|
        0 <= i < m.chunk_refs.len() ==> (#[trigger] req.chunk_refs[i]).0@ == m.chunk_refs[i]
    &&& req.payload == m.payload
    &&& req.has_inline_data == m.has_inline_data
}

/// The thirty-two bytes of a slice of that length, as an array.
pub fn array32(s: &[u8]) -> (r: [u8; 32])
    requires
        s@.len() == 32,
    ensures
        r@ == s@,
{
    let mut a: [u8; 32] = [0; 32];
    let mut i: usize = 0;
    while i < 32
        invariant
            i <= 32,
            s@.len() == 32,
            forall|j: int| 0 <= j < i ==> a@[j] == s@[j],
        decreases 32 - i,
    {
        a[i] = s[i];
        i = i + 1;
    }
    assert(a@ =~= s@);
    a
}

/// Reads chunk identifiers; `None` where one does not have thirty-two bytes.
fn read_keys(keys: &Vec<Vec<u8>>) -> (r: Option<Vec<ChunkId>>)
    ensures
        r is Some <==> all_keys(string_views(keys@)),
        r matches Some(v) ==> v@.len() == keys@.len() && forall|i: int|
            0 <= i < keys@.len() ==> (#[trigger] v@[i]).0@ == keys@[i]@,
{
    let ghost views = string_views(keys@);
    let mut out: Vec<ChunkId> = Vec::new();
    let mut i: usize = 0;
    while i < keys.len()
        invariant
            i <= keys@.len(),
            views == string_views(keys@),
            out@.len() == i,
            forall|j: int| 0 <= j < i ==> (#[trigger] views[j]).len() == 32,
            forall|j: int| 0 <= j < i ==> (#[trigger] out@[j]).0@ == keys@[j]@,
        decreases keys@.len() - i,
    {
        assert(views[i as int] == keys@[i as int]@);
        if keys[i].len() != 32 {
            return None;
        }
        out.push(ChunkId(array32(&keys[i])));
        i = i + 1;
    }
    Some(out)
}

/// Reads a request to append.
pub fn read_append(m: AppendMessage) -> (r: Result<AppendDeltaRequest, Status>)
    ensures
        match append_fault(m@) {
            Some(s) => r is Err && r->Err_0@ == s,
            None => r is Ok && asks_for(m@, r->Ok_0@),
        },
{
    let ghost mv = m@;
    let shard_id = match extract_shard_id(&m.shard_id) {
        Ok(x) => x,
        Err(s) => {
            return Err(s);
        },
    };
    let tenant_id = match read_identifier(&m.tenant_id, "tenant_id") {
        Ok(x) => OrgId(x),
        Err(s) => {
            return Err(s);
        },
    };
    let operation = match proto_op_to_domain(m.operation) {
        Ok(o) => o,
        Err(s) => {
            return Err(s);
        },
    };
    let timestamp = match from_proto_timestamp(m.timestamp) {
        Ok(t) => t,
        Err(s) => {
            return Err(s);
        },
    };
    if m.hashed_key.len() != 32 {
        return Err(invalid("hashed_key must be 32 bytes".to_owned()));
    }
    let hashed_key = array32(&m.hashed_key);
    let chunk_refs = match read_keys(&m.chunk_refs) {
        Some(v) => v,
        None => {
            return Err(invalid("chunk_id must be 32 bytes".to_owned()));
        },
    };
    Ok(
        AppendDeltaRequest {
            shard_id,
            tenant_id,
            operation,
            timestamp,
            hashed_key,
            chunk_refs,
            payload: m.payload,
            has_inline_data: m.has_inline_data,
        },
    )
}

/// A delta on the wire.
#[derive(Debug, PartialEq, Eq)]
pub struct DeltaMessage {
    pub sequence: u64,
    pub shard_id: String,
    pub tenant_id: String,
    pub operation: i32,
    pub timestamp: TimestampMessage,
    pub hashed_key: Vec<u8>,
    pub tombstone: bool,
    pub chunk_refs: Vec<Vec<u8>>,
    pub payload_size: u32,
    pub has_inline_data: bool,
    pub ciphertext: Vec<u8>,
    pub auth_tag: Vec<u8>,
    pub nonce: Vec<u8>,
    pub system_epoch: Option<u64>,
    pub tenant_epoch: Option<u64>,
    pub tenant_wrapped_material: Vec<u8>,
}

/// Whether a message is that of a delta.
pub open spec fn shows(m: DeltaMessage, d: DeltaView) -> bool {
    &&& m.sequence == d.header.sequence
    &&& m.shard_id@ == uuid_text(d.header.shard_id.0)
    &&& m.tenant_id@ == uuid_text(d.header.tenant_id.0)
    &&& m.operation == wire_op_code(d.header.operation)
    &&& m.timestamp@ == timestamp_written(d.header.timestamp)
    &&& m.hashed_key@ == d.header.hashed_key@
    &&& m.tombstone == d.header.tombstone
    &&& m.chunk_refs@.len() == d.header.chunk_refs.len()
    &&& forall|i: int|
        0 <= i < m.chunk_refs@.len() ==> (#[trigger] m.chunk_refs@[i])@
            == d.header.chunk_refs[i].0@
    &&& m.payload_size == d.header.payload_size
    &&& m.has_inline_data == d.header.has_inline_data
    &&& m.ciphertext@ == d.payload.ciphertext
    &&& m.auth_tag@ == d.payload.auth_tag
    &&& m.nonce@ == d.payload.nonce
    &&& m.system_epoch == d.payload.system_epoch
    &&& m.tenant_epoch == d.payload.tenant_epoch
    &&& m.tenant_wrapped_material@ == d.payload.tenant_wrapped_material
}

/// Writes a delta.
pub fn domain_delta_to_proto(d: &Delta) -> (r: DeltaMessage)
    ensures
        shows(r, d@),
{
    let mut refs: Vec<Vec<u8>> = Vec::new();
    let mut i: usize = 0;
    while i < d.header.chunk_refs.len()
        invariant
            i <= d.header.chunk_refs@.len(),
            refs@.len() == i,
            forall|j: int|
                0 <= j < i ==> (#[trigger] refs@[j])@ == d.header.chunk_refs@[j].0@,
        decreases d.header.chunk_refs@.len() - i,
    {
        refs.push(copy_bytes(d.header.chunk_refs[i].0.as_slice()));
        i = i + 1;
    }
    DeltaMessage {
        sequence: d.header.sequence.0,
        shard_id: uuid_to_string(d.header.shard_id.0),
        tenant_id: uuid_to_string(d.header.tenant_id.0),
        operation: domain_op_to_proto(d.header.operation),
        timestamp: to_proto_timestamp(&d.header.timestamp),
        hashed_key: copy_bytes(d.header.hashed_key.as_slice()),
        tombstone: d.header.tombstone,
        chunk_refs: refs,
        payload_size: d.header.payload_size,
        has_inline_data: d.header.has_inline_data,
        ciphertext: copy_bytes(&d.payload.ciphertext),
        auth_tag: copy_bytes(&d.payload.auth_tag),
        nonce: copy_bytes(&d.payload.nonce),
        system_epoch: d.payload.system_epoch,
        tenant_epoch: d.payload.tenant_epoch,
        tenant_wrapped_material: copy_bytes(&d.payload.tenant_wrapped_material),
    }
}

/// Most deltas of one answer.
pub const MAX_DELTAS_PER_RESPONSE: usize = 1000;

/// Whether messages are those of the first deltas, up to the cap.
pub open spec fn shows_capped(m: Seq<DeltaMessage>, d: Seq<DeltaView>) -> bool {
    &&& m.len() == (if d.len() > MAX_DELTAS_PER_RESPONSE {
        MAX_DELTAS_PER_RESPONSE as nat
    } else {
        d.len()
    })
    &&& forall|i: int| 0 <= i < m.len() ==> shows(#[trigger] m[i], d[i])
}

/// Writes deltas, up to the cap.
pub fn capped(deltas: &Vec<Delta>) -> (r: Vec<DeltaMessage>)
    ensures
        shows_capped(r@, delta_views(deltas@)),
{
    let ghost d = delta_views(deltas@);
    let mut out: Vec<DeltaMessage> = Vec::new();
    let mut i: usize = 0;
    while i < deltas.len() && i < MAX_DELTAS_PER_RESPONSE
        invariant
            i <= deltas@.len(),
            i <= MAX_DELTAS_PER_RESPONSE,
            d == delta_views(deltas@),
            out@.len() == i,
            forall|j: int| 0 <= j < i ==> shows(#[trigger] out@[j], d[j]),
        decreases deltas@.len() - i,
    {
        assert(d[i as int] == deltas@[i as int]@);
        out.push(domain_delta_to_proto(&deltas[i]));
        i = i + 1;
    }
    out
}

/// A request to read, on the wire.
#[derive(Debug, PartialEq, Eq)]
pub struct ReadMessage {
    pub shard_id: Option<String>,
    pub from: u64,
    pub to: u64,
}

/// Metadata of a shard on the wire.
#[derive(Debug, PartialEq, Eq)]
pub struct ShardInfoMessage {
    pub shard_id: String,
    pub tenant_id: String,
    pub raft_members: Vec<u64>,
    pub leader: Option<u64>,
    pub tip: u64,
    pub state: i32,
}

/// Whether a message is that of a shard.
pub open spec fn shows_shard(m: ShardInfoMessage, i: ShardInfoView) -> bool {
    &&& m.shard_id@ == uuid_text(i.shard_id.0)
    &&& m.tenant_id@ == uuid_text(i.tenant_id.0)
    &&& m.raft_members@.len() == i.raft_members.len()
    &&& forall|k: int|
        0 <= k < m.raft_members@.len() ==> (#[trigger] m.raft_members@[k]) == i.raft_members[k].0
    &&& m.leader == (match i.leader {
        Some(n) => Some(n.0),
        None => None,
    })
    &&& m.tip == i.tip
    &&& m.state == wire_state_code(i.state)
}

/// Writes the metadata of a shard.
pub fn shard_info_to_proto(info: &ShardInfo) -> (r: ShardInfoMessage)
    ensures
        shows_shard(r, info@),
{
    let mut members: Vec<u64> = Vec::new();
    let mut i: usize = 0;
    while i < info.raft_members.len()
        invariant
            i <= info.raft_members@.len(),
            members@.len() == i,
            forall|j: int| 0 <= j < i ==> (#[trigger] members@[j]) == info.raft_members@[j].0,
        decreases info.raft_members@.len() - i,
    {
        members.push(info.raft_members[i].0);
        i = i + 1;
    }
    ShardInfoMessage {
        shard_id: uuid_to_string(info.shard_id.0),
        tenant_id: uuid_to_string(info.tenant_id.0),
        raft_members: members,
        leader: match info.leader {
            Some(n) => Some(n.0),
            None => None,
        },
        tip: info.tip.0,
        state: proto_shard_state(info.state),
    }
}

/// The remote interface over a backend.
pub struct LogGrpc<L: LogOps> {
    /// The backend.
    pub ops: L,
}

/// The status of a missing shard.
pub open spec fn not_found(id: ShardId) -> StatusView {
    status_of(LogError::ShardNotFound(id))
}

impl<L: LogOps> LogGrpc<L> {
    /// The remote interface over a backend.
    pub fn new(ops: L) -> (r: Self)
        ensures
            r.ops == ops,
    {
        LogGrpc { ops }
    }

    /// Appends a delta; answers with its number.
    pub fn append_delta(&mut self, m: AppendMessage) -> (r: Result<u64, Status>)
        requires
            old(self).ops.ready(),
            forall|id: ShardId| #[trigger]
                old(self).ops.shards().contains_key(id) ==> shard_has_room(
                    old(self).ops.shards()[id],
                    1,
                    payload_cost(m@.payload.len()),
                ),
        ensures
            final(self).ops.ready(),
            final(self).ops.reliable() == old(self).ops.reliable(),
            r is Err ==> final(self).ops.shards() == old(self).ops.shards(),
            match append_fault(m@) {
                Some(s) => r is Err && r->Err_0@ == s,
                None => exists|req: AppendView|
                    {
                        let shards = old(self).ops.shards();
                        &&& #[trigger] asks_for(m@, req)
                        &&& match append_refusal(shards, req) {
                            Some(e) => r is Err && r->Err_0@ == status_of(e),
                            None => {
                                &&& old(self).ops.reliable() ==> r is Ok
                                &&& r matches Ok(seq) ==> {
                                    &&& seq == shards[req.shard_id].info.tip + 1
                                    &&& final(self).ops.shards() == shards.insert(
                                        req.shard_id,
                                        shard_appended(
                                            shards[req.shard_id],
                                            req,
                                            old(self).ops.stamp(req),
                                        ),
                                    )
                                }
                            },
                        }
                    },
            },
    {
        let req = match read_append(m) {
            Ok(r) => r,
            Err(s) => {
                return Err(s);
            },
        };
        assert(asks_for(m@, req@));
        match self.ops.append_delta(req) {
            Ok(seq) => Ok(seq.0),
            Err(e) => Err(to_status(&e)),
        }
    }

    /// Reads deltas, up to the cap.
    pub fn read_deltas(&self, m: ReadMessage) -> (r: Result<Vec<DeltaMessage>, Status>)
        requires
            self.ops.ready(),
        ensures
            match identifier(field_text(m.shard_id), "shard_id"@) {
                Err(s) => r is Err && r->Err_0@ == s,
                Ok(x) => {
                    let id = ShardId(x);
                    if !self.ops.shards().contains_key(id) {
                        r is Err && r->Err_0@ == not_found(id)
                    } else if m.from > m.to {
                        r is Err && r->Err_0@ == status_of(LogError::InvalidRange(id))
                    } else {
                        &&& self.ops.reliable() ==> r is Ok
                        &&& r matches Ok(v) ==> shows_capped(
                            v@,
                            numbered(self.ops.shards()[id].deltas, m.from, m.to),
                        )
                    }
                },
            },
    {
        let shard_id = match extract_shard_id(&m.shard_id) {
            Ok(x) => x,
            Err(s) => {
                return Err(s);
            },
        };
        match self.ops.read_deltas(
            ReadDeltasRequest { shard_id, from: SequenceNumber(m.from), to: SequenceNumber(m.to) },
        ) {
            Ok(deltas) => Ok(capped(&deltas)),
            Err(e) => Err(to_status(&e)),
        }
    }

    /// Metadata of a shard.
    pub fn shard_health(&self, shard_id: Option<String>) -> (r: Result<ShardInfoMessage, Status>)
        requires
            self.ops.ready(),
        ensures
            match identifier(field_text(shard_id), "shard_id"@) {
                Err(s) => r is Err && r->Err_0@ == s,
                Ok(x) => {
                    let id = ShardId(x);
                    if !self.ops.shards().contains_key(id) {
                        r is Err && r->Err_0@ == not_found(id)
                    } else {
                        &&& self.ops.reliable() ==> r is Ok
                        &&& r matches Ok(m) ==> shows_shard(m, self.ops.shards()[id].info)
                    }
                },
            },
    {
        let id = match extract_shard_id(&shard_id) {
            Ok(x) => x,
            Err(s) => {
                return Err(s);
            },
        };
        match self.ops.shard_health(id) {
            Ok(info) => Ok(shard_info_to_proto(&info)),
            Err(e) => Err(to_status(&e)),
        }
    }

    /// Sets or clears maintenance mode.
    pub fn set_maintenance(&mut self, shard_id: Option<String>, enabled: bool) -> (r: Result<
        (),
        Status,
    >)
        requires
            old(self).ops.ready(),
            forall|id: ShardId| #[trigger]
                old(self).ops.shards().contains_key(id) ==> shard_has_room(
                    old(self).ops.shards()[id],
                    0,
                    0,
                ),
        ensures
            final(self).ops.ready(),
            final(self).ops.reliable() == old(self).ops.reliable(),
            r is Err ==> final(self).ops.shards() == old(self).ops.shards(),
            match identifier(field_text(shard_id), "shard_id"@) {
                Err(s) => r is Err && r->Err_0@ == s,
                Ok(x) => {
                    let id = ShardId(x);
                    if !old(self).ops.shards().contains_key(id) {
                        r is Err && r->Err_0@ == not_found(id)
                    } else {
                        &&& old(self).ops.reliable() ==> r is Ok
                        &&& r is Ok ==> final(self).ops.shards() == old(self).ops.shards().insert(
                            id,
                            shard_maintained(old(self).ops.shards()[id], enabled),
                        )
                    }
                },
            },
    {
        let id = match extract_shard_id(&shard_id) {
            Ok(x) => x,
            Err(s) => {
                return Err(s);
            },
        };
        match self.ops.set_maintenance(id, enabled) {
            Ok(()) => Ok(()),
            Err(e) => Err(to_status(&e)),
        }
    }
}

/// Law: a timestamp is read as it was written.
pub proof fn timestamp_round_trip(t: TimestampView)
    ensures
        timestamp_read(Some(timestamp_written(t))) == Ok::<TimestampView, StatusView>(t),
{
}

/// Law: an operation that can be asked for remotely is read as it was written; one
/// that cannot is refused.
pub proof fn operation_round_trip(op: OperationType)
    ensures
        wire_op(wire_op_code(op)) == (match op {
            OperationType::NamespaceCreate => None,
            OperationType::MigrateChunkLocations => None,
            _ => Some(op),
        }),
{
}

} // verus!
