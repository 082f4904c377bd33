//! Messages of the remote interface.

use kiseki_log::grpc::{
    capped, domain_op_to_proto, extract_shard_id, from_proto_timestamp, proto_op_to_domain,
    proto_shard_state, to_proto_timestamp, to_status, AppendMessage, HlcMessage, LogGrpc,
    ReadMessage, StatusCode, TimestampMessage, WallMessage, MAX_DELTAS_PER_RESPONSE,
};
use kiseki_log::ids::{NodeId, OrgId, ShardId};
use kiseki_log::time::{ClockQuality, DeltaTimestamp, HybridLogicalClock, WallTime};
use kiseki_log::{LogError, LogOps, MemShardStore, OperationType, ShardConfig, ShardState};

const SHARD: &str = "00000000-0000-0000-0000-000000000001";
const TENANT: &str = "00000000-0000-0000-0000-000000000064";

fn stamp() -> TimestampMessage {
    TimestampMessage {
        hlc: Some(HlcMessage { physical_ms: 5, logical: 6, node_id: 7 }),
        wall: Some(WallMessage { millis_since_epoch: 8, timezone: "UTC".to_string() }),
        quality: to_proto_timestamp(&DeltaTimestamp {
            hlc: HybridLogicalClock { physical_ms: 0, logical: 0, node_id: NodeId(0) },
            wall: WallTime { millis_since_epoch: 0, timezone: String::new() },
            quality: ClockQuality::Gps,
        })
        .quality,
    }
}

fn append(key: u8) -> AppendMessage {
    AppendMessage {
        shard_id: Some(SHARD.to_string()),
        tenant_id: Some(TENANT.to_string()),
        operation: domain_op_to_proto(OperationType::Update),
        timestamp: Some(stamp()),
        hashed_key: vec![key; 32],
        chunk_refs: vec![vec![1; 32]],
        payload: vec![key],
        has_inline_data: false,
    }
}

fn server() -> LogGrpc<MemShardStore> {
    let mut store = MemShardStore::new();
    store.create_shard(ShardId(1), OrgId(100), NodeId(4), ShardConfig::default());
    LogGrpc::new(store)
}

fn read(from: u64, to: u64) -> ReadMessage {
    ReadMessage { shard_id: Some(SHARD.to_string()), from, to }
}

#[test]
fn appended_delta_comes_back_over_the_wire() {
    let mut s = server();
    assert_eq!(s.append_delta(append(9)).unwrap(), 1);
    let got = s.read_deltas(read(1, 1)).unwrap();
    assert_eq!(got.len(), 1);
    assert_eq!(got[0].sequence, 1);
    assert_eq!(got[0].shard_id, SHARD);
    assert_eq!(got[0].tenant_id, TENANT);
    assert_eq!(got[0].operation, domain_op_to_proto(OperationType::Update));
    assert_eq!(got[0].timestamp, stamp());
    assert_eq!(got[0].hashed_key, vec![9; 32]);
    assert_eq!(got[0].chunk_refs, vec![vec![1; 32]]);
    assert_eq!(got[0].ciphertext, vec![9]);
    let health = s.shard_health(Some(SHARD.to_string())).unwrap();
    assert_eq!((health.tip, health.leader), (1, Some(4)));
    assert_eq!(health.raft_members, vec![4]);
}

#[test]
fn faulty_messages_are_refused() {
    let mut s = server();
    let mut m = append(1);
    m.shard_id = None;
    let e = s.append_delta(m).unwrap_err();
    assert_eq!(e.code, StatusCode::InvalidArgument);
    assert_eq!(e.message, "shard_id required");
    let mut m = append(1);
    m.tenant_id = Some("nonsense".to_string());
    let e = s.append_delta(m).unwrap_err();
    assert!(e.message.starts_with("invalid tenant_id: "), "{}", e.message);
    let mut m = append(1);
    m.operation = 99;
    assert_eq!(s.append_delta(m).unwrap_err().message, "unknown operation type: 99");
    let mut m = append(1);
    m.hashed_key = vec![1; 31];
    assert_eq!(s.append_delta(m).unwrap_err().message, "hashed_key must be 32 bytes");
    let mut m = append(1);
    m.chunk_refs = vec![vec![]];
    assert_eq!(s.append_delta(m).unwrap_err().message, "chunk_id must be 32 bytes");
    let mut m = append(1);
    m.timestamp = None;
    assert_eq!(s.append_delta(m).unwrap_err().code, StatusCode::InvalidArgument);
    assert!(s.read_deltas(read(1, 9)).unwrap().is_empty());
}

#[test]
fn maintenance_is_set_over_the_wire() {
    let mut s = server();
    s.set_maintenance(Some(SHARD.to_string()), true).unwrap();
    let e = s.append_delta(append(1)).unwrap_err();
    assert_eq!(e.code, StatusCode::FailedPrecondition);
    let health = s.shard_health(Some(SHARD.to_string())).unwrap();
    assert_eq!(health.state, proto_shard_state(ShardState::Maintenance));
    let other = "00000000-0000-0000-0000-000000000009".to_string();
    assert_eq!(s.shard_health(Some(other)).unwrap_err().code, StatusCode::NotFound);
}

#[test]
fn answers_are_capped() {
    let mut store = MemShardStore::new();
    store.create_shard(ShardId(1), OrgId(100), NodeId(4), ShardConfig::default());
    let mut s = LogGrpc::new(store);
    for _ in 0..1_005 {
        s.append_delta(append(3)).unwrap();
    }
    let got = s.read_deltas(read(1, 2_000)).unwrap();
    assert_eq!(got.len(), MAX_DELTAS_PER_RESPONSE);
    assert_eq!(got[999].sequence, 1_000);
    assert!(capped(&vec![]).is_empty());
    assert_eq!(s.read_deltas(read(2, 1)).unwrap_err().code, StatusCode::InvalidArgument);
}

#[test]
fn errors_have_status_codes() {
    assert_eq!(to_status(&LogError::KeyOutOfRange(ShardId(1))).code, StatusCode::OutOfRange);
    assert_eq!(to_status(&LogError::Unavailable).code, StatusCode::Unavailable);
    assert_eq!(to_status(&LogError::Io("x".to_string())).code, StatusCode::Internal);
    let s = to_status(&LogError::ShardNotFound(ShardId(1)));
    assert_eq!(s.code, StatusCode::NotFound);
    assert_eq!(s.message, LogError::ShardNotFound(ShardId(1)).message());
}

#[test]
fn operations_and_identifiers_are_read() {
    for op in [
        OperationType::Create,
        OperationType::Update,
        OperationType::Delete,
        OperationType::Rename,
        OperationType::SetAttribute,
        OperationType::Finalize,
    ] {
        assert_eq!(proto_op_to_domain(domain_op_to_proto(op)).unwrap(), op);
    }
    assert!(proto_op_to_domain(0).is_err());
    assert_eq!(extract_shard_id(&Some(SHARD.to_string())).unwrap(), ShardId(1));
    assert_eq!(extract_shard_id(&Some("{x".to_string())).unwrap_err().code, StatusCode::InvalidArgument);
}

#[test]
fn timestamps_round_trip() {
    let t = DeltaTimestamp {
        hlc: HybridLogicalClock { physical_ms: 1, logical: 2, node_id: NodeId(3) },
        wall: WallTime { millis_since_epoch: 4, timezone: "Europe/Zurich".to_string() },
        quality: ClockQuality::Unsync,
    };
    assert_eq!(from_proto_timestamp(Some(to_proto_timestamp(&t))).unwrap(), t);
    let mut m = to_proto_timestamp(&t);
    m.wall = None;
    assert!(from_proto_timestamp(Some(m)).is_err());
}
