//! Backends in memory, durable records, consensus answers, errors and metrics.

use kiseki_log::delta::{op_to_u8, read_short_op, shorten_op, u8_to_op};
use kiseki_log::error::{KisekiError, PermanentError, RetriableError};
use kiseki_log::ids::{ChunkId, NodeId, OrgId, SequenceNumber, ShardId};
use kiseki_log::metrics::outcome;
use kiseki_log::metrics::{compaction_record, gauge_value, outcome_for, outcome_label};
use kiseki_log::persistent_store::{PersistedDelta, PersistentShardStore};
use kiseki_log::raft::openraft_store::{
    construction_error, fsync_coalescing, initial_members, log_name, map_raft_error,
    map_raft_error_with_forwarding, membership_initialized, plan_replica, ConstructionStep,
    InlineRateMeter, IntentsStep, LogBackend, OpenRaftLogStore, ReplicaPlan, WriteFailure,
};
use kiseki_log::raft::state_machine::ShardSmInner;
use kiseki_log::raft::types::LogResponse;
use kiseki_log::time::{ClockQuality, DeltaTimestamp, HybridLogicalClock, WallTime};
use kiseki_log::traits::{check_write, cost_of_payload};
use kiseki_log::{
    AppendDeltaRequest, ConsumerWatermarks, LogError, LogOps, MemShardStore, OperationType,
    RaftLogStore, ReadDeltasRequest, ShardConfig, ShardState,
};

fn test_shard() -> ShardId {
    ShardId(1)
}

fn test_tenant() -> OrgId {
    OrgId(100)
}

fn test_timestamp() -> DeltaTimestamp {
    DeltaTimestamp {
        hlc: HybridLogicalClock { physical_ms: 1000, logical: 0, node_id: NodeId(1) },
        wall: WallTime { millis_since_epoch: 1000, timezone: "UTC".to_string() },
        quality: ClockQuality::Ntp,
    }
}

fn make_req(shard_id: ShardId, key_byte: u8) -> AppendDeltaRequest {
    AppendDeltaRequest {
        shard_id,
        tenant_id: test_tenant(),
        operation: OperationType::Create,
        timestamp: test_timestamp(),
        hashed_key: [key_byte; 32],
        chunk_refs: vec![],
        payload: vec![0xab; 64],
        has_inline_data: false,
    }
}

fn read(shard_id: ShardId, from: u64, to: u64) -> ReadDeltasRequest {
    ReadDeltasRequest { shard_id, from: SequenceNumber(from), to: SequenceNumber(to) }
}

fn fresh_raft_store() -> RaftLogStore {
    let mut store = RaftLogStore::new();
    store.create_shard(test_shard(), test_tenant(), NodeId(1), ShardConfig::default());
    store
}

#[test]
fn append_via_command_log() {
    let mut store = fresh_raft_store();
    let seq = store.append_delta(make_req(test_shard(), 0x50));
    assert!(seq.is_ok());
    assert_eq!(seq.unwrap_or_else(|_| unreachable!()), SequenceNumber(1));
    assert_eq!(store.log_length(test_shard()), 1);
}

#[test]
fn total_order_via_command_log() {
    let mut store = fresh_raft_store();
    for i in 0u8..5 {
        let key = (i * 20 + 10) % 255;
        store.append_delta(make_req(test_shard(), key)).unwrap_or_else(|_| unreachable!());
    }

    let deltas = store.read_deltas(read(test_shard(), 1, 5)).unwrap_or_else(|_| unreachable!());

    assert_eq!(deltas.len(), 5);
    for (i, d) in deltas.iter().enumerate() {
        assert_eq!(d.header.sequence, SequenceNumber(i as u64 + 1));
    }
}

#[test]
fn maintenance_via_command_log() {
    let mut store = fresh_raft_store();
    store.set_maintenance(test_shard(), true).unwrap_or_else(|_| unreachable!());

    let result = store.append_delta(make_req(test_shard(), 0x50));
    assert!(result.is_err());
    assert!(matches!(result, Err(LogError::MaintenanceMode(ShardId(1)))));

    let health = store.shard_health(test_shard()).unwrap_or_else(|_| unreachable!());
    assert_eq!(health.state, ShardState::Maintenance);

    store.set_maintenance(test_shard(), false).unwrap();
    assert!(store.append_delta(make_req(test_shard(), 0x50)).is_ok());
}

#[test]
fn refused_appends_leave_no_trace() {
    let mut store = fresh_raft_store();
    assert!(matches!(
        store.append_delta(make_req(ShardId(9), 1)),
        Err(LogError::ShardNotFound(ShardId(9)))
    ));
    store.update_shard_range(test_shard(), [0x10; 32], [0x20; 32]);
    for key in [0x0f, 0x20, 0xff] {
        assert!(matches!(
            store.append_delta(make_req(test_shard(), key)),
            Err(LogError::KeyOutOfRange(ShardId(1)))
        ));
    }
    assert!(store.append_delta(make_req(test_shard(), 0x10)).is_ok());
    for (state, text) in [
        (ShardState::Election, "leader unavailable: "),
        (ShardState::QuorumLost, "quorum lost: "),
        (ShardState::Retiring, "shard busy: "),
    ] {
        store.set_shard_state(test_shard(), state);
        let e = store.append_delta(make_req(test_shard(), 0x11)).unwrap_err();
        assert!(e.message().starts_with(text), "{}", e.message());
    }
    assert_eq!(store.log_length(test_shard()), 1);
}

#[test]
fn reads_are_checked() {
    let store = fresh_raft_store();
    assert!(matches!(store.read_deltas(read(ShardId(2), 1, 2)), Err(LogError::ShardNotFound(_))));
    assert!(matches!(store.read_deltas(read(test_shard(), 3, 2)), Err(LogError::InvalidRange(_))));
    assert!(store.read_deltas(read(test_shard(), 1, 2)).unwrap().is_empty());
}

#[test]
fn truncation_waits_for_the_slowest_consumer() {
    let mut store = fresh_raft_store();
    for key in 1..=5u8 {
        store.append_delta(make_req(test_shard(), key)).unwrap();
    }
    store.register_consumer(test_shard(), "fast", SequenceNumber(0)).unwrap();
    store.register_consumer(test_shard(), "slow", SequenceNumber(0)).unwrap();
    store.advance_watermark(test_shard(), "fast", SequenceNumber(5)).unwrap();
    store.advance_watermark(test_shard(), "slow", SequenceNumber(3)).unwrap();
    assert_eq!(store.truncate_log(test_shard()).unwrap(), SequenceNumber(3));
    let left: Vec<u64> = store
        .read_deltas(read(test_shard(), 1, 5))
        .unwrap()
        .iter()
        .map(|d| d.header.sequence.0)
        .collect();
    assert_eq!(left, vec![3, 4, 5]);
    // A consumer never goes back.
    store.advance_watermark(test_shard(), "slow", SequenceNumber(1)).unwrap();
    assert_eq!(store.truncate_log(test_shard()).unwrap(), SequenceNumber(3));
}

#[test]
fn compaction_keeps_the_latest_of_each_key() {
    let mut store = fresh_raft_store();
    for key in [1u8, 2, 1, 3] {
        store.append_delta(make_req(test_shard(), key)).unwrap();
    }
    let mut gone = make_req(test_shard(), 2);
    gone.operation = OperationType::Delete;
    store.append_delta(gone).unwrap();
    // The deletion stays until every consumer has passed it.
    assert_eq!(store.compact_shard(test_shard()).unwrap(), 2);
    store.register_consumer(test_shard(), "c", SequenceNumber(0)).unwrap();
    store.advance_watermark(test_shard(), "c", SequenceNumber(6)).unwrap();
    assert_eq!(store.compact_shard(test_shard()).unwrap(), 1);
    let left: Vec<u64> = store
        .read_deltas(read(test_shard(), 1, 9))
        .unwrap()
        .iter()
        .map(|d| d.header.sequence.0)
        .collect();
    assert_eq!(left, vec![3, 4]);
}

#[test]
fn memory_backend_keeps_timestamps() {
    let mut store = MemShardStore::new();
    store.create_shard(test_shard(), test_tenant(), NodeId(1), ShardConfig::default());
    let mut req = make_req(test_shard(), 7);
    req.operation = OperationType::Delete;
    req.chunk_refs = vec![ChunkId([3; 32])];
    assert_eq!(store.append_delta(req).unwrap(), SequenceNumber(1));
    let got = store.read_deltas(read(test_shard(), 1, 1)).unwrap();
    assert_eq!(got.len(), 1);
    assert_eq!(got[0].header.timestamp, test_timestamp());
    assert!(got[0].header.tombstone);
    assert_eq!(got[0].header.chunk_refs, vec![ChunkId([3; 32])]);
    assert_eq!(got[0].header.payload_size, 64);
    let health = store.shard_health(test_shard()).unwrap();
    assert_eq!((health.delta_count, health.byte_size), (1, 192));
    assert!(store.has_shard(test_shard()));
}

/// A database of records, which outlives the store.
struct Disk {
    records: Vec<PersistedDelta>,
}

impl Disk {
    fn open(&self) -> PersistentShardStore<MemShardStore> {
        let mut store = PersistentShardStore::new(MemShardStore::new());
        store.reload(&self.records);
        store
    }

    fn append(
        &mut self,
        store: &mut PersistentShardStore<MemShardStore>,
        req: AppendDeltaRequest,
    ) -> SequenceNumber {
        let (seq, record) = store.append_delta(req).unwrap();
        self.records.push(record);
        seq
    }
}

#[test]
fn append_and_read() {
    let mut disk = Disk { records: vec![] };
    let mut store = disk.open();
    store.create_shard(test_shard(), test_tenant(), NodeId(1), ShardConfig::default());

    let seq = disk.append(
        &mut store,
        AppendDeltaRequest {
            shard_id: test_shard(),
            tenant_id: test_tenant(),
            operation: OperationType::Create,
            timestamp: test_timestamp(),
            hashed_key: [0x42; 32],
            chunk_refs: vec![],
            payload: b"test payload".to_vec(),
            has_inline_data: true,
        },
    );

    assert_eq!(seq, SequenceNumber(1));

    let deltas = store.mem.read_deltas(read(test_shard(), 1, 1)).unwrap();

    assert_eq!(deltas.len(), 1);
    assert_eq!(deltas[0].header.sequence, SequenceNumber(1));
}

#[test]
fn redb_records_persist() {
    let mut disk = Disk { records: vec![] };

    {
        let mut store = disk.open();
        let (key, meta) =
            store.create_shard(test_shard(), test_tenant(), NodeId(1), ShardConfig::default());
        assert_eq!(key, "shard:00000000-0000-0000-0000-000000000001");
        assert_eq!(meta.shard_id_bytes, 1u128.to_be_bytes());
        assert_eq!(meta.node_id, 1);
        let _ = disk.append(
            &mut store,
            AppendDeltaRequest {
                shard_id: test_shard(),
                tenant_id: test_tenant(),
                operation: OperationType::Create,
                timestamp: test_timestamp(),
                hashed_key: [0x01; 32],
                chunk_refs: vec![],
                payload: b"persisted".to_vec(),
                has_inline_data: false,
            },
        );
    }

    {
        let store = disk.open();
        let deltas = store.mem.read_deltas(read(test_shard(), 1, 1)).unwrap();
        assert_eq!(deltas.len(), 1, "delta should survive reopen via reload");
        assert_eq!(deltas[0].payload.ciphertext, b"persisted");
    }
}

#[test]
fn timestamps_survive_restart() {
    let mut disk = Disk { records: vec![] };

    let ts = DeltaTimestamp {
        hlc: HybridLogicalClock {
            physical_ms: 1_718_000_000_000,
            logical: 42,
            node_id: NodeId(7),
        },
        wall: WallTime {
            millis_since_epoch: 1_718_000_000_000,
            timezone: "Europe/Zurich".to_string(),
        },
        quality: ClockQuality::Ptp,
    };

    {
        let mut store = disk.open();
        store.create_shard(test_shard(), test_tenant(), NodeId(7), ShardConfig::default());
        let _ = disk.append(
            &mut store,
            AppendDeltaRequest {
                shard_id: test_shard(),
                tenant_id: test_tenant(),
                operation: OperationType::Create,
                timestamp: ts.clone(),
                hashed_key: [0xAA; 32],
                chunk_refs: vec![],
                payload: b"timestamped".to_vec(),
                has_inline_data: false,
            },
        );
    }

    {
        let store = disk.open();
        let deltas = store.mem.read_deltas(read(test_shard(), 1, 1)).unwrap();

        assert_eq!(deltas.len(), 1);
        let d = &deltas[0];
        assert_eq!(d.header.timestamp.hlc.physical_ms, 1_718_000_000_000);
        assert_eq!(d.header.timestamp.hlc.logical, 42);
        assert_eq!(d.header.timestamp.hlc.node_id, NodeId(7));
        assert_eq!(d.header.timestamp.wall.millis_since_epoch, 1_718_000_000_000);
        assert_eq!(d.header.timestamp.wall.timezone, "Europe/Zurich");
        assert_eq!(d.header.timestamp.quality, ClockQuality::Ptp);
    }
}

fn dummy_shard() -> ShardId {
    ShardId(0x044_0000_0000_0000_0000_0000_0000_0001)
}

#[test]
fn forward_to_leader_with_known_leader_id_maps_to_forward_variant() {
    let err = WriteFailure::ForwardToLeader { leader: Some(7) };
    let mapped = map_raft_error_with_forwarding(err, dummy_shard());
    match mapped {
        LogError::ForwardToLeader { shard_id, leader_node_id } => {
            assert_eq!(shard_id, dummy_shard());
            assert_eq!(leader_node_id, NodeId(7));
        }
        other => panic!("expected ForwardToLeader, got {other:?}"),
    }
}

#[test]
fn forward_to_leader_with_unknown_leader_id_falls_back_to_leader_unavailable() {
    let err = WriteFailure::ForwardToLeader { leader: None };
    let mapped = map_raft_error_with_forwarding(err, dummy_shard());
    match mapped {
        LogError::LeaderUnavailable(id) => assert_eq!(id, dummy_shard()),
        other => panic!("expected LeaderUnavailable, got {other:?}"),
    }
}

#[test]
fn raft_fatal_error_maps_to_unavailable() {
    let mapped = map_raft_error_with_forwarding(WriteFailure::Other, dummy_shard());
    assert!(
        matches!(mapped, LogError::Unavailable),
        "expected LogError::Unavailable, got {mapped:?}"
    );
}

#[test]
fn callers_that_do_not_forward_see_no_leader() {
    let err = WriteFailure::ForwardToLeader { leader: Some(7) };
    assert!(matches!(map_raft_error(err, dummy_shard()), LogError::LeaderUnavailable(_)));
}

#[test]
fn replicated_write_is_read_back() {
    let store = OpenRaftLogStore::new(3, test_shard(), test_tenant());
    let mut sm = ShardSmInner::new(test_shard(), test_tenant()).with_inline_store();
    let mut req = make_req(test_shard(), 5);
    req.has_inline_data = true;
    let cmd = store.append_delta(&sm, req).unwrap();
    let done = sm.apply_command_at(&cmd, 1, 1_000);
    assert_eq!(store.appended(Ok(done.response), true).unwrap(), SequenceNumber(1));
    let mut got = store.read_deltas(&sm, read(test_shard(), 1, 1)).unwrap();
    assert_eq!(got.len(), 1);
    let one = got.remove(0);
    assert_eq!(one.inline_key, Some(done.inline_puts[0].chunk_id));
    let delta = one.resolve(Some(done.inline_puts[0].payload.clone()));
    assert_eq!(delta.payload.ciphertext, vec![0xab; 64]);
    assert_eq!(delta.header.hashed_key, [5; 32]);
    assert_eq!(store.current_tip(&sm), SequenceNumber(1));
    assert_eq!(store.earliest_visible_seq(&sm), SequenceNumber(1));
    assert_eq!((store.node_id(), store.shard_id()), (3, test_shard()));
}

#[test]
fn writes_are_refused_in_maintenance() {
    let store = OpenRaftLogStore::new(1, test_shard(), test_tenant());
    let mut sm = ShardSmInner::new(test_shard(), test_tenant());
    assert!(matches!(
        store.append_intents(&sm, vec![]),
        Ok(IntentsStep::Answer(SequenceNumber(0)))
    ));
    sm.maintenance = true;
    assert!(store.is_maintenance(&sm));
    assert!(matches!(
        store.append_delta(&sm, make_req(test_shard(), 1)),
        Err(LogError::MaintenanceMode(ShardId(1)))
    ));
    assert!(matches!(store.append_intents(&sm, vec![]), Err(LogError::MaintenanceMode(_))));
}

#[test]
fn writes_outside_the_range_are_refused() {
    let store = OpenRaftLogStore::new(1, test_shard(), test_tenant());
    let mut sm = ShardSmInner::new(test_shard(), test_tenant());
    sm.range_start = [0x10; 32];
    sm.range_end = [0x20; 32];
    for key in [0x0f, 0x20] {
        assert!(matches!(
            store.append_delta(&sm, make_req(test_shard(), key)),
            Err(LogError::KeyOutOfRange(ShardId(1)))
        ));
    }
    for key in [0x10, 0x1f] {
        assert!(store.append_delta(&sm, make_req(test_shard(), key)).is_ok());
    }
    sm.maintenance = true;
    assert!(matches!(
        store.append_delta(&sm, make_req(test_shard(), 0x20)),
        Err(LogError::MaintenanceMode(_))
    ));
    assert_eq!(store.gc_boundary(&sm), SequenceNumber(0));
}

#[test]
fn a_write_is_checked_against_state_and_range() {
    let mut store = MemShardStore::new();
    store.create_shard(test_shard(), test_tenant(), NodeId(1), ShardConfig::default());
    store.update_shard_range(test_shard(), [0x10; 32], [0x20; 32]);
    let mut info = store.shard_health(test_shard()).unwrap();
    assert!(check_write(&info, test_shard(), &[0x10; 32]).is_ok());
    assert!(matches!(
        check_write(&info, test_shard(), &[0x20; 32]),
        Err(LogError::KeyOutOfRange(_))
    ));
    info.state = ShardState::Splitting;
    assert!(check_write(&info, test_shard(), &[0x10; 32]).is_ok());
    info.state = ShardState::Election;
    assert!(matches!(
        check_write(&info, test_shard(), &[0x10; 32]),
        Err(LogError::LeaderUnavailable(_))
    ));
    info.state = ShardState::QuorumLost;
    assert!(matches!(check_write(&info, test_shard(), &[0x10; 32]), Err(LogError::QuorumLost(_))));
    info.state = ShardState::Retiring;
    assert!(matches!(
        check_write(&info, test_shard(), &[0x10; 32]),
        Err(LogError::ShardBusy { reason: "shard retiring", .. })
    ));
    assert_eq!(cost_of_payload(64), 192);
    assert_eq!(cost_of_payload(0), 128);
}

#[test]
fn recorded_appends_survive_whole() {
    let operations = [
        OperationType::Create,
        OperationType::Update,
        OperationType::Delete,
        OperationType::Rename,
        OperationType::SetAttribute,
        OperationType::Finalize,
        OperationType::NamespaceCreate,
        OperationType::MigrateChunkLocations,
    ];
    let mut disk = Disk { records: vec![] };
    let mut store = disk.open();
    store.create_shard(test_shard(), test_tenant(), NodeId(1), ShardConfig::default());
    for op in operations {
        let mut req = make_req(test_shard(), 0x11);
        req.operation = op;
        req.chunk_refs = vec![ChunkId([4; 32]), ChunkId([9; 32])];
        disk.append(&mut store, req);
    }
    let again = disk.open();
    let got = again.mem.read_deltas(read(test_shard(), 1, 8)).unwrap();
    assert_eq!(got.len(), 8);
    for (delta, op) in got.iter().zip(operations) {
        assert_eq!(delta.header.operation, op);
        assert_eq!(delta.header.chunk_refs, vec![ChunkId([4; 32]), ChunkId([9; 32])]);
        assert_eq!(delta.payload.ciphertext, vec![0xab; 64]);
    }
    for code in [5, 6, 7, 8, 200] {
        disk.records[0].operation = code;
        assert_eq!(disk.records[0].to_request().operation, OperationType::Finalize);
    }
}

#[test]
fn short_codes_read_unknown_operations_as_finalize() {
    assert_eq!(shorten_op(OperationType::Delete), (2, 0));
    assert_eq!(shorten_op(OperationType::Finalize), (5, 0));
    for op in [OperationType::NamespaceCreate, OperationType::MigrateChunkLocations] {
        let (code, past) = shorten_op(op);
        assert_eq!(read_short_op(code, 0), OperationType::Finalize);
        assert_eq!(read_short_op(code, past), op);
    }
    assert_eq!(read_short_op(6, 0), OperationType::Finalize);
    assert_eq!(read_short_op(7, 0), OperationType::Finalize);
}

#[test]
fn restart_restores_every_shard_in_order() {
    let mut disk = Disk { records: vec![] };
    let mut store = disk.open();
    let ids = [ShardId(1), ShardId(2)];
    for id in ids {
        store.create_shard(id, test_tenant(), NodeId(1), ShardConfig::default());
    }
    for i in 0u8..6 {
        let mut req = make_req(ids[usize::from(i % 2)], 0x10 + i);
        req.timestamp.hlc.physical_ms = 900 + u64::from(i);
        disk.append(&mut store, req);
    }
    let again = disk.open();
    for (n, id) in ids.iter().enumerate() {
        let got = again.mem.read_deltas(read(*id, 1, 3)).unwrap();
        let seen: Vec<(u64, u8, u64)> = got
            .iter()
            .map(|d| {
                let h = &d.header;
                (h.sequence.0, h.hashed_key[0], h.timestamp.hlc.physical_ms)
            })
            .collect();
        let n = n as u64;
        let wanted: Vec<(u64, u8, u64)> =
            (0..3).map(|k| (k + 1, (0x10 + 2 * k + n) as u8, 900 + 2 * k + n)).collect();
        assert_eq!(seen, wanted);
    }
}

#[test]
fn moved_delta_keeps_its_timestamp() {
    let store = OpenRaftLogStore::new(3, test_shard(), test_tenant());
    let mut sm = ShardSmInner::new(test_shard(), test_tenant());
    let appended = store.append_delta(&sm, make_req(test_shard(), 4)).unwrap();
    let _ = sm.apply_command_at(&appended, 1, 1_000);
    let cmd = store.move_delta(&sm, make_req(test_shard(), 5)).unwrap();
    let done = sm.apply_command_at(&cmd, 2, 1_000);
    assert_eq!(store.appended(Ok(done.response), false).unwrap(), SequenceNumber(2));
    let got = store.read_deltas(&sm, read(test_shard(), 1, 2)).unwrap();
    assert_eq!(got[1].delta.header.timestamp, test_timestamp());
    assert_eq!(got[1].delta.payload.ciphertext, vec![0xab; 64]);
    assert_ne!(got[0].delta.header.timestamp, test_timestamp());

    sm.range_end = [0x20; 32];
    assert!(matches!(
        store.move_delta(&sm, make_req(test_shard(), 0x20)),
        Err(LogError::KeyOutOfRange(ShardId(1)))
    ));
    sm.maintenance = true;
    assert!(matches!(
        store.move_delta(&sm, make_req(test_shard(), 5)),
        Err(LogError::MaintenanceMode(ShardId(1)))
    ));
}

#[test]
fn command_log_keeps_every_operation() {
    let mut store = fresh_raft_store();
    let operations = [
        OperationType::Finalize,
        OperationType::NamespaceCreate,
        OperationType::MigrateChunkLocations,
    ];
    for op in operations {
        let mut req = make_req(test_shard(), 0x11);
        req.operation = op;
        store.append_delta(req).unwrap();
        let mut req = make_req(test_shard(), 0x11);
        req.operation = op;
        store.move_delta(req).unwrap();
    }
    let got = store.read_deltas(read(test_shard(), 1, 6)).unwrap();
    for (i, delta) in got.iter().enumerate() {
        assert_eq!(delta.header.operation, operations[i / 2]);
        assert_eq!(delta.header.timestamp == test_timestamp(), i % 2 == 1);
    }
}

#[test]
fn answers_of_consensus_are_read() {
    let store = OpenRaftLogStore::new(1, test_shard(), test_tenant());
    assert!(store.appended(Ok(LogResponse::Done), false).is_err());
    assert!(store.written(Ok(LogResponse::Done)).is_ok());
    assert!(store.written(Err(WriteFailure::Other)).is_err());
    assert!(store.decremented(Ok(LogResponse::DecrementOutcome(true))).unwrap());
    assert!(!store.decremented(Ok(LogResponse::Done)).unwrap());
}

#[test]
fn group_is_initialised_once() {
    assert!(membership_initialized(Ok(())).is_ok());
    assert!(membership_initialized(Err("already initialized".to_string())).is_ok());
    assert!(membership_initialized(Err("not allowed to initialize".to_string())).is_ok());
    assert!(matches!(
        membership_initialized(Err("disk".to_string())),
        Err(LogError::Unavailable)
    ));
    assert_eq!(initial_members(vec![]), vec![(1, "localhost:9201".to_string())]);
    let peers = vec![(4, "a:1".to_string()), (5, "b:2".to_string())];
    assert_eq!(initial_members(peers.clone()), peers);
    assert_eq!(fsync_coalescing(Some("200"), Some("8")), Some((200, 8)));
    assert_eq!(fsync_coalescing(Some("200"), None), None);
}

#[test]
fn replica_is_planned_from_its_settings() {
    let alone = plan_replica(1, false, Some("200"), Some("8"));
    assert_eq!(alone, ReplicaPlan { backend: LogBackend::Memory, networked: false });
    let plain = plan_replica(3, true, Some("200"), Some("0"));
    assert_eq!(plain, ReplicaPlan { backend: LogBackend::Disk, networked: true });
    let shared = plan_replica(0, true, Some("200"), Some("8"));
    assert_eq!(
        shared,
        ReplicaPlan {
            backend: LogBackend::DiskCoalesced { window_us: 200, max_batch: 8 },
            networked: false,
        }
    );
    assert_eq!(
        log_name(ShardId(1)),
        "shard-00000000-0000-0000-0000-000000000001"
    );

    let said = |plan: ReplicaPlan, step: ConstructionStep| -> String {
        match construction_error(plan, step, "/data/raft", "disk full") {
            LogError::StoreConstruction(m) => m,
            _ => panic!("not a construction error"),
        }
    };
    assert_eq!(
        said(plain, ConstructionStep::CreateDirectory),
        "create_dir_all(/data/raft): disk full"
    );
    assert_eq!(said(plain, ConstructionStep::OpenLog), "fjall open at /data/raft: disk full");
    assert_eq!(
        said(shared, ConstructionStep::OpenLog),
        "fjall open (coalesced) at /data/raft: disk full"
    );
    assert_eq!(
        said(plain, ConstructionStep::StartReplica),
        "Raft::new multi-node: disk full"
    );
    assert_eq!(
        said(shared, ConstructionStep::StartReplica),
        "Raft::new single-node: disk full"
    );
    assert_eq!(
        said(alone, ConstructionStep::StartReplica),
        "Raft::new single-node (mem-store): disk full"
    );
}

#[test]
fn inline_rate_is_measured_over_the_window() {
    let mut m = InlineRateMeter::new(10);
    m.window_start_ms = 1_000;
    // Ten mebibytes after one second are exactly the budget.
    assert!(!m.record_at(10 * 1024 * 1024, 2_000));
    assert!(m.record_at(1, 2_000));
    assert!(m.is_exceeded_at(2_000));
    assert!(!m.is_exceeded_at(3_000));
    // Past the window a new one starts.
    assert!(!m.record_at(1, 11_001));
    assert_eq!(m.window_bytes, 1);
    assert_eq!(m.window_start_ms, 11_001);
}

#[test]
fn operations_have_codes() {
    for (code, op) in [
        (0, OperationType::Create),
        (1, OperationType::Update),
        (2, OperationType::Delete),
        (3, OperationType::Rename),
        (4, OperationType::SetAttribute),
        (5, OperationType::Finalize),
    ] {
        assert_eq!(op_to_u8(op), code);
        assert_eq!(u8_to_op(code), op);
    }
}

#[test]
fn states_have_codes() {
    for code in 0..=6u8 {
        assert_eq!(ShardState::from_u8(code).unwrap().as_u8(), code);
    }
    assert_eq!(ShardState::from_u8(7), None);
    assert!(ShardState::Healthy.accepts_writes());
    assert!(!ShardState::Maintenance.accepts_writes());
    assert!(ShardState::Merging.is_busy());
}

#[test]
fn errors_are_seen_by_their_kind() {
    assert_eq!(
        LogError::QuorumLost(ShardId(1)).into_kiseki(),
        KisekiError::Retriable(RetriableError::QuorumLost(ShardId(1)))
    );
    assert_eq!(
        LogError::ShardNotFound(ShardId(1)).into_kiseki(),
        KisekiError::Permanent(PermanentError::DataCorruption(ShardId(1)))
    );
    assert_eq!(
        LogError::Io("full".to_string()).into_kiseki(),
        KisekiError::Permanent(PermanentError::InvariantViolation(
            "log I/O error: full".to_string()
        ))
    );
    assert_eq!(
        LogError::ShardNotFound(ShardId(0xff)).message(),
        "shard not found: ShardId(00000000-0000-0000-0000-0000000000ff)"
    );
    assert_eq!(
        LogError::ForwardToLeader { shard_id: ShardId(1), leader_node_id: NodeId(7) }.message(),
        "forward to leader: shard=ShardId(00000000-0000-0000-0000-000000000001) leader=NodeId(7)"
    );
}

#[test]
fn outcomes_are_labelled() {
    assert_eq!(outcome_for(&LogError::ShardNotFound(ShardId(1))), outcome::SHARD_NOT_FOUND);
    assert_eq!(outcome_for(&LogError::Unavailable), outcome::ERROR);
    let forwarded: Result<(), LogError> =
        Err(LogError::ForwardToLeader { shard_id: ShardId(1), leader_node_id: NodeId(2) });
    assert_eq!(outcome_label(&forwarded), "forward_to_leader");
    assert_eq!(outcome_label(&Ok::<u8, LogError>(1)), "ok");
    assert_eq!(compaction_record(&Ok(12)), ("ok", 12));
    assert_eq!(compaction_record(&Err(LogError::Unavailable)), ("error", 0));
    assert_eq!(gauge_value(42), 42);
    assert_eq!(gauge_value(u64::MAX), i64::MAX);
}

#[test]
fn watermarks_give_the_boundary() {
    let mut w = ConsumerWatermarks::new();
    assert_eq!(w.gc_boundary(), None);
    w.register("a", SequenceNumber(5));
    w.advance("b", SequenceNumber(3));
    assert_eq!(w.gc_boundary(), Some(SequenceNumber(3)));
    w.advance("b", SequenceNumber(9));
    assert_eq!(w.gc_boundary(), Some(SequenceNumber(5)));
    assert_eq!(w.as_vec(), vec![("a".to_string(), 5), ("b".to_string(), 9)]);
}
