//! Splits: ceilings, midpoints, plans and their execution.

use kiseki_log::auto_split::{
    check_split, compute_midpoint, execute_split, plan_split, plan_split_into, SplitCheck,
};
use kiseki_log::delta::OperationType;
use kiseki_log::error::LogError;
use kiseki_log::ids::{ChunkId, NodeId, OrgId, SequenceNumber, ShardId};
use kiseki_log::raft_store::RaftLogStore;
use kiseki_log::shard::{ShardConfig, ShardInfo, ShardState};
use kiseki_log::time::{ClockQuality, DeltaTimestamp, HybridLogicalClock, WallTime};
use kiseki_log::traits::{AppendDeltaRequest, LogOps, ReadDeltasRequest};

fn full_range_info(delta_count: u64, byte_size: u64) -> ShardInfo {
    ShardInfo {
        shard_id: ShardId(1),
        tenant_id: OrgId(100),
        raft_members: vec![NodeId(1)],
        leader: Some(NodeId(1)),
        tip: SequenceNumber(delta_count),
        delta_count,
        byte_size,
        state: ShardState::Healthy,
        config: ShardConfig {
            max_delta_count: 100,
            max_byte_size: 1024,
            ..ShardConfig::default()
        },
        range_start: [0u8; 32],
        range_end: [0xFFu8; 32],
    }
}

fn request(shard_id: ShardId, key: u8) -> AppendDeltaRequest {
    AppendDeltaRequest {
        shard_id,
        tenant_id: OrgId(100),
        operation: OperationType::Create,
        timestamp: DeltaTimestamp {
            hlc: HybridLogicalClock { physical_ms: 7, logical: 0, node_id: NodeId(1) },
            wall: WallTime { millis_since_epoch: 7, timezone: "UTC".to_owned() },
            quality: ClockQuality::Ntp,
        },
        hashed_key: [key; 32],
        chunk_refs: vec![ChunkId([key; 32])],
        payload: vec![key, 1, 2],
        has_inline_data: false,
    }
}

#[test]
fn check_split_ok() {
    let info = full_range_info(50, 500);
    assert_eq!(check_split(&info), SplitCheck::Within);
}

#[test]
fn check_split_delta_exceeded() {
    let info = full_range_info(100, 500);
    assert!(matches!(check_split(&info), SplitCheck::DeltaCountExceeded { .. }));
}

#[test]
fn check_split_byte_exceeded() {
    let info = full_range_info(50, 1024);
    assert!(matches!(check_split(&info), SplitCheck::ByteSizeExceeded { .. }));
}

#[test]
fn split_check_names_the_ceiling() {
    assert_eq!(
        check_split(&full_range_info(101, 5000)),
        SplitCheck::DeltaCountExceeded { current: 101, threshold: 100 }
    );
    assert_eq!(
        check_split(&full_range_info(99, 5000)),
        SplitCheck::ByteSizeExceeded { current: 5000, threshold: 1024 }
    );
}

#[test]
fn midpoint_full_range() {
    let start = [0u8; 32];
    let end = [0xFFu8; 32];
    let mid = compute_midpoint(&start, &end).unwrap();
    // The middle of the key space starts with 0x7F.
    assert_eq!(mid[0], 0x7F);
}

#[test]
fn midpoint_adjacent_values() {
    let start = [0x80u8; 32];
    let mut end = [0x80u8; 32];
    end[31] = 0x81;
    // The sum of adjacent values halves to the lower one, which is rejected.
    let mid = compute_midpoint(&start, &end);
    assert!(mid.is_none() || mid == Some(start));
}

#[test]
fn midpoint_carries_past_the_top_byte() {
    let start = [0xF0u8; 32];
    let end = [0xFEu8; 32];
    assert_eq!(compute_midpoint(&start, &end), Some([0xF7u8; 32]));
    assert_eq!(compute_midpoint(&start, &start), None);
}

#[test]
fn plan_split_no_action_needed() {
    let info = full_range_info(50, 500);
    assert!(plan_split(&info).is_none());
}

#[test]
fn plan_split_creates_plan() {
    let info = full_range_info(200, 500);
    let plan = plan_split(&info).unwrap();
    assert_eq!(plan.original_shard, info.shard_id);
    assert_eq!(plan.tenant_id, info.tenant_id);
    assert_eq!(plan.range_start, [0u8; 32]);
    assert_eq!(plan.range_end, [0xFFu8; 32]);
    assert!(plan.midpoint[0] >= 0x7F);
}

#[test]
fn planned_shards_get_fresh_version_four_identifiers() {
    let info = full_range_info(200, 500);
    let a = plan_split(&info).unwrap().new_shard.0;
    let b = plan_split(&info).unwrap().new_shard.0;
    assert_ne!(a, b);
    assert_eq!((a >> 76) & 0xF, 4);
    assert_eq!((a >> 62) & 0x3, 2);
}

#[test]
fn plan_without_leader_starts_on_node_one() {
    let mut info = full_range_info(200, 500);
    info.leader = None;
    let plan = plan_split_into(&info, ShardId(9)).unwrap();
    assert_eq!(plan.initial_node, NodeId(1));
    assert_eq!(plan.new_shard, ShardId(9));
    info.leader = Some(NodeId(4));
    assert_eq!(plan_split_into(&info, ShardId(9)).unwrap().initial_node, NodeId(4));
}

#[test]
fn execute_split_creates_new_shard() {
    let mut store = RaftLogStore::new();
    let info = full_range_info(200, 500);

    store.create_shard(info.shard_id, info.tenant_id, NodeId(1), ShardConfig::default());

    let plan = plan_split(&info).unwrap();
    execute_split(&mut store, &plan).unwrap();

    let health = store.shard_health(plan.new_shard);
    assert!(health.is_ok());
}

#[test]
fn split_moves_the_upper_half_in_order() {
    let mut store = RaftLogStore::new();
    let info = full_range_info(200, 500);
    store.create_shard(info.shard_id, info.tenant_id, NodeId(1), ShardConfig::default());
    for key in [0x10u8, 0x90, 0x7F, 0x80, 0x20, 0xA0] {
        store.append_delta(request(info.shard_id, key)).unwrap();
    }
    let plan = plan_split_into(&info, ShardId(2)).unwrap();
    execute_split(&mut store, &plan).unwrap();
    let moved = store
        .read_deltas(ReadDeltasRequest {
            shard_id: ShardId(2),
            from: SequenceNumber(0),
            to: SequenceNumber(u64::MAX),
        })
        .unwrap();
    let keys: Vec<u8> = moved.iter().map(|d| d.header.hashed_key[0]).collect();
    let seqs: Vec<u64> = moved.iter().map(|d| d.header.sequence.0).collect();
    assert_eq!(keys, vec![0x90, 0x80, 0xA0]);
    assert_eq!(seqs, vec![1, 2, 3]);
    assert_eq!(moved[0].payload.ciphertext, vec![0x90, 1, 2]);

    // The ranges meet at the midpoint, and the shard that was split takes no key of the
    // upper half any more.
    let lower = store.shard_health(info.shard_id).unwrap();
    let upper = store.shard_health(ShardId(2)).unwrap();
    assert_eq!(lower.range_end, plan.midpoint);
    assert_eq!(upper.range_start, plan.midpoint);
    assert_eq!(upper.range_end, [0xFFu8; 32]);
    assert!(matches!(
        store.append_delta(request(info.shard_id, 0x90)),
        Err(LogError::KeyOutOfRange(_))
    ));
    assert!(store.append_delta(request(ShardId(2), 0x90)).is_ok());
}

#[test]
fn split_ends_healthy_and_spares_a_merge() {
    let info = full_range_info(200, 500);
    let plan = plan_split_into(&info, ShardId(2)).unwrap();
    for (state, after) in [
        (ShardState::Splitting, ShardState::Healthy),
        (ShardState::Healthy, ShardState::Healthy),
        (ShardState::Maintenance, ShardState::Maintenance),
    ] {
        let mut store = RaftLogStore::new();
        store.create_shard(info.shard_id, info.tenant_id, NodeId(1), ShardConfig::default());
        store.set_shard_state(info.shard_id, state);
        execute_split(&mut store, &plan).unwrap();
        assert_eq!(store.shard_health(info.shard_id).unwrap().state, after);
    }
    let mut store = RaftLogStore::new();
    store.create_shard(info.shard_id, info.tenant_id, NodeId(1), ShardConfig::default());
    store.set_shard_state(info.shard_id, ShardState::Merging);
    assert!(matches!(
        execute_split(&mut store, &plan),
        Err(LogError::ShardBusy { reason: "merge in progress", .. })
    ));
    assert!(!store.has_shard(ShardId(2)));
}

#[test]
fn pruned_shard_is_not_split() {
    let mut store = RaftLogStore::new();
    let info = full_range_info(200, 500);
    store.create_shard(info.shard_id, info.tenant_id, NodeId(1), ShardConfig::default());
    for key in [0x10u8, 0x90] {
        store.append_delta(request(info.shard_id, key)).unwrap();
    }
    store.register_consumer(info.shard_id, "views", SequenceNumber(2)).unwrap();
    let plan = plan_split_into(&info, ShardId(2)).unwrap();
    assert!(matches!(
        execute_split(&mut store, &plan),
        Err(LogError::DeltaLogPruned { gc_boundary: 2, .. })
    ));
    assert!(!store.has_shard(ShardId(2)));
}

#[test]
fn split_of_a_missing_shard_is_an_error() {
    let mut store = RaftLogStore::new();
    let plan = plan_split_into(&full_range_info(200, 500), ShardId(2)).unwrap();
    assert!(matches!(
        execute_split(&mut store, &plan),
        Err(LogError::ShardNotFound(ShardId(1)))
    ));
}
