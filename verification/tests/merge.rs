//! Merges: order of deltas, preparation, copy and end.

use std::cmp::Ordering;

use kiseki_log::ids::{NodeId, OrgId, SequenceNumber, ShardId};
use kiseki_log::merge::{
    abort_merge, complete_merge, copy_phase, merge_ordering_tiebreak, prepare_merge,
    prepare_merge_into, restore_inputs, MergeAbortReason,
};
use kiseki_log::raft_shard_store::{merge_shards, redistribute_upper_half, split_shard};
use kiseki_log::time::{ClockQuality, DeltaTimestamp, HybridLogicalClock, TimestampView, WallTime};
use kiseki_log::traits::{AppendView, ShardModels};
use kiseki_log::{
    AppendDeltaRequest, Delta, LogError, LogOps, MemShardStore, OperationType, RaftLogStore,
    ReadDeltasRequest, ShardConfig, ShardInfo, ShardState,
};

#[test]
fn hlc_tiebreak_lower_shard_id_first() {
    let hlc = HybridLogicalClock { physical_ms: 5000, logical: 42, node_id: NodeId(1) };
    let shard_lower = ShardId(1);
    let shard_higher = ShardId(2);

    let ordering = merge_ordering_tiebreak(&hlc, &hlc, shard_lower, shard_higher);
    assert_eq!(ordering, Ordering::Less);

    let ordering = merge_ordering_tiebreak(&hlc, &hlc, shard_higher, shard_lower);
    assert_eq!(ordering, Ordering::Greater);
}

#[test]
fn hlc_tiebreak_deterministic_and_reproducible() {
    let hlc = HybridLogicalClock { physical_ms: 5000, logical: 42, node_id: NodeId(1) };
    let shard_f1 = ShardId(100);
    let shard_f2 = ShardId(200);

    for _ in 0..100 {
        let ordering = merge_ordering_tiebreak(&hlc, &hlc, shard_f1, shard_f2);
        assert_eq!(ordering, Ordering::Less, "lower ShardId must always come first");
    }
}

#[test]
fn hlc_ordering_dominates_when_different() {
    let hlc_earlier = HybridLogicalClock { physical_ms: 4000, logical: 0, node_id: NodeId(1) };
    let hlc_later = HybridLogicalClock { physical_ms: 5000, logical: 0, node_id: NodeId(1) };
    let shard_higher = ShardId(999);
    let shard_lower = ShardId(1);

    let ordering = merge_ordering_tiebreak(&hlc_earlier, &hlc_later, shard_higher, shard_lower);
    assert_eq!(ordering, Ordering::Less);
}

fn request(shard_id: ShardId, key: u8, ms: u64) -> AppendDeltaRequest {
    AppendDeltaRequest {
        shard_id,
        tenant_id: OrgId(7),
        operation: OperationType::Create,
        timestamp: DeltaTimestamp {
            hlc: HybridLogicalClock { physical_ms: ms, logical: 0, node_id: NodeId(1) },
            wall: WallTime { millis_since_epoch: ms, timezone: "UTC".to_string() },
            quality: ClockQuality::Ntp,
        },
        hashed_key: [key; 32],
        chunk_refs: vec![],
        payload: vec![key],
        has_inline_data: false,
    }
}

fn keys(store: &MemShardStore, shard_id: ShardId) -> Vec<u8> {
    store
        .read_deltas(ReadDeltasRequest {
            shard_id,
            from: SequenceNumber(1),
            to: SequenceNumber(1_000),
        })
        .unwrap()
        .iter()
        .map(|d| d.header.hashed_key[0])
        .collect()
}

/// Two adjacent shards: keys below 0x80, and the others.
fn two_shards() -> MemShardStore {
    let mut store = MemShardStore::new();
    for id in [ShardId(1), ShardId(2)] {
        store.create_shard(id, OrgId(7), NodeId(1), ShardConfig::default());
    }
    store.update_shard_range(ShardId(1), [0; 32], [0x80; 32]);
    store.update_shard_range(ShardId(2), [0x80; 32], [0xff; 32]);
    store.append_delta(request(ShardId(1), 0x30, 5)).unwrap();
    store.append_delta(request(ShardId(1), 0x10, 6)).unwrap();
    store.append_delta(request(ShardId(2), 0x90, 1)).unwrap();
    store
}

#[test]
fn merge_copies_both_inputs_in_key_order() {
    let mut store = two_shards();
    let state =
        prepare_merge_into(&mut store, ShardId(1), ShardId(2), OrgId(7), ShardId(3)).unwrap();
    assert_eq!(state.hwm_a, SequenceNumber(2));
    assert_eq!(state.hwm_b, SequenceNumber(1));
    assert_eq!(store.shard_health(ShardId(1)).unwrap().state, ShardState::Merging);
    let merged = store.shard_health(ShardId(3)).unwrap();
    assert_eq!((merged.range_start, merged.range_end), ([0; 32], [0xff; 32]));

    assert_eq!(copy_phase(&mut store, &state).unwrap(), 3);
    assert_eq!(keys(&store, ShardId(3)), vec![0x10, 0x30, 0x90]);
    let done = complete_merge(&state);
    assert_eq!(done.input_shards, [ShardId(1), ShardId(2)]);
    assert_eq!(done.merged_shard, ShardId(3));
    assert_eq!((done.range_start, done.range_end), ([0; 32], [0xff; 32]));
}

#[test]
fn merge_that_is_given_up_restores_its_inputs() {
    let mut store = two_shards();
    let state = prepare_merge(&mut store, ShardId(1), ShardId(2), OrgId(7)).unwrap();
    // Two merges at once are refused.
    match prepare_merge(&mut store, ShardId(1), ShardId(2), OrgId(7)) {
        Err(LogError::ShardBusy { shard_id, reason }) => {
            assert_eq!(shard_id, ShardId(1));
            assert_eq!(reason, "merge in progress");
        }
        other => panic!("expected ShardBusy, got {other:?}"),
    }
    let event = abort_merge(&state, MergeAbortReason::CutoverBudgetExceeded);
    assert_eq!(event.input_shards, [ShardId(1), ShardId(2)]);
    assert_eq!(event.reason, MergeAbortReason::CutoverBudgetExceeded);
    restore_inputs(&mut store, &state);
    assert_eq!(store.shard_health(ShardId(1)).unwrap().state, ShardState::Healthy);
    assert_eq!(store.shard_health(ShardId(2)).unwrap().state, ShardState::Healthy);
}

#[test]
fn merge_of_distant_shards_is_refused() {
    let mut store = two_shards();
    match prepare_merge(&mut store, ShardId(2), ShardId(1), OrgId(7)) {
        Err(LogError::ShardBusy { reason, .. }) => assert_eq!(reason, "shards are not adjacent"),
        other => panic!("expected ShardBusy, got {other:?}"),
    }
    assert!(matches!(
        prepare_merge(&mut store, ShardId(8), ShardId(1), OrgId(7)),
        Err(LogError::ShardNotFound(ShardId(8)))
    ));
}

#[test]
fn split_moves_the_upper_half() {
    let mut store = MemShardStore::new();
    store.create_shard(ShardId(1), OrgId(7), NodeId(1), ShardConfig::default());
    for key in [0x10, 0x90, 0x20, 0xa0] {
        store.append_delta(request(ShardId(1), key, 1)).unwrap();
    }
    let new = split_shard(&mut store, ShardId(1), ShardId(2), NodeId(1)).unwrap();
    assert_eq!(new, ShardId(2));
    let source = store.shard_health(ShardId(1)).unwrap();
    let target = store.shard_health(ShardId(2)).unwrap();
    assert_eq!(source.state, ShardState::Healthy);
    assert_eq!(source.range_end, target.range_start);
    let mut midpoint = [0xff; 32];
    midpoint[0] = 0x7f;
    assert_eq!(source.range_end, midpoint);
    assert_eq!(target.range_end, [0xff; 32]);
    assert_eq!(keys(&store, ShardId(2)), vec![0x90, 0xa0]);
    assert!(matches!(
        split_shard(&mut store, ShardId(9), ShardId(2), NodeId(1)),
        Err(LogError::ShardNotFound(ShardId(9)))
    ));
}

#[test]
fn split_point_is_the_average_of_the_ends() {
    let mut store = MemShardStore::new();
    store.create_shard(ShardId(1), OrgId(7), NodeId(1), ShardConfig::default());
    store.update_shard_range(ShardId(1), [0x01; 32], [0x03; 32]);
    for key in [0x01, 0x02] {
        store.append_delta(request(ShardId(1), key, 40)).unwrap();
    }
    let new = split_shard(&mut store, ShardId(1), ShardId(2), NodeId(1)).unwrap();
    assert_eq!(new, ShardId(2));
    let a = store.shard_health(ShardId(1)).unwrap();
    let b = store.shard_health(ShardId(2)).unwrap();
    assert_eq!((a.range_start, a.range_end), ([0x01; 32], [0x02; 32]));
    assert_eq!((b.range_start, b.range_end), ([0x02; 32], [0x03; 32]));
    assert_eq!(a.state, ShardState::Healthy);
    assert_eq!(keys(&store, ShardId(2)), vec![0x02]);
    let moved = store
        .read_deltas(ReadDeltasRequest {
            shard_id: ShardId(2),
            from: SequenceNumber(1),
            to: SequenceNumber(1),
        })
        .unwrap();
    assert_eq!(moved[0].header.timestamp.hlc.physical_ms, 40);
}

#[test]
fn busy_shard_rejects_the_other_operation() {
    let mut store = two_shards();
    store.set_shard_state(ShardId(1), ShardState::Merging);
    assert!(matches!(
        split_shard(&mut store, ShardId(1), ShardId(3), NodeId(1)),
        Err(LogError::ShardBusy { shard_id: ShardId(1), reason: "merge in progress" })
    ));
    assert!(!store.has_shard(ShardId(3)));
    assert!(merge_shards(&mut store, ShardId(2), ShardId(1)).is_ok());

    let mut store = two_shards();
    store.set_shard_state(ShardId(1), ShardState::Splitting);
    for (target, source) in [(ShardId(1), ShardId(2)), (ShardId(2), ShardId(1))] {
        assert!(matches!(
            merge_shards(&mut store, target, source),
            Err(LogError::ShardBusy { shard_id: ShardId(1), reason: "split in progress" })
        ));
    }
    assert_eq!(store.shard_health(ShardId(2)).unwrap().state, ShardState::Healthy);
}

/// A shard with two deltas and a consumer that is past the first of them.
fn pruned_store() -> RaftLogStore {
    let mut store = RaftLogStore::new();
    for id in [ShardId(1), ShardId(2)] {
        store.create_shard(id, OrgId(7), NodeId(1), ShardConfig::default());
    }
    for key in [0x10, 0x90] {
        store.append_delta(request(ShardId(1), key, 1)).unwrap();
    }
    store.register_consumer(ShardId(1), "views", SequenceNumber(1)).unwrap();
    store
}

#[test]
fn pruned_log_is_not_replayed() {
    let upper = ([0x80; 32], [0xff; 32]);
    let mut store = pruned_store();
    assert_eq!(store.gc_boundary(ShardId(1)).unwrap(), SequenceNumber(1));
    assert_eq!(store.gc_boundary(ShardId(2)).unwrap(), SequenceNumber(0));
    assert!(store.gc_boundary(ShardId(9)).is_err());
    assert_eq!(
        redistribute_upper_half(&mut store, ShardId(1), ShardId(2), upper.0, upper.1).unwrap(),
        1
    );

    let mut store = pruned_store();
    store.advance_watermark(ShardId(1), "views", SequenceNumber(2)).unwrap();
    match redistribute_upper_half(&mut store, ShardId(1), ShardId(2), upper.0, upper.1) {
        Err(LogError::DeltaLogPruned { shard_id, gc_boundary }) => {
            assert_eq!((shard_id, gc_boundary), (ShardId(1), 2));
        }
        other => panic!("expected DeltaLogPruned, got {other:?}"),
    }
    assert_eq!(store.shard_health(ShardId(2)).unwrap().delta_count, 0);

    let split = split_shard(&mut store, ShardId(1), ShardId(3), NodeId(1));
    assert!(matches!(split, Err(LogError::DeltaLogPruned { gc_boundary: 2, .. })));
    assert_eq!(store.shard_health(ShardId(3)).unwrap().delta_count, 0);
}

#[test]
fn pruned_input_is_not_merged() {
    let mut store = pruned_store();
    store.update_shard_range(ShardId(1), [0; 32], [0x80; 32]);
    store.update_shard_range(ShardId(2), [0x80; 32], [0xff; 32]);
    let state =
        prepare_merge_into(&mut store, ShardId(1), ShardId(2), OrgId(7), ShardId(3)).unwrap();
    store.advance_watermark(ShardId(1), "views", SequenceNumber(2)).unwrap();
    assert!(matches!(
        copy_phase(&mut store, &state),
        Err(LogError::DeltaLogPruned { shard_id: ShardId(1), gc_boundary: 2 })
    ));
    assert_eq!(store.shard_health(ShardId(3)).unwrap().delta_count, 0);
}

#[test]
fn redistribution_reads_past_one_batch() {
    let mut store = MemShardStore::new();
    for id in [ShardId(1), ShardId(2)] {
        store.create_shard(id, OrgId(7), NodeId(1), ShardConfig::default());
    }
    for i in 0..2_500u64 {
        store.append_delta(request(ShardId(1), (i % 200) as u8, i)).unwrap();
    }
    let n =
        redistribute_upper_half(&mut store, ShardId(1), ShardId(2), [0x80; 32], [0xff; 32]).unwrap();
    let upper = (0..2_500u64).filter(|i| i % 200 >= 0x80).count() as u64;
    assert_eq!(n, upper);
    assert_eq!(store.shard_health(ShardId(2)).unwrap().delta_count, upper);
}

#[test]
fn split_keeps_the_timestamps_of_a_replicated_shard() {
    let mut store = RaftLogStore::new();
    store.create_shard(ShardId(1), OrgId(7), NodeId(1), ShardConfig::default());
    store.create_shard(ShardId(2), OrgId(7), NodeId(1), ShardConfig::default());
    for (i, key) in [0x10, 0x90, 0xa0].iter().enumerate() {
        store.move_delta(request(ShardId(1), *key, 700 + i as u64)).unwrap();
    }
    store.append_delta(request(ShardId(2), 0xe0, 5)).unwrap();
    let moved =
        redistribute_upper_half(&mut store, ShardId(1), ShardId(2), [0x80; 32], [0xff; 32]).unwrap();
    assert_eq!(moved, 2);
    split_shard(&mut store, ShardId(1), ShardId(3), NodeId(1)).unwrap();
    for (id, from) in [(ShardId(2), 2), (ShardId(3), 1)] {
        let got = store
            .read_deltas(ReadDeltasRequest {
                shard_id: id,
                from: SequenceNumber(from),
                to: SequenceNumber(from + 1),
            })
            .unwrap();
        let seen: Vec<(u64, u8, u64, u64)> = got
            .iter()
            .map(|d| {
                let h = &d.header;
                (
                    h.sequence.0,
                    h.hashed_key[0],
                    h.timestamp.hlc.physical_ms,
                    h.timestamp.wall.millis_since_epoch,
                )
            })
            .collect();
        assert_eq!(seen, vec![(from, 0x90, 701, 701), (from + 1, 0xa0, 702, 702)]);
    }
}

/// A backend that puts a number of shards in maintenance and then fails.
struct ShortLog {
    inner: MemShardStore,
    room: usize,
}

impl LogOps for ShortLog {
    fn shards(&self) -> ShardModels {
        unreachable!("a ghost function has no value")
    }

    fn ready(&self) -> bool {
        true
    }

    fn reliable(&self) -> bool {
        false
    }

    fn stamp(&self, _req: AppendView) -> TimestampView {
        unreachable!("a ghost function has no value")
    }

    fn keeps_timestamps() -> bool {
        true
    }

    fn create_shard(&mut self, shard: ShardId, tenant: OrgId, node: NodeId, config: ShardConfig) {
        self.inner.create_shard(shard, tenant, node, config);
    }

    fn append_delta(&mut self, req: AppendDeltaRequest) -> Result<SequenceNumber, LogError> {
        self.inner.append_delta(req)
    }

    fn move_delta(&mut self, req: AppendDeltaRequest) -> Result<SequenceNumber, LogError> {
        self.inner.move_delta(req)
    }

    fn read_deltas(&self, req: ReadDeltasRequest) -> Result<Vec<Delta>, LogError> {
        self.inner.read_deltas(req)
    }

    fn has_shard(&self, shard_id: ShardId) -> bool {
        self.inner.has_shard(shard_id)
    }

    fn shard_health(&self, shard_id: ShardId) -> Result<ShardInfo, LogError> {
        self.inner.shard_health(shard_id)
    }

    fn gc_boundary(&self, shard_id: ShardId) -> Result<SequenceNumber, LogError> {
        self.inner.gc_boundary(shard_id)
    }

    fn set_maintenance(&mut self, shard_id: ShardId, enabled: bool) -> Result<(), LogError> {
        if self.room == 0 {
            return Err(LogError::Unavailable);
        }
        self.room -= 1;
        self.inner.set_maintenance(shard_id, enabled)
    }

    fn update_shard_range(&mut self, shard_id: ShardId, start: [u8; 32], end: [u8; 32]) {
        self.inner.update_shard_range(shard_id, start, end);
    }

    fn set_shard_state(&mut self, shard_id: ShardId, state: ShardState) {
        self.inner.set_shard_state(shard_id, state);
    }
}

#[test]
fn failed_preparation_leaves_at_most_the_first_input_in_maintenance() {
    for room in [0, 1] {
        let mut log = ShortLog { inner: two_shards(), room };
        assert!(prepare_merge_into(&mut log, ShardId(1), ShardId(2), OrgId(7), ShardId(3)).is_err());
        let first = log.inner.shard_health(ShardId(1)).unwrap().state;
        assert_eq!(first == ShardState::Maintenance, room == 1);
        assert_eq!(log.inner.shard_health(ShardId(2)).unwrap().state, ShardState::Healthy);
        assert!(!log.inner.has_shard(ShardId(3)));
    }
}

#[test]
fn merged_shard_covers_both_ranges() {
    let mut store = two_shards();
    merge_shards(&mut store, ShardId(2), ShardId(1)).unwrap();
    let target = store.shard_health(ShardId(2)).unwrap();
    assert_eq!((target.range_start, target.range_end), ([0; 32], [0xff; 32]));
    assert_eq!(store.shard_health(ShardId(1)).unwrap().state, ShardState::Retiring);
    assert!(matches!(
        merge_shards(&mut store, ShardId(2), ShardId(5)),
        Err(LogError::ShardNotFound(ShardId(5)))
    ));
}
