//! Compaction of a list of deltas.

use kiseki_log::compaction_worker::{compact_deltas, count_deletions, CompactionProgress};
use kiseki_log::delta::{Delta, DeltaHeader, DeltaPayload, OperationType};
use kiseki_log::ids::{NodeId, OrgId, SequenceNumber, ShardId};
use kiseki_log::time::{ClockQuality, DeltaTimestamp, HybridLogicalClock, WallTime};

fn make_delta(seq: u64, key_byte: u8, op: OperationType) -> Delta {
    Delta {
        header: DeltaHeader {
            sequence: SequenceNumber(seq),
            shard_id: ShardId(1),
            tenant_id: OrgId(100),
            operation: op,
            timestamp: DeltaTimestamp {
                hlc: HybridLogicalClock { physical_ms: 1000, logical: 0, node_id: NodeId(1) },
                wall: WallTime { millis_since_epoch: 1000, timezone: "UTC".to_string() },
                quality: ClockQuality::Ntp,
            },
            hashed_key: [key_byte; 32],
            tombstone: op == OperationType::Delete,
            chunk_refs: vec![],
            payload_size: 0,
            has_inline_data: false,
        },
        payload: DeltaPayload {
            ciphertext: vec![],
            auth_tag: vec![],
            nonce: vec![],
            system_epoch: None,
            tenant_epoch: None,
            tenant_wrapped_material: vec![],
        },
    }
}

#[test]
fn compact_removes_tombstones() {
    let deltas = vec![
        make_delta(1, 0xAA, OperationType::Create),
        make_delta(2, 0xBB, OperationType::Create),
        make_delta(3, 0xAA, OperationType::Delete),
    ];

    let mut progress = CompactionProgress::new();
    let retained = compact_deltas(&deltas, &mut progress, 1);

    assert_eq!(retained.len(), 1);
    assert_eq!(retained[0].header.hashed_key, [0xBB; 32]);
    assert!(progress.removed >= 2);
    assert_eq!(progress.removed, 2);
    assert_eq!(progress.examined, 3);
    assert_eq!(progress.retained, 1);
}

#[test]
fn compact_keeps_latest_version() {
    let deltas = vec![
        make_delta(1, 0xAA, OperationType::Create),
        make_delta(2, 0xAA, OperationType::Update),
        make_delta(3, 0xAA, OperationType::Update),
    ];

    let mut progress = CompactionProgress::new();
    let retained = compact_deltas(&deltas, &mut progress, 1);

    assert_eq!(retained.len(), 1);
    assert_eq!(retained[0].header.sequence, SequenceNumber(3));
}

#[test]
fn compact_preserves_independent_keys() {
    let deltas = vec![
        make_delta(1, 0xAA, OperationType::Create),
        make_delta(2, 0xBB, OperationType::Create),
        make_delta(3, 0xCC, OperationType::Create),
    ];

    let mut progress = CompactionProgress::new();
    let retained = compact_deltas(&deltas, &mut progress, 1);
    assert_eq!(retained.len(), 3);
}

#[test]
fn compact_empty_is_noop() {
    let mut progress = CompactionProgress::new();
    let retained = compact_deltas(&[], &mut progress, 1);
    assert!(retained.is_empty());
}

#[test]
fn compact_cancellation() {
    let deltas = vec![
        make_delta(1, 0xAA, OperationType::Create),
        make_delta(2, 0xBB, OperationType::Create),
    ];

    let mut progress = CompactionProgress::new();
    progress.cancel();
    let retained = compact_deltas(&deltas, &mut progress, 1);
    assert_eq!(retained.len(), 2);
    assert!(progress.is_cancelled());
}

#[test]
fn automatic_compaction_merges_by_key_and_sequence() {
    let deltas = vec![
        // Five versions: the newest stays.
        make_delta(1, 0xAA, OperationType::Create),
        make_delta(5, 0xAA, OperationType::Update),
        make_delta(10, 0xAA, OperationType::Update),
        make_delta(15, 0xAA, OperationType::Update),
        make_delta(20, 0xAA, OperationType::Update),
        // Created and deleted: both go.
        make_delta(2, 0xBB, OperationType::Create),
        make_delta(12, 0xBB, OperationType::Delete),
        // One version: it stays.
        make_delta(3, 0xCC, OperationType::Create),
        // Three versions: the newest stays.
        make_delta(4, 0xDD, OperationType::Create),
        make_delta(8, 0xDD, OperationType::Update),
        make_delta(16, 0xDD, OperationType::Update),
    ];

    let mut progress = CompactionProgress::new();
    let retained = compact_deltas(&deltas, &mut progress, 1);

    assert_eq!(retained.len(), 3, "should retain only latest per key, removing tombstones");

    let aa = retained.iter().find(|d| d.header.hashed_key == [0xAA; 32]);
    assert_eq!(aa.unwrap().header.sequence, SequenceNumber(20));

    let dd = retained.iter().find(|d| d.header.hashed_key == [0xDD; 32]);
    assert_eq!(dd.unwrap().header.sequence, SequenceNumber(16));

    let bb = retained.iter().find(|d| d.header.hashed_key == [0xBB; 32]);
    assert!(bb.is_none(), "tombstoned key should be removed");

    for delta in &retained {
        assert_eq!(delta.payload.ciphertext, Vec::<u8>::new());
    }

    assert!(retained.len() < deltas.len(), "compaction must reduce delta count");
}

#[test]
fn admin_triggered_compaction_runs_regardless_of_threshold() {
    let deltas = vec![
        make_delta(1, 0xAA, OperationType::Create),
        make_delta(2, 0xAA, OperationType::Update),
    ];

    // No deletions: no ratio of deletions would trigger a compaction.
    assert_eq!(count_deletions(&deltas), 0, "should not auto-trigger");

    let mut progress = CompactionProgress::new();
    let retained = compact_deltas(&deltas, &mut progress, 1);

    assert_eq!(retained.len(), 1);
    assert_eq!(retained[0].header.sequence, SequenceNumber(2));
}

#[test]
fn retained_deltas_are_in_sequence_order() {
    let deltas = vec![
        make_delta(9, 0x01, OperationType::Create),
        make_delta(2, 0x02, OperationType::Create),
        make_delta(5, 0x03, OperationType::Create),
    ];
    let mut progress = CompactionProgress::default();
    let kept: Vec<u64> =
        compact_deltas(&deltas, &mut progress, 1).iter().map(|d| d.header.sequence.0).collect();
    assert_eq!(kept, vec![2, 5, 9]);
}

#[test]
fn several_versions_can_be_kept() {
    let deltas = vec![
        make_delta(1, 0xAA, OperationType::Create),
        make_delta(2, 0xAA, OperationType::Update),
        make_delta(3, 0xAA, OperationType::Update),
    ];
    let mut progress = CompactionProgress::new();
    let kept: Vec<u64> =
        compact_deltas(&deltas, &mut progress, 2).iter().map(|d| d.header.sequence.0).collect();
    assert_eq!(kept, vec![2, 3]);
    // Zero versions stand for one.
    let mut progress = CompactionProgress::new();
    assert_eq!(compact_deltas(&deltas, &mut progress, 0).len(), 1);
}

#[test]
fn deletions_are_counted() {
    let deltas = vec![
        make_delta(1, 0xAA, OperationType::Create),
        make_delta(2, 0xBB, OperationType::Delete),
        make_delta(3, 0xCC, OperationType::Delete),
    ];
    assert_eq!(count_deletions(&deltas), 2);
}
