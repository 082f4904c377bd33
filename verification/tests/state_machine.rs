//! The replicated state machine: chunk rows, intents, inline payloads, snapshots.

use std::collections::HashMap;

use kiseki_log::codec::{decode_snapshot, encode_snapshot};
use kiseki_log::command::{IncorporateItem, InlinePayload, LogCommand, NewChunkMeta};
use kiseki_log::delta::OperationType;
use kiseki_log::ids::{ChunkId, ChunkKey, NodeId, OrgId, SequenceNumber, ShardId};
use kiseki_log::inline_store::derive_inline_key;
use kiseki_log::raft::snapshot::{
    build_snapshot, dedup_window_entries, dedup_window_ms, install_snapshot, over_size_cap,
    readback, snapshot_id, ShardSnapshot,
};
use kiseki_log::raft::state_machine::{
    Applied, EntryPayload, RecentIncorporatedEntry, ShardSmInner, ShardStateMachine,
    PENDING_CHUNK_DECREMENTS_CAP,
};
use kiseki_log::raft::types::LogResponse;
use kiseki_log::shard::ShardState;
use kiseki_log::time::{ClockQuality, DeltaTimestamp, HybridLogicalClock, WallTime};

fn fresh_inner() -> ShardSmInner {
    ShardSmInner::new(ShardId(0xabc), OrgId(0xdef))
}

fn org(b: u8) -> [u8; 16] {
    [b; 16]
}

fn chunk(b: u8) -> [u8; 32] {
    [b; 32]
}

fn key_of(tenant: [u8; 16], chunk_id: [u8; 32]) -> ChunkKey {
    ChunkKey { tenant: OrgId(u128::from_be_bytes(tenant)), chunk: ChunkId(chunk_id) }
}

fn hlc(physical_ms: u64, logical: u32, node: u64) -> HybridLogicalClock {
    HybridLogicalClock { physical_ms, logical, node_id: NodeId(node) }
}

fn payload_of(chunk_id: [u8; 32], payload: Vec<u8>) -> InlinePayload {
    InlinePayload { chunk_id, payload }
}

fn mk_incorporate(tenant: [u8; 16], seq: HybridLogicalClock) -> LogCommand {
    LogCommand::IncorporateIntent {
        tenant_id_bytes: tenant,
        operation: 0,
        hashed_key: [0; 32],
        chunk_refs: vec![],
        payload: vec![],
        has_inline_data: false,
        new_chunks: vec![],
        perspective_seq: seq,
        inline_payloads: vec![],
    }
}

fn keyed_incorporate(tenant: [u8; 16], seq: HybridLogicalClock, first: u8) -> LogCommand {
    let mut cmd = mk_incorporate(tenant, seq);
    if let LogCommand::IncorporateIntent { ref mut hashed_key, .. } = cmd {
        hashed_key[0] = first;
    }
    cmd
}

fn create_chunk(tenant: [u8; 16], chunk_id: [u8; 32]) -> LogCommand {
    LogCommand::ChunkAndDelta {
        tenant_id_bytes: tenant,
        operation: 0,
        hashed_key: [0; 32],
        chunk_refs: vec![chunk_id],
        payload: vec![],
        has_inline_data: false,
        new_chunks: vec![NewChunkMeta { chunk_id, placement: vec![1, 2, 3], original_len: 0 }],
        inline_payloads: vec![],
    }
}

fn decrement(tenant: [u8; 16], chunk_id: [u8; 32]) -> LogCommand {
    LogCommand::DecrementChunkRefcount { tenant_id_bytes: tenant, chunk_id }
}

fn append_inline(i: u8) -> LogCommand {
    LogCommand::AppendDelta {
        tenant_id_bytes: org(1),
        operation: 0,
        hashed_key: [i; 32],
        chunk_refs: vec![],
        payload: vec![i; 8],
        has_inline_data: true,
    }
}

/// An inline store in memory, which counts its commits.
struct MapStore {
    entries: HashMap<[u8; 32], Vec<u8>>,
    commits: usize,
}

impl MapStore {
    fn new() -> Self {
        MapStore { entries: HashMap::new(), commits: 0 }
    }

    fn perform(&mut self, a: &Applied) {
        if !a.inline_puts.is_empty() {
            self.commits += 1;
        }
        for p in &a.inline_puts {
            self.entries.insert(p.chunk_id, p.payload.clone());
        }
        for k in &a.inline_deletes {
            self.entries.remove(k);
        }
    }
}

#[test]
fn inline_key_differs_for_different_sequences() {
    let hashed_key = [0xAB_u8; 32];
    let key_seq1 = derive_inline_key(&hashed_key, 1);
    let key_seq2 = derive_inline_key(&hashed_key, 2);
    assert_ne!(
        key_seq1, key_seq2,
        "inline keys for same hashed_key with different sequences must differ"
    );
}

#[test]
fn inline_key_same_for_same_sequence() {
    let hashed_key = [0xCD_u8; 32];
    let key_a = derive_inline_key(&hashed_key, 42);
    let key_b = derive_inline_key(&hashed_key, 42);
    assert_eq!(
        key_a, key_b,
        "inline keys for same hashed_key and same sequence must be identical"
    );
}

#[test]
fn inline_key_xor_only_affects_last_8_bytes() {
    let hashed_key = [0xFF_u8; 32];
    let key = derive_inline_key(&hashed_key, 1);
    assert_eq!(&key[..24], &[0xFF_u8; 24]);
    assert_ne!(&key[24..], &[0xFF_u8; 8]);
}

#[test]
fn chunk_and_delta_with_inline_payloads_writes_to_local_inline_store() {
    let mut inner = fresh_inner().with_inline_store();
    let chunk_a = chunk(0xA1);
    let chunk_b = chunk(0xB2);
    let cmd = LogCommand::ChunkAndDelta {
        tenant_id_bytes: org(7),
        operation: 0,
        hashed_key: [0x11; 32],
        chunk_refs: vec![chunk_a, chunk_b],
        payload: vec![],
        has_inline_data: false,
        new_chunks: vec![],
        inline_payloads: vec![
            payload_of(chunk_a, vec![0xDE, 0xAD, 0xBE, 0xEF]),
            payload_of(chunk_b, vec![0xCA, 0xFE]),
        ],
    };
    let puts = inner.apply_command(&cmd, 1).inline_puts;

    assert_eq!(puts.len(), 2, "both inline payloads must reach store");
    assert_eq!(puts[0].chunk_id, chunk_a, "first put keyed by chunk_id");
    assert_eq!(puts[0].payload, vec![0xDE, 0xAD, 0xBE, 0xEF]);
    assert_eq!(puts[1].chunk_id, chunk_b);
    assert_eq!(puts[1].payload, vec![0xCA, 0xFE]);
}

#[test]
fn combined_proposal_atomically_appends_delta_and_creates_chunk_meta() {
    let mut inner = fresh_inner();
    let tenant = org(1);
    let chunk_id = chunk(2);
    let cmd = LogCommand::ChunkAndDelta {
        tenant_id_bytes: tenant,
        operation: 0,
        hashed_key: [0x55; 32],
        chunk_refs: vec![chunk_id],
        payload: vec![0xAA; 16],
        has_inline_data: false,
        new_chunks: vec![NewChunkMeta { chunk_id, placement: vec![1, 2, 3], original_len: 1024 }],
        inline_payloads: vec![],
    };

    let _ = inner.apply_command(&cmd, 1);

    assert_eq!(inner.deltas.len(), 1, "delta must be appended");
    assert_eq!(inner.tip, 1);
    let entry = inner
        .cluster_chunk_state
        .get(&key_of(tenant, chunk_id))
        .expect("chunk row must exist after the command");
    assert_eq!(entry.refcount, 1);
    assert_eq!(entry.placement, vec![1, 2, 3]);
    assert!(!entry.tombstoned);
    assert_eq!(entry.original_len, 1024, "original_len must round-trip into the row");
}

#[test]
fn introducing_a_chunk_again_keeps_its_row() {
    let mut inner = fresh_inner();
    let (tenant, chunk_id) = (org(1), chunk(2));
    let _ = inner.apply_command_at(&create_chunk(tenant, chunk_id), 3, 3_000);
    let key = key_of(tenant, chunk_id);
    let first = inner.cluster_chunk_state.get(&key).unwrap();
    let row = (first.refcount, first.placement.clone(), first.tombstoned, first.created_ms);
    assert_eq!(row, (1, vec![1, 2, 3], false, 3));
    let _ = inner.apply_command_at(&create_chunk(tenant, chunk_id), 4, 4_000);
    let again = inner.cluster_chunk_state.get(&key).unwrap();
    assert_eq!(
        (again.refcount, again.placement.clone(), again.tombstoned, again.created_ms),
        row
    );
}

#[test]
fn introduced_chunks_settle_what_is_parked() {
    let mut inner = fresh_inner();
    let tenant = org(1);
    let _ = inner.apply_command_at(&decrement(tenant, chunk(2)), 1, 1_000);
    let meta = |b: u8, node: u64| NewChunkMeta {
        chunk_id: chunk(b),
        placement: vec![node],
        original_len: u64::from(b),
    };
    let list = [meta(2, 4), meta(3, 5), meta(3, 6)];
    for log_index in [7, 8] {
        inner.apply_new_chunks(&tenant, &list, log_index);
        let rows: Vec<(u64, Vec<u64>, bool, u64, u64)> = [2, 3]
            .iter()
            .map(|b| {
                let row = inner.cluster_chunk_state.get(&key_of(tenant, chunk(*b))).unwrap();
                (
                    u64::from(row.refcount),
                    row.placement.clone(),
                    row.tombstoned,
                    row.created_ms,
                    row.original_len,
                )
            })
            .collect();
        assert_eq!(rows, vec![(0, vec![4], true, 7, 2), (1, vec![5], false, 7, 3)]);
        assert!(inner.pending_chunk_decrements.get(&key_of(tenant, chunk(2))).is_none());
    }
    assert!(inner.cluster_chunk_state.get(&key_of(org(9), chunk(2))).is_none());
}

#[test]
fn chunk_meta_keyed_by_tenant_isolates_refcount_across_tenants() {
    let mut inner = fresh_inner();
    let chunk_id = chunk(7);
    let tenant_a = org(1);
    let tenant_b = org(2);

    for tenant in [tenant_a, tenant_b] {
        let _ = inner.apply_command(&create_chunk(tenant, chunk_id), 1);
    }

    assert_eq!(
        inner.cluster_chunk_state.get(&key_of(tenant_a, chunk_id)).map(|e| e.refcount),
        Some(1),
        "tenant A has its own refcount=1"
    );
    assert_eq!(
        inner.cluster_chunk_state.get(&key_of(tenant_b, chunk_id)).map(|e| e.refcount),
        Some(1),
        "tenant B has its own refcount=1, independent of tenant A"
    );
}

#[test]
fn increment_chunk_refcount_bumps_existing_entry() {
    let mut inner = fresh_inner();
    let tenant = org(1);
    let chunk_id = chunk(3);

    let _ = inner.apply_command(&create_chunk(tenant, chunk_id), 1);
    let _ = inner.apply_command(
        &LogCommand::IncrementChunkRefcount { tenant_id_bytes: tenant, chunk_id },
        2,
    );

    assert_eq!(inner.cluster_chunk_state.get(&key_of(tenant, chunk_id)).unwrap().refcount, 2);
}

#[test]
fn decrement_to_zero_tombstones_entry_for_compaction_prune() {
    let mut inner = fresh_inner();
    let tenant = org(1);
    let chunk_id = chunk(4);

    let _ = inner.apply_command(&create_chunk(tenant, chunk_id), 1);
    let r = inner.apply_command(&decrement(tenant, chunk_id), 2);
    assert_eq!(r.response, LogResponse::DecrementOutcome(true));

    let entry = inner
        .cluster_chunk_state
        .get(&key_of(tenant, chunk_id))
        .expect("entry still present (tombstoned, not removed)");
    assert_eq!(entry.refcount, 0);
    assert!(entry.tombstoned, "refcount=0 must mark entry tombstoned");
}

#[test]
fn decrement_before_async_create_parks_and_drains_on_incorporate() {
    let mut inner = fresh_inner();
    let tenant = org(1);
    let chunk_id = chunk(9);

    // The reference is dropped before the row exists.
    let resp = inner.apply_command(&decrement(tenant, chunk_id), 1).response;
    assert!(matches!(resp, LogResponse::DecrementOutcome(false)));

    let mut cmd = mk_incorporate(tenant, hlc(10, 0, 1));
    if let LogCommand::IncorporateIntent { ref mut new_chunks, .. } = cmd {
        *new_chunks =
            vec![NewChunkMeta { chunk_id, placement: vec![1, 2, 3], original_len: 1024 }];
    }
    let _ = inner.apply_command_at(&cmd, 2, 1_000);

    let entry = inner
        .cluster_chunk_state
        .get(&key_of(tenant, chunk_id))
        .expect("create must still materialize the row");
    assert_eq!(entry.refcount, 0, "parked decrement must drain at create-apply");
    assert!(
        entry.tombstoned,
        "refcount 0 at birth must tombstone the row so GC has its signal"
    );
    assert_eq!(inner.pending_chunk_decrements.len(), 0, "drained park must not linger");
}

#[test]
fn decrement_before_sync_create_drains_via_chunk_and_delta() {
    let mut inner = fresh_inner();
    let tenant = org(1);
    let chunk_id = chunk(10);

    let _ = inner.apply_command(&decrement(tenant, chunk_id), 1);
    let _ = inner.apply_command(&create_chunk(tenant, chunk_id), 2);

    let entry = inner.cluster_chunk_state.get(&key_of(tenant, chunk_id)).expect("row exists");
    assert_eq!(entry.refcount, 0);
    assert!(entry.tombstoned);
}

#[test]
fn parked_decrement_is_keyed_per_chunk() {
    let mut inner = fresh_inner();
    let tenant = org(1);
    let chunk_a = chunk(11);
    let chunk_b = chunk(12);

    let _ = inner.apply_command(&decrement(tenant, chunk_a), 1);
    let _ = inner.apply_command(&create_chunk(tenant, chunk_b), 2);

    let entry_b = inner.cluster_chunk_state.get(&key_of(tenant, chunk_b)).expect("B exists");
    assert_eq!(entry_b.refcount, 1, "B is untouched by A's park");
    assert!(!entry_b.tombstoned);
    assert_eq!(
        inner.pending_chunk_decrements.get(&key_of(tenant, chunk_a)).copied(),
        Some(1),
        "A's decrement stays parked until A's create applies"
    );
}

#[test]
fn pending_decrement_park_refuses_new_keys_at_cap() {
    let mut inner = fresh_inner();
    let tenant = org(1);

    for i in 0..PENDING_CHUNK_DECREMENTS_CAP {
        let mut id = [0u8; 32];
        id[..8].copy_from_slice(&(i as u64).to_be_bytes());
        id[8] = 0xA5;
        let _ = inner.apply_command(&decrement(tenant, id), 1);
    }
    assert_eq!(inner.pending_chunk_decrements.len(), PENDING_CHUNK_DECREMENTS_CAP);

    // A new key is refused.
    let probe = chunk(0xEE);
    let _ = inner.apply_command(&decrement(tenant, probe), 2);
    assert_eq!(
        inner.pending_chunk_decrements.len(),
        PENDING_CHUNK_DECREMENTS_CAP,
        "cap must hold for new keys"
    );
    assert!(
        !inner.pending_chunk_decrements.contains(&key_of(tenant, probe)),
        "refused park must not be recorded"
    );

    // A key that is there still counts up.
    let mut first = [0u8; 32];
    first[..8].copy_from_slice(&0u64.to_be_bytes());
    first[8] = 0xA5;
    let _ = inner.apply_command(&decrement(tenant, first), 3);
    assert_eq!(
        inner.pending_chunk_decrements.get(&key_of(tenant, first)).copied(),
        Some(2),
        "existing key accumulates past the cap check"
    );
}

#[test]
fn multi_writer_late_arrival_is_incorporated() {
    let mut inner = fresh_inner();
    let tenant = org(1);

    let _ = inner.apply_command_at(&keyed_incorporate(tenant, hlc(10, 0, 2), 0xBB), 1, 1_000);
    assert_eq!(inner.deltas.len(), 1);

    // An older order arrives later.
    let _ = inner.apply_command_at(&keyed_incorporate(tenant, hlc(5, 0, 1), 0xAA), 2, 1_010);

    assert_eq!(inner.deltas.len(), 2, "both writes must be incorporated");
    assert!(inner.recent_incorporated_seqs.contains(&hlc(10, 0, 2)));
    assert!(inner.recent_incorporated_seqs.contains(&hlc(5, 0, 1)));
}

#[test]
fn recent_incorporated_dedups_replay() {
    let mut inner = fresh_inner();
    let tenant = org(1);
    let seq = hlc(7, 0, 1);

    let _ = inner.apply_command_at(&mk_incorporate(tenant, seq), 1, 1_000);
    assert_eq!(inner.deltas.len(), 1);
    assert!(inner.recent_incorporated_seqs.contains(&seq));
    assert!(inner.dedup_contains(&seq));

    let _ = inner.apply_command_at(&mk_incorporate(tenant, seq), 2, 1_010);
    assert_eq!(inner.deltas.len(), 1, "replay must not double the delta");
    assert_eq!(inner.recent_incorporated_seqs.len(), 1);
    let count = inner.recent_incorporated.iter().filter(|e| e.perspective_seq == seq).count();
    assert_eq!(count, 1, "seq must appear exactly once in the deque");
}

#[test]
fn ancient_cutoff_refuses() {
    let mut inner = ShardSmInner::new_with_bounds(ShardId(0xABC_AA1), OrgId(0xdef), 3, 60_000);
    let tenant = org(1);
    let before = inner.ancient_refused;

    for i in 1..=4u64 {
        let _ =
            inner.apply_command_at(&keyed_incorporate(tenant, hlc(i, 0, 1), i as u8), i, 1_000 + i);
    }
    assert!(
        inner.ancient_cutoff_log_index >= 2,
        "cutoff must advance past evicted entry; got {}",
        inner.ancient_cutoff_log_index
    );
    let cutoff = inner.ancient_cutoff_log_index;

    let ancient_log_index = cutoff.saturating_sub(1);
    let pre_delta_count = inner.deltas.len();
    let mut ancient = mk_incorporate(tenant, hlc(999, 0, 7));
    if let LogCommand::IncorporateIntent { ref mut hashed_key, .. } = ancient {
        *hashed_key = [0xDE; 32];
    }
    let _ = inner.apply_command_at(&ancient, ancient_log_index, 2_000);

    assert_eq!(inner.deltas.len(), pre_delta_count, "ancient intent must NOT append a delta");
    assert_eq!(inner.ancient_refused, before + 1, "ancient counter must increment");
}

#[test]
fn window_evicts_oldest_advances_cutoff() {
    let mut inner = ShardSmInner::new_with_bounds(ShardId(0xabc), OrgId(0xdef), 3, 60_000);
    let tenant = org(1);

    for (i, log_idx) in (1..=4u64).zip(10..=13u64) {
        let _ = inner.apply_command_at(
            &keyed_incorporate(tenant, hlc(i, 0, 1), i as u8),
            log_idx,
            1_000 + log_idx,
        );
    }

    assert_eq!(inner.recent_incorporated.len(), 3, "window must hold exactly entry-cap");
    let seqs: Vec<HybridLogicalClock> =
        inner.recent_incorporated.iter().map(|e| e.perspective_seq).collect();
    assert_eq!(seqs, vec![hlc(2, 0, 1), hlc(3, 0, 1), hlc(4, 0, 1)]);
    assert_eq!(inner.ancient_cutoff_log_index, 11);
    assert_eq!(
        inner.recent_incorporated_snapshot(),
        vec![hlc(2, 0, 1), hlc(3, 0, 1), hlc(4, 0, 1)]
    );
}

#[test]
fn old_entries_leave_the_window_by_age() {
    let mut inner = ShardSmInner::new_with_bounds(ShardId(1), OrgId(2), 100, 1_000);
    let _ = inner.apply_command_at(&keyed_incorporate(org(1), hlc(1, 0, 1), 1), 5, 10_000);
    let _ = inner.apply_command_at(&keyed_incorporate(org(1), hlc(2, 0, 1), 2), 6, 11_001);
    assert_eq!(inner.recent_incorporated_snapshot(), vec![hlc(2, 0, 1)]);
    assert_eq!(inner.ancient_cutoff_log_index, 6);
}

#[test]
fn snapshot_round_trips_recent_and_cutoff() {
    let recent = vec![
        RecentIncorporatedEntry {
            log_index: 100,
            perspective_seq: hlc(1, 0, 1),
            apply_ms: 5_000,
        },
        RecentIncorporatedEntry {
            log_index: 101,
            perspective_seq: hlc(2, 0, 1),
            apply_ms: 5_010,
        },
    ];
    let snap = ShardSnapshot {
        delta_count: 0,
        tip: 0,
        maintenance: false,
        deltas: vec![],
        watermarks: vec![],
        shard_id: Some([1u8; 16]),
        tenant_id: Some([2u8; 16]),
        ancient_cutoff_log_index: 99,
        recent_incorporated: recent,
    };
    let bytes = encode_snapshot(&snap).unwrap();
    let loaded = decode_snapshot(&bytes).unwrap();
    assert_eq!(loaded.ancient_cutoff_log_index, 99);
    assert_eq!(loaded.recent_incorporated.len(), 2);
    assert_eq!(loaded.recent_incorporated[0].perspective_seq, hlc(1, 0, 1));
    assert_eq!(loaded.recent_incorporated[1].perspective_seq, hlc(2, 0, 1));
    assert_eq!(loaded.shard_id, Some([1u8; 16]));
    assert_eq!(loaded.tenant_id, Some([2u8; 16]));
    // Bytes that were cut are no snapshot.
    assert!(decode_snapshot(&bytes[..bytes.len() - 1]).is_none());
}

#[test]
fn batched_incorporate_intents_applies_each_with_gate() {
    let mut inner = ShardSmInner::new_with_bounds(ShardId(0xABC_BB2), OrgId(0xdef), 3, 60_000);
    let tenant = org(1);

    for (i, log_idx) in (1..=4u64).zip(10..=13u64) {
        let _ = inner.apply_command_at(
            &keyed_incorporate(tenant, hlc(i, 0, 1), i as u8),
            log_idx,
            1_000 + log_idx,
        );
    }

    let pre_delta_count = inner.deltas.len();
    let item = |key: u8, seq: HybridLogicalClock| IncorporateItem {
        tenant_id_bytes: tenant,
        operation: 0,
        hashed_key: [key; 32],
        chunk_refs: vec![],
        payload: vec![],
        has_inline_data: false,
        new_chunks: vec![],
        perspective_seq: seq,
        inline_payloads: vec![],
    };
    let batch_cmd = LogCommand::IncorporateIntents {
        items: vec![
            item(0x11, hlc(3, 0, 1)),
            item(0x22, hlc(50, 0, 1)),
            item(0x33, hlc(60, 0, 1)),
        ],
    };
    // At an ancient position: the first is known, the others are refused.
    let alarm_before = inner.ancient_refused;
    let _ = inner.apply_command_at(&batch_cmd, 5, 2_000);
    assert_eq!(
        inner.deltas.len(),
        pre_delta_count,
        "no item applied: one already-set, two ancient",
    );
    assert_eq!(
        inner.ancient_refused,
        alarm_before + 2,
        "two ancient items incremented the alarm counter"
    );

    // At a position that is not ancient the two fresh ones are appended.
    let _ = inner.apply_command_at(&batch_cmd, 100, 2_100);
    assert_eq!(
        inner.deltas.len(),
        pre_delta_count + 2,
        "two fresh items appended on the non-ancient pass",
    );
}

#[test]
fn incorporate_intents_entry_commits_one_put_many_per_entry() {
    let mut inner = fresh_inner().with_inline_store();
    let mut store = MapStore::new();
    let tenant = org(1);
    let mk_item = |i: u8| IncorporateItem {
        tenant_id_bytes: tenant,
        operation: 0,
        hashed_key: [i; 32],
        chunk_refs: vec![],
        payload: vec![i; 4],
        has_inline_data: true,
        new_chunks: vec![],
        perspective_seq: hlc(u64::from(i), 0, 1),
        inline_payloads: vec![payload_of([i | 0x40; 32], vec![i; 2])],
    };

    let batch =
        LogCommand::IncorporateIntents { items: vec![mk_item(1), mk_item(2), mk_item(3)] };
    let done = inner.apply_command_at(&batch, 1, 1_000);
    store.perform(&done);

    assert_eq!(store.commits, 1, "one put_many per applied entry, regardless of item count");
    assert_eq!(store.entries.len(), 6);
    for i in 1..=3u8 {
        assert_eq!(
            store.entries.get(&[i | 0x40; 32]).map(|v| &v[..]),
            Some(&[i, i][..]),
            "chunk-id-keyed payload present"
        );
        assert_eq!(
            store.entries.get(&derive_inline_key(&[i; 32], u64::from(i))).map(|v| &v[..]),
            Some(&[i; 4][..]),
            "delta offload at the canonical derived key"
        );
    }
    assert!(inner.deltas.iter().all(|d| d.payload.ciphertext.is_empty()));

    let single = LogCommand::IncorporateIntents { items: vec![mk_item(4)] };
    let done = inner.apply_command_at(&single, 2, 1_010);
    store.perform(&done);
    assert_eq!(store.commits, 2);
}

#[test]
fn advance_watermark_prunes_deltas_and_deletes_inline_payloads() {
    let mut inner = fresh_inner().with_inline_store();
    let mut store = MapStore::new();
    for i in 1..=5u8 {
        let done = inner.apply_command_at(&append_inline(i), u64::from(i), 1_000);
        store.perform(&done);
    }
    assert_eq!(inner.deltas.len(), 5);
    assert_eq!(store.entries.len(), 5);

    // Without consumers nothing is pruned.
    assert!(inner.prune_deltas_below_gc_boundary().is_empty());
    assert_eq!(inner.deltas.len(), 5, "no consumers: prune is a no-op");

    let advance = |consumer: &str, position: u64| LogCommand::AdvanceWatermark {
        consumer: consumer.to_string(),
        position,
    };
    let done = inner.apply_command_at(&advance("hydrator", 3), 6, 1_100);
    store.perform(&done);
    assert_eq!(inner.deltas.len(), 3, "deltas below boundary pruned");
    assert_eq!(
        inner.deltas[0].header.sequence,
        SequenceNumber(3),
        "earliest visible sequence == gc boundary"
    );
    assert_eq!(inner.tip, 5, "tip is monotonic, unaffected by pruning");
    assert!(!store.entries.contains_key(&derive_inline_key(&[1; 32], 1)));
    assert!(!store.entries.contains_key(&derive_inline_key(&[2; 32], 2)));
    assert!(store.entries.contains_key(&derive_inline_key(&[3; 32], 3)));
    assert_eq!(store.entries.len(), 3);

    // A read from below the boundary starts past what it asked for.
    let from = SequenceNumber(1);
    let start = inner.deltas.partition_point(|d| d.header.sequence < from);
    let first_visible = inner.deltas[start..]
        .first()
        .map(|d| d.header.sequence)
        .expect("deltas remain above the boundary");
    assert!(
        first_visible > from,
        "gap evidence: first visible {first_visible:?} > requested {from:?}"
    );

    // A second consumer at a lower position brings nothing back.
    let done = inner.apply_command_at(&advance("audit", 2), 7, 1_200);
    store.perform(&done);
    assert_eq!(inner.deltas.len(), 3);

    for consumer in ["hydrator", "audit"] {
        let done = inner.apply_command_at(&advance(consumer, 10), 8, 1_300);
        store.perform(&done);
    }
    assert!(inner.deltas.is_empty());
    assert_eq!(store.entries.len(), 0, "all inline offloads deleted");
}

#[test]
fn snapshot_postcard_round_trip_installs_inline_at_derived_key() {
    let mut inner_a = fresh_inner().with_inline_store();
    let mut store_a = MapStore::new();
    let hashed_key = [0x42u8; 32];
    let payload = vec![0xAB, 0xCD, 0xEF];
    let done = inner_a.apply_command_at(
        &LogCommand::AppendDelta {
            tenant_id_bytes: org(1),
            operation: 0,
            hashed_key,
            chunk_refs: vec![],
            payload: payload.clone(),
            has_inline_data: true,
        },
        1,
        1_000,
    );
    store_a.perform(&done);
    let derived = derive_inline_key(&hashed_key, 1);
    assert!(inner_a.deltas[0].payload.ciphertext.is_empty(), "offloaded");
    assert_eq!(store_a.entries.get(&derived).map(|v| &v[..]), Some(&payload[..]));

    let found: Vec<Option<Vec<u8>>> = readback(&inner_a)
        .iter()
        .map(|k| k.and_then(|k| store_a.entries.get(&k).cloned()))
        .collect();
    let bytes = encode_snapshot(&build_snapshot(&inner_a, &found)).expect("snapshot bytes");
    let decoded = decode_snapshot(&bytes).expect("snapshot image");
    assert_eq!(decoded.deltas.len(), 1);
    assert_eq!(decoded.deltas[0].ciphertext, payload, "inline readback");

    // Install into a fresh machine with its own, empty inline store.
    let mut inner_b = fresh_inner().with_inline_store();
    let mut store_b: HashMap<[u8; 32], Vec<u8>> = HashMap::new();
    for p in install_snapshot(&mut inner_b, &decoded, 100_000, 60_000) {
        store_b.insert(p.chunk_id, p.payload);
    }

    assert_eq!(inner_b.tip, 1);
    assert_eq!(inner_b.delta_count, 1);
    assert_eq!(inner_b.deltas.len(), 1);
    assert_eq!(inner_b.deltas[0].header.hashed_key, hashed_key);
    assert!(inner_b.deltas[0].payload.ciphertext.is_empty(), "re-offloaded on install");
    assert_eq!(
        store_b.get(&derived).map(|v| &v[..]),
        Some(&payload[..]),
        "installed offload readable at the canonical derived key"
    );
    assert!(!store_b.contains_key(&hashed_key), "nothing written at the plain hashed_key");
}

#[test]
fn appended_payload_stays_without_an_inline_store() {
    let mut inner = fresh_inner();
    let done = inner.apply_command_at(&append_inline(4), 9, 1_000);
    assert_eq!(done.response, LogResponse::Appended(1));
    assert!(done.inline_puts.is_empty());
    let d = &inner.deltas[0];
    assert_eq!(d.payload.ciphertext, vec![4; 8]);
    assert_eq!(d.header.payload_size, 8);
    assert_eq!(d.header.operation, OperationType::Create);
    assert_eq!(d.header.tenant_id, OrgId(u128::from_be_bytes(org(1))));
    assert_eq!(d.header.timestamp.hlc.physical_ms, 9);
}

#[test]
fn settings_of_the_shard_are_replicated() {
    let mut inner = fresh_inner();
    let _ = inner.apply_command(&LogCommand::SetMaintenance { enabled: true }, 1);
    assert!(inner.maintenance);
    let code = ShardState::Splitting.as_u8();
    let _ = inner.apply_command(&LogCommand::SetShardState { state: code }, 2);
    assert_eq!(inner.state, ShardState::Splitting);
    // A code without a state changes nothing.
    let _ = inner.apply_command(&LogCommand::SetShardState { state: 200 }, 3);
    assert_eq!(inner.state, ShardState::Splitting);
    let _ = inner.apply_command(
        &LogCommand::UpdateShardRange { range_start: [1; 32], range_end: [2; 32] },
        4,
    );
    assert_eq!((inner.range_start, inner.range_end), ([1; 32], [2; 32]));
    let _ = inner.apply_command(
        &LogCommand::SetShardConfig {
            max_delta_count: 1,
            max_byte_size: 2,
            inline_threshold_bytes: 3,
            inline_floor_bytes: 4,
            inline_ceiling_bytes: 5,
        },
        5,
    );
    assert_eq!(inner.config.max_byte_size, 2);
    assert_eq!(inner.config.inline_ceiling_bytes, 5);
}

#[test]
fn entries_move_the_read_position() {
    let mut sm = ShardStateMachine::new(fresh_inner());
    assert_eq!(sm.applied_state(), (None, None));
    let r = sm.apply(&EntryPayload::Blank, 1, 1_000);
    assert_eq!(r.response, LogResponse::Done);
    let r = sm.apply(&EntryPayload::Membership, 2, 1_000);
    assert_eq!(r.response, LogResponse::Done);
    let r = sm.apply(&EntryPayload::Normal(append_inline(3)), 3, 1_000);
    assert_eq!(r.response, LogResponse::Appended(1));
    assert_eq!(sm.applied_state(), (Some(3), Some(2)));
}

#[test]
fn responses_are_written_out() {
    assert_eq!(LogResponse::Appended(12).message(), "Appended(12)");
    assert_eq!(LogResponse::Done.message(), "Ok");
    assert_eq!(LogResponse::DecrementOutcome(true).message(), "DecrementOutcome(true)");
    assert_eq!(LogResponse::DecrementOutcome(false).message(), "DecrementOutcome(false)");
}

#[test]
fn snapshot_settings_are_read() {
    assert_eq!(dedup_window_entries(None), 100_000);
    assert_eq!(dedup_window_entries(Some("7")), 7);
    assert_eq!(dedup_window_ms(None), 60_000);
    assert_eq!(dedup_window_ms(Some("nonsense")), 60_000);
    assert_eq!(snapshot_id(Some(42)), "snap-42");
    assert_eq!(snapshot_id(None), "snap-0");
    assert!(!over_size_cap(90, 100, 10));
    assert!(over_size_cap(91, 100, 10));
}

#[test]
fn snapshot_restores_watermarks_and_window() {
    let mut a = fresh_inner();
    let _ = a.apply_command_at(&keyed_incorporate(org(1), hlc(3, 0, 1), 3), 1, 500);
    let _ = a.apply_command_at(
        &LogCommand::AdvanceWatermark { consumer: "audit".to_string(), position: 1 },
        2,
        510,
    );
    let found: Vec<Option<Vec<u8>>> = a.deltas.iter().map(|_| None).collect();
    let snap = build_snapshot(&a, &found);
    let mut b = ShardSmInner::new(ShardId(9), OrgId(9));
    let _ = install_snapshot(&mut b, &snap, 10, 20);
    assert_eq!(b.shard_id, ShardId(0xabc));
    assert_eq!(b.tenant_id, OrgId(0xdef));
    assert_eq!(b.deltas.len(), 1);
    assert_eq!(b.deltas[0].header.hashed_key, a.deltas[0].header.hashed_key);
    assert_eq!(b.deltas[0].header.sequence, SequenceNumber(1));
    assert_eq!(b.watermarks.as_vec(), a.watermarks.as_vec());
    assert!(b.dedup_contains(&hlc(3, 0, 1)));
    // A replay on the new replica changes nothing.
    let _ = b.apply_command_at(&keyed_incorporate(org(1), hlc(3, 0, 1), 3), 3, 520);
    assert_eq!(b.deltas.len(), 1);
}

#[test]
fn room_is_told_before_a_command_is_applied() {
    let mut inner = fresh_inner();
    let append = mk_incorporate(org(1), hlc(1, 0, 1));
    assert!(inner.room_for(&append));
    inner.tip = u64::MAX;
    assert!(!inner.room_for(&append));
    assert!(inner.room_for(&LogCommand::SetMaintenance { enabled: true }));
    inner.tip = u64::MAX - 1;
    assert!(inner.room_for(&append));
    inner.delta_count = u64::MAX;
    assert!(!inner.room_for(&append));

    let machine = ShardStateMachine::new(inner);
    assert!(machine.room_for(&EntryPayload::Blank));
    assert!(machine.room_for(&EntryPayload::Membership));
    assert!(!machine.room_for(&EntryPayload::Normal(append)));
}

#[test]
fn commands_have_a_text() {
    let append = LogCommand::AppendDelta {
        tenant_id_bytes: org(1),
        operation: 2,
        hashed_key: [0; 32],
        chunk_refs: vec![],
        payload: vec![],
        has_inline_data: false,
    };
    assert_eq!(append.message(), "AppendDelta(op=2)");
    let moved = LogCommand::MoveDelta {
        tenant_id_bytes: org(1),
        operation: 3,
        hashed_key: [0; 32],
        chunk_refs: vec![],
        payload: vec![],
        has_inline_data: false,
        timestamp: DeltaTimestamp {
            hlc: hlc(1, 0, 1),
            wall: WallTime { millis_since_epoch: 1, timezone: "UTC".to_string() },
            quality: ClockQuality::Ntp,
        },
    };
    assert_eq!(moved.message(), "MoveDelta(op=3)");
    assert_eq!(
        LogCommand::SetMaintenance { enabled: true }.message(),
        "SetMaintenance(true)"
    );
    let advance = LogCommand::AdvanceWatermark { consumer: "view".to_string(), position: 17 };
    assert_eq!(advance.message(), "AdvanceWatermark(view=17)");
    assert_eq!(create_chunk(org(1), chunk(2)).message(), "ChunkAndDelta(op=0)");
    assert_eq!(
        mk_incorporate(org(1), hlc(1, 0, 1)).message(),
        "IncorporateIntent(op=0)"
    );
    assert_eq!(
        LogCommand::IncorporateIntents { items: vec![] }.message(),
        "IncorporateIntents(0)"
    );
    assert_eq!(LogCommand::SetShardState { state: 3 }.message(), "SetShardState(3)");
}
