//! Intent stores, the committer, recovery and the sink into the log.

use kiseki_log::delta::OperationType;
use kiseki_log::error::LogError;
use kiseki_log::ids::{NodeId, OrgId, ShardId};
use kiseki_log::intent::{
    put_batch, IdempotencyKey, InMemIntentStore, IntentError, IntentStore, IntentTable,
    PerspectiveSeq, PutOutcome, WriteIntent,
};
use kiseki_log::intent_codec::{
    check_format_version, decode_rows, decode_seq_key, decode_value, encode_seq_key, encode_value,
    plan_prune, plan_put, PutPlan, FORMAT_VERSION,
};
use kiseki_log::intent_committer::{
    recover_pending, restore_into, Committer, IncorporationSink, IntentBatches, IntentErrors,
    RecordingSink, DRAIN_BATCH_CAP,
};
use kiseki_log::raft_intent_sink::{RaftLogIncorporationSink, RecordingAppender};
use kiseki_log::shard_committer::ShardCommitter;
use kiseki_log::supervisor::{RecoveryReport, Supervisor};
use kiseki_log::time::{ClockQuality, DeltaTimestamp, HybridLogicalClock, WallTime};
use kiseki_log::traits::{AppendChunkAndDeltaRequest, AppendDeltaRequest};

fn seq(physical_ms: u64, logical: u32, node: u64) -> PerspectiveSeq {
    PerspectiveSeq(HybridLogicalClock { physical_ms, logical, node_id: NodeId(node) })
}

fn intent(s: PerspectiveSeq, key: Option<IdempotencyKey>) -> WriteIntent {
    WriteIntent {
        perspective_seq: s,
        idempotency_key: key,
        append: AppendChunkAndDeltaRequest {
            delta: AppendDeltaRequest {
                shard_id: ShardId(1),
                tenant_id: OrgId(100),
                operation: OperationType::Create,
                timestamp: DeltaTimestamp {
                    hlc: s.0,
                    wall: WallTime {
                        millis_since_epoch: s.0.physical_ms,
                        timezone: "UTC".to_string(),
                    },
                    quality: ClockQuality::Ntp,
                },
                hashed_key: [0u8; 32],
                chunk_refs: vec![],
                payload: vec![],
                has_inline_data: false,
            },
            new_chunks: vec![],
            inline_payloads: vec![],
        },
    }
}

fn fill(store: &mut InMemIntentStore, seqs: &[PerspectiveSeq]) {
    for s in seqs {
        assert_eq!(store.put(intent(*s, None)).unwrap(), PutOutcome::Recorded);
    }
}

fn orders(intents: &[WriteIntent]) -> Vec<PerspectiveSeq> {
    intents.iter().map(|i| i.perspective_seq).collect()
}

#[test]
fn perspective_seq_total_order() {
    // Milliseconds, then counter, then node.
    assert!(seq(1, 0, 1) < seq(1, 0, 2));
    assert!(seq(1, 0, 2) < seq(1, 1, 1));
    assert!(seq(1, 9, 9) < seq(2, 0, 1));
    let mut v = vec![seq(2, 0, 1), seq(1, 1, 1), seq(1, 0, 2), seq(1, 0, 1)];
    v.sort();
    assert_eq!(v, vec![seq(1, 0, 1), seq(1, 0, 2), seq(1, 1, 1), seq(2, 0, 1)]);
}

#[test]
fn put_records_and_pending_is_ordered() {
    let mut s = InMemIntentStore::new();
    assert_eq!(s.put(intent(seq(3, 0, 1), None)).unwrap(), PutOutcome::Recorded);
    assert_eq!(s.put(intent(seq(1, 0, 1), None)).unwrap(), PutOutcome::Recorded);
    assert_eq!(s.put(intent(seq(2, 0, 1), None)).unwrap(), PutOutcome::Recorded);
    let ordered = orders(&s.pending().unwrap());
    assert_eq!(ordered, vec![seq(1, 0, 1), seq(2, 0, 1), seq(3, 0, 1)]);
    assert_eq!(s.next_pending_seq().unwrap(), Some(seq(1, 0, 1)));
    assert_eq!(s.pending_len().unwrap(), 3);
}

#[test]
fn put_is_idempotent_on_key() {
    let mut s = InMemIntentStore::new();
    let key = [7u8; 16];
    assert_eq!(s.put(intent(seq(1, 0, 1), Some(key))).unwrap(), PutOutcome::Recorded);
    assert_eq!(
        s.put(intent(seq(5, 0, 2), Some(key))).unwrap(),
        PutOutcome::Duplicate(seq(1, 0, 1))
    );
    assert_eq!(s.pending_len().unwrap(), 1);
}

#[test]
fn keyless_puts_are_never_deduped() {
    let mut s = InMemIntentStore::new();
    assert_eq!(s.put(intent(seq(1, 0, 1), None)).unwrap(), PutOutcome::Recorded);
    assert_eq!(s.put(intent(seq(2, 0, 1), None)).unwrap(), PutOutcome::Recorded);
    assert_eq!(s.pending_len().unwrap(), 2);
}

#[test]
fn prune_drops_incorporated_inclusive() {
    let mut s = InMemIntentStore::new();
    let k2 = [2u8; 16];
    s.put(intent(seq(1, 0, 1), None)).unwrap();
    s.put(intent(seq(2, 0, 1), Some(k2))).unwrap();
    s.put(intent(seq(3, 0, 1), None)).unwrap();
    s.prune(seq(2, 0, 1)).unwrap();
    assert_eq!(orders(&s.pending().unwrap()), vec![seq(3, 0, 1)]);
    assert_eq!(s.next_pending_seq().unwrap(), Some(seq(3, 0, 1)));
    // The client key of a pruned intent can be used again.
    assert_eq!(s.put(intent(seq(4, 0, 1), Some(k2))).unwrap(), PutOutcome::Recorded);
    assert_eq!(s.pending_len().unwrap(), 2);
}

#[test]
fn next_pending_seq_none_when_empty() {
    let s = InMemIntentStore::new();
    assert_eq!(s.next_pending_seq().unwrap(), None);
    assert_eq!(s.pending_len().unwrap(), 0);
}

#[test]
fn removing_orders_frees_their_keys() {
    let mut s = InMemIntentStore::new();
    let key = [9u8; 16];
    s.put(intent(seq(1, 0, 1), Some(key))).unwrap();
    s.put(intent(seq(2, 0, 1), None)).unwrap();
    s.remove_seqs(&[seq(1, 0, 1), seq(8, 0, 1)]).unwrap();
    assert_eq!(orders(&s.pending().unwrap()), vec![seq(2, 0, 1)]);
    assert_eq!(s.put(intent(seq(3, 0, 1), Some(key))).unwrap(), PutOutcome::Recorded);
}

#[test]
fn a_batch_is_recorded_in_order() {
    let mut s = InMemIntentStore::new();
    let key = [1u8; 16];
    let outcomes = put_batch(
        &mut s,
        vec![intent(seq(4, 0, 1), Some(key)), intent(seq(2, 0, 1), Some(key)), intent(seq(3, 0, 1), None)],
    )
    .unwrap();
    assert_eq!(
        outcomes,
        vec![PutOutcome::Recorded, PutOutcome::Duplicate(seq(4, 0, 1)), PutOutcome::Recorded]
    );
    assert_eq!(orders(&s.pending().unwrap()), vec![seq(3, 0, 1), seq(4, 0, 1)]);
}

#[test]
fn seq_key_round_trips() {
    for s in [seq(0, 0, 0), seq(1, 0, 1), seq(7, 9, 42), seq(u64::MAX, u32::MAX, u64::MAX)] {
        assert_eq!(decode_seq_key(&encode_seq_key(s)).unwrap(), s);
    }
}

#[test]
fn seq_key_byte_order_matches_perspective_ord() {
    let mut seqs = vec![seq(2, 0, 1), seq(1, 1, 1), seq(1, 0, 2), seq(1, 0, 1), seq(1, 9, 9)];
    let mut keys: Vec<Vec<u8>> = seqs.iter().map(|s| encode_seq_key(*s)).collect();
    seqs.sort();
    keys.sort_unstable();
    let decoded: Vec<PerspectiveSeq> = keys.iter().map(|k| decode_seq_key(k).unwrap()).collect();
    assert_eq!(decoded, seqs);
}

#[test]
fn decode_seq_key_rejects_wrong_width() {
    assert!(matches!(decode_seq_key(&[0u8; 19]), Err(IntentError::Codec(_))));
}

#[test]
fn seq_key_is_big_endian() {
    let key = encode_seq_key(seq(0x0102, 3, 0x0405));
    assert_eq!(key, vec![0, 0, 0, 0, 0, 0, 1, 2, 0, 0, 0, 3, 0, 0, 0, 0, 0, 0, 4, 5]);
}

#[test]
fn framed_values_round_trip() {
    for key in [None, Some([3u8; 16])] {
        let bytes = encode_value(key, &[1, 2, 3, 4]);
        let v = decode_value(&bytes).unwrap();
        assert_eq!(v.idempotency_key, key);
        assert_eq!(v.proto, vec![1, 2, 3, 4]);
        // A frame that is cut short is refused.
        for n in 0..bytes.len() {
            assert!(decode_value(&bytes[..n]).is_err(), "cut to {n}");
        }
    }
}

#[test]
fn another_frame_version_is_refused() {
    let mut bytes = encode_value(None, &[]);
    bytes[0] = 9;
    assert!(matches!(decode_value(&bytes), Err(IntentError::Codec(_))));
}

#[test]
fn format_version_is_seeded_and_held_to() {
    // A new database is given the current version.
    let seeded = check_format_version(None).unwrap().unwrap();
    assert!(check_format_version(Some(&seeded)).unwrap().is_none());
    // Another version, or a stamp of another width, is refused.
    let other = (FORMAT_VERSION + 1).to_be_bytes();
    assert!(matches!(check_format_version(Some(&other)), Err(IntentError::Codec(_))));
    assert!(matches!(check_format_version(Some(&[1])), Err(IntentError::Codec(_))));
}

#[test]
fn a_put_is_planned_against_the_stored_key() {
    let at = encode_seq_key(seq(1, 0, 1));
    match plan_put(seq(5, 0, 2), Some([7u8; 16]), &[1], Some(&at)).unwrap() {
        PutPlan::Duplicate(s) => assert_eq!(s, seq(1, 0, 1)),
        _ => panic!("a known key is a duplicate"),
    }
    match plan_put(seq(5, 0, 2), Some([7u8; 16]), &[1], None).unwrap() {
        PutPlan::Write { row_key, value, pointer } => {
            assert_eq!(row_key, encode_seq_key(seq(5, 0, 2)));
            assert_eq!(value, encode_value(Some([7u8; 16]), &[1]));
            assert_eq!(pointer, Some([7u8; 16]));
        }
        _ => panic!("a new key is written"),
    }
}

#[test]
fn pruning_rows_takes_the_keys_along() {
    let rows = vec![
        (encode_seq_key(seq(1, 0, 1)), encode_value(None, &[])),
        (encode_seq_key(seq(2, 0, 1)), encode_value(Some([2u8; 16]), &[])),
        (encode_seq_key(seq(3, 0, 1)), encode_value(Some([3u8; 16]), &[])),
    ];
    let plan = plan_prune(&rows, seq(2, 0, 1)).unwrap();
    assert_eq!(plan.rows, vec![encode_seq_key(seq(1, 0, 1)), encode_seq_key(seq(2, 0, 1))]);
    assert_eq!(plan.pointers, vec![[2u8; 16]]);
    let stored = decode_rows(&rows).unwrap();
    assert_eq!(stored.len(), 3);
    assert_eq!(stored[2].seq, seq(3, 0, 1));
    assert_eq!(stored[2].idempotency_key, Some([3u8; 16]));
}

#[test]
fn run_drains_all_pending_in_ascending_order() {
    let mut store = InMemIntentStore::new();
    fill(&mut store, &[seq(3, 0, 1), seq(1, 0, 1), seq(2, 0, 1)]);
    let mut sink = RecordingSink::new();
    let n = Committer::run(&store, &mut sink).unwrap();
    assert_eq!(n, 3);
    assert_eq!(sink.incorporated, vec![seq(1, 0, 1), seq(2, 0, 1), seq(3, 0, 1)]);
}

#[test]
fn run_drains_single_idle_intent() {
    let mut store = InMemIntentStore::new();
    fill(&mut store, &[seq(7, 0, 1)]);
    let mut sink = RecordingSink::new();
    let n = Committer::run(&store, &mut sink).unwrap();
    assert_eq!(n, 1);
    assert_eq!(sink.incorporated, vec![seq(7, 0, 1)]);
}

#[test]
fn run_does_not_prune_store_pruning_is_off_band() {
    let mut store = InMemIntentStore::new();
    fill(&mut store, &[seq(1, 0, 1), seq(2, 0, 1), seq(3, 0, 1)]);
    let mut sink = RecordingSink::new();
    let n = Committer::run(&store, &mut sink).unwrap();
    assert_eq!(n, 3);
    assert_eq!(store.pending_len().unwrap(), 3);
}

#[test]
fn run_empty_store_returns_zero() {
    let store = InMemIntentStore::new();
    let mut sink = RecordingSink::new();
    assert_eq!(Committer::run(&store, &mut sink).unwrap(), 0);
    assert!(sink.incorporated.is_empty());
}

#[test]
fn drain_all_batches_at_cap() {
    let mut store = InMemIntentStore::new();
    let seqs: Vec<PerspectiveSeq> = (1..=2500u64).map(|i| seq(i, 0, 1)).collect();
    fill(&mut store, &seqs);

    let mut sink = RecordingSink::new();
    let n = Committer::run(&store, &mut sink).unwrap();
    assert_eq!(n, 2500);
    assert_eq!(
        sink.batch_starts.len(),
        3,
        "drain must split into exactly 3 batches at cap 1000",
    );
    assert_eq!(sink.batch_starts, vec![0, 1000, 2000]);
    assert_eq!(sink.incorporated.len(), 2500);
    assert_eq!(sink.incorporated, seqs);
    assert_eq!(orders(&sink.intents), seqs);
    assert_eq!(store.pending_len().unwrap(), 2500);
}

fn recovered_seqs(
    stores: &[&InMemIntentStore],
    cluster_size: usize,
    min_acks: usize,
) -> Vec<PerspectiveSeq> {
    orders(&recover_pending(stores, cluster_size, min_acks).unwrap())
}

#[test]
fn recover_o2_overlap_every_gather_recovers_acked_intent() {
    let mut a = InMemIntentStore::new();
    let mut b = InMemIntentStore::new();
    let c = InMemIntentStore::new();
    let acked = seq(7, 0, 1);
    assert_eq!(a.put(intent(acked, None)).unwrap(), PutOutcome::Recorded);
    assert_eq!(b.put(intent(acked, None)).unwrap(), PutOutcome::Recorded);

    for (label, gather) in [("{A,B}", [&a, &b]), ("{A,C}", [&a, &c]), ("{B,C}", [&b, &c])] {
        let recovered = recovered_seqs(&gather, 3, 2);
        assert!(recovered.contains(&acked), "gather {label} must recover acked intent I");
    }
}

#[test]
fn recover_threshold_rf6_min2_needs_five_views() {
    let stores: Vec<InMemIntentStore> = (0..6).map(|_| InMemIntentStore::new()).collect();
    let refs: Vec<&InMemIntentStore> = stores.iter().collect();

    assert!(recover_pending(&refs[..5], 6, 2).is_ok());

    match recover_pending(&refs[..4], 6, 2) {
        Err(IntentError::InsufficientQuorum { have, need }) => {
            assert_eq!(have, 4);
            assert_eq!(need, 5);
        }
        other => panic!("expected InsufficientQuorum {{have:4,need:5}}, got {other:?}"),
    }
}

#[test]
fn recover_dedups_same_intent_in_two_stores() {
    let mut a = InMemIntentStore::new();
    let mut b = InMemIntentStore::new();
    let s = seq(3, 0, 1);
    a.put(intent(s, None)).unwrap();
    b.put(intent(s, None)).unwrap();
    let recovered = recover_pending(&[&a, &b], 3, 2).unwrap();
    assert_eq!(recovered.len(), 1);
    assert_eq!(recovered[0].perspective_seq, s);
}

#[test]
fn recover_unions_ascending() {
    let mut a = InMemIntentStore::new();
    let mut b = InMemIntentStore::new();
    fill(&mut a, &[seq(5, 0, 1), seq(1, 0, 1)]);
    fill(&mut b, &[seq(3, 0, 1), seq(2, 0, 1)]);
    assert_eq!(
        recovered_seqs(&[&a, &b], 3, 2),
        vec![seq(1, 0, 1), seq(2, 0, 1), seq(3, 0, 1), seq(5, 0, 1)]
    );
}

#[test]
fn recover_insufficient_quorum_below_threshold() {
    let a = InMemIntentStore::new();
    match recover_pending(&[&a], 3, 2) {
        Err(IntentError::InsufficientQuorum { have, need }) => {
            assert_eq!(have, 1);
            assert_eq!(need, 2);
        }
        other => panic!("expected InsufficientQuorum, got {other:?}"),
    }
}

#[test]
fn restore_into_is_idempotent() {
    let recovered =
        vec![intent(seq(1, 0, 1), None), intent(seq(2, 0, 1), None), intent(seq(3, 0, 1), None)];
    let mut target = InMemIntentStore::new();
    let first = restore_into(&mut target, &recovered).unwrap();
    assert_eq!(first, 3, "all three newly inserted on first restore");
    assert_eq!(target.pending_len().unwrap(), 3);

    let second = restore_into(&mut target, &recovered).unwrap();
    assert_eq!(second, 0, "re-restore inserts nothing new (idempotent)");
    assert_eq!(target.pending_len().unwrap(), 3);
    assert_eq!(
        orders(&target.pending().unwrap()),
        vec![seq(1, 0, 1), seq(2, 0, 1), seq(3, 0, 1)]
    );
}

#[test]
fn recover_then_drain_incorporates_all() {
    let mut a = InMemIntentStore::new();
    let mut b = InMemIntentStore::new();
    fill(&mut a, &[seq(1, 0, 1), seq(3, 0, 1)]);
    fill(&mut b, &[seq(2, 0, 1), seq(3, 0, 1)]);

    let recovered = recover_pending(&[&a, &b], 3, 2).unwrap();
    assert_eq!(orders(&recovered), vec![seq(1, 0, 1), seq(2, 0, 1), seq(3, 0, 1)]);

    let mut leader = InMemIntentStore::new();
    assert_eq!(restore_into(&mut leader, &recovered).unwrap(), 3);

    let mut sink = RecordingSink::new();
    let n = Committer::run(&leader, &mut sink).unwrap();
    assert_eq!(n, 3, "drain incorporates all pending; the apply gate drops replays");
    assert_eq!(sink.incorporated, vec![seq(1, 0, 1), seq(2, 0, 1), seq(3, 0, 1)]);
}

#[test]
fn drain_local_drains_full_store() {
    let mut store = InMemIntentStore::new();
    fill(&mut store, &[seq(3, 0, 1), seq(1, 0, 1), seq(2, 0, 1)]);
    let mut committer = ShardCommitter::new(store, RecordingSink::new(), 3, 2);

    let n = committer.drain_local().unwrap();
    assert_eq!(n, 3);
    assert_eq!(
        committer.sink.incorporated,
        vec![seq(1, 0, 1), seq(2, 0, 1), seq(3, 0, 1)]
    );
    assert_eq!(
        committer.local_store.pending_len().unwrap(),
        3,
        "store retains items; supervisor prunes off-band",
    );
}

#[test]
fn drain_local_drains_single_idle_intent() {
    let mut store = InMemIntentStore::new();
    fill(&mut store, &[seq(9, 0, 1)]);
    let mut committer = ShardCommitter::new(store, RecordingSink::new(), 3, 2);

    let n = committer.drain_local().unwrap();
    assert_eq!(n, 1);
    assert_eq!(committer.sink.incorporated, vec![seq(9, 0, 1)]);
    assert_eq!(committer.local_store.pending_len().unwrap(), 1);
}

#[test]
fn drain_local_drains_all_no_floor() {
    let mut store = InMemIntentStore::new();
    fill(&mut store, &[seq(2, 0, 1), seq(3, 0, 1)]);
    let mut committer = ShardCommitter::new(store, RecordingSink::new(), 3, 2);

    let n = committer.drain_local().unwrap();
    assert_eq!(n, 2, "drain-all sees both seqs");
    assert_eq!(committer.sink.incorporated, vec![seq(2, 0, 1), seq(3, 0, 1)]);
    assert_eq!(committer.local_store.pending_len().unwrap(), 2);
}

#[test]
fn recover_unions_local_and_peers() {
    let mut store = InMemIntentStore::new();
    fill(&mut store, &[seq(1, 0, 1)]);
    let mut committer = ShardCommitter::new(store, RecordingSink::new(), 3, 2);

    let peer_sets =
        vec![(NodeId(2), vec![intent(seq(2, 0, 1), None), intent(seq(3, 0, 1), None)])];
    let restored = committer.recover(&peer_sets).unwrap();
    assert_eq!(restored, 2);
    assert_eq!(
        orders(&committer.local_store.pending().unwrap()),
        vec![seq(1, 0, 1), seq(2, 0, 1), seq(3, 0, 1)]
    );

    let again = committer.recover(&peer_sets).unwrap();
    assert_eq!(again, 0);
    assert_eq!(committer.local_store.pending_len().unwrap(), 3);
}

#[test]
fn recover_below_threshold_errors() {
    let mut store = InMemIntentStore::new();
    fill(&mut store, &[seq(1, 0, 1)]);
    let mut committer = ShardCommitter::new(store, RecordingSink::new(), 3, 2);

    match committer.recover(&vec![]) {
        Err(IntentError::InsufficientQuorum { have, need }) => {
            assert_eq!(have, 1);
            assert_eq!(need, 2);
        }
        other => panic!("expected InsufficientQuorum, got {other:?}"),
    }
    assert_eq!(committer.local_store.pending_len().unwrap(), 1);
}

#[test]
fn recover_rf6_min2_needs_five_distinct_views() {
    let mut store = InMemIntentStore::new();
    fill(&mut store, &[seq(1, 0, 1)]);
    let mut committer = ShardCommitter::new(store, RecordingSink::new(), 6, 2);

    let peers = vec![
        (NodeId(2), vec![intent(seq(2, 0, 2), None)]),
        (NodeId(3), vec![intent(seq(3, 0, 3), None)]),
        (NodeId(4), vec![intent(seq(4, 0, 4), None)]),
    ];
    match committer.recover(&peers) {
        Err(IntentError::InsufficientQuorum { have, need }) => {
            assert_eq!(have, 4, "1 local + 3 distinct peers");
            assert_eq!(need, 5, "RF6/min2 threshold");
        }
        other => panic!("expected InsufficientQuorum {{have:4,need:5}}, got {other:?}"),
    }
}

#[test]
fn recover_dedups_duplicate_peer() {
    let mut store = InMemIntentStore::new();
    fill(&mut store, &[seq(1, 0, 1)]);
    let mut committer = ShardCommitter::new(store, RecordingSink::new(), 5, 2);

    let dup_peer = vec![
        (NodeId(2), vec![intent(seq(2, 0, 2), None)]),
        (NodeId(2), vec![intent(seq(3, 0, 2), None)]),
        (NodeId(2), vec![intent(seq(4, 0, 2), None)]),
    ];
    match committer.recover(&dup_peer) {
        Err(IntentError::InsufficientQuorum { have, need }) => {
            assert_eq!(have, 2, "1 local + 1 DISTINCT peer, not 1 + 3 reports");
            assert_eq!(need, 4, "RF5/min2 threshold");
        }
        other => panic!("expected InsufficientQuorum after dedup, got {other:?}"),
    }
    assert_eq!(
        committer.local_store.pending_len().unwrap(),
        1,
        "store untouched on refusal"
    );
}

#[test]
fn recover_then_drain_via_gatherer() {
    let mut store = InMemIntentStore::new();
    fill(&mut store, &[seq(1, 0, 1)]);
    let mut committer = ShardCommitter::new(store, RecordingSink::new(), 3, 2);
    let peers =
        vec![(NodeId(2), vec![intent(seq(2, 0, 1), None), intent(seq(3, 0, 1), None)])];

    let restored = committer.recover(&peers).unwrap();
    assert_eq!(restored, 2, "seq2, seq3 unioned in from the peer");

    let n = committer.drain_local().unwrap();
    assert_eq!(n, 3, "leader drains the full recovered set");
    assert_eq!(
        committer.sink.incorporated,
        vec![seq(1, 0, 1), seq(2, 0, 1), seq(3, 0, 1)]
    );
    assert_eq!(committer.local_store.pending_len().unwrap(), 3);
}

fn batches(a: &RecordingAppender) -> Vec<Vec<HybridLogicalClock>> {
    a.appends.iter().map(|b| b.iter().map(|i| i.perspective_seq).collect()).collect()
}

#[test]
fn sink_incorporates_in_perspective_order_as_one_batch() {
    let mut store = InMemIntentStore::new();
    fill(&mut store, &[seq(3, 0, 1), seq(1, 0, 1), seq(2, 0, 1)]);

    let mut sink = RaftLogIncorporationSink::new(RecordingAppender::new());
    let n = Committer::run(&store, &mut sink).unwrap();
    assert_eq!(n, 3);
    let got = batches(&sink.appender);
    assert_eq!(got.len(), 1, "all 3 items fit in one batch under cap");
    assert_eq!(
        got[0],
        vec![seq(1, 0, 1).0, seq(2, 0, 1).0, seq(3, 0, 1).0],
        "appender received ascending perspective order",
    );
}

#[test]
fn sink_runs_with_empty_store_is_noop() {
    let store = InMemIntentStore::new();
    let mut sink = RaftLogIncorporationSink::new(RecordingAppender::new());
    assert_eq!(Committer::run(&store, &mut sink).unwrap(), 0);
    assert!(batches(&sink.appender).is_empty());
}

#[test]
fn failed_append_is_reported_by_the_sink() {
    let mut store = InMemIntentStore::new();
    fill(&mut store, &[seq(1, 0, 1)]);
    let mut appender = RecordingAppender::new();
    appender.failing = true;
    let mut sink = RaftLogIncorporationSink::new(appender);
    match Committer::run(&store, &mut sink) {
        Err(IntentError::Incorporate(m)) => assert_eq!(m, LogError::Unavailable.message()),
        other => panic!("expected Incorporate, got {other:?}"),
    }
}

/// A sink that takes a number of batches and then refuses every other.
struct ShortSink {
    room: usize,
    taken: Vec<usize>,
    refused: usize,
}

impl IncorporationSink for ShortSink {
    fn batches(&self) -> IntentBatches {
        unreachable!("a ghost function has no value")
    }

    fn refusals(&self) -> IntentErrors {
        unreachable!("a ghost function has no value")
    }

    fn ready(&self) -> bool {
        true
    }

    fn reliable(&self) -> bool {
        false
    }

    fn incorporate(&mut self, ordered: &[WriteIntent]) -> Result<(), IntentError> {
        if self.taken.len() == self.room {
            self.refused += 1;
            return Err(IntentError::Incorporate("full".to_string()));
        }
        self.taken.push(ordered.len());
        Ok(())
    }
}

#[test]
fn drain_stops_at_the_first_refusal() {
    let mut store = InMemIntentStore::new();
    let total = 2 * DRAIN_BATCH_CAP as u64 + 7;
    for i in 0..total {
        store.put(intent(seq(i + 1, 0, 1), None)).unwrap();
    }
    let mut sink = ShortSink { room: 1, taken: vec![], refused: 0 };
    match Committer::run(&store, &mut sink) {
        Err(IntentError::Incorporate(m)) => assert_eq!(m, "full"),
        other => panic!("expected Incorporate, got {other:?}"),
    }
    assert_eq!(sink.taken, vec![DRAIN_BATCH_CAP]);
    assert_eq!(sink.refused, 1);
    assert_eq!(store.pending_len().unwrap(), total as usize);

    let mut sink = ShortSink { room: 3, taken: vec![], refused: 0 };
    assert_eq!(Committer::run(&store, &mut sink).unwrap(), total as usize);
    assert_eq!(sink.taken, vec![DRAIN_BATCH_CAP, DRAIN_BATCH_CAP, 7]);
}

/// A store that takes a number of intents and then fails.
struct ShortStore {
    inner: InMemIntentStore,
    room: usize,
}

impl IntentStore for ShortStore {
    fn table(&self) -> IntentTable {
        unreachable!("a ghost function has no value")
    }

    fn ready(&self) -> bool {
        true
    }

    fn reliable(&self) -> bool {
        false
    }

    fn put(&mut self, intent: WriteIntent) -> Result<PutOutcome, IntentError> {
        if self.room == 0 {
            return Err(IntentError::Fjall("disk full".to_string()));
        }
        self.room -= 1;
        self.inner.put(intent)
    }

    fn pending(&self) -> Result<Vec<WriteIntent>, IntentError> {
        self.inner.pending()
    }

    fn next_pending_seq(&self) -> Result<Option<PerspectiveSeq>, IntentError> {
        self.inner.next_pending_seq()
    }

    fn prune(&mut self, up_to: PerspectiveSeq) -> Result<(), IntentError> {
        self.inner.prune(up_to)
    }

    fn remove_seqs(&mut self, seqs: &[PerspectiveSeq]) -> Result<(), IntentError> {
        self.inner.remove_seqs(seqs)
    }

    fn pending_len(&self) -> Result<usize, IntentError> {
        self.inner.pending_len()
    }
}

#[test]
fn failed_batch_leaves_its_first_intents() {
    let mut store = ShortStore { inner: InMemIntentStore::new(), room: 2 };
    let batch: Vec<WriteIntent> = [3, 1, 2].iter().map(|i| intent(seq(*i, 0, 1), None)).collect();
    assert!(matches!(put_batch(&mut store, batch), Err(IntentError::Fjall(_))));
    assert_eq!(orders(&store.pending().unwrap()), vec![seq(1, 0, 1), seq(3, 0, 1)]);
}

#[test]
fn failed_recovery_leaves_the_first_intents_of_the_union() {
    let store = ShortStore { inner: InMemIntentStore::new(), room: 2 };
    let mut committer = ShardCommitter::new(store, RecordingSink::new(), 3, 2);
    let mut supervisor = Supervisor::new();
    let _ = supervisor.observe_leadership(true);
    let held = |list: [u64; 2]| -> Vec<WriteIntent> {
        list.iter().map(|i| intent(seq(*i, 0, 1), None)).collect()
    };
    let peers = vec![(NodeId(2), held([4, 2])), (NodeId(3), held([3, 1]))];
    match supervisor.recover_term(&mut committer, Ok(peers), &vec![], 0) {
        RecoveryReport::RestoreFailed(e) => {
            assert_eq!(e, IntentError::Fjall("disk full".to_string()));
        }
        _ => panic!("expected RestoreFailed"),
    }
    assert_eq!(
        orders(&committer.local_store.pending().unwrap()),
        vec![seq(1, 0, 1), seq(2, 0, 1)]
    );
    assert!(supervisor.needs_recovery());
    committer.local_store.room = 9;
    let peers = vec![(NodeId(2), held([4, 2])), (NodeId(3), held([3, 1]))];
    assert_eq!(committer.recover(&peers).unwrap(), 2);
    assert_eq!(committer.local_store.pending_len().unwrap(), 4);
}

#[test]
fn restoring_counts_what_it_adds() {
    let key = |b: u8| Some([b; 16]);
    let mut store = InMemIntentStore::new();
    store.put(intent(seq(1, 0, 1), key(1))).unwrap();
    store.put(intent(seq(2, 0, 1), None)).unwrap();
    let recovered = vec![
        intent(seq(1, 0, 1), key(1)),
        intent(seq(2, 0, 1), None),
        intent(seq(3, 0, 1), key(3)),
        intent(seq(4, 0, 1), None),
    ];
    let before = store.pending_len().unwrap();
    assert_eq!(restore_into(&mut store, &recovered).unwrap(), 2);
    assert_eq!(store.pending_len().unwrap(), before + 2);
    let held = store.pending().unwrap();
    assert_eq!(restore_into(&mut store, &recovered).unwrap(), 0);
    assert_eq!(orders(&store.pending().unwrap()), orders(&held));
}
