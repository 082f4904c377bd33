//! Batching of intents on their way to the stores, and the walk to a quorum.

use kiseki_log::delta::OperationType;
use kiseki_log::error::LogError;
use kiseki_log::ids::{NodeId, OrgId, ShardId};
use kiseki_log::intent::{
    put_batch, InMemIntentStore, IntentStore, PerspectiveSeq, WriteIntent,
};
use kiseki_log::intent_fan_coalescer::{
    after_local_put, batch_acked, batch_max_from_env, batch_timeout_from_env, reply_result,
    topup_timeout_from_env, CoalesceQueue, FlushReply, QuorumWalk, RescueCount, SubmitRole,
    WalkAction,
};
use kiseki_log::intent_metrics::{
    observe_commit_batch_size, observe_intent_put_batch_size, MAX_SAMPLE,
};
use kiseki_log::intent_recv_coalescer::{
    channel_capacity, dropped_answer, flush_pending, keep_collecting, recv_batch_max_from_env,
    recv_batch_timeout_from_env,
};
use kiseki_log::time::{ClockQuality, DeltaTimestamp, HybridLogicalClock, WallTime};
use kiseki_log::traits::{AppendChunkAndDeltaRequest, AppendDeltaRequest};

fn seq(physical_ms: u64, logical: u32, node: u64) -> PerspectiveSeq {
    PerspectiveSeq(HybridLogicalClock { physical_ms, logical, node_id: NodeId(node) })
}

fn intent(s: PerspectiveSeq) -> WriteIntent {
    WriteIntent {
        perspective_seq: s,
        idempotency_key: None,
        append: AppendChunkAndDeltaRequest {
            delta: AppendDeltaRequest {
                shard_id: ShardId(1),
                tenant_id: OrgId(100),
                operation: OperationType::Create,
                timestamp: DeltaTimestamp {
                    hlc: s.0,
                    wall: WallTime {
                        millis_since_epoch: s.0.physical_ms,
                        timezone: "UTC".to_string(),
                    },
                    quality: ClockQuality::Ntp,
                },
                hashed_key: [0u8; 32],
                chunk_refs: vec![],
                payload: vec![],
                has_inline_data: false,
            },
            new_chunks: vec![],
            inline_payloads: vec![],
        },
    }
}

/// One flush of a queue with a single copy wanted: how many writers were told,
/// and what.
fn flush(
    queue: &mut CoalesceQueue<WriteIntent>,
    store: &mut InMemIntentStore,
) -> (usize, FlushReply) {
    let batch = queue.take();
    let n = batch.len();
    let recorded = put_batch(store, batch).is_ok();
    (n, after_local_put(recorded, 1).expect("one copy is enough"))
}

#[test]
fn single_copy_quorum_no_fan_needed() {
    let mut store = InMemIntentStore::new();
    let mut queue = CoalesceQueue::new();
    for i in 0..8u32 {
        let role = queue.submit(intent(seq(1, i, 1)), 16);
        if i == 0 {
            assert_eq!(role, SubmitRole::Flusher);
        } else {
            assert_eq!(role, SubmitRole::Waiter { wake: false });
        }
    }
    let (told, reply) = flush(&mut queue, &mut store);
    assert_eq!(told, 8);
    assert!(reply_result(reply, ShardId(1)).is_ok(), "every submitter must see Ok");
    assert_eq!(store.pending_len().unwrap(), 8);
}

#[test]
fn batch_flushes_on_cap_reached() {
    let mut store = InMemIntentStore::new();
    let mut queue = CoalesceQueue::new();
    let roles: Vec<SubmitRole> =
        (0..4u32).map(|i| queue.submit(intent(seq(2, i, 1)), 4)).collect();
    assert_eq!(
        roles,
        vec![
            SubmitRole::Flusher,
            SubmitRole::Waiter { wake: false },
            SubmitRole::Waiter { wake: false },
            SubmitRole::Waiter { wake: true },
        ],
        "must flush on cap, not wait for the timeout"
    );
    let (told, reply) = flush(&mut queue, &mut store);
    assert_eq!((told, reply), (4, FlushReply::Durable));
    assert_eq!(store.pending_len().unwrap(), 4);
}

#[test]
fn sequential_submits_complete_independently() {
    let mut store = InMemIntentStore::new();
    let mut queue = CoalesceQueue::new();
    for i in 0..3u32 {
        assert_eq!(queue.submit(intent(seq(3, i, 1)), 16), SubmitRole::Flusher);
        assert_eq!(flush(&mut queue, &mut store), (1, FlushReply::Durable));
    }
    assert_eq!(store.pending_len().unwrap(), 3);
}

#[test]
fn multi_cycle_flush_acks_every_submitter() {
    let mut store = InMemIntentStore::new();
    let mut queue = CoalesceQueue::new();
    let mut told = 0;
    for i in 0..8u32 {
        if queue.submit(intent(seq(4, i, 1)), 3) == (SubmitRole::Waiter { wake: true }) {
            let (n, reply) = flush(&mut queue, &mut store);
            assert_eq!((n, reply), (3, FlushReply::Durable));
            told += n;
        }
    }
    let (n, reply) = flush(&mut queue, &mut store);
    assert_eq!((n, reply), (2, FlushReply::Durable));
    told += n;
    assert_eq!(told, 8, "every submitter must see Ok");
    assert_eq!(store.pending_len().unwrap(), 8);
}

#[test]
fn failed_local_put_is_unavailable() {
    assert_eq!(after_local_put(false, 1), Some(FlushReply::Unavailable));
    assert_eq!(after_local_put(true, 0), Some(FlushReply::Durable));
    assert_eq!(after_local_put(true, 2), None);
    assert!(matches!(
        reply_result(FlushReply::Unavailable, ShardId(7)),
        Err(LogError::Unavailable)
    ));
    assert!(matches!(
        reply_result(FlushReply::QuorumLost, ShardId(7)),
        Err(LogError::QuorumLost(ShardId(7)))
    ));
}

#[test]
fn an_answer_acknowledges_all_or_nothing() {
    assert!(batch_acked(&[true, true]));
    assert!(!batch_acked(&[true, false]));
    assert!(!batch_acked(&[]));
}

#[test]
fn walk_asks_the_leader_first() {
    let peers = [NodeId(2), NodeId(3), NodeId(4)];
    let mut w = QuorumWalk::begin(&peers, Some(3), NodeId(1), 2);
    assert!(matches!(w.action(), WalkAction::AskLeader(1)));
    w.answered(true);
    assert!(matches!(w.action(), WalkAction::Reply(FlushReply::Durable)));
}

#[test]
fn walk_turns_to_the_others_and_then_asks_again() {
    let peers = [NodeId(2), NodeId(3), NodeId(4)];
    let mut w = QuorumWalk::begin(&peers, Some(3), NodeId(1), 3);
    w.answered(false);
    assert!(matches!(w.action(), WalkAction::DrawRotation));
    // The others are the first and the third peer; a counter of one turns them.
    w.rotate(1);
    assert!(matches!(w.action(), WalkAction::Ask(2)));
    w.answered(true);
    assert!(matches!(w.action(), WalkAction::Ask(0)));
    w.answered(false);
    match w.action() {
        WalkAction::Rescue { pool, needed } => {
            assert_eq!(pool, vec![1, 0]);
            assert_eq!(needed, 1);
        }
        other => panic!("expected a rescue, got {other:?}"),
    }
    w.rescued(1);
    assert!(matches!(w.action(), WalkAction::Reply(FlushReply::Durable)));
}

#[test]
fn walk_without_enough_peers_loses_the_quorum() {
    let mut w = QuorumWalk::begin(&[NodeId(2)], None, NodeId(1), 3);
    w.rotate(0);
    w.answered(false);
    w.rescued(0);
    assert!(matches!(w.action(), WalkAction::Reply(FlushReply::QuorumLost)));
    // With nobody to ask there is nothing to wait for.
    let alone = QuorumWalk::begin(&[], None, NodeId(1), 2);
    assert!(matches!(alone.action(), WalkAction::Reply(FlushReply::QuorumLost)));
}

#[test]
fn walk_does_not_ask_itself_as_leader() {
    let w = QuorumWalk::begin(&[NodeId(2)], Some(1), NodeId(1), 2);
    assert!(matches!(w.action(), WalkAction::DrawRotation));
}

#[test]
fn rescue_stops_at_what_is_missing() {
    let mut r = RescueCount::new(2);
    assert!(!r.landed(true));
    assert!(!r.landed(false));
    assert!(r.landed(true));
    assert_eq!(r.acks, 2);
}

#[test]
fn fan_settings_are_read() {
    assert_eq!(batch_max_from_env(None), 16);
    assert_eq!(batch_max_from_env(Some("64")), 64);
    assert_eq!(batch_max_from_env(Some("0")), 16);
    assert_eq!(batch_timeout_from_env(None), 500);
    assert_eq!(batch_timeout_from_env(Some("9")), 9);
    assert_eq!(topup_timeout_from_env(Some("250")), 250);
}

#[test]
fn single_rpc_flushes_on_timeout() {
    let mut store = InMemIntentStore::new();
    // Fifty microseconds are up before the batch is full.
    assert!(keep_collecting(2, 128, 49, 50));
    assert!(!keep_collecting(2, 128, 50, 50));
    let replies =
        flush_pending(&mut store, &vec![vec![intent(seq(1, 0, 1)), intent(seq(1, 1, 1))]]);
    assert_eq!(replies.len(), 1);
    assert_eq!(replies[0], Ok(vec![true, true]));
    assert_eq!(store.pending_len().unwrap(), 2);
}

#[test]
fn concurrent_rpcs_coalesce_into_one_put_batch() {
    let mut store = InMemIntentStore::new();
    let mut requests = vec![];
    let mut total = 0;
    for rpc_idx in 0..4u32 {
        assert!(keep_collecting(total, 8, 0, 5_000_000));
        requests.push(vec![intent(seq(2, rpc_idx * 2, 1)), intent(seq(2, rpc_idx * 2 + 1, 1))]);
        total += 2;
    }
    assert!(!keep_collecting(total, 8, 0, 5_000_000), "the cap is reached");
    for reply in flush_pending(&mut store, &requests) {
        let acks = reply.unwrap();
        assert_eq!(acks.len(), 2);
        assert!(acks.iter().all(|b| *b));
    }
    assert_eq!(
        store.pending_len().unwrap(),
        8,
        "all four RPCs landed via one coalesced put_batch"
    );
}

#[test]
fn dropping_handle_shuts_down_task() {
    let mut store = InMemIntentStore::new();
    let replies = flush_pending(&mut store, &vec![vec![intent(seq(3, 0, 1))]]);
    assert_eq!(replies[0], Ok(vec![true]));
    assert_eq!(store.pending_len().unwrap(), 1);
    // A request that comes after the end is answered in the negative.
    assert_eq!(dropped_answer(2), vec![false, false]);
}

#[test]
fn receive_settings_are_read() {
    assert_eq!(recv_batch_max_from_env(None), 128);
    assert_eq!(recv_batch_max_from_env(Some("3")), 3);
    assert_eq!(recv_batch_timeout_from_env(Some("x")), 100);
    assert_eq!(channel_capacity(8), 64);
    assert_eq!(channel_capacity(128), 512);
    assert_eq!(channel_capacity(usize::MAX), usize::MAX);
}

#[test]
fn observe_before_register_does_not_panic() {
    assert_eq!(observe_intent_put_batch_size(false, 4), None);
    assert_eq!(observe_commit_batch_size(false, 2), None);
}

#[test]
fn sizes_are_recorded_up_to_the_largest_sample() {
    assert_eq!(observe_intent_put_batch_size(true, 4), Some(4));
    assert_eq!(observe_commit_batch_size(true, usize::MAX), Some(MAX_SAMPLE));
    assert_eq!(MAX_SAMPLE, 1u64 << 52);
}
