//! The pipelined committer, driven by hand.

use std::collections::VecDeque;

use kiseki_log::command::IncorporateItem;
use kiseki_log::committer_pipeline::{
    intent_to_item, pipeline_depth_from_env, submit_failed, DrainStep, PipelinedCommitter,
    BACKLOG_WARN_INTERVAL_MS, DEFAULT_PIPELINE_DEPTH, MAX_PIPELINE_DEPTH,
};
use kiseki_log::delta::OperationType;
use kiseki_log::error::LogError;
use kiseki_log::ids::{ChunkId, NodeId, OrgId, ShardId};
use kiseki_log::intent::{
    InMemIntentStore, IntentError, IntentStore, PerspectiveSeq, PutOutcome, WriteIntent,
};
use kiseki_log::time::{ClockQuality, DeltaTimestamp, HybridLogicalClock, WallTime};
use kiseki_log::traits::{AppendChunkAndDeltaRequest, AppendDeltaRequest};

fn seq(physical_ms: u64, logical: u32, node: u64) -> PerspectiveSeq {
    PerspectiveSeq(HybridLogicalClock { physical_ms, logical, node_id: NodeId(node) })
}

fn intent(s: PerspectiveSeq) -> WriteIntent {
    WriteIntent {
        perspective_seq: s,
        idempotency_key: None,
        append: AppendChunkAndDeltaRequest {
            delta: AppendDeltaRequest {
                shard_id: ShardId(1),
                tenant_id: OrgId(100),
                operation: OperationType::Create,
                timestamp: DeltaTimestamp {
                    hlc: s.0,
                    wall: WallTime {
                        millis_since_epoch: s.0.physical_ms,
                        timezone: "UTC".to_string(),
                    },
                    quality: ClockQuality::Ntp,
                },
                hashed_key: [0u8; 32],
                chunk_refs: vec![],
                payload: vec![],
                has_inline_data: false,
            },
            new_chunks: vec![],
            inline_payloads: vec![],
        },
    }
}

fn fill(store: &mut InMemIntentStore, seqs: &[PerspectiveSeq]) {
    for s in seqs {
        assert_eq!(store.put(intent(*s)).unwrap(), PutOutcome::Recorded);
    }
}

/// A log whose rounds the test resolves by hand, oldest first.
struct Driver {
    batches: Vec<Vec<HybridLogicalClock>>,
    /// Whether each round in flight is resolved.
    rounds: VecDeque<bool>,
    /// Rounds that were waited for.
    awaited: usize,
}

impl Driver {
    fn new() -> Self {
        Driver { batches: vec![], rounds: VecDeque::new(), awaited: 0 }
    }

    fn resolve_oldest(&mut self) {
        self.rounds[0] = true;
    }

    /// One tick: completed rounds leave first, then the batches go out.
    fn drain_tick(&mut self, pc: &mut PipelinedCommitter, store: &InMemIntentStore) -> usize {
        while self.rounds.front() == Some(&true) {
            self.rounds.pop_front();
            pc.finish_oldest();
        }
        let mut tick = pc.begin_tick(store.pending().unwrap());
        loop {
            match pc.next_step(&tick) {
                DrainStep::AwaitOldest => {
                    self.rounds.pop_front();
                    self.awaited += 1;
                    pc.finish_oldest();
                }
                DrainStep::Submit(items) => {
                    self.batches.push(orders(&items));
                    self.rounds.push_back(false);
                    pc.round_submitted(&mut tick);
                }
                DrainStep::Finished(n) => return n,
            }
        }
    }
}

fn orders(items: &[IncorporateItem]) -> Vec<HybridLogicalClock> {
    items.iter().map(|i| i.perspective_seq).collect()
}

#[test]
fn drain_submits_without_awaiting_when_below_depth() {
    let mut store = InMemIntentStore::new();
    fill(&mut store, &[seq(1, 0, 1), seq(2, 0, 1)]);
    let mut log = Driver::new();
    let mut pc = PipelinedCommitter::new(2);

    let n = log.drain_tick(&mut pc, &store);
    assert_eq!(n, 2);
    assert_eq!(pc.in_flight_len(), 1, "round left in flight, not awaited");
    assert_eq!(log.awaited, 0);
    assert_eq!(
        log.batches,
        vec![vec![seq(1, 0, 1).0, seq(2, 0, 1).0]],
        "ascending perspective order within the round",
    );
}

#[test]
fn in_flight_seqs_are_not_resubmitted() {
    let mut store = InMemIntentStore::new();
    fill(&mut store, &[seq(1, 0, 1), seq(2, 0, 1)]);
    let mut log = Driver::new();
    let mut pc = PipelinedCommitter::new(3);

    assert_eq!(log.drain_tick(&mut pc, &store), 2);
    // The round is unresolved; an older order of another writer and a newer
    // one arrive.
    fill(&mut store, &[seq(0, 0, 2), seq(3, 0, 1)]);
    assert_eq!(log.drain_tick(&mut pc, &store), 2, "only the two new seqs submit");
    assert_eq!(pc.in_flight_len(), 2);
    assert_eq!(log.batches.len(), 2);
    assert_eq!(
        log.batches[1],
        vec![seq(0, 0, 2).0, seq(3, 0, 1).0],
        "late-arriving older seq still drains, just in a later log entry",
    );
}

#[test]
fn depth_bound_awaits_oldest_round() {
    let mut store = InMemIntentStore::new();
    let seqs: Vec<PerspectiveSeq> = (1..=2_500u64).map(|i| seq(i, 0, 1)).collect();
    fill(&mut store, &seqs);
    let mut log = Driver::new();
    let mut pc = PipelinedCommitter::new(2);

    let n = log.drain_tick(&mut pc, &store);
    assert_eq!(n, 2_500, "all three batches submitted");
    assert_eq!(log.batches.len(), 3, "split at the batch cap into 3 rounds");
    assert_eq!(log.awaited, 1, "the oldest round was awaited before the third");
    assert_eq!(pc.in_flight_len(), 2, "depth bound held");
    let b = &log.batches;
    assert!(b[0].last().unwrap() < b[1].first().unwrap());
    assert!(b[1].last().unwrap() < b[2].first().unwrap());
}

#[test]
fn completed_round_seqs_become_eligible_again() {
    let mut store = InMemIntentStore::new();
    fill(&mut store, &[seq(1, 0, 1)]);
    let mut log = Driver::new();
    let mut pc = PipelinedCommitter::new(2);

    assert_eq!(log.drain_tick(&mut pc, &store), 1);
    log.resolve_oldest();
    // The store was not pruned: the order is pending still.
    assert_eq!(log.drain_tick(&mut pc, &store), 1);
    assert_eq!(log.batches.len(), 2, "resubmitted after completion");
    assert_eq!(pc.in_flight_len(), 1);
}

#[test]
fn failed_round_retries_next_tick() {
    let mut store = InMemIntentStore::new();
    fill(&mut store, &[seq(1, 0, 1), seq(2, 0, 1)]);
    let mut log = Driver::new();
    let mut pc = PipelinedCommitter::new(2);

    assert_eq!(log.drain_tick(&mut pc, &store), 2);
    // A round that failed is over like one that succeeded.
    log.resolve_oldest();

    assert_eq!(log.drain_tick(&mut pc, &store), 2, "failed round's intents resubmit");
    assert_eq!(log.batches.len(), 2);
    assert_eq!(
        log.batches[1],
        vec![seq(1, 0, 1).0, seq(2, 0, 1).0],
        "same seqs, ascending",
    );
}

#[test]
fn clear_in_flight_resets_filter() {
    let mut store = InMemIntentStore::new();
    fill(&mut store, &[seq(1, 0, 1)]);
    let mut log = Driver::new();
    let mut pc = PipelinedCommitter::new(2);

    assert_eq!(log.drain_tick(&mut pc, &store), 1);
    assert_eq!(pc.in_flight_len(), 1);
    pc.clear_in_flight();
    log.rounds.clear();
    assert_eq!(pc.in_flight_len(), 0);
    assert_eq!(log.drain_tick(&mut pc, &store), 1, "resubmits after clear");
}

#[test]
fn pruned_seqs_do_not_resubmit() {
    let mut store = InMemIntentStore::new();
    fill(&mut store, &[seq(1, 0, 1), seq(2, 0, 1)]);
    let mut log = Driver::new();
    let mut pc = PipelinedCommitter::new(2);

    assert_eq!(log.drain_tick(&mut pc, &store), 2);
    log.resolve_oldest();
    store.remove_seqs(&[seq(1, 0, 1), seq(2, 0, 1)]).unwrap();

    assert_eq!(log.drain_tick(&mut pc, &store), 0, "nothing pending");
    assert_eq!(log.batches.len(), 1, "no resubmission");
    assert_eq!(pc.in_flight_len(), 0);
}

#[test]
fn depth_setting_is_read_and_capped() {
    assert_eq!(pipeline_depth_from_env(None), DEFAULT_PIPELINE_DEPTH);
    assert_eq!(pipeline_depth_from_env(Some("0")), 0);
    assert_eq!(pipeline_depth_from_env(Some("5")), 5);
    assert_eq!(pipeline_depth_from_env(Some("99")), MAX_PIPELINE_DEPTH);
    assert_eq!(pipeline_depth_from_env(Some("many")), DEFAULT_PIPELINE_DEPTH);
}

#[test]
fn depth_of_zero_is_one_round() {
    let mut store = InMemIntentStore::new();
    fill(&mut store, &[seq(1, 0, 1)]);
    let mut log = Driver::new();
    let mut pc = PipelinedCommitter::new(0);
    assert_eq!(log.drain_tick(&mut pc, &store), 1);
    assert_eq!(pc.in_flight_len(), 1);
}

#[test]
fn items_carry_every_field_of_the_intent() {
    let mut i = intent(seq(7, 2, 3));
    i.append.delta.tenant_id = OrgId(0x0102_0304_0506_0708_090a_0b0c_0d0e_0f10);
    i.append.delta.operation = OperationType::Update;
    i.append.delta.hashed_key = [9u8; 32];
    i.append.delta.chunk_refs = vec![ChunkId([4u8; 32])];
    i.append.delta.payload = vec![1, 2, 3];
    i.append.delta.has_inline_data = true;
    i.append.inline_payloads = vec![(ChunkId([5u8; 32]), vec![6])];
    let item = intent_to_item(&i);
    assert_eq!(item.tenant_id_bytes, [1, 2, 3, 4, 5, 6, 7, 8, 9, 10, 11, 12, 13, 14, 15, 16]);
    assert_eq!(item.operation, 1);
    assert_eq!(item.hashed_key, [9u8; 32]);
    assert_eq!(item.chunk_refs, vec![[4u8; 32]]);
    assert_eq!(item.payload, vec![1, 2, 3]);
    assert!(item.has_inline_data);
    assert_eq!(item.perspective_seq, seq(7, 2, 3).0);
    assert_eq!(item.inline_payloads.len(), 1);
    assert_eq!(item.inline_payloads[0].chunk_id, [5u8; 32]);
    assert_eq!(item.inline_payloads[0].payload, vec![6]);
}

#[test]
fn growing_backlog_warns_once_in_a_while() {
    let mut pc = PipelinedCommitter::new(2);
    let mut pending: Vec<WriteIntent> = (0..1_001u64).map(|i| intent(seq(50 + i, 0, 1))).collect();
    for round in 0..9u64 {
        let r = pc.observe_backlog(&pending, 100, None);
        assert!(!r.growth && !r.warn, "round {round}");
        pending.push(intent(seq(5_000 + round, 0, 1)));
    }
    let r = pc.observe_backlog(&pending, 100, Some(BACKLOG_WARN_INTERVAL_MS - 1));
    assert!(r.growth, "the tenth growing observation");
    assert!(!r.warn, "but a warning was given a moment ago");
    assert_eq!(r.backlog, 1_010);
    assert_eq!(r.lag_ms, 50, "the oldest intent is of millisecond 50");
    // One batch is no backlog.
    let few = pc.observe_backlog(&pending[..1_000], 10, None);
    assert!(!few.growth);
    assert_eq!(few.lag_ms, 0, "an intent of the future has no age");
}

#[test]
fn failed_submission_is_reported_with_its_cause() {
    let e = submit_failed(&LogError::Unavailable);
    assert!(matches!(e, IntentError::Incorporate(ref m) if *m == LogError::Unavailable.message()));
}
