//! Shards of a node, its supervisor, and a group of replicas.

use kiseki_log::command::LogCommand;
use kiseki_log::delta::OperationType;
use kiseki_log::error::LogError;
use kiseki_log::ids::{NodeId, OrgId, SequenceNumber, ShardId};
use kiseki_log::intent::{
    InMemIntentStore, IntentError, IntentStore, PerspectiveSeq, WriteIntent,
};
use kiseki_log::intent_committer::RecordingSink;
use kiseki_log::raft::test_cluster::{member_address, Delivery, RaftTestCluster};
use kiseki_log::raft::types::LogResponse;
use kiseki_log::raft_shard_store::{
    attempt_again, construction_failed, is_routine, min_acks_from_env, raft_threads,
    RaftShardStore,
};
use kiseki_log::shard_committer::ShardCommitter;
use kiseki_log::supervisor::SupervisorAction::{CatchUp, Drain, Look, Prune, Recover, Sleep, Stop};
use kiseki_log::supervisor::{
    filter_recovered, self_prune, wait_step, LeadershipChange, RecoveryReport, Supervisor,
    SupervisorEvent, SupervisorLoop, WaitStep,
};
use kiseki_log::time::{ClockQuality, DeltaTimestamp, HybridLogicalClock, WallTime};
use kiseki_log::traits::{AppendChunkAndDeltaRequest, AppendDeltaRequest};

fn seq(physical_ms: u64) -> PerspectiveSeq {
    PerspectiveSeq(HybridLogicalClock { physical_ms, logical: 0, node_id: NodeId(1) })
}

fn intent(s: PerspectiveSeq) -> WriteIntent {
    WriteIntent {
        perspective_seq: s,
        idempotency_key: None,
        append: AppendChunkAndDeltaRequest {
            delta: AppendDeltaRequest {
                shard_id: ShardId(1),
                tenant_id: OrgId(100),
                operation: OperationType::Create,
                timestamp: DeltaTimestamp {
                    hlc: s.0,
                    wall: WallTime { millis_since_epoch: 0, timezone: "UTC".to_string() },
                    quality: ClockQuality::Ntp,
                },
                hashed_key: [0u8; 32],
                chunk_refs: vec![],
                payload: vec![],
                has_inline_data: false,
            },
            new_chunks: vec![],
            inline_payloads: vec![],
        },
    }
}

#[test]
fn a_majority_names_the_leader() {
    assert_eq!(RaftTestCluster::leader(&vec![Some(2), Some(2), Some(1)]), Some(2));
    // One that only itself names is none.
    assert_eq!(RaftTestCluster::leader(&vec![Some(1), None, None]), None);
    assert_eq!(RaftTestCluster::leader(&vec![Some(1), Some(2)]), None);
    assert_eq!(RaftTestCluster::leader(&vec![]), None);
}

#[test]
fn isolation_cuts_both_ways_until_it_is_healed() {
    let mut c = RaftTestCluster::new(3, ShardId(1), OrgId(2));
    assert_eq!(c.node_count(), 3);
    assert_eq!(c.router.route(1, 2), Delivery::Delivered);
    c.isolate_node(1);
    assert_eq!(c.router.route(1, 2), Delivery::Partitioned);
    assert_eq!(c.router.route(3, 1), Delivery::Partitioned);
    assert_eq!(c.router.route(2, 3), Delivery::Delivered);
    c.restore_node(1);
    assert_eq!(c.router.route(1, 2), Delivery::Delivered);
    assert_eq!(c.router.route(3, 1), Delivery::Delivered);
}

#[test]
fn crashed_node_comes_back_from_its_log() {
    let mut c = RaftTestCluster::new(3, ShardId(1), OrgId(2));
    c.crash_node(2).unwrap();
    assert_eq!(c.node_count(), 2);
    assert_eq!(c.router.route(1, 2), Delivery::NodeNotFound);
    assert!(matches!(c.crash_node(2), Err(LogError::Unavailable)));
    c.restart_node(2).unwrap();
    assert_eq!(c.router.route(1, 2), Delivery::Delivered);
    assert!(matches!(c.restart_node(9), Err(LogError::Unavailable)));
}

#[test]
fn learner_counts_once_it_is_accepted() {
    let mut c = RaftTestCluster::new(1, ShardId(1), OrgId(2));
    assert!(c.add_learner(4, None, true).is_err());
    assert_eq!(c.node_count(), 1);
    assert!(c.add_learner(4, Some(1), true).is_ok());
    assert_eq!(c.node_count(), 2);
}

#[test]
fn voters_are_replaced() {
    assert_eq!(
        RaftTestCluster::replace_voter(&vec![3, 1, 2], NodeId(3), NodeId(9)),
        vec![1, 2, 9]
    );
    assert_eq!(RaftTestCluster::replace_voter(&vec![1, 2], NodeId(5), NodeId(2)), vec![1, 2]);
    assert_eq!(member_address(4), "127.0.0.1:9104");
}

#[test]
fn failure_domains_are_counted_once() {
    let mut c = RaftTestCluster::new(3, ShardId(1), OrgId(2));
    c.set_topology(1, "rack-a".to_string());
    c.set_topology(2, "rack-b".to_string());
    c.set_topology(3, "rack-a".to_string());
    assert_eq!(c.topology_of(2).map(|s| &s[..]), Some("rack-b"));
    assert_eq!(c.topology_of(7), None);
    assert_eq!(c.voter_failure_domains(&vec![1, 2, 3, 8]), vec!["rack-a", "rack-b"]);
}

#[test]
fn probe_writes_a_creation() {
    let c = RaftTestCluster::new(1, ShardId(1), OrgId(0x0102));
    match c.write_delta(0x42) {
        LogCommand::AppendDelta { tenant_id_bytes, operation, hashed_key, payload, .. } => {
            assert_eq!(tenant_id_bytes, 0x0102u128.to_be_bytes());
            assert_eq!(operation, 0);
            assert_eq!(hashed_key, [0x42; 32]);
            assert_eq!(payload, vec![0xab; 64]);
        }
        other => panic!("expected an append, got {other:?}"),
    }
    assert_eq!(
        RaftTestCluster::written_delta(Some(1), Some(LogResponse::Appended(5))).unwrap(),
        SequenceNumber(5)
    );
    assert_eq!(RaftTestCluster::written_delta(Some(1), Some(LogResponse::Done)).unwrap(), SequenceNumber(0));
    assert!(RaftTestCluster::written_delta(None, Some(LogResponse::Done)).is_err());
    assert!(RaftTestCluster::written_delta(Some(1), None).is_err());
}

#[test]
fn only_durable_shards_take_decoupled_writes() {
    let peers = vec![(1, "a:1".to_string()), (2, "b:2".to_string()), (3, "c:3".to_string())];
    let mut s = RaftShardStore::new(1, &peers, true, 2);
    let parts = s.create_shard(ShardId(5));
    assert!(parts.durable && parts.supervisor && parts.fan_coalescer && parts.recv_coalescer);
    assert!(s.put_intent_and_fan(ShardId(5)).is_ok());
    assert!(matches!(
        s.put_intent_and_fan(ShardId(6)),
        Err(LogError::ShardNotFound(ShardId(6)))
    ));
    assert!(matches!(s.get_shard(ShardId(6)), Err(LogError::ShardNotFound(ShardId(6)))));
    assert_eq!(s.shard_ids(), vec![ShardId(5)]);
    assert_eq!(s.cluster_size(), 3);
    assert!(!s.initializes_alone());
    assert_eq!(
        s.resolve_voter_peers(ShardId(5), &vec![1, 3, 4]),
        Some(vec![(NodeId(3), "c:3".to_string())])
    );
    assert_eq!(s.resolve_voter_peers(ShardId(6), &vec![1]), None);
    assert!(s.retire_shard(ShardId(5)));
    assert!(!s.retire_shard(ShardId(5)));

    let mut m = RaftShardStore::new(1, &vec![], false, 1);
    assert!(!m.create_shard(ShardId(5)).durable);
    assert!(matches!(m.put_intent_and_fan(ShardId(5)), Err(LogError::Unavailable)));
    assert_eq!(m.cluster_size(), 1);
    assert!(m.initializes_alone());
}

#[test]
fn node_settings_are_read() {
    assert_eq!(min_acks_from_env(None), 2);
    assert_eq!(min_acks_from_env(Some("3")), 3);
    assert_eq!(min_acks_from_env(Some("0")), 2);
    assert_eq!(raft_threads(Some("6"), Some(2)), 6);
    assert!(attempt_again(4));
    assert!(!attempt_again(5));
    assert_eq!(
        construction_failed(ShardId(1), Some(&LogError::Unavailable)),
        "OpenRaftLogStore::new failed after 5 attempts for shard \
         00000000-0000-0000-0000-000000000001: "
            .to_string()
            + &LogError::Unavailable.message()
    );
    assert!(is_routine(&LogError::ForwardToLeader {
        shard_id: ShardId(1),
        leader_node_id: NodeId(2)
    }));
    assert!(!is_routine(&LogError::Unavailable));
}

#[test]
fn new_leader_waits_then_recovers_then_drains() {
    let mut store = InMemIntentStore::new();
    store.put(intent(seq(10))).unwrap();
    let mut committer = ShardCommitter::new(store, RecordingSink::new(), 3, 2);
    let mut sup = Supervisor::new();

    // A follower drains nothing.
    assert_eq!(sup.observe_leadership(false), LeadershipChange::Unchanged);
    assert!(sup.drain(&mut committer).is_none());

    assert_eq!(sup.observe_leadership(true), LeadershipChange::Became);
    assert!(sup.needs_recovery());
    assert!(sup.drain(&mut committer).is_none());
    assert_eq!(wait_step(4, 5, 0), WaitStep::Poll);
    assert_eq!(wait_step(4, 5, 5_000), WaitStep::GaveUp);
    assert_eq!(wait_step(5, 5, 0), WaitStep::Current);

    // Too few views: the term may not drain yet.
    let failed = Err(IntentError::Codec("x".to_string()));
    assert!(matches!(
        sup.recover_term(&mut committer, failed, &vec![], 0),
        RecoveryReport::GatherFailed(_)
    ));
    assert!(matches!(
        sup.recover_term(&mut committer, Ok(vec![]), &vec![], 0),
        RecoveryReport::BelowThreshold { have: 1, need: 2 }
    ));
    assert!(sup.needs_recovery());

    let peers = vec![(NodeId(2), vec![intent(seq(11)), intent(seq(10))])];
    assert!(matches!(
        sup.recover_term(&mut committer, Ok(peers), &vec![], 0),
        RecoveryReport::Restored(1)
    ));
    assert!(!sup.needs_recovery());
    assert_eq!(sup.drain(&mut committer).unwrap().unwrap(), 2);
    assert_eq!(committer.sink.incorporated, vec![seq(10), seq(11)]);

    assert_eq!(sup.observe_leadership(false), LeadershipChange::Lost);
    assert!(sup.drain(&mut committer).is_none());
    // A second term recovers again.
    assert_eq!(sup.observe_leadership(true), LeadershipChange::Became);
    assert!(sup.needs_recovery());
}

#[test]
fn ticks_recover_before_they_drain() {
    let mut ticks = SupervisorLoop::start(false);
    let mut done = vec![];
    let events = [
        // A follower.
        SupervisorEvent::Pruned,
        SupervisorEvent::Looked(false),
        SupervisorEvent::Woke(false),
        // A leader whose recovery fails.
        SupervisorEvent::Pruned,
        SupervisorEvent::Looked(true),
        SupervisorEvent::CaughtUp,
        SupervisorEvent::Recovery(false),
        SupervisorEvent::Woke(false),
        // It tries again.
        SupervisorEvent::Pruned,
        SupervisorEvent::Looked(true),
        SupervisorEvent::Recovery(true),
        SupervisorEvent::Drained,
        SupervisorEvent::Woke(false),
        // It has recovered.
        SupervisorEvent::Pruned,
        SupervisorEvent::Looked(true),
        SupervisorEvent::Drained,
        SupervisorEvent::Woke(true),
    ];
    for event in events {
        done.push(ticks.action);
        let _ = ticks.advance(event);
    }
    let wanted = vec![
        Prune, Look, Sleep, Prune, Look, CatchUp, Recover, Sleep, Prune, Look, Recover, Drain,
        Sleep, Prune, Look, Drain, Sleep,
    ];
    assert_eq!(done, wanted);
    assert_eq!(ticks.action, Stop);
    assert_eq!(ticks.advance(SupervisorEvent::Looked(true)), LeadershipChange::Unchanged);
    assert_eq!(ticks.action, Stop);

    let mut stopped = SupervisorLoop::start(true);
    for event in events {
        assert_eq!(stopped.action, Stop);
        let _ = stopped.advance(event);
    }
    let mut led = SupervisorLoop::start(false);
    let _ = led.advance(SupervisorEvent::Pruned);
    assert_eq!(led.advance(SupervisorEvent::Looked(true)), LeadershipChange::Became);
}

#[test]
fn applied_intents_leave_the_store() {
    let mut store = InMemIntentStore::new();
    for ms in [1, 2, 3] {
        store.put(intent(seq(ms))).unwrap();
    }
    self_prune(&mut store, &vec![]).unwrap();
    assert_eq!(store.pending_len().unwrap(), 3);
    self_prune(&mut store, &vec![seq(1).0, seq(3).0]).unwrap();
    let left: Vec<PerspectiveSeq> =
        store.pending().unwrap().iter().map(|i| i.perspective_seq).collect();
    assert_eq!(left, vec![seq(2)]);
}

#[test]
fn recovery_leaves_out_what_is_known() {
    let peers = vec![(NodeId(2), vec![intent(seq(100)), intent(seq(200)), intent(seq(300))])];
    let kept = filter_recovered(&peers, &vec![seq(200).0], 1);
    let left: Vec<PerspectiveSeq> = kept[0].1.iter().map(|i| i.perspective_seq).collect();
    assert_eq!(left, vec![seq(300)], "one is applied already, one is ancient");
    // Without a window nothing is left out.
    let kept = filter_recovered(&peers, &vec![], 0);
    assert_eq!(kept[0].1.len(), 3);
}
