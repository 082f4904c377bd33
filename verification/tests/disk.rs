//! The durable intent store, over a disk that is two ordered maps of bytes.

use std::collections::BTreeMap;

use kiseki_log::delta::OperationType;
use kiseki_log::ids::{NodeId, OrgId, ShardId};
use kiseki_log::intent::{
    IdempotencyKey, InMemIntentStore, IntentError, IntentStore, PerspectiveSeq, PutOutcome,
    WriteIntent,
};
use kiseki_log::intent_codec::{
    check_format_version, decode_rows, decode_seq_key, encode_seq_key, plan_prune, plan_put,
    plan_remove, PrunePlan, PutPlan,
};
use kiseki_log::time::{ClockQuality, DeltaTimestamp, HybridLogicalClock, WallTime};
use kiseki_log::traits::{AppendChunkAndDeltaRequest, AppendDeltaRequest};

fn seq(physical_ms: u64, logical: u32, node: u64) -> PerspectiveSeq {
    PerspectiveSeq(HybridLogicalClock { physical_ms, logical, node_id: NodeId(node) })
}

fn intent(s: PerspectiveSeq, key: Option<IdempotencyKey>) -> WriteIntent {
    WriteIntent {
        perspective_seq: s,
        idempotency_key: key,
        append: AppendChunkAndDeltaRequest {
            delta: AppendDeltaRequest {
                shard_id: ShardId(1),
                tenant_id: OrgId(100),
                operation: OperationType::Create,
                timestamp: DeltaTimestamp {
                    hlc: s.0,
                    wall: WallTime {
                        millis_since_epoch: s.0.physical_ms,
                        timezone: "UTC".to_string(),
                    },
                    quality: ClockQuality::Ntp,
                },
                hashed_key: [0u8; 32],
                chunk_refs: vec![],
                payload: vec![],
                has_inline_data: false,
            },
            new_chunks: vec![],
            inline_payloads: vec![],
        },
    }
}

/// What survives a restart.
#[derive(Clone, Default)]
struct Disk {
    version: Option<Vec<u8>>,
    rows: BTreeMap<Vec<u8>, Vec<u8>>,
    pointers: BTreeMap<IdempotencyKey, Vec<u8>>,
}

/// A store over a disk. An append is written as its milliseconds, which are those
/// of its order in these tests.
struct DiskStore {
    disk: Disk,
}

impl DiskStore {
    fn open(mut disk: Disk) -> Result<Self, IntentError> {
        if let Some(seed) = check_format_version(disk.version.as_deref())? {
            disk.version = Some(seed);
        }
        Ok(DiskStore { disk })
    }

    fn rows(&self) -> Vec<(Vec<u8>, Vec<u8>)> {
        self.disk.rows.iter().map(|(k, v)| (k.clone(), v.clone())).collect()
    }

    fn carry_out(&mut self, plan: PrunePlan) {
        for row in plan.rows {
            assert!(self.disk.rows.remove(&row).is_some());
        }
        for key in plan.pointers {
            assert!(self.disk.pointers.remove(&key).is_some());
        }
    }

    fn put(&mut self, i: WriteIntent) -> Result<PutOutcome, IntentError> {
        let proto = i.append.delta.timestamp.hlc.physical_ms.to_be_bytes();
        let pointer = i.idempotency_key.and_then(|k| self.disk.pointers.get(&k).cloned());
        match plan_put(i.perspective_seq, i.idempotency_key, &proto, pointer.as_deref())? {
            PutPlan::Duplicate(s) => Ok(PutOutcome::Duplicate(s)),
            PutPlan::Write { row_key, value, pointer } => {
                if let Some(k) = pointer {
                    self.disk.pointers.insert(k, row_key.clone());
                }
                self.disk.rows.insert(row_key, value);
                Ok(PutOutcome::Recorded)
            }
        }
    }

    fn pending(&self) -> Result<Vec<WriteIntent>, IntentError> {
        let stored = decode_rows(&self.rows())?;
        Ok(stored
            .into_iter()
            .map(|row| {
                assert_eq!(row.proto, row.seq.0.physical_ms.to_be_bytes());
                intent(row.seq, row.idempotency_key)
            })
            .collect())
    }

    fn next_pending_seq(&self) -> Result<Option<PerspectiveSeq>, IntentError> {
        match self.disk.rows.keys().next() {
            Some(k) => Ok(Some(decode_seq_key(k)?)),
            None => Ok(None),
        }
    }

    fn pending_len(&self) -> usize {
        self.disk.rows.len()
    }

    fn prune(&mut self, up_to: PerspectiveSeq) -> Result<(), IntentError> {
        let plan = plan_prune(&self.rows(), up_to)?;
        self.carry_out(plan);
        Ok(())
    }

    fn remove_seqs(&mut self, seqs: &[PerspectiveSeq]) -> Result<(), IntentError> {
        let mut found = Vec::new();
        for s in seqs {
            let key = encode_seq_key(*s);
            if let Some(value) = self.disk.rows.get(&key) {
                found.push((key, value.clone()));
            }
        }
        let plan = plan_remove(&found)?;
        self.carry_out(plan);
        Ok(())
    }
}

fn orders(intents: &[WriteIntent]) -> Vec<PerspectiveSeq> {
    intents.iter().map(|i| i.perspective_seq).collect()
}

#[test]
fn fjall_persists_across_reopen() {
    let mut s = DiskStore::open(Disk::default()).unwrap();
    assert_eq!(s.put(intent(seq(3, 0, 1), None)).unwrap(), PutOutcome::Recorded);
    assert_eq!(s.put(intent(seq(1, 0, 1), None)).unwrap(), PutOutcome::Recorded);
    assert_eq!(s.put(intent(seq(2, 0, 1), None)).unwrap(), PutOutcome::Recorded);

    let s = DiskStore::open(s.disk).unwrap();
    assert_eq!(
        orders(&s.pending().unwrap()),
        vec![seq(1, 0, 1), seq(2, 0, 1), seq(3, 0, 1)]
    );
    assert_eq!(s.next_pending_seq().unwrap(), Some(seq(1, 0, 1)));
    assert_eq!(s.pending_len(), 3);
}

#[test]
fn fjall_prune_survives_reopen() {
    let k2 = [2u8; 16];
    let mut s = DiskStore::open(Disk::default()).unwrap();
    s.put(intent(seq(1, 0, 1), None)).unwrap();
    s.put(intent(seq(2, 0, 1), Some(k2))).unwrap();
    s.put(intent(seq(3, 0, 1), None)).unwrap();
    s.prune(seq(2, 0, 1)).unwrap();

    let mut s = DiskStore::open(s.disk).unwrap();
    assert_eq!(orders(&s.pending().unwrap()), vec![seq(3, 0, 1)]);
    assert_eq!(s.next_pending_seq().unwrap(), Some(seq(3, 0, 1)));
    assert_eq!(s.pending_len(), 1);
    assert_eq!(s.put(intent(seq(4, 0, 1), Some(k2))).unwrap(), PutOutcome::Recorded);
    assert_eq!(s.pending_len(), 2);
}

#[test]
fn fjall_idempotent_across_reopen() {
    let key = [7u8; 16];
    let mut s = DiskStore::open(Disk::default()).unwrap();
    assert_eq!(s.put(intent(seq(1, 0, 1), Some(key))).unwrap(), PutOutcome::Recorded);
    assert_eq!(
        s.put(intent(seq(5, 0, 2), Some(key))).unwrap(),
        PutOutcome::Duplicate(seq(1, 0, 1))
    );
    assert_eq!(s.pending_len(), 1);

    let mut s = DiskStore::open(s.disk).unwrap();
    assert_eq!(s.pending_len(), 1);
    assert_eq!(
        s.put(intent(seq(9, 0, 3), Some(key))).unwrap(),
        PutOutcome::Duplicate(seq(1, 0, 1))
    );
    assert_eq!(s.pending_len(), 1);
}

#[test]
fn fjall_iter_is_ordered() {
    let mut s = DiskStore::open(Disk::default()).unwrap();
    for x in [seq(2, 0, 1), seq(1, 1, 1), seq(1, 0, 2), seq(1, 0, 1), seq(1, 9, 9)] {
        s.put(intent(x, None)).unwrap();
    }
    assert_eq!(
        orders(&s.pending().unwrap()),
        vec![seq(1, 0, 1), seq(1, 0, 2), seq(1, 1, 1), seq(1, 9, 9), seq(2, 0, 1)]
    );
}

#[test]
fn fjall_format_version_mismatch_rejected() {
    let mut s = DiskStore::open(Disk::default()).unwrap();
    s.put(intent(seq(1, 0, 1), None)).unwrap();
    let mut disk = s.disk;
    disk.version = Some(999u32.to_be_bytes().to_vec());
    match DiskStore::open(disk) {
        Err(IntentError::Codec(_)) => {}
        Err(other) => panic!("expected Codec, got {other:?}"),
        Ok(_) => panic!("expected open to reject bogus format_version"),
    }
}

#[test]
fn fjall_put_is_atomic_under_concurrency() {
    // The store takes one writer at a time, so writers come one after another.
    let mut s = DiskStore::open(Disk::default()).unwrap();
    let key = [9u8; 16];
    let outcomes: Vec<PutOutcome> = (0..16u64)
        .map(|n| s.put(intent(seq(1, 0, n + 1), Some(key))).unwrap())
        .collect();
    let recorded = outcomes.iter().filter(|o| **o == PutOutcome::Recorded).count();
    let duplicate = outcomes
        .iter()
        .filter(|o| matches!(o, PutOutcome::Duplicate(_)))
        .count();
    assert_eq!(recorded, 1, "exactly one writer records");
    assert_eq!(duplicate, 15, "the rest dedup to the first");
    assert_eq!(s.pending_len(), 1, "one intent persisted");
}

#[test]
fn disk_and_memory_agree() {
    let mut disk = DiskStore::open(Disk::default()).unwrap();
    let mut memory = InMemIntentStore::new();
    let puts = [
        (seq(4, 0, 1), Some([1u8; 16])),
        (seq(2, 1, 1), None),
        (seq(5, 0, 2), Some([1u8; 16])),
        (seq(2, 0, 9), Some([2u8; 16])),
        (seq(7, 0, 1), Some([3u8; 16])),
        (seq(6, 0, 1), None),
    ];
    for (s, k) in puts {
        assert_eq!(
            disk.put(intent(s, k)).unwrap(),
            memory.put(intent(s, k)).unwrap()
        );
    }
    assert_eq!(disk.pending().unwrap(), memory.pending().unwrap());

    let gone = [seq(6, 0, 1), seq(8, 8, 8), seq(7, 0, 1)];
    disk.remove_seqs(&gone).unwrap();
    memory.remove_seqs(&gone).unwrap();
    assert_eq!(disk.pending().unwrap(), memory.pending().unwrap());

    disk.prune(seq(2, 1, 1)).unwrap();
    memory.prune(seq(2, 1, 1)).unwrap();
    assert_eq!(disk.pending().unwrap(), memory.pending().unwrap());
    assert_eq!(orders(&disk.pending().unwrap()), vec![seq(4, 0, 1)]);
    assert_eq!(
        disk.disk.pointers.keys().copied().collect::<Vec<_>>(),
        vec![[1u8; 16]]
    );

    for (s, k) in [(seq(9, 0, 1), [2u8; 16]), (seq(9, 0, 2), [3u8; 16]), (seq(9, 0, 3), [1u8; 16])] {
        assert_eq!(
            disk.put(intent(s, Some(k))).unwrap(),
            memory.put(intent(s, Some(k))).unwrap()
        );
    }
}

#[test]
fn first_bad_row_is_named() {
    let good = (encode_seq_key(seq(1, 0, 1)), vec![1, 0, 0, 0, 0, 0]);
    let text = |rows: Vec<(Vec<u8>, Vec<u8>)>| -> String {
        match decode_rows(&rows) {
            Err(IntentError::Codec(m)) => m,
            _ => panic!("expected a refusal"),
        }
    };
    assert_eq!(
        text(vec![good.clone(), (vec![0; 3], vec![]), (vec![], vec![])]),
        "seq-key must be 20 bytes, got 3"
    );
    assert_eq!(
        text(vec![good.clone(), (encode_seq_key(seq(2, 0, 1)), vec![9])]),
        "unsupported intent value version 9"
    );
    assert!(plan_remove(&vec![good, (encode_seq_key(seq(2, 0, 1)), vec![])]).is_err());
}
