//! Intents on the wire and the requests of replicas.

use kiseki_log::command::NewChunkMeta;
use kiseki_log::delta::{op_to_u8, u8_to_op, OperationType};
use kiseki_log::ids::{ChunkId, NodeId, OrgId, ShardId};
use kiseki_log::intent::{
    IdempotencyKey, InMemIntentStore, IntentError, IntentStore, PerspectiveSeq, WriteIntent,
};
use kiseki_log::intent_sync::{
    decode_acks, decode_intents, dispatch, encode_intents, gather_answer, gathered, put_answer,
    route, DispatchOutcome, DispatchStep, IntentTag, PeerAnswer, WireIntent,
    INTENT_GATHER_PENDING_TAG, INTENT_PUT_TAG,
};
use kiseki_log::time::{ClockQuality, DeltaTimestamp, HybridLogicalClock, WallTime};
use kiseki_log::traits::{AppendChunkAndDeltaRequest, AppendDeltaRequest};

fn seq(physical_ms: u64, logical: u32, node: u64) -> PerspectiveSeq {
    PerspectiveSeq(HybridLogicalClock { physical_ms, logical, node_id: NodeId(node) })
}

fn rich_intent(s: PerspectiveSeq, key: Option<IdempotencyKey>) -> WriteIntent {
    WriteIntent {
        perspective_seq: s,
        idempotency_key: key,
        append: AppendChunkAndDeltaRequest {
            delta: AppendDeltaRequest {
                shard_id: ShardId(0x5117),
                tenant_id: OrgId(0x7e_9a_11),
                operation: OperationType::Update,
                timestamp: DeltaTimestamp {
                    hlc: s.0,
                    wall: WallTime {
                        millis_since_epoch: s.0.physical_ms,
                        timezone: "UTC".to_string(),
                    },
                    quality: ClockQuality::Ptp,
                },
                hashed_key: [0x2bu8; 32],
                chunk_refs: vec![ChunkId([0x11u8; 32]), ChunkId([0x22u8; 32])],
                payload: vec![0xde, 0xad, 0xbe, 0xef],
                has_inline_data: true,
            },
            new_chunks: vec![NewChunkMeta {
                chunk_id: [0x33u8; 32],
                placement: vec![7, 9],
                original_len: 4096,
            }],
            inline_payloads: vec![],
        },
    }
}

type Ids = (u128, u128, u8);
type Stamp = (u64, u32, u64, u64, String);
type Body = ([u8; 32], Vec<[u8; 32]>, Vec<u8>, bool);
type Chunks = Vec<([u8; 32], Vec<u64>, u64)>;
type Wire = (Ids, Stamp, Body, Chunks);

/// Bytes of an append, as the transport of these tests writes them.
fn append_bytes(a: &AppendChunkAndDeltaRequest) -> Vec<u8> {
    let d = &a.delta;
    let t = &d.timestamp;
    let wire: Wire = (
        (d.shard_id.0, d.tenant_id.0, op_to_u8(d.operation)),
        (
            t.hlc.physical_ms,
            t.hlc.logical,
            t.hlc.node_id.0,
            t.wall.millis_since_epoch,
            t.wall.timezone.clone(),
        ),
        (
            d.hashed_key,
            d.chunk_refs.iter().map(|c| c.0).collect(),
            d.payload.clone(),
            d.has_inline_data,
        ),
        a.new_chunks.iter().map(|c| (c.chunk_id, c.placement.clone(), c.original_len)).collect(),
    );
    postcard::to_stdvec(&wire).unwrap()
}

fn append_of(bytes: &[u8]) -> Result<AppendChunkAndDeltaRequest, String> {
    let (ids, stamp, body, chunks): Wire =
        postcard::from_bytes(bytes).map_err(|e| e.to_string())?;
    Ok(AppendChunkAndDeltaRequest {
        delta: AppendDeltaRequest {
            shard_id: ShardId(ids.0),
            tenant_id: OrgId(ids.1),
            operation: u8_to_op(ids.2),
            timestamp: DeltaTimestamp {
                hlc: HybridLogicalClock {
                    physical_ms: stamp.0,
                    logical: stamp.1,
                    node_id: NodeId(stamp.2),
                },
                wall: WallTime { millis_since_epoch: stamp.3, timezone: stamp.4 },
                quality: ClockQuality::Ptp,
            },
            hashed_key: body.0,
            chunk_refs: body.1.into_iter().map(ChunkId).collect(),
            payload: body.2,
            has_inline_data: body.3,
        },
        new_chunks: chunks
            .into_iter()
            .map(|c| NewChunkMeta { chunk_id: c.0, placement: c.1, original_len: c.2 })
            .collect(),
        inline_payloads: vec![],
    })
}

fn on_wire(i: &WriteIntent) -> WireIntent {
    WireIntent::from_intent(i, append_bytes(&i.append))
}

fn off_wire(w: WireIntent) -> Result<WriteIntent, IntentError> {
    let append = append_of(&w.append_proto);
    w.into_intent(append)
}

/// A replica that answers a request.
fn answer(store: &mut InMemIntentStore, tag: &str, payload: &[u8]) -> DispatchOutcome {
    match dispatch(store, tag, payload) {
        DispatchStep::Encode(pending) => gather_answer(Ok(pending.iter().map(on_wire).collect())),
        DispatchStep::Decode(wires) => {
            put_answer(store, wires.into_iter().map(off_wire).collect())
        }
        DispatchStep::Answer(outcome) => outcome,
    }
}

#[test]
fn wire_intent_round_trip_preserves_append() {
    let key = [9u8; 16];
    let original = rich_intent(seq(7, 3, 2), Some(key));
    let bytes = encode_intents(&vec![on_wire(&original)]).unwrap();
    let mut decoded_wire = decode_intents(&bytes).unwrap();
    assert_eq!(decoded_wire.len(), 1);
    let decoded = off_wire(decoded_wire.remove(0)).unwrap();

    assert_eq!(decoded.perspective_seq, original.perspective_seq);
    assert_eq!(decoded.idempotency_key, original.idempotency_key);
    assert_eq!(decoded.append, original.append);
}

#[test]
fn dispatcher_gather_pending_preserves_appends() {
    let mut store = InMemIntentStore::new();
    let i1 = rich_intent(seq(1, 0, 1), Some([1u8; 16]));
    let i2 = rich_intent(seq(2, 0, 1), None);
    store.put(i1.clone()).unwrap();
    store.put(i2.clone()).unwrap();

    let DispatchOutcome::Answer(bytes) = answer(&mut store, INTENT_GATHER_PENDING_TAG, &[]) else {
        panic!("expected an answer");
    };
    let decoded: Vec<WriteIntent> =
        decode_intents(&bytes).unwrap().into_iter().map(|w| off_wire(w).unwrap()).collect();

    assert_eq!(decoded.len(), 2);
    assert_eq!(decoded[0].perspective_seq, i1.perspective_seq);
    assert_eq!(decoded[0].idempotency_key, i1.idempotency_key);
    assert_eq!(decoded[0].append, i1.append);
    assert_eq!(decoded[1].perspective_seq, i2.perspective_seq);
    assert_eq!(decoded[1].idempotency_key, i2.idempotency_key);
    assert_eq!(decoded[1].append, i2.append);
}

#[test]
fn dispatcher_intent_put_stores_fanned_intent() {
    let mut store = InMemIntentStore::new();
    let one = rich_intent(seq(7, 3, 2), Some([0xa1u8; 16]));
    let two = rich_intent(seq(7, 4, 2), Some([0xa2u8; 16]));
    let three = rich_intent(seq(7, 5, 2), None);
    let wires: Vec<WireIntent> = [&one, &two, &three].iter().map(|i| on_wire(i)).collect();
    let payload = encode_intents(&wires).unwrap();
    let DispatchOutcome::Answer(bytes) = answer(&mut store, INTENT_PUT_TAG, &payload) else {
        panic!("expected an answer");
    };
    let acks = decode_acks(&bytes).unwrap();
    assert_eq!(acks.len(), 3, "one ack per input");
    assert!(acks.iter().all(|b| *b), "all three durably stored");

    let pending = store.pending().unwrap();
    assert_eq!(pending.len(), 3, "all three fanned intents stored");
    assert_eq!(pending[0].perspective_seq, one.perspective_seq);
    assert_eq!(pending[0].append, one.append);
    assert_eq!(pending[1].perspective_seq, two.perspective_seq);
    assert_eq!(pending[1].append, two.append);
    assert_eq!(pending[2].perspective_seq, three.perspective_seq);
    assert_eq!(pending[2].append, three.append);
}

#[test]
fn dispatcher_intent_put_bad_payload_is_parse_error() {
    let mut store = InMemIntentStore::new();
    let outcome = answer(&mut store, INTENT_PUT_TAG, &[0xff, 0x00, 0x13, 0x37]);
    assert!(matches!(outcome, DispatchOutcome::ParseError));
    assert_eq!(store.pending_len().unwrap(), 0, "nothing recorded");
}

#[test]
fn dispatcher_unknown_tag_falls_through() {
    let mut store = InMemIntentStore::new();
    let outcome = answer(&mut store, "not_an_intent_tag", &[]);
    assert!(matches!(outcome, DispatchOutcome::UnknownTag));
}

#[test]
fn intent_tags_distinct_from_raft_tags() {
    let intent_tags = [INTENT_GATHER_PENDING_TAG, INTENT_PUT_TAG];
    for raft_tag in ["append_entries", "vote", "full_snapshot"] {
        for it in intent_tags {
            assert_ne!(it, raft_tag);
        }
    }
    for i in 0..intent_tags.len() {
        for j in (i + 1)..intent_tags.len() {
            assert_ne!(intent_tags[i], intent_tags[j]);
        }
    }
    assert_eq!(route(INTENT_GATHER_PENDING_TAG), IntentTag::GatherPending);
    assert_eq!(route(INTENT_PUT_TAG), IntentTag::Put);
    assert_eq!(route("vote"), IntentTag::Unknown);
}

#[test]
fn undecodable_append_records_nothing() {
    let mut store = InMemIntentStore::new();
    let good = rich_intent(seq(1, 0, 1), None);
    let bad = WireIntent { seq: seq(2, 0, 1).0, idem: None, append_proto: vec![1] };
    let payload = encode_intents(&vec![on_wire(&good), bad]).unwrap();
    assert_eq!(answer(&mut store, INTENT_PUT_TAG, &payload), DispatchOutcome::ParseError);
    assert_eq!(store.pending_len().unwrap(), 0);
}

#[test]
fn gather_leaves_out_the_unreachable() {
    let got = gathered(vec![
        (NodeId(2), PeerAnswer::Unreachable),
        (NodeId(3), PeerAnswer::Pending(vec![rich_intent(seq(5, 0, 3), None)])),
    ])
    .unwrap();
    assert_eq!(got.len(), 1);
    assert_eq!(got[0].0, NodeId(3));
    assert_eq!(got[0].1[0].perspective_seq, seq(5, 0, 3));
    let failed =
        gathered(vec![(NodeId(2), PeerAnswer::Undecodable(IntentError::Codec("x".to_string())))]);
    assert_eq!(failed, Err(IntentError::Codec("x".to_string())));
    let bad = |m: &str| PeerAnswer::Undecodable(IntentError::Codec(m.to_string()));
    let failed = gathered(vec![
        (NodeId(2), PeerAnswer::Unreachable),
        (NodeId(3), bad("first")),
        (NodeId(4), bad("second")),
    ]);
    assert_eq!(failed, Err(IntentError::Codec("first".to_string())));
}

#[test]
fn failed_store_answers_parse_error() {
    let e = IntentError::Fjall("disk".to_string());
    assert_eq!(e.message(), "intent fjall: disk");
    assert_eq!(gather_answer(Err(e)), DispatchOutcome::ParseError);
}
