//! Byte forms of what crosses the wire between replicas.
//!
//! Values are laid out as tuples of plain values and encoded with `postcard`.

use vstd::prelude::*;

use crate::bytes::copy_bytes;
use crate::command::copy_keys;
use crate::ids::NodeId;
use crate::raft::snapshot::{position_views, SnapshotView, StoredDelta};
use crate::raft::snapshot::{SerializableDelta, ShardSnapshot};
use crate::raft::state_machine::RecentIncorporatedEntry;
use crate::time::HybridLogicalClock;

verus! {

/// A delta of a snapshot as a tuple.
pub type DeltaWire = (
    u64,
    [u8; 16],
    [u8; 16],
    u8,
    [u8; 32],
    bool,
    Vec<[u8; 32]>,
    u32,
    bool,
    Vec<u8>,
);

/// An entry of the window of recent intents as a tuple.
pub type RecentWire = (u64, (u64, u32, u64), u64);

/// A snapshot as a tuple.
pub type SnapshotWire = (
    u64,
    u64,
    bool,
    Vec<DeltaWire>,
    Vec<(String, u64)>,
    Option<[u8; 16]>,
    Option<[u8; 16]>,
    u64,
    Vec<RecentWire>,
);

/// The stored delta that a tuple stands for.
pub open spec fn delta_of_wire(w: DeltaWire) -> StoredDelta {
    StoredDelta {
        sequence: w.0,
        shard_id: w.1,
        tenant_id: w.2,
        operation: w.3,
        hashed_key: w.4,
        tombstone: w.5,
        chunk_refs: w.6@,
        payload_size: w.7,
        has_inline_data: w.8,
        ciphertext: w.9@,
    }
}

/// The entry that a tuple stands for.
pub open spec fn recent_of_wire(w: RecentWire) -> RecentIncorporatedEntry {
    RecentIncorporatedEntry {
        log_index: w.0,
        perspective_seq: HybridLogicalClock {
            physical_ms: w.1.0,
            logical: w.1.1,
            node_id: NodeId(w.1.2),
        },
        apply_ms: w.2,
    }
}

/// The snapshot that a tuple stands for.
pub open spec fn snapshot_of_wire(w: SnapshotWire) -> SnapshotView {
    SnapshotView {
        delta_count: w.0,
        tip: w.1,
        maintenance: w.2,
        deltas: Seq::new(w.3@.len(), |i: int| delta_of_wire(w.3@[i])),
        watermarks: position_views(w.4@),
        shard_id: w.5,
        tenant_id: w.6,
        cutoff: w.7,
        recent: Seq::new(w.8@.len(), |i: int| recent_of_wire(w.8@[i])),
    }
}

/// The bytes that `postcard::to_stdvec` makes of a snapshot.
pub uninterp spec fn snapshot_image(snap: SnapshotView) -> Seq<u8>;

/// The snapshot that `postcard::from_bytes` reads from bytes, where it reads one.
pub uninterp spec fn snapshot_parsed(bytes: Seq<u8>) -> Option<SnapshotView>;

/// Encodes a snapshot with `postcard::to_stdvec`. The result is named, not
/// spelled out; encoding a tuple of plain values into a growing vector does not
/// fail, and `postcard::from_bytes` reads the same snapshot back from it.
#[verifier::external_body]
fn write_snapshot(w: &SnapshotWire) -> (r: Option<Vec<u8>>)
    ensures
        r is Some,
        r->Some_0@ == snapshot_image(snapshot_of_wire(*w)),
        snapshot_parsed(r->Some_0@) == Some(snapshot_of_wire(*w)),
{
    postcard::to_stdvec(w).ok()
}

/// Decodes a snapshot with `postcard::from_bytes`; `None` where that is an error.
/// The result is named, not spelled out.
#[verifier::external_body]
fn read_snapshot(bytes: &[u8]) -> (r: Option<SnapshotWire>)
    ensures
        match r {
            Some(w) => snapshot_parsed(bytes@) == Some(snapshot_of_wire(w)),
            None => snapshot_parsed(bytes@) is None,
        },
{
    postcard::from_bytes(bytes).ok()
}

/// The bytes of a snapshot.
pub fn encode_snapshot(snap: &ShardSnapshot) -> (r: Option<Vec<u8>>)
    ensures
        r is Some,
        r->Some_0@ == snapshot_image(snap@),
        snapshot_parsed(r->Some_0@) == Some(snap@),
{
    let ghost sv = snap@;
    let mut deltas: Vec<DeltaWire> = Vec::new();
    let mut i: usize = 0;
    while i < snap.deltas.len()
        invariant
            i <= snap.deltas@.len(),
            deltas@.len() == i,
            forall|j: int|
                0 <= j < i ==> delta_of_wire(#[trigger] deltas@[j]) == snap.deltas@[j]@,
        decreases snap.deltas@.len() - i,
    {
        let d = &snap.deltas[i];
        let w: DeltaWire = (
            d.sequence,
            d.shard_id,
            d.tenant_id,
            d.operation,
            d.hashed_key,
            d.tombstone,
            copy_keys(&d.chunk_refs),
            d.payload_size,
            d.has_inline_data,
            copy_bytes(&d.ciphertext),
        );
        assert(delta_of_wire(w) =~= d@);
        deltas.push(w);
        i = i + 1;
    }
    let mut positions: Vec<(String, u64)> = Vec::new();
    let mut k: usize = 0;
    while k < snap.watermarks.len()
        invariant
            k <= snap.watermarks@.len(),
            positions@.len() == k,
            forall|j: int|
                0 <= j < k ==> (#[trigger] positions@[j]).0@ == snap.watermarks@[j].0@
                    && positions@[j].1 == snap.watermarks@[j].1,
        decreases snap.watermarks@.len() - k,
    {
        positions.push((snap.watermarks[k].0.clone(), snap.watermarks[k].1));
        k = k + 1;
    }
    let mut recent: Vec<RecentWire> = Vec::new();
    let mut n: usize = 0;
    while n < snap.recent_incorporated.len()
        invariant
            n <= snap.recent_incorporated@.len(),
            recent@.len() == n,
            forall|j: int|
                0 <= j < n ==> recent_of_wire(#[trigger] recent@[j])
                    == snap.recent_incorporated@[j],
        decreases snap.recent_incorporated@.len() - n,
    {
        let e = &snap.recent_incorporated[n];
        recent.push(
            (
                e.log_index,
                (
                    e.perspective_seq.physical_ms,
                    e.perspective_seq.logical,
                    e.perspective_seq.node_id.0,
                ),
                e.apply_ms,
            ),
        );
        n = n + 1;
    }
    let wire: SnapshotWire = (
        snap.delta_count,
        snap.tip,
        snap.maintenance,
        deltas,
        positions,
        snap.shard_id,
        snap.tenant_id,
        snap.ancient_cutoff_log_index,
        recent,
    );
    assert(snapshot_of_wire(wire) =~= sv);
    write_snapshot(&wire)
}

/// The snapshot that a tuple stands for.
fn snapshot_from_wire(wire: SnapshotWire) -> (r: ShardSnapshot)
    ensures
        r@ == snapshot_of_wire(wire),
{
    let ghost sv = snapshot_of_wire(wire);
    let mut deltas: Vec<SerializableDelta> = Vec::new();
    let mut i: usize = 0;
    while i < wire.3.len()
        invariant
            i <= wire.3@.len(),
            deltas@.len() == i,
            forall|j: int|
                0 <= j < i ==> (#[trigger] deltas@[j])@ == delta_of_wire(wire.3@[j]),
        decreases wire.3@.len() - i,
    {
        let w = &wire.3[i];
        let d = SerializableDelta {
            sequence: w.0,
            shard_id: w.1,
            tenant_id: w.2,
            operation: w.3,
            hashed_key: w.4,
            tombstone: w.5,
            chunk_refs: copy_keys(&w.6),
            payload_size: w.7,
            has_inline_data: w.8,
            ciphertext: copy_bytes(&w.9),
        };
        assert(d@ =~= delta_of_wire(wire.3@[i as int]));
        deltas.push(d);
        i = i + 1;
    }
    let mut recent: Vec<RecentIncorporatedEntry> = Vec::new();
    let mut n: usize = 0;
    while n < wire.8.len()
        invariant
            n <= wire.8@.len(),
            recent@.len() == n,
            forall|j: int|
                0 <= j < n ==> (#[trigger] recent@[j]) == recent_of_wire(wire.8@[j]),
        decreases wire.8@.len() - n,
    {
        let e = &wire.8[n];
        recent.push(
            RecentIncorporatedEntry {
                log_index: e.0,
                perspective_seq: HybridLogicalClock {
                    physical_ms: e.1.0,
                    logical: e.1.1,
                    node_id: NodeId(e.1.2),
                },
                apply_ms: e.2,
            },
        );
        n = n + 1;
    }
    let snap = ShardSnapshot {
        delta_count: wire.0,
        tip: wire.1,
        maintenance: wire.2,
        deltas,
        watermarks: wire.4,
        shard_id: wire.5,
        tenant_id: wire.6,
        ancient_cutoff_log_index: wire.7,
        recent_incorporated: recent,
    };
    assert(snap@ =~= sv);
    snap
}

/// Reads a snapshot; `None` where the bytes are not one.
pub fn decode_snapshot(bytes: &[u8]) -> (r: Option<ShardSnapshot>)
    ensures
        match r {
            Some(s) => snapshot_parsed(bytes@) == Some(s@),
            None => snapshot_parsed(bytes@) is None,
        },
{
    match read_snapshot(bytes) {
        Some(w) => Some(snapshot_from_wire(w)),
        None => None,
    }
}

/// An intent as a tuple: its clock reading, its key, and the bytes of its append.
pub type IntentWire = ((u64, u32, u64), Option<[u8; 16]>, Vec<u8>);

/// An intent on the wire.
#[verifier::ext_equal]
pub struct WireView {
    pub seq: HybridLogicalClock,
    pub idem: Option<[u8; 16]>,
    pub append_proto: Seq<u8>,
}

/// The intent that a tuple stands for.
pub open spec fn intent_of_wire(w: IntentWire) -> WireView {
    WireView {
        seq: HybridLogicalClock {
            physical_ms: w.0.0,
            logical: w.0.1,
            node_id: NodeId(w.0.2),
        },
        idem: w.1,
        append_proto: w.2@,
    }
}

/// The intents that a list of tuples stands for.
pub open spec fn intents_of_wire(s: Seq<IntentWire>) -> Seq<WireView> {
    Seq::new(s.len(), |i: int| intent_of_wire(s[i]))
}

/// The bytes that `postcard::to_stdvec` makes of a list of intents.
pub uninterp spec fn intents_image(s: Seq<WireView>) -> Seq<u8>;

/// The intents that `postcard::from_bytes` reads from bytes, where it reads any.
pub uninterp spec fn intents_parsed(bytes: Seq<u8>) -> Option<Seq<WireView>>;

/// The bytes that `postcard::to_stdvec` makes of a list of answers.
pub uninterp spec fn acks_image(s: Seq<bool>) -> Seq<u8>;

/// The answers that `postcard::from_bytes` reads from bytes, where it reads any.
pub uninterp spec fn acks_parsed(bytes: Seq<u8>) -> Option<Seq<bool>>;

/// Encodes intents with `postcard::to_stdvec`. The result is named, not spelled
/// out; encoding does not fail, and `postcard::from_bytes` reads the same intents
/// back.
#[verifier::external_body]
pub(crate) fn write_intents(s: &Vec<IntentWire>) -> (r: Option<Vec<u8>>)
    ensures
        r is Some,
        r->Some_0@ == intents_image(intents_of_wire(s@)),
        intents_parsed(r->Some_0@) == Some(intents_of_wire(s@)),
{
    postcard::to_stdvec(s).ok()
}

/// Decodes intents with `postcard::from_bytes`; `None` where that is an error. The
/// result is named, not spelled out.
#[verifier::external_body]
pub(crate) fn read_intents(bytes: &[u8]) -> (r: Option<Vec<IntentWire>>)
    ensures
        match r {
            Some(s) => intents_parsed(bytes@) == Some(intents_of_wire(s@)),
            None => intents_parsed(bytes@) is None,
        },
{
    postcard::from_bytes(bytes).ok()
}

/// Encodes answers with `postcard::to_stdvec`. The result is named, not spelled
/// out; encoding does not fail, and `postcard::from_bytes` reads the same answers
/// back.
#[verifier::external_body]
pub(crate) fn write_acks(s: &Vec<bool>) -> (r: Option<Vec<u8>>)
    ensures
        r is Some,
        r->Some_0@ == acks_image(s@),
        acks_parsed(r->Some_0@) == Some(s@),
{
    postcard::to_stdvec(s).ok()
}

/// Decodes answers with `postcard::from_bytes`; `None` where that is an error. The
/// result is named, not spelled out.
#[verifier::external_body]
pub(crate) fn read_acks(bytes: &[u8]) -> (r: Option<Vec<bool>>)
    ensures
        match r {
            Some(s) => acks_parsed(bytes@) == Some(s@),
            None => acks_parsed(bytes@) is None,
        },
{
    postcard::from_bytes(bytes).ok()
}

} // verus!
