//! Snapshots of the state machine.
//!
//! A snapshot carries full payloads: those that were offloaded are read back when
//! it is built and offloaded again when it is installed. It carries neither chunk
//! rows nor timestamps.

use std::collections::VecDeque;

use vstd::prelude::*;

use crate::bytes::copy_bytes;
use crate::command::{chunk_ids, tenant_of, inline_views, InlinePutView};
use crate::command::{to_chunk_ids, to_raw_keys, InlinePayload};
use crate::committer_pipeline::lemma_tenant_bytes;
use crate::delta::{bare_payload, op_code, op_code_round_trip, op_of_code, DeltaView, HeaderView};
use crate::delta::{op_to_u8, u8_to_op, Delta, DeltaHeader, DeltaPayload};
use crate::ids::{uuid_from_bytes, uuid_to_bytes, OrgId, SequenceNumber, ShardId};
use crate::inline_store::derive_inline_key;
use crate::inline_store::inline_key;
use crate::ordered_map::OrderedMap;
use crate::raft::laws::{in_order, window_in_sync};
use crate::raft::openraft_store::read_of;
use crate::raft::state_machine::{RecentIncorporatedEntry, ShardSmInner};
use crate::raft::state_machine::{
    SmView, DEFAULT_DEDUP_WINDOW_ENTRIES, DEFAULT_DEDUP_WINDOW_MS,
};
use crate::settings::{positive_or, text_of};
use crate::settings::{positive_u64_or, positive_usize_or};
use crate::text::decimal_text;
use crate::text::{decimal, join2};
use crate::time::applied_timestamp;
use crate::time::{timestamp_at, HybridLogicalClock};
use crate::watermark::{
    lemma_watermark_index, names_distinct, watermark_index, watermarks_advanced,
};
use crate::watermark::ConsumerWatermarks;

verus! {

/// A delta in a snapshot.
#[derive(Debug, PartialEq, Eq)]
pub struct SerializableDelta {
    pub sequence: u64,
    pub shard_id: [u8; 16],
    pub tenant_id: [u8; 16],
    pub operation: u8,
    pub hashed_key: [u8; 32],
    pub tombstone: bool,
    pub chunk_refs: Vec<[u8; 32]>,
    pub payload_size: u32,
    pub has_inline_data: bool,
    pub ciphertext: Vec<u8>,
}

/// What a [`SerializableDelta`] holds.
#[verifier::ext_equal]
pub struct StoredDelta {
    pub sequence: u64,
    pub shard_id: [u8; 16],
    pub tenant_id: [u8; 16],
    pub operation: u8,
    pub hashed_key: [u8; 32],
    pub tombstone: bool,
    pub chunk_refs: Seq<[u8; 32]>,
    pub payload_size: u32,
    pub has_inline_data: bool,
    pub ciphertext: Seq<u8>,
}

impl View for SerializableDelta {
    type V = StoredDelta;

    open spec fn view(&self) -> StoredDelta {
        StoredDelta {
            sequence: self.sequence,
            shard_id: self.shard_id,
            tenant_id: self.tenant_id,
            operation: self.operation,
            hashed_key: self.hashed_key,
            tombstone: self.tombstone,
            chunk_refs: self.chunk_refs@,
            payload_size: self.payload_size,
            has_inline_data: self.has_inline_data,
            ciphertext: self.ciphertext@,
        }
    }
}

/// What a list of stored deltas holds.
pub open spec fn stored_views(s: Seq<SerializableDelta>) -> Seq<StoredDelta> {
    Seq::new(s.len(), |i: int| s[i]@)
}

/// Whether a stored delta is that of a delta, with `bytes` for its payload.
pub open spec fn stores(s: StoredDelta, d: DeltaView, bytes: Seq<u8>) -> bool {
    &&& s.sequence == d.header.sequence
    &&& tenant_of(s.shard_id) == OrgId(d.header.shard_id.0)
    &&& tenant_of(s.tenant_id) == d.header.tenant_id
    &&& s.operation == op_code(d.header.operation)
    &&& s.hashed_key == d.header.hashed_key
    &&& s.tombstone == d.header.tombstone
    &&& chunk_ids(s.chunk_refs) == d.header.chunk_refs
    &&& s.payload_size == d.header.payload_size
    &&& s.has_inline_data == d.header.has_inline_data
    &&& s.ciphertext == bytes
}

/// The delta that a stored one stands for. Its timestamp is zero.
pub open spec fn unstored(s: StoredDelta) -> DeltaView {
    DeltaView {
        header: HeaderView {
            sequence: s.sequence,
            shard_id: ShardId(tenant_of(s.shard_id).0),
            tenant_id: tenant_of(s.tenant_id),
            operation: op_of_code(s.operation),
            timestamp: applied_timestamp(0),
            hashed_key: s.hashed_key,
            tombstone: s.tombstone,
            chunk_refs: chunk_ids(s.chunk_refs),
            payload_size: s.payload_size,
            has_inline_data: s.has_inline_data,
        },
        payload: bare_payload(s.ciphertext),
    }
}

impl SerializableDelta {
    /// The stored form of a delta.
    pub fn from_delta(d: &Delta) -> (r: Self)
        ensures
            stores(r@, d@, d@.payload.ciphertext),
    {
        let shard = uuid_to_bytes(d.header.shard_id.0);
        let tenant = uuid_to_bytes(d.header.tenant_id.0);
        let refs = to_raw_keys(&d.header.chunk_refs);
        proof {
            lemma_tenant_bytes(d.header.shard_id.0, shard);
            lemma_tenant_bytes(d.header.tenant_id.0, tenant);
            assert(chunk_ids(refs@) =~= d.header.chunk_refs@);
        }
        SerializableDelta {
            sequence: d.header.sequence.0,
            shard_id: shard,
            tenant_id: tenant,
            operation: op_to_u8(d.header.operation),
            hashed_key: d.header.hashed_key,
            tombstone: d.header.tombstone,
            chunk_refs: refs,
            payload_size: d.header.payload_size,
            has_inline_data: d.header.has_inline_data,
            ciphertext: copy_bytes(&d.payload.ciphertext),
        }
    }

    /// The delta that this one stands for.
    pub fn to_delta(&self) -> (r: Delta)
        ensures
            r@ == unstored(self@),
    {
        let r = Delta {
            header: DeltaHeader {
                sequence: SequenceNumber(self.sequence),
                shard_id: ShardId(uuid_from_bytes(self.shard_id)),
                tenant_id: OrgId(uuid_from_bytes(self.tenant_id)),
                operation: u8_to_op(self.operation),
                timestamp: timestamp_at(0),
                hashed_key: self.hashed_key,
                tombstone: self.tombstone,
                chunk_refs: to_chunk_ids(&self.chunk_refs),
                payload_size: self.payload_size,
                has_inline_data: self.has_inline_data,
            },
            payload: DeltaPayload::bare(copy_bytes(&self.ciphertext)),
        };
        assert(r@ =~= unstored(self@));
        r
    }
}

/// A snapshot of a shard.
#[derive(Debug)]
pub struct ShardSnapshot {
    /// Deltas committed.
    pub delta_count: u64,
    /// Highest sequence number given out.
    pub tip: u64,
    /// Whether maintenance mode is on.
    pub maintenance: bool,
    /// Deltas.
    pub deltas: Vec<SerializableDelta>,
    /// Consumer watermarks.
    pub watermarks: Vec<(String, u64)>,
    /// Bytes of the shard identifier.
    pub shard_id: Option<[u8; 16]>,
    /// Bytes of the tenant identifier.
    pub tenant_id: Option<[u8; 16]>,
    /// Log positions below this are ancient.
    pub ancient_cutoff_log_index: u64,
    /// Window of recent intents, oldest first.
    pub recent_incorporated: Vec<RecentIncorporatedEntry>,
}

/// What a [`ShardSnapshot`] holds.
#[verifier::ext_equal]
pub struct SnapshotView {
    pub delta_count: u64,
    pub tip: u64,
    pub maintenance: bool,
    pub deltas: Seq<StoredDelta>,
    pub watermarks: Seq<(Seq<char>, u64)>,
    pub shard_id: Option<[u8; 16]>,
    pub tenant_id: Option<[u8; 16]>,
    pub cutoff: u64,
    pub recent: Seq<RecentIncorporatedEntry>,
}

/// What a list of named positions holds.
pub open spec fn position_views(s: Seq<(String, u64)>) -> Seq<(Seq<char>, u64)> {
    Seq::new(s.len(), |i: int| (s[i].0@, s[i].1))
}

impl View for ShardSnapshot {
    type V = SnapshotView;

    open spec fn view(&self) -> SnapshotView {
        SnapshotView {
            delta_count: self.delta_count,
            tip: self.tip,
            maintenance: self.maintenance,
            deltas: stored_views(self.deltas@),
            watermarks: position_views(self.watermarks@),
            shard_id: self.shard_id,
            tenant_id: self.tenant_id,
            cutoff: self.ancient_cutoff_log_index,
            recent: self.recent_incorporated@,
        }
    }
}

/// The payload of a delta in a snapshot: what was read back where it was offloaded
/// and found, and otherwise what the delta holds.
pub open spec fn full_payload(d: DeltaView, inline_attached: bool, found: Option<Seq<u8>>) -> Seq<u8> {
    match (read_of(d, inline_attached).inline_key, found) {
        (Some(_), Some(bytes)) => bytes,
        _ => d.payload.ciphertext,
    }
}

/// What was found for each delta.
pub open spec fn found_views(s: Seq<Option<Vec<u8>>>) -> Seq<Option<Seq<u8>>> {
    Seq::new(
        s.len(),
        |i: int|
            match s[i] {
                Some(v) => Some(v@),
                None => None,
            },
    )
}

/// Whether a snapshot is that of a state, with what was read back for its deltas.
pub open spec fn captures(snap: SnapshotView, st: SmView, found: Seq<Option<Seq<u8>>>) -> bool {
    &&& snap.delta_count == st.delta_count
    &&& snap.tip == st.tip
    &&& snap.maintenance == st.maintenance
    &&& snap.deltas.len() == st.deltas.len()
    &&& forall|i: int|
        0 <= i < st.deltas.len() ==> #[trigger] stores(
            snap.deltas[i],
            st.deltas[i],
            full_payload(st.deltas[i], st.inline_attached, found[i]),
        )
    &&& snap.watermarks == st.watermarks
    &&& snap.shard_id matches Some(b) && tenant_of(b) == OrgId(st.shard_id.0)
    &&& snap.tenant_id matches Some(b) && tenant_of(b) == st.tenant_id
    &&& snap.cutoff == st.cutoff
    &&& snap.recent == st.recent
}

/// The key under which the payload of each delta is to be read back.
pub open spec fn readback_keys(st: SmView) -> Seq<Option<Seq<u8>>> {
    Seq::new(st.deltas.len(), |i: int| read_of(st.deltas[i], st.inline_attached).inline_key)
}

/// What a list of keys holds.
pub open spec fn wanted_views(s: Seq<Option<[u8; 32]>>) -> Seq<Option<Seq<u8>>> {
    Seq::new(
        s.len(),
        |i: int|
            match s[i] {
                Some(k) => Some(k@),
                None => None,
            },
    )
}

/// Keys of the payloads that a snapshot has to read back, delta by delta.
pub fn readback(state: &ShardSmInner) -> (r: Vec<Option<[u8; 32]>>)
    ensures
        wanted_views(r@) == readback_keys(state@),
{
    let mut out: Vec<Option<[u8; 32]>> = Vec::new();
    let mut i: usize = 0;
    while i < state.deltas.len()
        invariant
            i <= state.deltas@.len(),
            out@.len() == i,
            forall|j: int|
                0 <= j < i ==> (match #[trigger] out@[j] {
                    Some(k) => Some(k@),
                    None => None::<Seq<u8>>,
                }) == readback_keys(state@)[j],
        decreases state.deltas@.len() - i,
    {
        let d = &state.deltas[i];
        assert(state@.deltas[i as int] == d@);
        if d.header.has_inline_data && d.payload.ciphertext.len() == 0 && state.inline_attached {
            out.push(Some(derive_inline_key(&d.header.hashed_key, d.header.sequence.0)));
        } else {
            out.push(None);
        }
        i = i + 1;
    }
    assert(wanted_views(out@) =~= readback_keys(state@));
    out
}

/// Builds the snapshot of a state, given what was read back for its deltas.
pub fn build_snapshot(state: &ShardSmInner, found: &Vec<Option<Vec<u8>>>) -> (r: ShardSnapshot)
    requires
        found@.len() == state.deltas@.len(),
    ensures
        captures(r@, state@, found_views(found@)),
{
    let ghost f = found_views(found@);
    let ghost st = state@;
    let mut deltas: Vec<SerializableDelta> = Vec::new();
    let mut i: usize = 0;
    while i < state.deltas.len()
        invariant
            i <= state.deltas@.len(),
            found@.len() == state.deltas@.len(),
            st == state@,
            f == found_views(found@),
            deltas@.len() == i,
            forall|j: int|
                0 <= j < i ==> #[trigger] stores(
                    deltas@[j]@,
                    st.deltas[j],
                    full_payload(st.deltas[j], st.inline_attached, f[j]),
                ),
        decreases state.deltas@.len() - i,
    {
        let d = &state.deltas[i];
        let mut sd = SerializableDelta::from_delta(d);
        assert(st.deltas[i as int] == d@);
        if d.header.has_inline_data && d.payload.ciphertext.len() == 0 && state.inline_attached {
            match &found[i] {
                Some(data) => {
                    sd.ciphertext = copy_bytes(data);
                },
                None => {},
            }
        }
        assert(f[i as int] == (match found@[i as int] {
            Some(v) => Some(v@),
            None => None,
        }));
        assert(stores(
            sd@,
            st.deltas[i as int],
            full_payload(st.deltas[i as int], st.inline_attached, f[i as int]),
        ));
        let ghost before = deltas@;
        deltas.push(sd);
        assert forall|j: int| 0 <= j < i + 1 implies #[trigger] stores(
            deltas@[j]@,
            st.deltas[j],
            full_payload(st.deltas[j], st.inline_attached, f[j]),
        ) by {
            if j < i {
                assert(deltas@[j] == before[j]);
            }
        }
        i = i + 1;
    }
    let shard = uuid_to_bytes(state.shard_id.0);
    let tenant = uuid_to_bytes(state.tenant_id.0);
    let watermarks = state.watermarks.as_vec();
    let mut recent: Vec<RecentIncorporatedEntry> = Vec::new();
    let mut k: usize = 0;
    while k < state.recent_incorporated.len()
        invariant
            k <= state.recent_incorporated@.len(),
            recent@ == state.recent_incorporated@.take(k as int),
        decreases state.recent_incorporated@.len() - k,
    {
        recent.push(state.recent_incorporated[k]);
        k = k + 1;
        assert(recent@ =~= state.recent_incorporated@.take(k as int));
    }
    proof {
        assert(recent@ =~= state.recent_incorporated@);
        lemma_tenant_bytes(state.shard_id.0, shard);
        lemma_tenant_bytes(state.tenant_id.0, tenant);
        assert(position_views(watermarks@) =~= st.watermarks);
    }
    let snap = ShardSnapshot {
        delta_count: state.delta_count,
        tip: state.tip,
        maintenance: state.maintenance,
        deltas,
        watermarks,
        shard_id: Some(shard),
        tenant_id: Some(tenant),
        ancient_cutoff_log_index: state.ancient_cutoff_log_index,
        recent_incorporated: recent,
    };
    proof {
        assert forall|j: int| 0 <= j < st.deltas.len() implies #[trigger] stores(
            snap@.deltas[j],
            st.deltas[j],
            full_payload(st.deltas[j], st.inline_attached, f[j]),
        ) by {
            assert(snap@.deltas[j] == deltas@[j]@);
            assert(stores(
                deltas@[j]@,
                st.deltas[j],
                full_payload(st.deltas[j], st.inline_attached, f[j]),
            ));
        }
    }
    snap
}

/// A delta as it is installed: without its payload where that is offloaded.
pub open spec fn installed_delta(s: StoredDelta, inline_attached: bool) -> DeltaView {
    if s.has_inline_data && inline_attached {
        DeltaView {
            payload: bare_payload(Seq::empty()),
            ..unstored(s)
        }
    } else {
        unstored(s)
    }
}

/// The payloads that installing deltas offloads.
pub open spec fn installed_puts(s: Seq<StoredDelta>, inline_attached: bool) -> Seq<InlinePutView>
    decreases s.len(),
{
    if s.len() == 0 {
        Seq::empty()
    } else {
        let front = installed_puts(s.drop_last(), inline_attached);
        let d = s.last();
        if d.has_inline_data && inline_attached && d.ciphertext.len() > 0 {
            front.push(
                InlinePutView { key: inline_key(d.hashed_key@, d.sequence), payload: d.ciphertext },
            )
        } else {
            front
        }
    }
}

/// The positions of consumers, advanced one by one from none.
pub open spec fn positions_restored(s: Seq<(Seq<char>, u64)>) -> Seq<(Seq<char>, u64)>
    decreases s.len(),
{
    if s.len() == 0 {
        s
    } else {
        watermarks_advanced(positions_restored(s.drop_last()), s.last().0, s.last().1)
    }
}

/// The clock readings of a window.
pub open spec fn window_readings(s: Seq<RecentIncorporatedEntry>) -> Set<HybridLogicalClock> {
    Set::new(
        |q: HybridLogicalClock|
            exists|i: int| 0 <= i < s.len() && (#[trigger] s[i]).perspective_seq == q,
    )
}

/// A state with a snapshot installed. What a snapshot does not carry stays as it
/// was; the bounds of the window are those given.
pub open spec fn installed(
    st: SmView,
    snap: SnapshotView,
    window_entries: usize,
    window_ms: u64,
) -> SmView {
    SmView {
        delta_count: snap.delta_count,
        tip: snap.tip,
        maintenance: snap.maintenance,
        deltas: Seq::new(
            snap.deltas.len(),
            |i: int| installed_delta(snap.deltas[i], st.inline_attached),
        ),
        watermarks: positions_restored(snap.watermarks),
        shard_id: match snap.shard_id {
            Some(b) => ShardId(tenant_of(b).0),
            None => st.shard_id,
        },
        tenant_id: match snap.tenant_id {
            Some(b) => tenant_of(b),
            None => st.tenant_id,
        },
        cutoff: snap.cutoff,
        recent: snap.recent,
        recent_seqs: window_readings(snap.recent),
        window_entries,
        window_ms,
        ..st
    }
}

/// Installs a snapshot, given the bounds of the window; returns the payloads to
/// offload.
pub fn install_snapshot(
    state: &mut ShardSmInner,
    snap: &ShardSnapshot,
    window_entries: usize,
    window_ms: u64,
) -> (r: Vec<InlinePayload>)
    requires
        old(state).wf(),
    ensures
        final(state).wf(),
        final(state)@ == installed(old(state)@, snap@, window_entries, window_ms),
        inline_views(r@) == installed_puts(snap@.deltas, old(state)@.inline_attached),
{
    let ghost st = state@;
    let ghost sv = snap@;
    let attached: bool = state.inline_attached;
    let mut recent: VecDeque<RecentIncorporatedEntry> = VecDeque::new();
    let mut seqs: OrderedMap<HybridLogicalClock, ()> = OrderedMap::new();
    let mut k: usize = 0;
    while k < snap.recent_incorporated.len()
        invariant
            k <= snap.recent_incorporated@.len(),
            recent@ == snap.recent_incorporated@.take(k as int),
            seqs.wf(),
            seqs@.dom() == window_readings(snap.recent_incorporated@.take(k as int)),
        decreases snap.recent_incorporated@.len() - k,
    {
        let e = snap.recent_incorporated[k];
        let ghost before = seqs@.dom();
        recent.push_back(e);
        seqs.insert(e.perspective_seq, ());
        proof {
            let t = snap.recent_incorporated@.take(k as int);
            let u = snap.recent_incorporated@.take(k + 1);
            assert(recent@ =~= u);
            assert(u[k as int] == e);
            assert forall|q: HybridLogicalClock| #[trigger] seqs@.dom().contains(q)
                == window_readings(u).contains(q) by {
                if window_readings(t).contains(q) {
                    let j = choose|j: int| 0 <= j < t.len() && (#[trigger] t[j]).perspective_seq
                        == q;
                    assert(u[j] == t[j]);
                }
                if window_readings(u).contains(q) && q != e.perspective_seq {
                    let j = choose|j: int| 0 <= j < u.len() && (#[trigger] u[j]).perspective_seq
                        == q;
                    assert(t[j] == u[j]);
                }
            }
            assert(seqs@.dom() =~= window_readings(u));
        }
        k = k + 1;
    }
    assert(snap.recent_incorporated@.take(k as int) =~= snap.recent_incorporated@);
    let mut deltas: Vec<Delta> = Vec::new();
    let mut puts: Vec<InlinePayload> = Vec::new();
    let mut i: usize = 0;
    proof {
        assert(sv.deltas.take(0) =~= Seq::<StoredDelta>::empty());
        assert(inline_views(puts@) =~= Seq::<InlinePutView>::empty());
    }
    while i < snap.deltas.len()
        invariant
            i <= snap.deltas@.len(),
            sv == snap@,
            deltas@.len() == i,
            forall|j: int|
                0 <= j < i ==> (#[trigger] deltas@[j])@ == installed_delta(sv.deltas[j], attached),
            inline_views(puts@) == installed_puts(sv.deltas.take(i as int), attached),
        decreases snap.deltas@.len() - i,
    {
        let sd = &snap.deltas[i];
        proof {
            let t = sv.deltas.take(i + 1);
            assert(t.drop_last() =~= sv.deltas.take(i as int));
            assert(t.last() == sd@);
        }
        let mut delta = sd.to_delta();
        if sd.has_inline_data && attached {
            if sd.ciphertext.len() > 0 {
                let ghost before = puts@;
                let put = InlinePayload {
                    chunk_id: derive_inline_key(&sd.hashed_key, sd.sequence),
                    payload: copy_bytes(&sd.ciphertext),
                };
                puts.push(put);
                assert(inline_views(puts@) =~= inline_views(before).push(put@));
            }
            delta.payload.ciphertext = Vec::new();
        }
        assert(delta@ =~= installed_delta(sd@, attached));
        deltas.push(delta);
        i = i + 1;
    }
    assert(sv.deltas.take(i as int) =~= sv.deltas);
    let mut wm = ConsumerWatermarks::new();
    let mut w: usize = 0;
    assert(sv.watermarks.take(0) =~= Seq::<(Seq<char>, u64)>::empty());
    while w < snap.watermarks.len()
        invariant
            w <= snap.watermarks@.len(),
            sv == snap@,
            wm@ == positions_restored(sv.watermarks.take(w as int)),
        decreases snap.watermarks@.len() - w,
    {
        proof {
            let t = sv.watermarks.take(w + 1);
            assert(t.drop_last() =~= sv.watermarks.take(w as int));
            assert(t.last() == (snap.watermarks@[w as int].0@, snap.watermarks@[w as int].1));
        }
        wm.advance(snap.watermarks[w].0.as_str(), SequenceNumber(snap.watermarks[w].1));
        w = w + 1;
    }
    assert(sv.watermarks.take(w as int) =~= sv.watermarks);
    state.delta_count = snap.delta_count;
    state.tip = snap.tip;
    state.maintenance = snap.maintenance;
    state.ancient_cutoff_log_index = snap.ancient_cutoff_log_index;
    state.recent_incorporated = recent;
    state.recent_incorporated_seqs = seqs;
    state.dedup_window_entries = window_entries;
    state.dedup_window_ms = window_ms;
    state.deltas = deltas;
    state.watermarks = wm;
    match snap.shard_id {
        Some(b) => {
            state.shard_id = ShardId(uuid_from_bytes(b));
        },
        None => {},
    }
    match snap.tenant_id {
        Some(b) => {
            state.tenant_id = OrgId(uuid_from_bytes(b));
        },
        None => {},
    }
    assert(state@ =~= installed(st, sv, window_entries, window_ms));
    puts
}

/// Most entries of the window: the setting, or the default.
pub fn dedup_window_entries(v: Option<&str>) -> (r: usize)
    ensures
        r == positive_or(text_of(v), usize::MAX as nat, DEFAULT_DEDUP_WINDOW_ENTRIES as nat),
{
    positive_usize_or(v, DEFAULT_DEDUP_WINDOW_ENTRIES)
}

/// Most milliseconds in the window: the setting, or the default.
pub fn dedup_window_ms(v: Option<&str>) -> (r: u64)
    ensures
        r == positive_or(text_of(v), u64::MAX as nat, DEFAULT_DEDUP_WINDOW_MS as nat),
{
    positive_u64_or(v, DEFAULT_DEDUP_WINDOW_MS)
}

/// Whether so many bytes do not fit into a message beside its frame.
pub open spec fn exceeds_message(len: usize, max_message: usize, frame: usize) -> bool {
    len > (if max_message >= frame {
        max_message - frame
    } else {
        0
    })
}

/// Whether a snapshot is too large for one message, given the largest message and
/// what its frame takes.
pub fn over_size_cap(len: usize, max_message: usize, frame: usize) -> (r: bool)
    ensures
        r == exceeds_message(len, max_message, frame),
{
    let cap: usize = if max_message >= frame {
        max_message - frame
    } else {
        0
    };
    len > cap
}

/// The name of the snapshot at a log position.
pub fn snapshot_id(last_applied: Option<u64>) -> (r: String)
    ensures
        r@ == "snap-"@ + decimal_text(
            match last_applied {
                Some(i) => i as nat,
                None => 0,
            },
        ),
{
    let index: u64 = match last_applied {
        Some(i) => i,
        None => 0,
    };
    let digits = decimal(index);
    join2("snap-", digits.as_str())
}

// ---------------------------------------------------------------------------
// Laws
// ---------------------------------------------------------------------------

/// Positions of distinct consumers are restored as they were.
proof fn lemma_positions_restored(s: Seq<(Seq<char>, u64)>)
    requires
        names_distinct(s),
    ensures
        positions_restored(s) == s,
    decreases s.len(),
{
    if s.len() > 0 {
        let f = s.drop_last();
        assert forall|i: int, j: int| 0 <= i < j < f.len() implies (#[trigger] f[i]).0 != (
        #[trigger] f[j]).0 by {
            assert(f[i] == s[i] && f[j] == s[j]);
        }
        lemma_positions_restored(f);
        lemma_watermark_index(f, s.last().0);
        match watermark_index(f, s.last().0) {
            Some(i) => {
                assert(f[i] == s[i]);
                assert(s[s.len() - 1] == s.last());
            },
            None => {},
        }
        assert(f.push(s.last()) =~= s);
    }
}

/// Law: installing the snapshot of one replica on another gives it the deltas,
/// watermarks, window and identity of the first. Of a delta, the timestamp is not
/// kept.
pub proof fn snapshot_restores_the_replica(
    a: SmView,
    found: Seq<Option<Seq<u8>>>,
    snap: SnapshotView,
    b: SmView,
    window_entries: usize,
    window_ms: u64,
    i: int,
)
    requires
        captures(snap, a, found),
        names_distinct(a.watermarks),
        window_in_sync(a),
    ensures
        ({
            let n = installed(b, snap, window_entries, window_ms);
            &&& n.delta_count == a.delta_count
            &&& n.tip == a.tip
            &&& n.maintenance == a.maintenance
            &&& n.watermarks == a.watermarks
            &&& n.shard_id == a.shard_id
            &&& n.tenant_id == a.tenant_id
            &&& n.cutoff == a.cutoff
            &&& n.recent == a.recent
            &&& n.recent_seqs == a.recent_seqs
            &&& window_in_sync(n)
            &&& n.deltas.len() == a.deltas.len()
            &&& 0 <= i < a.deltas.len() ==> n.deltas[i].header == (HeaderView {
                timestamp: applied_timestamp(0),
                ..a.deltas[i].header
            })
        }),
{
    let n = installed(b, snap, window_entries, window_ms);
    lemma_positions_restored(a.watermarks);
    assert forall|q: HybridLogicalClock| #[trigger] n.recent_seqs.contains(q)
        == a.recent_seqs.contains(q) by {}
    assert(n.recent_seqs =~= a.recent_seqs);
    if 0 <= i < a.deltas.len() {
        assert(stores(
            snap.deltas[i],
            a.deltas[i],
            full_payload(a.deltas[i], a.inline_attached, found[i]),
        ));
        op_code_round_trip(a.deltas[i].header.operation);
    }
}

/// Law: a snapshot keeps the order of the deltas.
pub proof fn snapshot_keeps_deltas_in_order(
    a: SmView,
    found: Seq<Option<Seq<u8>>>,
    snap: SnapshotView,
    b: SmView,
    window_entries: usize,
    window_ms: u64,
)
    requires
        captures(snap, a, found),
        in_order(a),
    ensures
        in_order(installed(b, snap, window_entries, window_ms)),
{
    let n = installed(b, snap, window_entries, window_ms);
    assert forall|i: int| 0 <= i < a.deltas.len() implies (
    #[trigger] n.deltas[i]).header.sequence == a.deltas[i].header.sequence by {
        assert(stores(
            snap.deltas[i],
            a.deltas[i],
            full_payload(a.deltas[i], a.inline_attached, found[i]),
        ));
    }
    assert forall|i: int, j: int| 0 <= i < j < n.deltas.len() implies (
    #[trigger] n.deltas[i]).header.sequence < (#[trigger] n.deltas[j]).header.sequence by {
        assert(a.deltas[i].header.sequence < a.deltas[j].header.sequence);
    }
}

/// A payload that is not empty is offloaded under the key of its delta.
proof fn lemma_installed_put(s: Seq<StoredDelta>, i: int)
    requires
        0 <= i < s.len(),
        s[i].has_inline_data,
        s[i].ciphertext.len() > 0,
    ensures
        installed_puts(s, true).contains(
            InlinePutView {
                key: inline_key(s[i].hashed_key@, s[i].sequence),
                payload: s[i].ciphertext,
            },
        ),
    decreases s.len(),
{
    let put = InlinePutView {
        key: inline_key(s[i].hashed_key@, s[i].sequence),
        payload: s[i].ciphertext,
    };
    let all = installed_puts(s, true);
    let f = s.drop_last();
    if i == s.len() - 1 {
        assert(all.last() == put);
        assert(all[all.len() - 1] == put);
    } else {
        assert(f[i] == s[i]);
        lemma_installed_put(f, i);
        let front = installed_puts(f, true);
        let k = choose|k: int| 0 <= k < front.len() && front[k] == put;
        assert(all[k] == put);
    }
}

/// Law: the payload of a delta goes through a snapshot: it is offloaded under the
/// key at which it will be looked up, or, without an inline store, stays in the
/// delta.
pub proof fn snapshot_carries_payloads(
    a: SmView,
    found: Seq<Option<Seq<u8>>>,
    snap: SnapshotView,
    b: SmView,
    window_entries: usize,
    window_ms: u64,
    i: int,
)
    requires
        captures(snap, a, found),
        0 <= i < a.deltas.len(),
        full_payload(a.deltas[i], a.inline_attached, found[i]).len() > 0,
    ensures
        ({
            let n = installed(b, snap, window_entries, window_ms);
            let d = a.deltas[i];
            let payload = full_payload(d, a.inline_attached, found[i]);
            if d.header.has_inline_data && b.inline_attached {
                &&& read_of(n.deltas[i], true).inline_key == Some(
                    inline_key(d.header.hashed_key@, d.header.sequence),
                )
                &&& installed_puts(snap.deltas, b.inline_attached).contains(
                    InlinePutView {
                        key: inline_key(d.header.hashed_key@, d.header.sequence),
                        payload,
                    },
                )
            } else {
                n.deltas[i].payload.ciphertext == payload
            }
        }),
{
    assert(stores(
        snap.deltas[i],
        a.deltas[i],
        full_payload(a.deltas[i], a.inline_attached, found[i]),
    ));
    if a.deltas[i].header.has_inline_data {
        lemma_installed_put(snap.deltas, i);
    }
}

} // verus!
