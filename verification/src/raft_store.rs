//! A log backend in memory: one command log and one state machine per shard.
//!
//! The state of a shard is what its command log makes of it: a command is
//! appended to the log, and applied at its position there.

use vstd::prelude::*;

use crate::bytes::{copy_bytes, order_bytes, KeyOrder};
use crate::command::DraftView;
use crate::command::LogCommand;
use crate::command::{to_chunk_ids, to_raw_keys};
use crate::committer_pipeline::lemma_tenant_bytes;
use crate::compaction_worker::{picked_deltas, sequences};
use crate::compaction_worker::pick_marked;
use crate::delta::{delta_views, op_of_short, short_code_round_trip, DeltaView, HeaderView};
use crate::delta::{read_short_op, shorten_op, Delta, DeltaHeader, DeltaPayload};
use crate::error::LogError;
use crate::ids::{uuid_from_bytes, uuid_to_bytes, HashedKey, NodeId, OrgId, SequenceNumber, ShardId};
use crate::ordered_map::OrderedMap;
use crate::raft::state_machine::{draft, drafted_delta, stamp_view, stamped, truncated_size};
use crate::shard::{ShardConfig, ShardInfo, ShardState};
use crate::shard::ShardInfoView;
use crate::sort::selection;
use crate::time::applied_timestamp;
use crate::time::{timestamp_at, DeltaTimestamp, TimestampView};
use crate::traits::{check_write, cost_of_payload, AppendDeltaRequest, LogOps, ReadDeltasRequest};
use crate::traits::{
    fresh_shard, key_between, numbered, payload_cost, requested_delta, shard_appended,
    shard_has_room, shard_in_state, shard_ranged, AppendView, ShardModel,
};
use crate::watermark::ConsumerWatermarks;
use crate::watermark::{lowest_position, watermarks_advanced, watermarks_registered};

verus! {

/// The state machine of a shard, with its command log.
struct ShardStateMachine {
    info: ShardInfo,
    deltas: Vec<Delta>,
    watermarks: ConsumerWatermarks,
    last_applied: u64,
    log: Vec<(u64, LogCommand, u8)>,
}

/// A shard after a delta is appended by the command at log position `index`. `past`
/// marks the operations that share the code of `Finalize`.
pub open spec fn draft_appended(
    m: ShardModel,
    shard_id: ShardId,
    index: u64,
    d: DraftView,
    past: u8,
) -> ShardModel {
    let sequence = (m.info.tip + 1) as u64;
    let delta = drafted_delta(shard_id, false, d, sequence, index);
    ShardModel {
        info: ShardInfoView {
            tip: sequence,
            delta_count: (m.info.delta_count + 1) as u64,
            byte_size: (m.info.byte_size + payload_cost(d.payload.len())) as u64,
            ..m.info
        },
        deltas: m.deltas.push(
            DeltaView {
                header: HeaderView {
                    operation: op_of_short(d.operation, past),
                    ..delta.header
                },
                ..delta
            },
        ),
        ..m
    }
}

/// A shard after a command at log position `index`. The code of an operation is read
/// as a short code, with the mark that stands beside the command in the log.
pub open spec fn command_applied(
    m: ShardModel,
    shard_id: ShardId,
    index: u64,
    cmd: LogCommand,
    past: u8,
) -> ShardModel {
    match cmd {
        LogCommand::AppendDelta {
            tenant_id_bytes,
            operation,
            hashed_key,
            chunk_refs,
            payload,
            has_inline_data,
        } => draft_appended(
            m,
            shard_id,
            index,
            draft(tenant_id_bytes, operation, hashed_key, chunk_refs@, payload@, has_inline_data),
            past,
        ),
        LogCommand::MoveDelta {
            tenant_id_bytes,
            operation,
            hashed_key,
            chunk_refs,
            payload,
            has_inline_data,
            timestamp,
        } => draft_appended(
            m,
            shard_id,
            index,
            stamped(
                draft(
                    tenant_id_bytes,
                    operation,
                    hashed_key,
                    chunk_refs@,
                    payload@,
                    has_inline_data,
                ),
                Some(timestamp@),
            ),
            past,
        ),
        LogCommand::SetMaintenance { enabled } => ShardModel {
            info: ShardInfoView {
                state: if enabled {
                    ShardState::Maintenance
                } else {
                    ShardState::Healthy
                },
                ..m.info
            },
            ..m
        },
        LogCommand::AdvanceWatermark { consumer, position } => ShardModel {
            watermarks: watermarks_advanced(m.watermarks, consumer@, position),
            ..m
        },
        _ => m,
    }
}

/// Whether the counters of a shard have room for a command.
spec fn command_fits(m: ShardModel, cmd: LogCommand) -> bool {
    match cmd {
        LogCommand::AppendDelta { payload, .. } | LogCommand::MoveDelta {
            payload,
            ..
        } => shard_has_room(m, 1, payload_cost(payload@.len())),
        _ => true,
    }
}

impl ShardStateMachine {
    spec fn model(&self) -> ShardModel {
        ShardModel {
            info: self.info@,
            deltas: delta_views(self.deltas@),
            watermarks: self.watermarks@,
            log_len: self.log@.len(),
        }
    }

    spec fn wf(&self) -> bool {
        self.last_applied == self.log@.len()
    }

    /// Appends a delta under the next sequence number.
    fn append_drafted(
        &mut self,
        shard_id: ShardId,
        index: u64,
        tenant_id_bytes: &[u8; 16],
        operation: u8,
        past: u8,
        hashed_key: &[u8; 32],
        chunk_refs: &[[u8; 32]],
        payload: &Vec<u8>,
        has_inline_data: bool,
        timestamp: Option<&DeltaTimestamp>,
    )
        requires
            shard_has_room(old(self).model(), 1, payload_cost(payload@.len())),
        ensures
            final(self).log@ == old(self).log@,
            final(self).last_applied == old(self).last_applied,
            final(self).model() == draft_appended(
                old(self).model(),
                shard_id,
                index,
                stamped(
                    draft(
                        *tenant_id_bytes,
                        operation,
                        *hashed_key,
                        chunk_refs@,
                        payload@,
                        has_inline_data,
                    ),
                    stamp_view(timestamp),
                ),
                past,
            ),
    {
        let ghost m = self.model();
        let next: u64 = self.info.tip.0 + 1;
        let len: u64 = payload.len() as u64;
        let payload_size: u32 = #[verifier::truncate] (len as u32);
        assert(payload_size == truncated_size(payload@.len())) by {
            assert(len as u32 == len % 0x1_0000_0000) by (bit_vector);
        }
        let delta = Delta {
            header: DeltaHeader {
                sequence: SequenceNumber(next),
                shard_id,
                tenant_id: OrgId(uuid_from_bytes(*tenant_id_bytes)),
                operation: read_short_op(operation, past),
                timestamp: match timestamp {
                    Some(t) => t.clone(),
                    None => timestamp_at(index),
                },
                hashed_key: *hashed_key,
                tombstone: operation == 2,
                chunk_refs: to_chunk_ids(chunk_refs),
                payload_size,
                has_inline_data,
            },
            payload: DeltaPayload::bare(copy_bytes(payload)),
        };
        let ghost d0 = self.deltas@;
        self.info.tip = SequenceNumber(next);
        self.info.delta_count = self.info.delta_count + 1;
        self.info.byte_size = self.info.byte_size + cost_of_payload(payload.len());
        self.deltas.push(delta);
        proof {
            let d = stamped(
                draft(
                    *tenant_id_bytes,
                    operation,
                    *hashed_key,
                    chunk_refs@,
                    payload@,
                    has_inline_data,
                ),
                stamp_view(timestamp),
            );
            let after = draft_appended(m, shard_id, index, d, past);
            assert(delta@ =~= after.deltas.last());
            assert(delta_views(self.deltas@) =~= delta_views(d0).push(delta@));
            assert(self.model() =~= after);
        }
    }

    /// Applies a command at a log position; one at a position that was applied
    /// before changes nothing.
    fn apply_to_sm(&mut self, shard_id: ShardId, index: u64, cmd: &LogCommand, past: u8)
        requires
            command_fits(old(self).model(), *cmd),
        ensures
            final(self).log@ == old(self).log@,
            index <= old(self).last_applied ==> final(self).model() == old(self).model()
                && final(self).last_applied == old(self).last_applied,
            index > old(self).last_applied ==> final(self).model() == command_applied(
                old(self).model(),
                shard_id,
                index,
                *cmd,
                past,
            ) && final(self).last_applied == index,
    {
        let ghost m = self.model();
        if index <= self.last_applied {
            return;
        }
        self.last_applied = index;
        match cmd {
            LogCommand::AppendDelta {
                tenant_id_bytes,
                operation,
                hashed_key,
                chunk_refs,
                payload,
                has_inline_data,
            } => {
                self.append_drafted(
                    shard_id,
                    index,
                    tenant_id_bytes,
                    *operation,
                    past,
                    hashed_key,
                    chunk_refs,
                    payload,
                    *has_inline_data,
                    None,
                );
            },
            LogCommand::MoveDelta {
                tenant_id_bytes,
                operation,
                hashed_key,
                chunk_refs,
                payload,
                has_inline_data,
                timestamp,
            } => {
                self.append_drafted(
                    shard_id,
                    index,
                    tenant_id_bytes,
                    *operation,
                    past,
                    hashed_key,
                    chunk_refs,
                    payload,
                    *has_inline_data,
                    Some(timestamp),
                );
            },
            LogCommand::SetMaintenance { enabled } => {
                self.info.state = if *enabled {
                    ShardState::Maintenance
                } else {
                    ShardState::Healthy
                };
            },
            LogCommand::AdvanceWatermark { consumer, position } => {
                self.watermarks.advance(consumer.as_str(), SequenceNumber(*position));
            },
            _ => {},
        }
        assert(self.model() =~= command_applied(m, shard_id, index, *cmd, past));
    }

    /// Appends a command to the log and applies it there.
    fn commit(&mut self, shard_id: ShardId, cmd: LogCommand, past: u8)
        requires
            old(self).wf(),
            old(self).log@.len() < u64::MAX,
            command_fits(old(self).model(), cmd),
        ensures
            final(self).wf(),
            final(self).model() == (ShardModel {
                log_len: old(self).model().log_len + 1,
                ..command_applied(
                    old(self).model(),
                    shard_id,
                    (old(self).model().log_len + 1) as u64,
                    cmd,
                    past,
                )
            }),
    {
        let index: u64 = self.log.len() as u64 + 1;
        self.apply_to_sm(shard_id, index, &cmd, past);
        self.log.push((index, cmd, past));
    }
}

/// A log backend in memory.
pub struct RaftLogStore {
    shards: OrderedMap<ShardId, ShardStateMachine>,
}

/// Whether `d[i]` is the latest delta of its key: no other delta of the key has a
/// higher sequence number, and none before it the same.
pub open spec fn latest_of_key(d: Seq<DeltaView>, i: int) -> bool {
    forall|j: int|
        0 <= j < d.len() && (#[trigger] d[j]).header.hashed_key == d[i].header.hashed_key
            ==> d[j].header.sequence < d[i].header.sequence || (d[j].header.sequence
            == d[i].header.sequence && i <= j)
}

/// Whether compacting a shard keeps `d[i]`: it is the latest delta of its key, and
/// no tombstone that every consumer has passed.
pub open spec fn survives(d: Seq<DeltaView>, i: int, boundary: u64) -> bool {
    &&& 0 <= i < d.len()
    &&& latest_of_key(d, i)
    &&& !(d[i].header.tombstone && d[i].header.sequence < boundary)
}

/// Which deltas compacting a shard keeps.
pub open spec fn survivors(d: Seq<DeltaView>, boundary: u64) -> spec_fn(int) -> bool {
    |i: int| survives(d, i, boundary)
}

/// `out` is what compacting a shard keeps of `d`, in ascending order of sequence
/// numbers.
pub open spec fn shard_compacted(d: Seq<DeltaView>, boundary: u64, out: Seq<DeltaView>) -> bool {
    exists|picked: Seq<usize>| #[trigger]
        selection(sequences(d), survivors(d, boundary), picked) && picked_deltas(d, picked, out)
}

/// Whether `latest` leads from the key of `d[j]` to a delta of that key that is no
/// older.
pub open spec fn led(latest: Map<HashedKey, usize>, d: Seq<DeltaView>, j: int) -> bool {
    let key = HashedKey(d[j].header.hashed_key);
    let p = latest[key] as int;
    &&& latest.contains_key(key)
    &&& d[j].header.sequence < d[p].header.sequence || (d[j].header.sequence
        == d[p].header.sequence && p <= j)
}

/// Whether `latest` leads from `key` to a delta of that key among the first `n`.
pub open spec fn leads(
    latest: Map<HashedKey, usize>,
    d: Seq<DeltaView>,
    n: int,
    key: HashedKey,
) -> bool {
    latest.contains_key(key) ==> latest[key] < n && d[latest[key] as int].header.hashed_key == key.0
}

/// The latest delta of each key.
fn latest_by_key(deltas: &[Delta]) -> (r: OrderedMap<HashedKey, usize>)
    ensures
        r.wf(),
        forall|k: HashedKey| #[trigger] leads(r@, delta_views(deltas@), deltas@.len() as int, k),
        forall|j: int| 0 <= j < deltas@.len() ==> #[trigger] led(r@, delta_views(deltas@), j),
{
    let ghost d = delta_views(deltas@);
    let mut latest: OrderedMap<HashedKey, usize> = OrderedMap::new();
    let mut i: usize = 0;
    while i < deltas.len()
        invariant
            i <= deltas@.len(),
            d == delta_views(deltas@),
            latest.wf(),
            forall|k: HashedKey| #[trigger] leads(latest@, d, i as int, k),
            forall|j: int| 0 <= j < i ==> #[trigger] led(latest@, d, j),
        decreases deltas@.len() - i,
    {
        let ghost before = latest@;
        let key = HashedKey(deltas[i].header.hashed_key);
        assert(d[i as int] == deltas@[i as int]@);
        assert(leads(before, d, i as int, key));
        let replace: bool = match latest.get(&key) {
            Some(p) => {
                assert(*p < i);
                assert(d[*p as int] == deltas@[*p as int]@);
                deltas[i].header.sequence.0 > deltas[*p].header.sequence.0
            },
            None => true,
        };
        if replace {
            latest.insert(key, i);
        }
        proof {
            assert forall|k: HashedKey| #[trigger] leads(latest@, d, i + 1, k) by {
                assert(leads(before, d, i as int, k));
            }
            assert forall|j: int| 0 <= j < i + 1 implies #[trigger] led(latest@, d, j) by {
                if j < i {
                    assert(led(before, d, j));
                }
            }
        }
        i = i + 1;
    }
    latest
}

/// Marks the deltas that compacting a shard keeps.
pub(crate) fn mark_survivors(deltas: &[Delta], boundary: u64) -> (r: Vec<bool>)
    ensures
        r@.len() == deltas@.len(),
        forall|i: int|
            0 <= i < deltas@.len() ==> (#[trigger] r@[i]) == survivors(
                delta_views(deltas@),
                boundary,
            )(i),
{
    let ghost d = delta_views(deltas@);
    let latest = latest_by_key(deltas);
    let mut marked: Vec<bool> = Vec::new();
    let mut k: usize = 0;
    while k < deltas.len()
        invariant
            k <= deltas@.len(),
            d == delta_views(deltas@),
            latest.wf(),
            marked@.len() == k,
            forall|q: HashedKey| #[trigger] leads(latest@, d, deltas@.len() as int, q),
            forall|j: int| 0 <= j < deltas@.len() ==> #[trigger] led(latest@, d, j),
            forall|j: int|
                0 <= j < k ==> (#[trigger] marked@[j]) == survivors(d, boundary)(j),
        decreases deltas@.len() - k,
    {
        let key = HashedKey(deltas[k].header.hashed_key);
        assert(d[k as int] == deltas@[k as int]@);
        let is_latest: bool = match latest.get(&key) {
            Some(p) => *p == k,
            None => false,
        };
        let keep: bool = is_latest && !(deltas[k].header.tombstone
            && deltas[k].header.sequence.0 < boundary);
        proof {
            lemma_led_to_latest(latest@, d, k as int);
        }
        marked.push(keep);
        k = k + 1;
    }
    marked
}

/// A delta is the latest of its key where the map leads to it.
proof fn lemma_led_to_latest(latest: Map<HashedKey, usize>, d: Seq<DeltaView>, k: int)
    requires
        0 <= k < d.len(),
        forall|q: HashedKey| #[trigger] leads(latest, d, d.len() as int, q),
        forall|j: int| 0 <= j < d.len() ==> #[trigger] led(latest, d, j),
    ensures
        latest.contains_key(HashedKey(d[k].header.hashed_key)),
        latest_of_key(d, k) == (latest[HashedKey(d[k].header.hashed_key)] == k),
{
    let key = HashedKey(d[k].header.hashed_key);
    assert(led(latest, d, k));
    assert(leads(latest, d, d.len() as int, key));
    let p = latest[key] as int;
    if p == k {
        assert forall|j: int| 0 <= j < d.len() && (#[trigger] d[j]).header.hashed_key
            == d[k].header.hashed_key implies d[j].header.sequence < d[k].header.sequence || (
        d[j].header.sequence == d[k].header.sequence && k <= j) by {
            assert(led(latest, d, j));
        }
    } else {
        assert(d[p].header.hashed_key == d[k].header.hashed_key);
    }
}

/// Deltas numbered from the boundary on, in order.
pub open spec fn from_boundary(d: Seq<DeltaView>, boundary: u64) -> Seq<DeltaView> {
    numbered(d, boundary, u64::MAX)
}

/// The deltas numbered `from..=to`, in order.
pub(crate) fn pick_numbered(deltas: &[Delta], from: u64, to: u64) -> (r: Vec<Delta>)
    ensures
        delta_views(r@) == numbered(delta_views(deltas@), from, to),
{
    let ghost d = delta_views(deltas@);
    let mut out: Vec<Delta> = Vec::new();
    let mut i: usize = 0;
    assert(d.take(0) =~= Seq::<DeltaView>::empty());
    assert(delta_views(out@) =~= Seq::<DeltaView>::empty());
    while i < deltas.len()
        invariant
            i <= deltas@.len(),
            d == delta_views(deltas@),
            delta_views(out@) == numbered(d.take(i as int), from, to),
        decreases deltas@.len() - i,
    {
        proof {
            let t = d.take(i + 1);
            assert(t.drop_last() =~= d.take(i as int));
            assert(t.last() == deltas@[i as int]@);
        }
        let s: u64 = deltas[i].header.sequence.0;
        if from <= s && s <= to {
            let ghost o0 = out@;
            out.push(deltas[i].clone());
            assert(delta_views(out@) =~= delta_views(o0).push(deltas@[i as int]@));
        }
        i = i + 1;
    }
    assert(d.take(i as int) =~= d);
    out
}

/// A shard with a consumer registered at a position.
pub open spec fn consumer_registered(m: ShardModel, name: Seq<char>, position: u64) -> ShardModel {
    ShardModel { watermarks: watermarks_registered(m.watermarks, name, position), ..m }
}

/// A shard with a consumer advanced to a position, by a command of its log.
pub open spec fn consumer_advanced(m: ShardModel, name: Seq<char>, position: u64) -> ShardModel {
    ShardModel {
        watermarks: watermarks_advanced(m.watermarks, name, position),
        log_len: m.log_len + 1,
        ..m
    }
}

/// A shard without the deltas that every consumer has passed.
pub open spec fn shard_truncated(m: ShardModel) -> ShardModel {
    ShardModel { deltas: from_boundary(m.deltas, boundary_of(m.watermarks)), ..m }
}

/// Whether a shard is the other one compacted.
pub open spec fn compacts(m: ShardModel, n: ShardModel) -> bool {
    &&& shard_compacted(m.deltas, boundary_of(m.watermarks), n.deltas)
    &&& n == (ShardModel {
        info: ShardInfoView { delta_count: n.deltas.len() as u64, ..m.info },
        deltas: n.deltas,
        ..m
    })
}

/// The boundary that the consumers of a shard set; zero without consumers.
pub open spec fn boundary_of(watermarks: Seq<(Seq<char>, u64)>) -> u64 {
    match lowest_position(watermarks) {
        Some(p) => p,
        None => 0,
    }
}

/// Whether a key is in a range.
pub(crate) fn key_in_range(key: &[u8; 32], start: &[u8; 32], end: &[u8; 32]) -> (r: bool)
    ensures
        r == key_between(*key, *start, *end),
{
    let k = key.as_slice();
    let s = start.as_slice();
    let e = end.as_slice();
    assert(k@ == key@ && s@ == start@ && e@ == end@);
    let below: bool = match order_bytes(k, s) {
        KeyOrder::Less => true,
        _ => false,
    };
    let inside: bool = match order_bytes(k, e) {
        KeyOrder::Less => true,
        _ => false,
    };
    !below && inside
}

impl RaftLogStore {
    spec fn models(&self) -> Map<ShardId, ShardModel> {
        self.shards@.map_values(|c: ShardStateMachine| c.model())
    }

    spec fn inv(&self) -> bool {
        &&& self.shards.wf()
        &&& forall|id: ShardId| #[trigger] self.shards@.contains_key(id) ==> self.shards@[id].wf()
    }

    /// An empty store.
    pub fn new() -> (r: Self)
        ensures
            r.ready(),
            r.shards() == Map::<ShardId, ShardModel>::empty(),
    {
        let r = RaftLogStore { shards: OrderedMap::new() };
        assert(r.models() =~= Map::<ShardId, ShardModel>::empty());
        r
    }

    /// Registers a consumer of a shard at a position.
    pub fn register_consumer(
        &mut self,
        shard_id: ShardId,
        consumer: &str,
        position: SequenceNumber,
    ) -> (r: Result<(), LogError>)
        requires
            old(self).ready(),
        ensures
            final(self).ready(),
            if old(self).shards().contains_key(shard_id) {
                let m = old(self).shards()[shard_id];
                r is Ok && final(self).shards() == old(self).shards().insert(
                    shard_id,
                    consumer_registered(m, consumer@, position.0),
                )
            } else {
                r == Err::<(), LogError>(LogError::ShardNotFound(shard_id)) && final(self).shards()
                    == old(self).shards()
            },
    {
        let ghost s0 = self.shards@;
        let ghost m0 = self.models();
        match self.shards.get_mut(&shard_id) {
            Some(cell) => {
                cell.watermarks.register(consumer, position);
            },
            None => {
                return Err(LogError::ShardNotFound(shard_id));
            },
        }
        proof {
            let c = self.shards@[shard_id];
            assert(c.model() =~= (ShardModel {
                watermarks: watermarks_registered(
                    m0[shard_id].watermarks,
                    consumer@,
                    position.0,
                ),
                ..m0[shard_id]
            }));
            assert(self.models() =~= m0.insert(shard_id, c.model()));
        }
        Ok(())
    }

    /// Length of a shard's command log; zero where there is no such shard.
    pub fn log_length(&self, shard_id: ShardId) -> (r: usize)
        requires
            self.ready(),
        ensures
            r == (if self.shards().contains_key(shard_id) {
                self.shards()[shard_id].log_len
            } else {
                0
            }),
    {
        match self.shards.get(&shard_id) {
            Some(cell) => cell.log.len(),
            None => 0,
        }
    }

    /// Appends a command to a shard's log and applies it.
    fn apply_command(&mut self, shard_id: ShardId, cmd: LogCommand, past: u8) -> (r: Result<
        (),
        LogError,
    >)
        requires
            old(self).inv(),
            old(self).models().contains_key(shard_id) ==> shard_has_room(
                old(self).models()[shard_id],
                0,
                0,
            ) && command_fits(old(self).models()[shard_id], cmd),
        ensures
            final(self).inv(),
            if old(self).models().contains_key(shard_id) {
                let m = old(self).models()[shard_id];
                r is Ok && final(self).models() == old(self).models().insert(
                    shard_id,
                    ShardModel {
                        log_len: m.log_len + 1,
                        ..command_applied(m, shard_id, (m.log_len + 1) as u64, cmd, past)
                    },
                )
            } else {
                r == Err::<(), LogError>(LogError::ShardNotFound(shard_id)) && final(self).models()
                    == old(self).models()
            },
    {
        let ghost s0 = self.shards@;
        let ghost m0 = self.models();
        match self.shards.get_mut(&shard_id) {
            Some(cell) => {
                cell.commit(shard_id, cmd, past);
            },
            None => {
                return Err(LogError::ShardNotFound(shard_id));
            },
        }
        proof {
            let c = self.shards@[shard_id];
            assert(self.models() =~= m0.insert(shard_id, c.model()));
        }
        Ok(())
    }

    /// Advances a consumer of a shard.
    pub fn advance_watermark(
        &mut self,
        shard_id: ShardId,
        consumer: &str,
        position: SequenceNumber,
    ) -> (r: Result<(), LogError>)
        requires
            old(self).ready(),
            old(self).shards().contains_key(shard_id) ==> shard_has_room(
                old(self).shards()[shard_id],
                0,
                0,
            ),
        ensures
            final(self).ready(),
            if old(self).shards().contains_key(shard_id) {
                let m = old(self).shards()[shard_id];
                r is Ok && final(self).shards() == old(self).shards().insert(
                    shard_id,
                    consumer_advanced(m, consumer@, position.0),
                )
            } else {
                r == Err::<(), LogError>(LogError::ShardNotFound(shard_id)) && final(self).shards()
                    == old(self).shards()
            },
    {
        self.apply_command(
            shard_id,
            LogCommand::AdvanceWatermark { consumer: consumer.to_owned(), position: position.0 },
            0,
        )
    }

    /// Drops the deltas of a shard that every consumer has passed; returns the
    /// boundary.
    pub fn truncate_log(&mut self, shard_id: ShardId) -> (r: Result<SequenceNumber, LogError>)
        requires
            old(self).ready(),
        ensures
            final(self).ready(),
            if old(self).shards().contains_key(shard_id) {
                let m = old(self).shards()[shard_id];
                r == Ok::<SequenceNumber, LogError>(SequenceNumber(boundary_of(m.watermarks)))
                    && final(self).shards() == old(self).shards().insert(
                    shard_id,
                    shard_truncated(m),
                )
            } else {
                &&& r == Err::<SequenceNumber, LogError>(LogError::ShardNotFound(shard_id))
                &&& final(self).shards() == old(self).shards()
            },
    {
        let ghost m0 = self.models();
        let boundary: SequenceNumber = match self.shards.get_mut(&shard_id) {
            Some(cell) => {
                let b = match cell.watermarks.gc_boundary() {
                    Some(b) => b,
                    None => SequenceNumber(0),
                };
                let kept = pick_numbered(&cell.deltas, b.0, u64::MAX);
                cell.deltas = kept;
                b
            },
            None => {
                return Err(LogError::ShardNotFound(shard_id));
            },
        };
        proof {
            let c = self.shards@[shard_id];
            let m = m0[shard_id];
            assert(c.model() =~= (ShardModel {
                deltas: from_boundary(m.deltas, boundary_of(m.watermarks)),
                ..m
            }));
            assert(self.models() =~= m0.insert(shard_id, c.model()));
        }
        Ok(boundary)
    }

    /// Compacts a shard: of each key only the latest delta stays, and not even that
    /// where it is a tombstone that every consumer has passed. Returns how many
    /// deltas went.
    pub fn compact_shard(&mut self, shard_id: ShardId) -> (r: Result<u64, LogError>)
        requires
            old(self).ready(),
        ensures
            final(self).ready(),
            if old(self).shards().contains_key(shard_id) {
                let m = old(self).shards()[shard_id];
                let n = final(self).shards()[shard_id];
                &&& final(self).shards() == old(self).shards().insert(shard_id, n)
                &&& compacts(m, n)
                &&& r == Ok::<u64, LogError>((m.deltas.len() - n.deltas.len()) as u64)
                &&& n.deltas.len() <= m.deltas.len()
            } else {
                r == Err::<u64, LogError>(LogError::ShardNotFound(shard_id)) && final(self).shards()
                    == old(self).shards()
            },
    {
        let ghost m0 = self.models();
        let removed: u64 = match self.shards.get_mut(&shard_id) {
            Some(cell) => {
                let ghost d = delta_views(cell.deltas@);
                let b = match cell.watermarks.gc_boundary() {
                    Some(b) => b,
                    None => SequenceNumber(0),
                };
                let before: usize = cell.deltas.len();
                let marked = mark_survivors(&cell.deltas, b.0);
                let kept = pick_marked(&cell.deltas, &marked, Ghost(survivors(d, b.0)));
                proof {
                    let picked = choose|picked: Seq<usize>| #[trigger]
                        selection(sequences(d), survivors(d, b.0), picked) && picked_deltas(
                            d,
                            picked,
                            delta_views(kept@),
                        );
                    crate::compaction_worker::lemma_selection_len(
                        sequences(d),
                        survivors(d, b.0),
                        picked,
                    );
                    assert(shard_compacted(d, b.0, delta_views(kept@)));
                }
                let after: usize = kept.len();
                cell.info.delta_count = after as u64;
                cell.deltas = kept;
                (before - after) as u64
            },
            None => {
                return Err(LogError::ShardNotFound(shard_id));
            },
        };
        proof {
            let c = self.shards@[shard_id];
            let m = m0[shard_id];
            assert(c.model() =~= (ShardModel {
                info: ShardInfoView { delta_count: c.model().deltas.len() as u64, ..m.info },
                deltas: c.model().deltas,
                ..m
            }));
            assert(self.models() =~= m0.insert(shard_id, c.model()));
        }
        Ok(removed)
    }
}

impl Default for RaftLogStore {
    fn default() -> (r: Self)
        ensures
            r.ready(),
            r.shards() == Map::<ShardId, ShardModel>::empty(),
    {
        RaftLogStore::new()
    }
}

impl LogOps for RaftLogStore {
    closed spec fn shards(&self) -> Map<ShardId, ShardModel> {
        self.models()
    }

    closed spec fn ready(&self) -> bool {
        self.inv()
    }

    open spec fn reliable(&self) -> bool {
        true
    }

    closed spec fn stamp(&self, req: AppendView) -> TimestampView {
        applied_timestamp((self.models()[req.shard_id].log_len + 1) as u64)
    }

    open spec fn keeps_timestamps() -> bool {
        false
    }

    fn create_shard(
        &mut self,
        shard_id: ShardId,
        tenant_id: OrgId,
        node_id: NodeId,
        config: ShardConfig,
    ) {
        let ghost m0 = self.models();
        let mut members: Vec<NodeId> = Vec::new();
        members.push(node_id);
        assert(members@ =~= seq![node_id]);
        let cell = ShardStateMachine {
            info: ShardInfo {
                shard_id,
                tenant_id,
                raft_members: members,
                leader: Some(node_id),
                tip: SequenceNumber(0),
                delta_count: 0,
                byte_size: 0,
                state: ShardState::Healthy,
                config,
                range_start: [0u8; 32],
                range_end: [0xffu8; 32],
            },
            deltas: Vec::new(),
            watermarks: ConsumerWatermarks::new(),
            last_applied: 0,
            log: Vec::new(),
        };
        assert(cell.model() =~= fresh_shard(shard_id, tenant_id, node_id, config));
        self.shards.insert(shard_id, cell);
        assert(self.models() =~= m0.insert(
            shard_id,
            fresh_shard(shard_id, tenant_id, node_id, config),
        ));
    }

    fn append_delta(&mut self, req: AppendDeltaRequest) -> (r: Result<SequenceNumber, LogError>) {
        let ghost m0 = self.models();
        let ghost view = req@;
        let shard_id = req.shard_id;
        match self.shards.get(&shard_id) {
            None => {
                return Err(LogError::ShardNotFound(shard_id));
            },
            Some(cell) => {
                assert(m0[shard_id] == cell.model());
                match check_write(&cell.info, shard_id, &req.hashed_key) {
                    Ok(()) => {},
                    Err(e) => {
                        return Err(e);
                    },
                }
            },
        }
        let tenant = uuid_to_bytes(req.tenant_id.0);
        let next: u64 = match self.shards.get(&shard_id) {
            Some(cell) => cell.info.tip.0 + 1,
            None => 0,
        };
        let (code, past) = shorten_op(req.operation);
        let cmd = LogCommand::AppendDelta {
            tenant_id_bytes: tenant,
            operation: code,
            hashed_key: req.hashed_key,
            chunk_refs: to_raw_keys(&req.chunk_refs),
            payload: req.payload,
            has_inline_data: req.has_inline_data,
        };
        proof {
            lemma_tenant_bytes(req.tenant_id.0, tenant);
            short_code_round_trip(req.operation);
            let m = m0[shard_id];
            let stamp = applied_timestamp((m.log_len + 1) as u64);
            let applied = ShardModel {
                log_len: m.log_len + 1,
                ..command_applied(m, shard_id, (m.log_len + 1) as u64, cmd, past)
            };
            assert(applied.deltas.last() =~= requested_delta(view, next, stamp));
            assert(applied =~= shard_appended(m, view, stamp));
        }
        match self.apply_command(shard_id, cmd, past) {
            Ok(()) => Ok(SequenceNumber(next)),
            Err(e) => Err(e),
        }
    }

    fn move_delta(&mut self, req: AppendDeltaRequest) -> (r: Result<SequenceNumber, LogError>) {
        let ghost m0 = self.models();
        let ghost view = req@;
        let shard_id = req.shard_id;
        let next: u64 = match self.shards.get(&shard_id) {
            None => {
                return Err(LogError::ShardNotFound(shard_id));
            },
            Some(cell) => {
                assert(m0[shard_id] == cell.model());
                match check_write(&cell.info, shard_id, &req.hashed_key) {
                    Ok(()) => {},
                    Err(e) => {
                        return Err(e);
                    },
                }
                cell.info.tip.0 + 1
            },
        };
        let tenant = uuid_to_bytes(req.tenant_id.0);
        let (code, past) = shorten_op(req.operation);
        let cmd = LogCommand::MoveDelta {
            tenant_id_bytes: tenant,
            operation: code,
            hashed_key: req.hashed_key,
            chunk_refs: to_raw_keys(&req.chunk_refs),
            payload: req.payload,
            has_inline_data: req.has_inline_data,
            timestamp: req.timestamp,
        };
        proof {
            lemma_tenant_bytes(req.tenant_id.0, tenant);
            short_code_round_trip(req.operation);
            let m = m0[shard_id];
            let applied = ShardModel {
                log_len: m.log_len + 1,
                ..command_applied(m, shard_id, (m.log_len + 1) as u64, cmd, past)
            };
            assert(applied.deltas.last() =~= requested_delta(view, next, view.timestamp));
            assert(applied =~= shard_appended(m, view, view.timestamp));
        }
        match self.apply_command(shard_id, cmd, past) {
            Ok(()) => Ok(SequenceNumber(next)),
            Err(e) => Err(e),
        }
    }

    fn read_deltas(&self, req: ReadDeltasRequest) -> (r: Result<Vec<Delta>, LogError>) {
        match self.shards.get(&req.shard_id) {
            None => Err(LogError::ShardNotFound(req.shard_id)),
            Some(cell) => {
                if req.from.0 > req.to.0 {
                    return Err(LogError::InvalidRange(req.shard_id));
                }
                Ok(pick_numbered(&cell.deltas, req.from.0, req.to.0))
            },
        }
    }

    fn has_shard(&self, shard_id: ShardId) -> (r: bool) {
        self.shards.contains(&shard_id)
    }

    fn shard_health(&self, shard_id: ShardId) -> (r: Result<ShardInfo, LogError>) {
        match self.shards.get(&shard_id) {
            None => Err(LogError::ShardNotFound(shard_id)),
            Some(cell) => Ok(cell.info.clone()),
        }
    }

    fn gc_boundary(&self, shard_id: ShardId) -> (r: Result<SequenceNumber, LogError>) {
        match self.shards.get(&shard_id) {
            None => Err(LogError::ShardNotFound(shard_id)),
            Some(cell) => match cell.watermarks.gc_boundary() {
                Some(p) => Ok(p),
                None => Ok(SequenceNumber(0)),
            },
        }
    }

    fn set_maintenance(&mut self, shard_id: ShardId, enabled: bool) -> (r: Result<(), LogError>) {
        self.apply_command(shard_id, LogCommand::SetMaintenance { enabled }, 0)
    }

    fn update_shard_range(&mut self, shard_id: ShardId, start: [u8; 32], end: [u8; 32]) {
        let ghost m0 = self.models();
        let mut found: bool = false;
        match self.shards.get_mut(&shard_id) {
            Some(cell) => {
                found = true;
                cell.info.range_start = start;
                cell.info.range_end = end;
            },
            None => {},
        }
        proof {
            if found {
                let c = self.shards@[shard_id];
                assert(c.model() =~= shard_ranged(m0[shard_id], start, end));
                assert(self.models() =~= m0.insert(shard_id, c.model()));
            }
        }
    }

    fn set_shard_state(&mut self, shard_id: ShardId, state: ShardState) {
        let ghost m0 = self.models();
        let mut found: bool = false;
        match self.shards.get_mut(&shard_id) {
            Some(cell) => {
                found = true;
                cell.info.state = state;
            },
            None => {},
        }
        proof {
            if found {
                let c = self.shards@[shard_id];
                assert(c.model() =~= shard_in_state(m0[shard_id], state));
                assert(self.models() =~= m0.insert(shard_id, c.model()));
            }
        }
    }
}

} // verus!
