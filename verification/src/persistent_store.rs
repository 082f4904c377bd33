//! A log backend with durable records: every append to the backend in memory
//! leaves a record, and the records are replayed into a fresh backend at start.

use vstd::prelude::*;

use crate::bytes::copy_bytes;
use crate::command::{chunk_ids, tenant_of};
use crate::command::{to_chunk_ids, to_raw_keys};
use crate::committer_pipeline::lemma_tenant_bytes;
use crate::delta::{op_of_short, past_code, short_code, short_code_round_trip, DeltaView};
use crate::delta::{read_short_op, shorten_op};
use crate::error::LogError;
use crate::ids::{uuid_from_bytes, uuid_to_bytes, uuid_to_string};
use crate::ids::{uuid_text, NodeId, OrgId, SequenceNumber, ShardId};
use crate::ordered_map::OrderedMap;
use crate::raft::state_machine::{highest_key, lowest_key};
use crate::shard::default_config;
use crate::shard::{ShardConfig, ShardState};
use crate::text::join2;
use crate::time::{ClockQuality, DeltaTimestamp, HybridLogicalClock, WallTime};
use crate::time::TimestampView;
use crate::traits::{
    append_refusal, fresh_shard, key_between, lemma_total_cost_least, lemma_total_cost_prefix,
    payload_cost, requested_delta, shard_appended, shard_has_room, total_cost, AppendView, ShardModel,
};
use crate::traits::{AppendDeltaRequest, LogOps};

verus! {

/// The record of a shard.
#[derive(Clone, Copy, Debug, PartialEq, Eq)]
pub struct ShardMeta {
    pub shard_id_bytes: [u8; 16],
    pub tenant_id_bytes: [u8; 16],
    pub node_id: u64,
}

/// The record of an append.
#[derive(Debug, PartialEq, Eq)]
pub struct PersistedDelta {
    pub shard_id_bytes: [u8; 16],
    pub tenant_id_bytes: [u8; 16],
    /// The short code of the operation.
    pub operation: u8,
    /// The mark of an operation past `Finalize`; zero for any other.
    pub past_operation: u8,
    pub hashed_key: [u8; 32],
    pub chunk_refs: Vec<[u8; 32]>,
    pub payload: Vec<u8>,
    pub has_inline_data: bool,
    pub hlc_physical_ms: u64,
    pub hlc_logical: u32,
    pub hlc_node_id: u64,
    pub wall_millis: u64,
    pub wall_timezone: String,
    pub clock_quality: u8,
}

/// What a [`PersistedDelta`] holds.
#[verifier::ext_equal]
pub struct PersistedView {
    pub shard_id_bytes: [u8; 16],
    pub tenant_id_bytes: [u8; 16],
    pub operation: u8,
    pub past_operation: u8,
    pub hashed_key: [u8; 32],
    pub chunk_refs: Seq<[u8; 32]>,
    pub payload: Seq<u8>,
    pub has_inline_data: bool,
    pub hlc_physical_ms: u64,
    pub hlc_logical: u32,
    pub hlc_node_id: u64,
    pub wall_millis: u64,
    pub wall_timezone: Seq<char>,
    pub clock_quality: u8,
}

impl View for PersistedDelta {
    type V = PersistedView;

    open spec fn view(&self) -> PersistedView {
        PersistedView {
            shard_id_bytes: self.shard_id_bytes,
            tenant_id_bytes: self.tenant_id_bytes,
            operation: self.operation,
            past_operation: self.past_operation,
            hashed_key: self.hashed_key,
            chunk_refs: self.chunk_refs@,
            payload: self.payload@,
            has_inline_data: self.has_inline_data,
            hlc_physical_ms: self.hlc_physical_ms,
            hlc_logical: self.hlc_logical,
            hlc_node_id: self.hlc_node_id,
            wall_millis: self.wall_millis,
            wall_timezone: self.wall_timezone@,
            clock_quality: self.clock_quality,
        }
    }
}

/// What a list of records holds.
pub open spec fn persisted_views(s: Seq<PersistedDelta>) -> Seq<PersistedView> {
    Seq::new(s.len(), |i: int| s[i]@)
}

/// The code of a clock quality in a record.
pub open spec fn stored_quality(q: ClockQuality) -> u8 {
    match q {
        ClockQuality::Ntp => 0,
        ClockQuality::Ptp => 1,
        ClockQuality::Gps => 2,
        ClockQuality::Unsync => 3,
    }
}

/// The clock quality of a code in a record.
pub open spec fn quality_of_stored(code: u8) -> ClockQuality {
    if code == 1 {
        ClockQuality::Ptp
    } else if code == 2 {
        ClockQuality::Gps
    } else if code == 3 {
        ClockQuality::Unsync
    } else {
        ClockQuality::Ntp
    }
}

/// The shard of a record.
pub open spec fn record_shard(p: PersistedView) -> ShardId {
    ShardId(tenant_of(p.shard_id_bytes).0)
}

/// Whether a record is that of a request.
pub open spec fn records(p: PersistedView, req: AppendView) -> bool {
    &&& record_shard(p) == req.shard_id
    &&& tenant_of(p.tenant_id_bytes) == req.tenant_id
    &&& p.operation == short_code(req.operation)
    &&& p.past_operation == past_code(req.operation)
    &&& p.hashed_key == req.hashed_key
    &&& chunk_ids(p.chunk_refs) == req.chunk_refs
    &&& p.payload == req.payload
    &&& p.has_inline_data == req.has_inline_data
    &&& p.hlc_physical_ms == req.timestamp.hlc.physical_ms
    &&& p.hlc_logical == req.timestamp.hlc.logical
    &&& p.hlc_node_id == req.timestamp.hlc.node_id.0
    &&& p.wall_millis == req.timestamp.millis
    &&& p.wall_timezone == req.timestamp.timezone
    &&& p.clock_quality == stored_quality(req.timestamp.quality)
}

/// The request that a record replays as.
pub open spec fn replayed_as(p: PersistedView) -> AppendView {
    AppendView {
        shard_id: record_shard(p),
        tenant_id: tenant_of(p.tenant_id_bytes),
        operation: op_of_short(p.operation, p.past_operation),
        timestamp: TimestampView {
            hlc: HybridLogicalClock {
                physical_ms: p.hlc_physical_ms,
                logical: p.hlc_logical,
                node_id: NodeId(p.hlc_node_id),
            },
            millis: p.wall_millis,
            timezone: p.wall_timezone,
            quality: quality_of_stored(p.clock_quality),
        },
        hashed_key: p.hashed_key,
        chunk_refs: chunk_ids(p.chunk_refs),
        payload: p.payload,
        has_inline_data: p.has_inline_data,
    }
}

impl PersistedDelta {
    /// The record of a request.
    pub fn of_request(req: &AppendDeltaRequest) -> (r: Self)
        ensures
            records(r@, req@),
    {
        let shard = uuid_to_bytes(req.shard_id.0);
        let tenant = uuid_to_bytes(req.tenant_id.0);
        let refs = to_raw_keys(&req.chunk_refs);
        let (code, past) = shorten_op(req.operation);
        proof {
            lemma_tenant_bytes(req.shard_id.0, shard);
            lemma_tenant_bytes(req.tenant_id.0, tenant);
            assert(chunk_ids(refs@) =~= req.chunk_refs@);
        }
        PersistedDelta {
            shard_id_bytes: shard,
            tenant_id_bytes: tenant,
            operation: code,
            past_operation: past,
            hashed_key: req.hashed_key,
            chunk_refs: refs,
            payload: copy_bytes(&req.payload),
            has_inline_data: req.has_inline_data,
            hlc_physical_ms: req.timestamp.hlc.physical_ms,
            hlc_logical: req.timestamp.hlc.logical,
            hlc_node_id: req.timestamp.hlc.node_id.0,
            wall_millis: req.timestamp.wall.millis_since_epoch,
            wall_timezone: req.timestamp.wall.timezone.clone(),
            clock_quality: match req.timestamp.quality {
                ClockQuality::Ntp => 0,
                ClockQuality::Ptp => 1,
                ClockQuality::Gps => 2,
                ClockQuality::Unsync => 3,
            },
        }
    }

    /// The shard of this record.
    pub fn shard_id(&self) -> (r: ShardId)
        ensures
            r == record_shard(self@),
    {
        ShardId(uuid_from_bytes(self.shard_id_bytes))
    }

    /// The request that this record replays as.
    pub fn to_request(&self) -> (r: AppendDeltaRequest)
        ensures
            r@ == replayed_as(self@),
    {
        let r = AppendDeltaRequest {
            shard_id: self.shard_id(),
            tenant_id: OrgId(uuid_from_bytes(self.tenant_id_bytes)),
            operation: read_short_op(self.operation, self.past_operation),
            timestamp: DeltaTimestamp {
                hlc: HybridLogicalClock {
                    physical_ms: self.hlc_physical_ms,
                    logical: self.hlc_logical,
                    node_id: NodeId(self.hlc_node_id),
                },
                wall: WallTime {
                    millis_since_epoch: self.wall_millis,
                    timezone: self.wall_timezone.clone(),
                },
                quality: match self.clock_quality {
                    1 => ClockQuality::Ptp,
                    2 => ClockQuality::Gps,
                    3 => ClockQuality::Unsync,
                    _ => ClockQuality::Ntp,
                },
            },
            hashed_key: self.hashed_key,
            chunk_refs: to_chunk_ids(&self.chunk_refs),
            payload: copy_bytes(&self.payload),
            has_inline_data: self.has_inline_data,
        };
        assert(r@ =~= replayed_as(self@));
        r
    }
}

/// The shards once those of a list of records are created: each at its first
/// record, for the tenant of that record, on node one.
pub open spec fn shards_created(
    shards: Map<ShardId, ShardModel>,
    s: Seq<PersistedView>,
) -> Map<ShardId, ShardModel>
    decreases s.len(),
{
    if s.len() == 0 {
        shards
    } else {
        let front = shards_created(shards, s.drop_last());
        let id = record_shard(s.last());
        if shard_seen(s.drop_last(), id) {
            front
        } else {
            front.insert(
                id,
                fresh_shard(id, tenant_of(s.last().tenant_id_bytes), NodeId(1), default_config()),
            )
        }
    }
}

/// Whether a record of a list is of this shard.
pub open spec fn shard_seen(s: Seq<PersistedView>, id: ShardId) -> bool {
    exists|i: int| 0 <= i < s.len() && record_shard(#[trigger] s[i]) == id
}

/// The shards of a list of records.
pub open spec fn shards_seen(s: Seq<PersistedView>) -> Set<ShardId> {
    Set::new(|id: ShardId| shard_seen(s, id))
}

/// The shards after a list of records is replayed, each with its timestamp: one
/// that is refused leaves no trace.
pub open spec fn replayed(
    shards: Map<ShardId, ShardModel>,
    s: Seq<PersistedView>,
    stamps: Seq<TimestampView>,
) -> Map<ShardId, ShardModel>
    decreases s.len(),
{
    if s.len() == 0 {
        shards
    } else {
        let front = replayed(shards, s.drop_last(), stamps.drop_last());
        let req = replayed_as(s.last());
        if append_refusal(front, req) is None {
            front.insert(
                req.shard_id,
                shard_appended(front[req.shard_id], req, stamps.last()),
            )
        } else {
            front
        }
    }
}

/// The requests that a list of records replays as.
pub open spec fn replay_requests(s: Seq<PersistedView>) -> Seq<AppendView> {
    Seq::new(s.len(), |i: int| replayed_as(s[i]))
}

/// The timestamps of a list of records.
pub open spec fn recorded_stamps(s: Seq<PersistedView>) -> Seq<TimestampView> {
    Seq::new(s.len(), |i: int| replayed_as(s[i]).timestamp)
}

/// Created shards are fresh, and every shard of a record is there.
proof fn lemma_created(shards: Map<ShardId, ShardModel>, s: Seq<PersistedView>)
    ensures
        forall|id: ShardId|
            shard_seen(s, id) ==> #[trigger] shards_created(shards, s).contains_key(id)
                && shards_created(shards, s)[id].info.tip == 0 && shards_created(
                shards,
                s,
            )[id].info.delta_count == 0 && shards_created(shards, s)[id].info.byte_size == 0
                && shards_created(shards, s)[id].log_len == 0,
    decreases s.len(),
{
    if s.len() > 0 {
        let f = s.drop_last();
        lemma_created(shards, f);
        assert forall|id: ShardId| shard_seen(s, id) implies #[trigger] shards_created(
            shards,
            s,
        ).contains_key(id) && shards_created(shards, s)[id].info.tip == 0 && shards_created(
            shards,
            s,
        )[id].info.delta_count == 0 && shards_created(shards, s)[id].info.byte_size == 0
            && shards_created(shards, s)[id].log_len == 0 by {
            if id != record_shard(s.last()) {
                let i = choose|i: int| 0 <= i < s.len() && record_shard(#[trigger] s[i]) == id;
                assert(f[i] == s[i]);
                assert(shard_seen(f, id));
                assert(shards_created(shards, f).contains_key(id));
            } else {
                if shard_seen(f, id) {
                    assert(shards_created(shards, f).contains_key(id));
                }
            }
        }
    }
}

/// Whether the counters of a shard are those of at most the appends of a list.
spec fn at_most(m: ShardModel, reqs: Seq<AppendView>) -> bool {
    &&& m.info.tip <= reqs.len()
    &&& m.info.delta_count <= reqs.len()
    &&& m.info.byte_size <= total_cost(reqs)
    &&& m.log_len <= reqs.len()
}

/// Whether a shard of a list of records exists, with at most the appends of the
/// first `n` records.
spec fn has_room_for_seen(
    shards: Map<ShardId, ShardModel>,
    s: Seq<PersistedView>,
    n: int,
    id: ShardId,
) -> bool {
    shard_seen(s, id) ==> shards.contains_key(id) && at_most(
        shards[id],
        replay_requests(s).take(n),
    )
}

/// A backend in memory that leaves durable records.
pub struct PersistentShardStore<L: LogOps> {
    /// The backend in memory.
    pub mem: L,
}

impl<L: LogOps> PersistentShardStore<L> {
    /// A store over a backend, which is to be restored from its records.
    pub fn new(mem: L) -> (r: Self)
        ensures
            r.mem == mem,
    {
        PersistentShardStore { mem }
    }

    /// Creates a shard; returns the key and the value of its record.
    pub fn create_shard(
        &mut self,
        shard_id: ShardId,
        tenant_id: OrgId,
        node_id: NodeId,
        config: ShardConfig,
    ) -> (r: (String, ShardMeta))
        requires
            old(self).mem.ready(),
        ensures
            final(self).mem.ready(),
            final(self).mem.reliable() == old(self).mem.reliable(),
            final(self).mem.shards() == old(self).mem.shards().insert(
                shard_id,
                fresh_shard(shard_id, tenant_id, node_id, config),
            ),
            r.0@ == "shard:"@ + uuid_text(shard_id.0),
            tenant_of(r.1.shard_id_bytes) == OrgId(shard_id.0),
            tenant_of(r.1.tenant_id_bytes) == tenant_id,
            r.1.node_id == node_id.0,
    {
        self.mem.create_shard(shard_id, tenant_id, node_id, config);
        let shard = uuid_to_bytes(shard_id.0);
        let tenant = uuid_to_bytes(tenant_id.0);
        proof {
            lemma_tenant_bytes(shard_id.0, shard);
            lemma_tenant_bytes(tenant_id.0, tenant);
        }
        let text = uuid_to_string(shard_id.0);
        (
            join2("shard:", text.as_str()),
            ShardMeta {
                shard_id_bytes: shard,
                tenant_id_bytes: tenant,
                node_id: node_id.0,
            },
        )
    }

    /// Appends a delta; returns its number and the record to keep under it.
    pub fn append_delta(&mut self, req: AppendDeltaRequest) -> (r: Result<
        (SequenceNumber, PersistedDelta),
        LogError,
    >)
        requires
            old(self).mem.ready(),
            old(self).mem.shards().contains_key(req@.shard_id) ==> shard_has_room(
                old(self).mem.shards()[req@.shard_id],
                1,
                payload_cost(req@.payload.len()),
            ),
        ensures
            final(self).mem.ready(),
            final(self).mem.reliable() == old(self).mem.reliable(),
            r is Err ==> final(self).mem.shards() == old(self).mem.shards(),
            match append_refusal(old(self).mem.shards(), req@) {
                Some(e) => r == Err::<(SequenceNumber, PersistedDelta), LogError>(e),
                None => {
                    let m = old(self).mem.shards()[req@.shard_id];
                    &&& old(self).mem.reliable() ==> r is Ok
                    &&& r matches Ok(v) ==> {
                        &&& v.0.0 == m.info.tip + 1
                        &&& records(v.1@, req@)
                        &&& final(self).mem.shards() == old(self).mem.shards().insert(
                            req@.shard_id,
                            shard_appended(m, req@, old(self).mem.stamp(req@)),
                        )
                    }
                },
            },
    {
        let record = PersistedDelta::of_request(&req);
        match self.mem.append_delta(req) {
            Ok(seq) => Ok((seq, record)),
            Err(e) => Err(e),
        }
    }

    /// Creates the shards of a list of records; returns how many.
    fn create_seen(&mut self, entries: &Vec<PersistedDelta>) -> (r: usize)
        requires
            old(self).mem.ready(),
        ensures
            final(self).mem.ready(),
            final(self).mem.reliable() == old(self).mem.reliable(),
            final(self).mem.shards() == shards_created(
                old(self).mem.shards(),
                persisted_views(entries@),
            ),
            r == shards_seen(persisted_views(entries@)).len(),
    {
        let ghost s0 = self.mem.shards();
        let ghost sound = self.mem.reliable();
        let ghost views = persisted_views(entries@);
        let mut seen: OrderedMap<ShardId, ()> = OrderedMap::new();
        let mut i: usize = 0;
        assert(views.take(0) =~= Seq::<PersistedView>::empty());
        while i < entries.len()
            invariant
                i <= entries@.len(),
                views == persisted_views(entries@),
                self.mem.ready(),
                self.mem.reliable() == sound,
                s0 == old(self).mem.shards(),
                sound == old(self).mem.reliable(),
                seen.wf(),
                forall|id: ShardId| #[trigger]
                    seen@.contains_key(id) == shard_seen(views.take(i as int), id),
                self.mem.shards() == shards_created(s0, views.take(i as int)),
            decreases entries@.len() - i,
        {
            let e = &entries[i];
            let id = e.shard_id();
            let ghost t = views.take(i as int);
            let ghost u = views.take(i + 1);
            let ghost before = seen@;
            proof {
                assert(u.drop_last() =~= t);
                assert(u.last() == e@);
                assert(before.contains_key(id) == shard_seen(t, id));
            }
            if !seen.contains(&id) {
                self.mem.create_shard(
                    id,
                    OrgId(uuid_from_bytes(e.tenant_id_bytes)),
                    NodeId(1),
                    ShardConfig::default(),
                );
                seen.insert(id, ());
            }
            proof {
                assert forall|x: ShardId| #[trigger] seen@.contains_key(x) == shard_seen(u, x) by {
                    assert(before.contains_key(x) == shard_seen(t, x));
                    if shard_seen(t, x) {
                        let j = choose|j: int|
                            0 <= j < t.len() && record_shard(#[trigger] t[j]) == x;
                        assert(u[j] == t[j]);
                    }
                    if x == id {
                        assert(record_shard(u[i as int]) == id);
                    }
                    if shard_seen(u, x) && x != id {
                        let j = choose|j: int|
                            0 <= j < u.len() && record_shard(#[trigger] u[j]) == x;
                        assert(t[j] == u[j]);
                    }
                }
            }
            i = i + 1;
        }
        proof {
            assert(views.take(i as int) =~= views);
            assert(seen@.dom() =~= shards_seen(views));
        }
        seen.len()
    }

    /// Restores the store from its records: creates their shards and replays them
    /// in order. Returns how many shards there are.
    pub fn reload(&mut self, entries: &Vec<PersistedDelta>) -> (r: usize)
        requires
            old(self).mem.ready(),
            total_cost(replay_requests(persisted_views(entries@))) <= u64::MAX,
        ensures
            final(self).mem.ready(),
            final(self).mem.reliable() == old(self).mem.reliable(),
            r == shards_seen(persisted_views(entries@)).len(),
            old(self).mem.reliable() ==> exists|stamps: Seq<TimestampView>|
                stamps.len() == entries@.len() && final(self).mem.shards() == #[trigger] replayed(
                    shards_created(old(self).mem.shards(), persisted_views(entries@)),
                    persisted_views(entries@),
                    stamps,
                ) && (L::keeps_timestamps() ==> stamps == recorded_stamps(
                    persisted_views(entries@),
                )),
    {
        let ghost sound = self.mem.reliable();
        let ghost views = persisted_views(entries@);
        let ghost reqs = replay_requests(views);
        let ghost start = shards_created(self.mem.shards(), views);
        let count: usize = self.create_seen(entries);
        let ghost mut stamps: Seq<TimestampView> = Seq::empty();
        let mut i: usize = 0;
        proof {
            assert(views.take(0) =~= Seq::<PersistedView>::empty());
            assert(reqs.take(0) =~= Seq::<AppendView>::empty());
            lemma_created(old(self).mem.shards(), views);
            assert forall|id: ShardId| #[trigger]
                has_room_for_seen(self.mem.shards(), views, 0, id) by {
                if shard_seen(views, id) {
                    assert(start.contains_key(id));
                }
            }
        }
        while i < entries.len()
            invariant
                i <= entries@.len(),
                total_cost(reqs) <= u64::MAX,
                reqs == replay_requests(views),
                views == persisted_views(entries@),
                self.mem.ready(),
                self.mem.reliable() == sound,
                sound == old(self).mem.reliable(),
                start == shards_created(old(self).mem.shards(), views),
                forall|id: ShardId| #[trigger]
                    has_room_for_seen(self.mem.shards(), views, i as int, id),
                stamps.len() == i,
                L::keeps_timestamps() ==> stamps == recorded_stamps(views.take(i as int)),
                sound ==> self.mem.shards() == replayed(start, views.take(i as int), stamps),
            decreases entries@.len() - i,
        {
            let req = entries[i].to_request();
            let ghost t = views.take(i as int);
            let ghost u = views.take(i + 1);
            let ghost before = self.mem.shards();
            let ghost stamp = self.mem.stamp(req@);
            proof {
                assert(u.drop_last() =~= t);
                assert(u.last() == entries@[i as int]@);
                assert(record_shard(views[i as int]) == req@.shard_id);
                assert(shard_seen(views, req@.shard_id));
                assert(has_room_for_seen(before, views, i as int, req@.shard_id));
                lemma_total_cost_least(reqs);
                lemma_total_cost_prefix(reqs, i + 1);
                assert(reqs.take(i + 1).drop_last() =~= reqs.take(i as int));
                assert(reqs.take(i + 1).last() == req@);
            }
            match self.mem.append_delta(req) {
                Ok(_) => {},
                // A record that is refused is skipped.
                Err(_) => {},
            }
            proof {
                assert(stamps.push(stamp).drop_last() =~= stamps);
                stamps = stamps.push(stamp);
                if L::keeps_timestamps() {
                    assert(stamps =~= recorded_stamps(u));
                }
                assert forall|id: ShardId| #[trigger]
                    has_room_for_seen(self.mem.shards(), views, i + 1, id) by {
                    assert(has_room_for_seen(before, views, i as int, id));
                }
            }
            i = i + 1;
        }
        assert(views.take(i as int) =~= views);
        count
    }
}

/// Law: a request survives a restart in its record: it is replayed as it was.
pub proof fn recorded_request_survives(p: PersistedView, req: AppendView)
    requires
        records(p, req),
    ensures
        replayed_as(p) == req,
{
    short_code_round_trip(req.operation);
    assert(replayed_as(p) =~= req);
}

/// The timestamps that a list of requests asks for.
pub open spec fn asked_stamps(reqs: Seq<AppendView>) -> Seq<TimestampView> {
    Seq::new(reqs.len(), |i: int| reqs[i].timestamp)
}

/// The deltas that the requests of a list to one shard become, in order, numbered
/// from one, each with its timestamp.
pub open spec fn requested_of(
    reqs: Seq<AppendView>,
    stamps: Seq<TimestampView>,
    id: ShardId,
) -> Seq<DeltaView>
    decreases reqs.len(),
{
    if reqs.len() == 0 {
        Seq::empty()
    } else {
        let front = requested_of(reqs.drop_last(), stamps.drop_last(), id);
        if reqs.last().shard_id == id {
            front.push(requested_delta(reqs.last(), (front.len() + 1) as u64, stamps.last()))
        } else {
            front
        }
    }
}

/// Whether a shard is fresh but for its deltas, which are numbered from one.
spec fn filled(m: ShardModel, deltas: Seq<DeltaView>) -> bool {
    &&& m.deltas == deltas
    &&& m.info.tip == deltas.len()
    &&& m.info.state == ShardState::Healthy
    &&& m.info.range_start == lowest_key()
    &&& m.info.range_end == highest_key()
}

/// Created shards hold nothing and take every key.
proof fn lemma_created_empty(shards: Map<ShardId, ShardModel>, s: Seq<PersistedView>, id: ShardId)
    requires
        shard_seen(s, id),
    ensures
        shards_created(shards, s).contains_key(id),
        filled(shards_created(shards, s)[id], Seq::empty()),
    decreases s.len(),
{
    let f = s.drop_last();
    let i = choose|i: int| 0 <= i < s.len() && record_shard(#[trigger] s[i]) == id;
    if shard_seen(f, id) {
        lemma_created_empty(shards, f, id);
    } else {
        if i < f.len() {
            assert(record_shard(f[i]) == id);
        }
        assert(id == record_shard(s.last()));
    }
}

/// A replay fills a shard with the deltas of the requests to it.
proof fn lemma_replay_fills(
    shards: Map<ShardId, ShardModel>,
    s: Seq<PersistedView>,
    reqs: Seq<AppendView>,
    stamps: Seq<TimestampView>,
    id: ShardId,
)
    requires
        s.len() == reqs.len(),
        s.len() == stamps.len(),
        s.len() <= u64::MAX,
        forall|i: int| 0 <= i < s.len() ==> records(#[trigger] s[i], reqs[i]),
        forall|i: int|
            0 <= i < reqs.len() ==> key_between(
                (#[trigger] reqs[i]).hashed_key,
                lowest_key(),
                highest_key(),
            ),
        shards.contains_key(id),
        filled(shards[id], Seq::empty()),
    ensures
        replayed(shards, s, stamps).contains_key(id),
        filled(replayed(shards, s, stamps)[id], requested_of(reqs, stamps, id)),
        requested_of(reqs, stamps, id).len() <= s.len(),
    decreases s.len(),
{
    if s.len() > 0 {
        let f = s.drop_last();
        let front = replayed(shards, f, stamps.drop_last());
        assert forall|i: int| 0 <= i < f.len() implies records(
            #[trigger] f[i],
            reqs.drop_last()[i],
        ) by {
            assert(f[i] == s[i]);
        }
        lemma_replay_fills(shards, f, reqs.drop_last(), stamps.drop_last(), id);
        let n = s.len() - 1;
        assert(records(s[n], reqs[n]));
        recorded_request_survives(s[n], reqs[n]);
        if reqs[n].shard_id == id {
            assert(append_refusal(front, reqs[n]) is None);
        }
    }
}

/// Law: a restart restores every shard as it was written: from the records of a
/// list of requests, each shard of a record holds the requested deltas of that
/// shard, in order and numbered from one; over a backend that keeps timestamps,
/// each with the timestamp that was asked for.
pub proof fn restart_restores_every_delta(
    shards: Map<ShardId, ShardModel>,
    s: Seq<PersistedView>,
    reqs: Seq<AppendView>,
    stamps: Seq<TimestampView>,
    id: ShardId,
)
    requires
        s.len() == reqs.len(),
        s.len() == stamps.len(),
        total_cost(reqs) <= u64::MAX,
        forall|i: int| 0 <= i < s.len() ==> records(#[trigger] s[i], reqs[i]),
        forall|i: int|
            0 <= i < reqs.len() ==> key_between(
                (#[trigger] reqs[i]).hashed_key,
                lowest_key(),
                highest_key(),
            ),
        shard_seen(s, id),
    ensures
        replay_requests(s) == reqs,
        recorded_stamps(s) == asked_stamps(reqs),
        ({
            let after = replayed(shards_created(shards, s), s, stamps);
            &&& after.contains_key(id)
            &&& after[id].deltas == requested_of(reqs, stamps, id)
            &&& after[id].info.tip == after[id].deltas.len()
        }),
{
    assert forall|i: int| 0 <= i < s.len() implies replayed_as(#[trigger] s[i]) == reqs[i] by {
        recorded_request_survives(s[i], reqs[i]);
    }
    assert(replay_requests(s) =~= reqs);
    assert(recorded_stamps(s) =~= asked_stamps(reqs));
    lemma_total_cost_least(reqs);
    lemma_created_empty(shards, s, id);
    lemma_replay_fills(shards_created(shards, s), s, reqs, stamps, id);
}

} // verus!
