//! A log backend in memory, without a command log: deltas keep the timestamps of
//! their requests.

use vstd::prelude::*;

use crate::delta::delta_views;
use crate::raft::state_machine::truncated_size;
use crate::delta::{Delta, DeltaHeader, DeltaPayload, OperationType};
use crate::error::LogError;
use crate::ids::{NodeId, OrgId, SequenceNumber, ShardId};
use crate::ordered_map::OrderedMap;
use crate::raft_store::pick_numbered;
use crate::shard::{ShardConfig, ShardInfo, ShardState};
use crate::time::TimestampView;
use crate::traits::{
    fresh_shard, requested_delta, shard_appended, shard_in_state, shard_maintained, shard_ranged,
    AppendView, ShardModel,
};
use crate::traits::{check_write, cost_of_payload, AppendDeltaRequest, LogOps, ReadDeltasRequest};

verus! {

/// A shard of the backend.
struct MemShard {
    info: ShardInfo,
    deltas: Vec<Delta>,
    commands: u64,
}

impl MemShard {
    spec fn model(&self) -> ShardModel {
        ShardModel {
            info: self.info@,
            deltas: delta_views(self.deltas@),
            watermarks: Seq::empty(),
            log_len: self.commands as nat,
        }
    }
}

/// A log backend in memory.
pub struct MemShardStore {
    shards: OrderedMap<ShardId, MemShard>,
}

impl MemShardStore {
    spec fn models(&self) -> Map<ShardId, ShardModel> {
        self.shards@.map_values(|c: MemShard| c.model())
    }

    /// An empty store.
    pub fn new() -> (r: Self)
        ensures
            r.ready(),
            r.shards() == Map::<ShardId, ShardModel>::empty(),
    {
        let r = MemShardStore { shards: OrderedMap::new() };
        assert(r.models() =~= Map::<ShardId, ShardModel>::empty());
        r
    }
}

impl Default for MemShardStore {
    fn default() -> (r: Self)
        ensures
            r.ready(),
            r.shards() == Map::<ShardId, ShardModel>::empty(),
    {
        MemShardStore::new()
    }
}

impl LogOps for MemShardStore {
    closed spec fn shards(&self) -> Map<ShardId, ShardModel> {
        self.models()
    }

    closed spec fn ready(&self) -> bool {
        self.shards.wf()
    }

    open spec fn reliable(&self) -> bool {
        true
    }

    open spec fn stamp(&self, req: AppendView) -> TimestampView {
        req.timestamp
    }

    open spec fn keeps_timestamps() -> bool {
        true
    }

    fn create_shard(
        &mut self,
        shard_id: ShardId,
        tenant_id: OrgId,
        node_id: NodeId,
        config: ShardConfig,
    ) {
        let ghost m0 = self.models();
        let mut members: Vec<NodeId> = Vec::new();
        members.push(node_id);
        assert(members@ =~= seq![node_id]);
        let cell = MemShard {
            info: ShardInfo {
                shard_id,
                tenant_id,
                raft_members: members,
                leader: Some(node_id),
                tip: SequenceNumber(0),
                delta_count: 0,
                byte_size: 0,
                state: ShardState::Healthy,
                config,
                range_start: [0u8; 32],
                range_end: [0xffu8; 32],
            },
            deltas: Vec::new(),
            commands: 0,
        };
        assert(cell.model() =~= fresh_shard(shard_id, tenant_id, node_id, config));
        self.shards.insert(shard_id, cell);
        assert(self.models() =~= m0.insert(
            shard_id,
            fresh_shard(shard_id, tenant_id, node_id, config),
        ));
    }

    fn append_delta(&mut self, req: AppendDeltaRequest) -> (r: Result<SequenceNumber, LogError>) {
        let ghost m0 = self.models();
        let ghost view = req@;
        let shard_id = req.shard_id;
        match self.shards.get(&shard_id) {
            None => {
                return Err(LogError::ShardNotFound(shard_id));
            },
            Some(cell) => {
                assert(m0[shard_id] == cell.model());
                match check_write(&cell.info, shard_id, &req.hashed_key) {
                    Ok(()) => {},
                    Err(e) => {
                        return Err(e);
                    },
                }
            },
        }
        let cost: u64 = cost_of_payload(req.payload.len());
        let len: u64 = req.payload.len() as u64;
        let payload_size: u32 = #[verifier::truncate] (len as u32);
        assert(payload_size == truncated_size(req.payload@.len())) by {
            assert(len as u32 == len % 0x1_0000_0000) by (bit_vector);
        }
        let mut number: u64 = 0;
        match self.shards.get_mut(&shard_id) {
            Some(cell) => {
                assert(m0[shard_id] == cell.model());
                let next: u64 = cell.info.tip.0 + 1;
                let delta = Delta {
                    header: DeltaHeader {
                        sequence: SequenceNumber(next),
                        shard_id,
                        tenant_id: req.tenant_id,
                        operation: req.operation,
                        timestamp: req.timestamp,
                        hashed_key: req.hashed_key,
                        tombstone: match req.operation {
                            OperationType::Delete => true,
                            _ => false,
                        },
                        chunk_refs: req.chunk_refs,
                        payload_size,
                        has_inline_data: req.has_inline_data,
                    },
                    payload: DeltaPayload::bare(req.payload),
                };
                assert(delta@ =~= requested_delta(view, next, view.timestamp));
                let ghost d0 = cell.deltas@;
                cell.info.tip = SequenceNumber(next);
                cell.info.delta_count = cell.info.delta_count + 1;
                cell.info.byte_size = cell.info.byte_size + cost;
                cell.deltas.push(delta);
                cell.commands = cell.commands + 1;
                number = next;
                assert(delta_views(cell.deltas@) =~= delta_views(d0).push(delta@));
            },
            None => {},
        }
        proof {
            let c = self.shards@[shard_id];
            assert(c.model() =~= shard_appended(m0[shard_id], view, view.timestamp));
            assert(self.models() =~= m0.insert(shard_id, c.model()));
        }
        Ok(SequenceNumber(number))
    }

    fn move_delta(&mut self, req: AppendDeltaRequest) -> (r: Result<SequenceNumber, LogError>) {
        self.append_delta(req)
    }

    fn read_deltas(&self, req: ReadDeltasRequest) -> (r: Result<Vec<Delta>, LogError>) {
        match self.shards.get(&req.shard_id) {
            None => Err(LogError::ShardNotFound(req.shard_id)),
            Some(cell) => {
                if req.from.0 > req.to.0 {
                    return Err(LogError::InvalidRange(req.shard_id));
                }
                Ok(pick_numbered(&cell.deltas, req.from.0, req.to.0))
            },
        }
    }

    fn has_shard(&self, shard_id: ShardId) -> (r: bool) {
        self.shards.contains(&shard_id)
    }

    fn shard_health(&self, shard_id: ShardId) -> (r: Result<ShardInfo, LogError>) {
        match self.shards.get(&shard_id) {
            None => Err(LogError::ShardNotFound(shard_id)),
            Some(cell) => Ok(cell.info.clone()),
        }
    }

    fn gc_boundary(&self, shard_id: ShardId) -> (r: Result<SequenceNumber, LogError>) {
        match self.shards.get(&shard_id) {
            None => Err(LogError::ShardNotFound(shard_id)),
            // No consumer registers with this backend.
            Some(_) => Ok(SequenceNumber(0)),
        }
    }

    fn set_maintenance(&mut self, shard_id: ShardId, enabled: bool) -> (r: Result<(), LogError>) {
        let ghost m0 = self.models();
        match self.shards.get_mut(&shard_id) {
            Some(cell) => {
                assert(m0[shard_id] == cell.model());
                cell.info.state = if enabled {
                    ShardState::Maintenance
                } else {
                    ShardState::Healthy
                };
                cell.commands = cell.commands + 1;
            },
            None => {
                return Err(LogError::ShardNotFound(shard_id));
            },
        }
        proof {
            let c = self.shards@[shard_id];
            assert(c.model() =~= shard_maintained(m0[shard_id], enabled));
            assert(self.models() =~= m0.insert(shard_id, c.model()));
        }
        Ok(())
    }

    fn update_shard_range(&mut self, shard_id: ShardId, start: [u8; 32], end: [u8; 32]) {
        let ghost m0 = self.models();
        let mut found: bool = false;
        match self.shards.get_mut(&shard_id) {
            Some(cell) => {
                found = true;
                cell.info.range_start = start;
                cell.info.range_end = end;
            },
            None => {},
        }
        proof {
            if found {
                let c = self.shards@[shard_id];
                assert(c.model() =~= shard_ranged(m0[shard_id], start, end));
                assert(self.models() =~= m0.insert(shard_id, c.model()));
            }
        }
    }

    fn set_shard_state(&mut self, shard_id: ShardId, state: ShardState) {
        let ghost m0 = self.models();
        let mut found: bool = false;
        match self.shards.get_mut(&shard_id) {
            Some(cell) => {
                found = true;
                cell.info.state = state;
            },
            None => {},
        }
        proof {
            if found {
                let c = self.shards@[shard_id];
                assert(c.model() =~= shard_in_state(m0[shard_id], state));
                assert(self.models() =~= m0.insert(shard_id, c.model()));
            }
        }
    }
}

} // verus!
