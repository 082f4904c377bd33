//! Shards: lifecycle state, thresholds and metadata.

use vstd::prelude::*;

use crate::error::LogError;
use crate::ids::{NodeId, OrgId, SequenceNumber, ShardId};

verus! {

/// Lifecycle state of a shard.
///
/// A healthy shard splits or merges; a splitting shard becomes healthy again; a
/// merging shard becomes healthy (the output) or retiring (an input). A shard
/// that is splitting or merging rejects the other operation as busy.
#[derive(Clone, Copy, Debug, PartialEq, Eq, Hash, Structural)]
pub enum ShardState {
    /// Replicas healthy, leader elected.
    Healthy,
    /// Leader election in progress.
    Election,
    /// Quorum lost.
    QuorumLost,
    /// Split in progress; writes accepted.
    Splitting,
    /// Merge in progress; writes accepted during the copy phase.
    Merging,
    /// Input of a finished merge; reads only, until it is torn down.
    Retiring,
    /// Maintenance mode; writes rejected.
    Maintenance,
}

/// The code of a lifecycle state in commands.
pub open spec fn state_code(s: ShardState) -> u8 {
    match s {
        ShardState::Healthy => 0,
        ShardState::Election => 1,
        ShardState::QuorumLost => 2,
        ShardState::Splitting => 3,
        ShardState::Merging => 4,
        ShardState::Retiring => 5,
        ShardState::Maintenance => 6,
    }
}

/// The lifecycle state of a code; other codes name none.
pub open spec fn state_of_code(v: u8) -> Option<ShardState> {
    if v == 0 {
        Some(ShardState::Healthy)
    } else if v == 1 {
        Some(ShardState::Election)
    } else if v == 2 {
        Some(ShardState::QuorumLost)
    } else if v == 3 {
        Some(ShardState::Splitting)
    } else if v == 4 {
        Some(ShardState::Merging)
    } else if v == 5 {
        Some(ShardState::Retiring)
    } else if v == 6 {
        Some(ShardState::Maintenance)
    } else {
        None
    }
}

/// Whether a state accepts writes.
pub open spec fn writable(s: ShardState) -> bool {
    s == ShardState::Healthy || s == ShardState::Splitting || s == ShardState::Merging
}

/// Whether a state is a lifecycle operation in progress.
pub open spec fn busy(s: ShardState) -> bool {
    s == ShardState::Splitting || s == ShardState::Merging
}

impl ShardState {
    /// Whether this shard accepts writes.
    pub fn accepts_writes(self) -> (r: bool)
        ensures
            r == writable(self),
    {
        match self {
            ShardState::Healthy | ShardState::Splitting | ShardState::Merging => true,
            _ => false,
        }
    }

    /// Whether this shard is busy with a split or a merge.
    pub fn is_busy(self) -> (r: bool)
        ensures
            r == busy(self),
    {
        match self {
            ShardState::Splitting | ShardState::Merging => true,
            _ => false,
        }
    }

    /// The code of this state.
    pub fn as_u8(self) -> (r: u8)
        ensures
            r == state_code(self),
    {
        match self {
            ShardState::Healthy => 0,
            ShardState::Election => 1,
            ShardState::QuorumLost => 2,
            ShardState::Splitting => 3,
            ShardState::Merging => 4,
            ShardState::Retiring => 5,
            ShardState::Maintenance => 6,
        }
    }

    /// The state of a code.
    pub fn from_u8(v: u8) -> (r: Option<ShardState>)
        ensures
            r == state_of_code(v),
    {
        match v {
            0 => Some(ShardState::Healthy),
            1 => Some(ShardState::Election),
            2 => Some(ShardState::QuorumLost),
            3 => Some(ShardState::Splitting),
            4 => Some(ShardState::Merging),
            5 => Some(ShardState::Retiring),
            6 => Some(ShardState::Maintenance),
            _ => None,
        }
    }
}

/// Law: a state survives being written as a code and read back, and a code that
/// names a state is that state's code.
pub proof fn state_code_round_trip(s: ShardState, v: u8)
    ensures
        state_of_code(state_code(s)) == Some(s),
        state_of_code(v) is Some ==> state_code(state_of_code(v)->0) == v,
        state_of_code(v) is None <==> v > 6,
{
}

/// What keeps a busy shard busy.
pub open spec fn busy_reason(state: ShardState) -> &'static str {
    if state == ShardState::Merging {
        "merge in progress"
    } else {
        "split in progress"
    }
}

/// The error for a busy shard.
pub(crate) fn busy_error(shard_id: ShardId, state: ShardState) -> (r: LogError)
    ensures
        r == (LogError::ShardBusy { shard_id, reason: busy_reason(state) }),
{
    let reason = match state {
        ShardState::Merging => "merge in progress",
        _ => "split in progress",
    };
    LogError::ShardBusy { shard_id, reason }
}

/// Law: a shard that is busy with a lifecycle operation still accepts writes.
pub proof fn busy_shard_accepts_writes(s: ShardState)
    ensures
        busy(s) ==> writable(s),
{
}

/// Split thresholds and inline-data bounds.
#[derive(Clone, Copy, Debug, PartialEq, Eq, Structural)]
pub struct ShardConfig {
    /// Number of deltas that forces a split.
    pub max_delta_count: u64,
    /// Total size in bytes that forces a split.
    pub max_byte_size: u64,
    /// Payloads up to this size are stored inline.
    pub inline_threshold_bytes: u64,
    /// Lower bound of the inline threshold.
    pub inline_floor_bytes: u64,
    /// Upper bound of the inline threshold.
    pub inline_ceiling_bytes: u64,
}

/// The configuration of a fresh shard.
pub open spec fn default_config() -> ShardConfig {
    ShardConfig {
        max_delta_count: 10_000_000,
        max_byte_size: 10_737_418_240,
        inline_threshold_bytes: 4096,
        inline_floor_bytes: 128,
        inline_ceiling_bytes: 65536,
    }
}

impl Default for ShardConfig {
    fn default() -> (r: Self)
        ensures
            r == default_config(),
    {
        ShardConfig {
            max_delta_count: 10_000_000,
            max_byte_size: 10_737_418_240,
            inline_threshold_bytes: 4096,
            inline_floor_bytes: 128,
            inline_ceiling_bytes: 65536,
        }
    }
}

/// Shard metadata.
#[derive(Debug, PartialEq, Eq)]
pub struct ShardInfo {
    /// The shard.
    pub shard_id: ShardId,
    /// The owning tenant.
    pub tenant_id: OrgId,
    /// Members of the replication group.
    pub raft_members: Vec<NodeId>,
    /// The leader, where one is elected.
    pub leader: Option<NodeId>,
    /// Highest committed sequence number.
    pub tip: SequenceNumber,
    /// Number of committed deltas.
    pub delta_count: u64,
    /// Total size of committed deltas in bytes.
    pub byte_size: u64,
    /// Lifecycle state.
    pub state: ShardState,
    /// Thresholds.
    pub config: ShardConfig,
    /// Lower bound of the key range, inclusive.
    pub range_start: [u8; 32],
    /// Upper bound of the key range, exclusive.
    pub range_end: [u8; 32],
}

/// What a [`ShardInfo`] holds.
#[verifier::ext_equal]
pub struct ShardInfoView {
    pub shard_id: ShardId,
    pub tenant_id: OrgId,
    pub raft_members: Seq<NodeId>,
    pub leader: Option<NodeId>,
    pub tip: u64,
    pub delta_count: u64,
    pub byte_size: u64,
    pub state: ShardState,
    pub config: ShardConfig,
    pub range_start: [u8; 32],
    pub range_end: [u8; 32],
}

impl View for ShardInfo {
    type V = ShardInfoView;

    open spec fn view(&self) -> ShardInfoView {
        ShardInfoView {
            shard_id: self.shard_id,
            tenant_id: self.tenant_id,
            raft_members: self.raft_members@,
            leader: self.leader,
            tip: self.tip.0,
            delta_count: self.delta_count,
            byte_size: self.byte_size,
            state: self.state,
            config: self.config,
            range_start: self.range_start,
            range_end: self.range_end,
        }
    }
}

impl Clone for ShardInfo {
    fn clone(&self) -> (r: Self)
        ensures
            r@ == self@,
    {
        let mut members: Vec<NodeId> = Vec::new();
        let mut i: usize = 0;
        while i < self.raft_members.len()
            invariant
                i <= self.raft_members@.len(),
                members@ == self.raft_members@.take(i as int),
            decreases self.raft_members@.len() - i,
        {
            members.push(self.raft_members[i]);
            i = i + 1;
            assert(members@ =~= self.raft_members@.take(i as int));
        }
        assert(members@ =~= self.raft_members@);
        ShardInfo {
            shard_id: self.shard_id,
            tenant_id: self.tenant_id,
            raft_members: members,
            leader: self.leader,
            tip: self.tip,
            delta_count: self.delta_count,
            byte_size: self.byte_size,
            state: self.state,
            config: self.config,
            range_start: self.range_start,
            range_end: self.range_end,
        }
    }
}

} // verus!
