//! The log store of one shard on top of consensus: which command a request
//! becomes, what a caller is told of the outcome, and what reads give back.
//!
//! Proposing a command and waiting for it is the caller's part. Each write stands
//! here as two functions: one that makes the command or refuses the request, and
//! one that turns the outcome into the answer.

use vstd::prelude::*;

use crate::command::{
    chunk_ids, inline_views, new_chunk_views, tenant_of, DraftView, InlinePutView, NewChunkView,
};
use crate::command::{to_raw_keys, IncorporateItem, InlinePayload, LogCommand, NewChunkMeta};
use crate::committer_pipeline::lemma_tenant_bytes;
use crate::compaction_worker::{lemma_selection_len, picked_deltas, sequences};
use crate::compaction_worker::{pick_marked, SequenceKey};
use crate::ordered_map::{OrderedKey, OrderedMap};
use crate::delta::{delta_views, op_code, op_code_round_trip, DeltaView, PayloadView};
use crate::delta::{op_to_u8, Delta, OperationType};
use crate::error::LogError;
use crate::ids::uuid_text;
use crate::ids::{uuid_to_bytes, uuid_to_string, ChunkId, ChunkKey, NodeId, OrgId, SequenceNumber, ShardId};
use crate::inline_store::derive_inline_key;
use crate::inline_store::inline_key;
use crate::raft::laws::in_order;
use crate::raft::state_machine::{
    applied, draft, has_room, inline_keys_of, inline_puts, key_views, response, SmView,
};
use crate::raft::state_machine::{now_ms, ClusterChunkStateEntry, ShardSmInner};
use crate::raft::types::LogResponse;
use crate::raft_store::{boundary_of, from_boundary, shard_compacted, survivors};
use crate::raft_store::{key_in_range, mark_survivors, pick_numbered};
use crate::settings::{positive_u64_or, positive_usize_or};
use crate::settings::{positive_or, text_of};
use crate::shard::{state_code, ShardInfoView};
use crate::shard::{ShardConfig, ShardInfo, ShardState};
use crate::sort::selection;
use crate::text::{contains_text, join2, join3};
use crate::text::text_contains;
use crate::time::TimestampView;
use crate::traits::{lemma_numbered_concat, lemma_numbered_none};
use crate::traits::{key_between, numbered, AppendView};
use crate::traits::{AppendDeltaRequest, ReadDeltasRequest};

verus! {

/// Why consensus did not take a command.
#[derive(Clone, Copy, Debug, PartialEq, Eq, Structural)]
pub enum WriteFailure {
    /// This replica is not the leader; the leader, where it is known.
    ForwardToLeader { leader: Option<u64> },
    /// Anything else.
    Other,
}

/// The error for a failed write, with the leader where it is known.
pub open spec fn forwarding_error(err: WriteFailure, shard_id: ShardId) -> LogError {
    match err {
        WriteFailure::ForwardToLeader { leader: Some(n) } => LogError::ForwardToLeader {
            shard_id,
            leader_node_id: NodeId(n),
        },
        WriteFailure::ForwardToLeader { leader: None } => LogError::LeaderUnavailable(shard_id),
        WriteFailure::Other => LogError::Unavailable,
    }
}

/// The error for a failed write, for callers that do not follow the leader.
pub open spec fn plain_error(err: WriteFailure, shard_id: ShardId) -> LogError {
    match err {
        WriteFailure::ForwardToLeader { leader: _ } => LogError::LeaderUnavailable(shard_id),
        WriteFailure::Other => LogError::Unavailable,
    }
}

/// The error for a failed write, with the leader where it is known.
pub fn map_raft_error_with_forwarding(err: WriteFailure, shard_id: ShardId) -> (r: LogError)
    ensures
        r == forwarding_error(err, shard_id),
{
    match err {
        WriteFailure::ForwardToLeader { leader } => match leader {
            Some(n) => LogError::ForwardToLeader { shard_id, leader_node_id: NodeId(n) },
            None => LogError::LeaderUnavailable(shard_id),
        },
        WriteFailure::Other => LogError::Unavailable,
    }
}

/// The error for a failed write, for callers that do not follow the leader.
pub fn map_raft_error(err: WriteFailure, shard_id: ShardId) -> (r: LogError)
    ensures
        r == plain_error(err, shard_id),
{
    match err {
        WriteFailure::ForwardToLeader { leader: _ } => LogError::LeaderUnavailable(shard_id),
        WriteFailure::Other => LogError::Unavailable,
    }
}

/// The code of an operation.
pub fn op_to_u8_pub(op: OperationType) -> (r: u8)
    ensures
        r == op_code(op),
{
    op_to_u8(op)
}

// ---------------------------------------------------------------------------
// Rate of inline writes
// ---------------------------------------------------------------------------

/// Rate of inline writes over a window.
#[derive(Clone, Copy, Debug, PartialEq, Eq, Structural)]
pub struct InlineRateMeter {
    /// Bytes written in the current window.
    pub window_bytes: u64,
    /// Start of the window, in milliseconds since the epoch.
    pub window_start_ms: u64,
    /// Length of the window in milliseconds.
    pub window_ms: u64,
    /// Bytes that may be written per second.
    pub budget_bytes_per_sec: u64,
}

/// Milliseconds since the start of the window.
pub open spec fn window_age(m: InlineRateMeter, now: u64) -> int {
    if now >= m.window_start_ms {
        now - m.window_start_ms
    } else {
        0
    }
}

/// Whether the bytes of the window are more than the budget for its age; a window
/// younger than a millisecond counts as one.
pub open spec fn over_budget(m: InlineRateMeter, now: u64) -> bool {
    let age = if window_age(m, now) >= 1 {
        window_age(m, now)
    } else {
        1
    };
    m.window_bytes * 1000 > m.budget_bytes_per_sec * age
}

/// The meter at a time: past its length, a fresh window starts.
pub open spec fn meter_at(m: InlineRateMeter, now: u64) -> InlineRateMeter {
    if window_age(m, now) > m.window_ms {
        InlineRateMeter { window_bytes: 0, window_start_ms: now, ..m }
    } else {
        m
    }
}

/// The meter after a write.
pub open spec fn meter_recorded(m: InlineRateMeter, bytes: u64, now: u64) -> InlineRateMeter {
    let at = meter_at(m, now);
    InlineRateMeter { window_bytes: (at.window_bytes + bytes) as u64, ..at }
}

/// Whether recording a write at a time leads from one meter to another with this
/// answer. Where the bytes of the window would no longer fit, they are not counted
/// and the rate is over any budget.
pub open spec fn recorded_by(
    before: InlineRateMeter,
    bytes: u64,
    now: u64,
    after: InlineRateMeter,
    exceeded: bool,
) -> bool {
    if meter_at(before, now).window_bytes + bytes <= u64::MAX {
        after == meter_recorded(before, bytes, now) && exceeded == over_budget(after, now)
    } else {
        after == meter_at(before, now) && exceeded
    }
}

/// Whether the rate is over the budget at a time; past the window it is not.
pub open spec fn exceeded_by(m: InlineRateMeter, now: u64) -> bool {
    window_age(m, now) <= m.window_ms && over_budget(m, now)
}

impl InlineRateMeter {
    /// A meter with a budget in mebibytes per second and a window of ten seconds.
    pub fn new(budget_mbps: u64) -> (r: Self)
        requires
            budget_mbps * 1_048_576 <= u64::MAX,
        ensures
            r == (InlineRateMeter {
                window_bytes: 0,
                window_start_ms: 0,
                window_ms: 10_000,
                budget_bytes_per_sec: (budget_mbps * 1_048_576) as u64,
            }),
    {
        InlineRateMeter {
            window_bytes: 0,
            window_start_ms: 0,
            window_ms: 10_000,
            budget_bytes_per_sec: budget_mbps * 1_048_576,
        }
    }

    fn exceeded_at(&self, now: u64) -> (r: bool)
        ensures
            r == over_budget(*self, now),
    {
        let age: u64 = if now > self.window_start_ms {
            now - self.window_start_ms
        } else {
            1
        };
        proof {
            let w = self.window_bytes;
            let b = self.budget_bytes_per_sec;
            assert(b * age <= u64::MAX * u64::MAX) by (nonlinear_arith)
                requires
                    0 <= b <= u64::MAX,
                    0 <= age <= u64::MAX,
            ;
        }
        self.window_bytes as u128 * 1000 > self.budget_bytes_per_sec as u128 * age as u128
    }

    /// Records a write at a time; returns whether the rate is over the budget.
    pub fn record_at(&mut self, bytes: u64, now: u64) -> (r: bool)
        requires
            meter_at(*old(self), now).window_bytes + bytes <= u64::MAX,
        ensures
            *final(self) == meter_recorded(*old(self), bytes, now),
            r == over_budget(*final(self), now),
    {
        if now > self.window_start_ms && now - self.window_start_ms > self.window_ms {
            self.window_bytes = 0;
            self.window_start_ms = now;
        }
        self.window_bytes = self.window_bytes + bytes;
        self.exceeded_at(now)
    }

    /// Whether the rate is over the budget at a time. Past the window it is not.
    pub fn is_exceeded_at(&self, now: u64) -> (r: bool)
        ensures
            r == exceeded_by(*self, now),
    {
        if now > self.window_start_ms && now - self.window_start_ms > self.window_ms {
            return false;
        }
        self.exceeded_at(now)
    }

    /// Records a write now; returns whether the rate is over the budget.
    pub fn record(&mut self, bytes: u64) -> (r: bool)
        ensures
            exists|now: u64| #[trigger] recorded_by(*old(self), bytes, now, *final(self), r),
    {
        let ghost before = *self;
        let now: u64 = now_ms();
        if now > self.window_start_ms && now - self.window_start_ms > self.window_ms {
            self.window_bytes = 0;
            self.window_start_ms = now;
        }
        if self.window_bytes > u64::MAX - bytes {
            assert(recorded_by(before, bytes, now, *self, true));
            return true;
        }
        let r: bool = self.record_at(bytes, now);
        assert(recorded_by(before, bytes, now, *self, r));
        r
    }

    /// Whether the rate is over the budget now.
    pub fn is_exceeded(&self) -> (r: bool)
        ensures
            exists|now: u64| r == #[trigger] exceeded_by(*self, now),
    {
        let now: u64 = now_ms();
        let r: bool = self.is_exceeded_at(now);
        assert(r == exceeded_by(*self, now));
        r
    }
}

// ---------------------------------------------------------------------------
// Commands
// ---------------------------------------------------------------------------

/// The draft of the delta that a request asks for.
pub open spec fn draft_of(req: AppendView) -> DraftView {
    DraftView {
        tenant: req.tenant_id,
        operation: op_code(req.operation),
        hashed_key: req.hashed_key,
        chunk_refs: req.chunk_refs,
        payload: req.payload,
        has_inline_data: req.has_inline_data,
        timestamp: None,
    }
}

/// Whether a command appends the delta that a request asks for, and nothing else.
pub open spec fn appends(cmd: LogCommand, d: DraftView) -> bool {
    cmd matches LogCommand::AppendDelta {
        tenant_id_bytes,
        operation,
        hashed_key,
        chunk_refs,
        payload,
        has_inline_data,
    } && draft(
        tenant_id_bytes,
        operation,
        hashed_key,
        chunk_refs@,
        payload@,
        has_inline_data,
    ) == d
}

/// Whether a command appends the delta that a request asks for with a timestamp of
/// its own, and nothing else.
pub open spec fn moves(cmd: LogCommand, d: DraftView, stamp: TimestampView) -> bool {
    cmd matches LogCommand::MoveDelta {
        tenant_id_bytes,
        operation,
        hashed_key,
        chunk_refs,
        payload,
        has_inline_data,
        timestamp,
    } && draft(
        tenant_id_bytes,
        operation,
        hashed_key,
        chunk_refs@,
        payload@,
        has_inline_data,
    ) == d && timestamp@ == stamp
}

/// Whether a command appends the delta that a request asks for, introduces chunks
/// and carries payloads of chunks.
pub open spec fn appends_chunks(
    cmd: LogCommand,
    d: DraftView,
    chunks: Seq<NewChunkView>,
    puts: Seq<InlinePutView>,
) -> bool {
    cmd matches LogCommand::ChunkAndDelta {
        tenant_id_bytes,
        operation,
        hashed_key,
        chunk_refs,
        payload,
        has_inline_data,
        new_chunks,
        inline_payloads,
    } && draft(
        tenant_id_bytes,
        operation,
        hashed_key,
        chunk_refs@,
        payload@,
        has_inline_data,
    ) == d && new_chunk_views(new_chunks@) == chunks && inline_views(inline_payloads@) == puts
}

/// What to do about a batch of intents.
pub enum IntentsStep {
    /// There is nothing to propose: the answer.
    Answer(SequenceNumber),
    /// Propose this.
    Propose(LogCommand),
}

/// The outcome of a proposal.
pub type WriteOutcome = Result<LogResponse, WriteFailure>;

/// The answer to a write that appends.
pub open spec fn append_answer(
    outcome: WriteOutcome,
    shard_id: ShardId,
    forwarding: bool,
) -> Result<SequenceNumber, LogError> {
    match outcome {
        Ok(LogResponse::Appended(seq)) => Ok(SequenceNumber(seq)),
        Ok(_) => Err(LogError::Unavailable),
        Err(e) => Err(
            if forwarding {
                forwarding_error(e, shard_id)
            } else {
                plain_error(e, shard_id)
            },
        ),
    }
}

/// The log store of one shard.
#[derive(Clone, Copy, Debug)]
pub struct OpenRaftLogStore {
    /// The shard.
    pub shard_id: ShardId,
    /// The tenant.
    pub tenant_id: OrgId,
    /// This replica's node.
    pub local_node_id: u64,
    /// Rate of inline writes.
    pub inline_rate: InlineRateMeter,
}

impl OpenRaftLogStore {
    /// The store of a shard on a node, with an inline budget of ten mebibytes per
    /// second.
    pub fn new(node_id: u64, shard_id: ShardId, tenant_id: OrgId) -> (r: Self)
        ensures
            r.shard_id == shard_id,
            r.tenant_id == tenant_id,
            r.local_node_id == node_id,
            r.inline_rate == (InlineRateMeter {
                window_bytes: 0,
                window_start_ms: 0,
                window_ms: 10_000,
                budget_bytes_per_sec: 10_485_760,
            }),
    {
        OpenRaftLogStore {
            shard_id,
            tenant_id,
            local_node_id: node_id,
            inline_rate: InlineRateMeter::new(10),
        }
    }

    /// The shard.
    pub fn shard_id(&self) -> (r: ShardId)
        ensures
            r == self.shard_id,
    {
        self.shard_id
    }

    /// The tenant.
    pub fn tenant_id(&self) -> (r: OrgId)
        ensures
            r == self.tenant_id,
    {
        self.tenant_id
    }

    /// This replica's node.
    pub fn node_id(&self) -> (r: u64)
        ensures
            r == self.local_node_id,
    {
        self.local_node_id
    }

    /// Refuses writes in maintenance mode.
    pub fn check_open(&self, state: &ShardSmInner) -> (r: Result<(), LogError>)
        ensures
            r == (if state@.maintenance {
                Err::<(), LogError>(LogError::MaintenanceMode(self.shard_id))
            } else {
                Ok::<(), LogError>(())
            }),
    {
        if state.maintenance {
            Err(LogError::MaintenanceMode(self.shard_id))
        } else {
            Ok(())
        }
    }

    /// The command that appends a delta. Refused in maintenance mode, and for a key
    /// outside the shard's range.
    pub fn append_delta(&self, state: &ShardSmInner, req: AppendDeltaRequest) -> (r: Result<
        LogCommand,
        LogError,
    >)
        ensures
            state@.maintenance ==> r == Err::<LogCommand, LogError>(
                LogError::MaintenanceMode(self.shard_id),
            ),
            !state@.maintenance && !key_between(
                req.hashed_key,
                state@.range_start,
                state@.range_end,
            ) ==> r == Err::<LogCommand, LogError>(LogError::KeyOutOfRange(self.shard_id)),
            !state@.maintenance && key_between(
                req.hashed_key,
                state@.range_start,
                state@.range_end,
            ) ==> r is Ok && appends(r->Ok_0, draft_of(req@)),
    {
        match self.check_open(state) {
            Ok(()) => {},
            Err(e) => {
                return Err(e);
            },
        }
        if !key_in_range(&req.hashed_key, &state.range_start, &state.range_end) {
            return Err(LogError::KeyOutOfRange(self.shard_id));
        }
        let tenant = uuid_to_bytes(req.tenant_id.0);
        let refs = to_raw_keys(&req.chunk_refs);
        proof {
            lemma_tenant_bytes(req.tenant_id.0, tenant);
            assert(chunk_ids(refs@) =~= req.chunk_refs@);
        }
        Ok(
            LogCommand::AppendDelta {
                tenant_id_bytes: tenant,
                operation: op_to_u8(req.operation),
                hashed_key: req.hashed_key,
                chunk_refs: refs,
                payload: req.payload,
                has_inline_data: req.has_inline_data,
            },
        )
    }

    /// The command that appends a delta that another shard held, with its timestamp.
    /// Refused in maintenance mode, and for a key outside the shard's range.
    pub fn move_delta(&self, state: &ShardSmInner, req: AppendDeltaRequest) -> (r: Result<
        LogCommand,
        LogError,
    >)
        ensures
            state@.maintenance ==> r == Err::<LogCommand, LogError>(
                LogError::MaintenanceMode(self.shard_id),
            ),
            !state@.maintenance && !key_between(
                req.hashed_key,
                state@.range_start,
                state@.range_end,
            ) ==> r == Err::<LogCommand, LogError>(LogError::KeyOutOfRange(self.shard_id)),
            !state@.maintenance && key_between(
                req.hashed_key,
                state@.range_start,
                state@.range_end,
            ) ==> r is Ok && moves(r->Ok_0, draft_of(req@), req@.timestamp),
    {
        match self.check_open(state) {
            Ok(()) => {},
            Err(e) => {
                return Err(e);
            },
        }
        if !key_in_range(&req.hashed_key, &state.range_start, &state.range_end) {
            return Err(LogError::KeyOutOfRange(self.shard_id));
        }
        let tenant = uuid_to_bytes(req.tenant_id.0);
        let refs = to_raw_keys(&req.chunk_refs);
        proof {
            lemma_tenant_bytes(req.tenant_id.0, tenant);
            assert(chunk_ids(refs@) =~= req.chunk_refs@);
        }
        Ok(
            LogCommand::MoveDelta {
                tenant_id_bytes: tenant,
                operation: op_to_u8(req.operation),
                hashed_key: req.hashed_key,
                chunk_refs: refs,
                payload: req.payload,
                has_inline_data: req.has_inline_data,
                timestamp: req.timestamp,
            },
        )
    }

    /// The command that appends a delta given by its raw parts.
    pub fn append_delta_raw(
        &self,
        state: &ShardSmInner,
        tenant_id_bytes: [u8; 16],
        operation: u8,
        hashed_key: [u8; 32],
        chunk_refs: Vec<[u8; 32]>,
        payload: Vec<u8>,
        has_inline_data: bool,
    ) -> (r: Result<LogCommand, LogError>)
        ensures
            state@.maintenance ==> r == Err::<LogCommand, LogError>(
                LogError::MaintenanceMode(self.shard_id),
            ),
            !state@.maintenance ==> r is Ok && appends(
                r->Ok_0,
                draft(
                    tenant_id_bytes,
                    operation,
                    hashed_key,
                    chunk_refs@,
                    payload@,
                    has_inline_data,
                ),
            ),
    {
        match self.check_open(state) {
            Ok(()) => Ok(
                LogCommand::AppendDelta {
                    tenant_id_bytes,
                    operation,
                    hashed_key,
                    chunk_refs,
                    payload,
                    has_inline_data,
                },
            ),
            Err(e) => Err(e),
        }
    }

    /// The command that introduces chunks and appends the delta that refers to
    /// them.
    pub fn append_chunk_and_delta(
        &self,
        state: &ShardSmInner,
        req: AppendDeltaRequest,
        new_chunks: Vec<NewChunkMeta>,
        inline_payloads: Vec<InlinePayload>,
    ) -> (r: Result<LogCommand, LogError>)
        ensures
            state@.maintenance ==> r == Err::<LogCommand, LogError>(
                LogError::MaintenanceMode(self.shard_id),
            ),
            !state@.maintenance ==> r is Ok && appends_chunks(
                r->Ok_0,
                draft_of(req@),
                new_chunk_views(new_chunks@),
                inline_views(inline_payloads@),
            ),
    {
        match self.check_open(state) {
            Ok(()) => {},
            Err(e) => {
                return Err(e);
            },
        }
        let tenant = uuid_to_bytes(req.tenant_id.0);
        let refs = to_raw_keys(&req.chunk_refs);
        proof {
            lemma_tenant_bytes(req.tenant_id.0, tenant);
            assert(chunk_ids(refs@) =~= req.chunk_refs@);
        }
        Ok(
            LogCommand::ChunkAndDelta {
                tenant_id_bytes: tenant,
                operation: op_to_u8(req.operation),
                hashed_key: req.hashed_key,
                chunk_refs: refs,
                payload: req.payload,
                has_inline_data: req.has_inline_data,
                new_chunks,
                inline_payloads,
            },
        )
    }

    /// What to do about a batch of intents: propose them as one command, or answer
    /// with the tip where there are none.
    pub fn append_intents(&self, state: &ShardSmInner, items: Vec<IncorporateItem>) -> (r: Result<
        IntentsStep,
        LogError,
    >)
        ensures
            state@.maintenance ==> r == Err::<IntentsStep, LogError>(
                LogError::MaintenanceMode(self.shard_id),
            ),
            !state@.maintenance && items@.len() == 0 ==> r == Ok::<IntentsStep, LogError>(
                IntentsStep::Answer(SequenceNumber(state@.tip)),
            ),
            !state@.maintenance && items@.len() > 0 ==> r == Ok::<IntentsStep, LogError>(
                IntentsStep::Propose(LogCommand::IncorporateIntents { items }),
            ),
    {
        match self.check_open(state) {
            Ok(()) => {},
            Err(e) => {
                return Err(e);
            },
        }
        if items.len() == 0 {
            return Ok(IntentsStep::Answer(self.current_tip(state)));
        }
        Ok(IntentsStep::Propose(LogCommand::IncorporateIntents { items }))
    }

    /// The answer to a write that appends. With `forwarding`, a follower names the
    /// leader where it knows it.
    pub fn appended(&self, outcome: WriteOutcome, forwarding: bool) -> (r: Result<
        SequenceNumber,
        LogError,
    >)
        ensures
            r == append_answer(outcome, self.shard_id, forwarding),
    {
        match outcome {
            Ok(LogResponse::Appended(seq)) => Ok(SequenceNumber(seq)),
            Ok(_) => Err(LogError::Unavailable),
            Err(e) => if forwarding {
                Err(map_raft_error_with_forwarding(e, self.shard_id))
            } else {
                Err(map_raft_error(e, self.shard_id))
            },
        }
    }

    /// The answer to a write that changes settings of the shard.
    pub fn written(&self, outcome: WriteOutcome) -> (r: Result<(), LogError>)
        ensures
            match outcome {
                Ok(_) => r is Ok,
                Err(e) => r == Err::<(), LogError>(plain_error(e, self.shard_id)),
            },
    {
        match outcome {
            Ok(_) => Ok(()),
            Err(e) => Err(map_raft_error(e, self.shard_id)),
        }
    }

    /// The command that adds a reference to a chunk.
    pub fn increment_chunk_refcount(&self, tenant_id: OrgId, chunk_id: ChunkId) -> (r: LogCommand)
        ensures
            r matches LogCommand::IncrementChunkRefcount { tenant_id_bytes, chunk_id: c }
                && tenant_of(tenant_id_bytes) == tenant_id && c == chunk_id.0,
    {
        let tenant = uuid_to_bytes(tenant_id.0);
        proof {
            lemma_tenant_bytes(tenant_id.0, tenant);
        }
        LogCommand::IncrementChunkRefcount { tenant_id_bytes: tenant, chunk_id: chunk_id.0 }
    }

    /// The answer to adding a reference.
    pub fn incremented(&self, outcome: WriteOutcome) -> (r: Result<(), LogError>)
        ensures
            match outcome {
                Ok(_) => r is Ok,
                Err(_) => r == Err::<(), LogError>(LogError::Unavailable),
            },
    {
        match outcome {
            Ok(_) => Ok(()),
            Err(_) => Err(LogError::Unavailable),
        }
    }

    /// The command that drops a reference to a chunk.
    pub fn decrement_chunk_refcount(&self, tenant_id: OrgId, chunk_id: ChunkId) -> (r: LogCommand)
        ensures
            r matches LogCommand::DecrementChunkRefcount { tenant_id_bytes, chunk_id: c }
                && tenant_of(tenant_id_bytes) == tenant_id && c == chunk_id.0,
    {
        let tenant = uuid_to_bytes(tenant_id.0);
        proof {
            lemma_tenant_bytes(tenant_id.0, tenant);
        }
        LogCommand::DecrementChunkRefcount { tenant_id_bytes: tenant, chunk_id: chunk_id.0 }
    }

    /// The answer to dropping a reference: whether that tombstoned the chunk.
    pub fn decremented(&self, outcome: WriteOutcome) -> (r: Result<bool, LogError>)
        ensures
            match outcome {
                Ok(LogResponse::DecrementOutcome(t)) => r == Ok::<bool, LogError>(t),
                Ok(_) => r == Ok::<bool, LogError>(false),
                Err(_) => r == Err::<bool, LogError>(LogError::Unavailable),
            },
    {
        match outcome {
            Ok(LogResponse::DecrementOutcome(t)) => Ok(t),
            Ok(_) => Ok(false),
            Err(_) => Err(LogError::Unavailable),
        }
    }

    /// The command that sets the lifecycle state.
    pub fn set_shard_state(&self, state: ShardState) -> (r: LogCommand)
        ensures
            r == (LogCommand::SetShardState { state: state_code(state) }),
    {
        LogCommand::SetShardState { state: state.as_u8() }
    }

    /// The command that sets the key range.
    pub fn set_shard_range(&self, range_start: [u8; 32], range_end: [u8; 32]) -> (r: LogCommand)
        ensures
            r == (LogCommand::UpdateShardRange { range_start, range_end }),
    {
        LogCommand::UpdateShardRange { range_start, range_end }
    }

    /// The command that sets the thresholds.
    pub fn set_shard_config(&self, config: ShardConfig) -> (r: LogCommand)
        ensures
            r == (LogCommand::SetShardConfig {
                max_delta_count: config.max_delta_count,
                max_byte_size: config.max_byte_size,
                inline_threshold_bytes: config.inline_threshold_bytes,
                inline_floor_bytes: config.inline_floor_bytes,
                inline_ceiling_bytes: config.inline_ceiling_bytes,
            }),
    {
        LogCommand::SetShardConfig {
            max_delta_count: config.max_delta_count,
            max_byte_size: config.max_byte_size,
            inline_threshold_bytes: config.inline_threshold_bytes,
            inline_floor_bytes: config.inline_floor_bytes,
            inline_ceiling_bytes: config.inline_ceiling_bytes,
        }
    }

    /// Records an inline write; returns whether inline writes are over the budget.
    pub fn record_inline_write(&mut self, bytes: u64) -> (r: bool)
        ensures
            final(self).shard_id == old(self).shard_id,
            final(self).tenant_id == old(self).tenant_id,
            final(self).local_node_id == old(self).local_node_id,
            exists|now: u64| #[trigger]
                recorded_by(old(self).inline_rate, bytes, now, final(self).inline_rate, r),
    {
        let ghost before = self.inline_rate;
        let r: bool = self.inline_rate.record(bytes);
        proof {
            let now = choose|now: u64| #[trigger]
                recorded_by(before, bytes, now, self.inline_rate, r);
            assert(recorded_by(before, bytes, now, self.inline_rate, r));
        }
        r
    }

    /// Whether inline writes are over the budget.
    pub fn inline_rate_exceeded(&self) -> (r: bool)
        ensures
            exists|now: u64| r == #[trigger] exceeded_by(self.inline_rate, now),
    {
        self.inline_rate.is_exceeded()
    }

    /// Whether the shard is in maintenance.
    pub fn is_maintenance(&self, state: &ShardSmInner) -> (r: bool)
        ensures
            r == state@.maintenance,
    {
        state.maintenance
    }

    /// The log position below which intents are ancient.
    pub fn ancient_cutoff_log_index(&self, state: &ShardSmInner) -> (r: u64)
        ensures
            r == state@.cutoff,
    {
        state.ancient_cutoff_log_index
    }

    /// Highest sequence number given out.
    pub fn current_tip(&self, state: &ShardSmInner) -> (r: SequenceNumber)
        ensures
            r.0 == state@.tip,
    {
        SequenceNumber(state.tip)
    }
}

// ---------------------------------------------------------------------------
// Reads and local maintenance
// ---------------------------------------------------------------------------

/// A delta that was read, and the key of its payload where that was offloaded.
pub struct DeltaRead {
    /// The delta.
    pub delta: Delta,
    /// Key under which its payload is to be looked up.
    pub inline_key: Option<[u8; 32]>,
}

/// What a [`DeltaRead`] holds.
#[verifier::ext_equal]
pub struct ReadView {
    pub delta: DeltaView,
    pub inline_key: Option<Seq<u8>>,
}

impl View for DeltaRead {
    type V = ReadView;

    open spec fn view(&self) -> ReadView {
        ReadView {
            delta: self.delta@,
            inline_key: match self.inline_key {
                Some(k) => Some(k@),
                None => None,
            },
        }
    }
}

/// What a list of reads holds.
pub open spec fn read_views(s: Seq<DeltaRead>) -> Seq<ReadView> {
    Seq::new(s.len(), |i: int| s[i]@)
}

/// A read of a delta: its payload is looked up where it is inline data, is not in
/// the delta, and there is a store for it.
pub open spec fn read_of(d: DeltaView, inline_attached: bool) -> ReadView {
    ReadView {
        delta: d,
        inline_key: if d.header.has_inline_data && d.payload.ciphertext.len() == 0
            && inline_attached {
            Some(inline_key(d.header.hashed_key@, d.header.sequence))
        } else {
            None
        },
    }
}

/// Reads of a list of deltas.
pub open spec fn reads_of(d: Seq<DeltaView>, inline_attached: bool) -> Seq<ReadView> {
    Seq::new(d.len(), |i: int| read_of(d[i], inline_attached))
}

/// A delta with its payload put back, where one was found.
pub open spec fn resolved(r: ReadView, data: Option<Seq<u8>>) -> DeltaView {
    match (r.inline_key, data) {
        (Some(_), Some(bytes)) => DeltaView {
            payload: PayloadView { ciphertext: bytes, ..r.delta.payload },
            ..r.delta
        },
        _ => r.delta,
    }
}

impl DeltaRead {
    /// Puts the payload back, where one was found.
    pub fn resolve(self, data: Option<Vec<u8>>) -> (r: Delta)
        ensures
            r@ == resolved(
                self@,
                match data {
                    Some(v) => Some(v@),
                    None => None,
                },
            ),
    {
        let mut delta = self.delta;
        match self.inline_key {
            Some(_) => {
                match data {
                    Some(v) => {
                        delta.payload.ciphertext = v;
                    },
                    None => {},
                }
            },
            None => {},
        }
        delta
    }
}

/// Whether a delta of a list has this number.
pub open spec fn has_sequence(d: Seq<DeltaView>, sequence: u64) -> bool {
    exists|i: int| 0 <= i < d.len() && (#[trigger] d[i]).header.sequence == sequence
}

/// The deltas whose number no delta of `kept` has.
pub open spec fn lost(d: Seq<DeltaView>, kept: Seq<DeltaView>) -> Seq<DeltaView>
    decreases d.len(),
{
    if d.len() == 0 {
        d
    } else {
        let front = lost(d.drop_last(), kept);
        if has_sequence(kept, d.last().header.sequence) {
            front
        } else {
            front.push(d.last())
        }
    }
}

/// Deltas below a boundary.
pub open spec fn below_boundary(d: Seq<DeltaView>, boundary: u64) -> Seq<DeltaView> {
    if boundary == 0 {
        Seq::empty()
    } else {
        numbered(d, 0, (boundary - 1) as u64)
    }
}

/// A replica without the deltas that every consumer has passed.
pub open spec fn truncated(st: SmView) -> SmView {
    SmView { deltas: from_boundary(st.deltas, boundary_of(st.watermarks)), ..st }
}

/// The inline keys that a truncation frees.
pub open spec fn freed_by_truncation(st: SmView) -> Seq<Seq<u8>> {
    if st.inline_attached {
        inline_keys_of(below_boundary(st.deltas, boundary_of(st.watermarks)))
    } else {
        Seq::empty()
    }
}

/// A replica with only the deltas that a compaction kept.
pub open spec fn compacted_to(st: SmView, kept: Seq<DeltaView>) -> SmView {
    SmView { deltas: kept, delta_count: kept.len() as u64, ..st }
}

/// The inline keys that a compaction frees.
pub open spec fn freed_by_compaction(st: SmView, kept: Seq<DeltaView>) -> Seq<Seq<u8>> {
    if st.inline_attached {
        inline_keys_of(lost(st.deltas, kept))
    } else {
        Seq::empty()
    }
}

/// Metadata of a shard, given its replica, its leader and its members.
pub open spec fn health_of(
    store: OpenRaftLogStore,
    st: SmView,
    leader: Option<NodeId>,
    raft_members: Seq<NodeId>,
) -> ShardInfoView {
    ShardInfoView {
        shard_id: store.shard_id,
        tenant_id: store.tenant_id,
        raft_members,
        leader,
        tip: st.tip,
        delta_count: st.delta_count,
        byte_size: total_size(st.deltas) as u64,
        state: if st.maintenance {
            ShardState::Maintenance
        } else {
            st.state
        },
        config: st.config,
        range_start: st.range_start,
        range_end: st.range_end,
    }
}

/// Sum of the sizes of deltas: each counts its payload and 128 bytes more.
pub open spec fn total_size(d: Seq<DeltaView>) -> nat
    decreases d.len(),
{
    if d.len() == 0 {
        0
    } else {
        total_size(d.drop_last()) + d.last().header.payload_size as nat + 128
    }
}

/// The sizes of the first deltas add up to no more than those of all.
proof fn lemma_total_size_prefix(d: Seq<DeltaView>, k: int)
    requires
        0 <= k <= d.len(),
    ensures
        total_size(d.take(k)) <= total_size(d),
    decreases d.len() - k,
{
    if k < d.len() {
        lemma_total_size_prefix(d, k + 1);
        assert(d.take(k + 1).drop_last() =~= d.take(k));
    } else {
        assert(d.take(k) =~= d);
    }
}

/// The numbers of a list of deltas.
fn sequence_set(deltas: &Vec<Delta>) -> (r: OrderedMap<SequenceKey, ()>)
    ensures
        r.wf(),
        forall|s: u64| #[trigger]
            r@.contains_key(SequenceKey(s)) == has_sequence(delta_views(deltas@), s),
{
    let ghost d = delta_views(deltas@);
    let mut set: OrderedMap<SequenceKey, ()> = OrderedMap::new();
    let mut i: usize = 0;
    while i < deltas.len()
        invariant
            i <= deltas@.len(),
            d == delta_views(deltas@),
            set.wf(),
            forall|s: u64| #[trigger]
                set@.contains_key(SequenceKey(s)) == has_sequence(d.take(i as int), s),
        decreases deltas@.len() - i,
    {
        let ghost before = set@;
        set.insert(SequenceKey(deltas[i].header.sequence.0), ());
        proof {
            let t = d.take(i as int);
            let u = d.take(i + 1);
            assert(u[i as int] == deltas@[i as int]@);
            assert forall|s: u64| #[trigger] set@.contains_key(SequenceKey(s)) == has_sequence(
                u,
                s,
            ) by {
                assert(before.contains_key(SequenceKey(s)) == has_sequence(t, s));
                if has_sequence(t, s) {
                    let j = choose|j: int| 0 <= j < t.len() && (#[trigger] t[j]).header.sequence
                        == s;
                    assert(u[j] == t[j]);
                }
                if has_sequence(u, s) && s != deltas@[i as int]@.header.sequence {
                    let j = choose|j: int| 0 <= j < u.len() && (#[trigger] u[j]).header.sequence
                        == s;
                    assert(t[j] == u[j]);
                }
            }
        }
        i = i + 1;
    }
    assert(d.take(i as int) =~= d);
    set
}

/// Inline keys of the deltas whose number no delta of `kept` has.
fn lost_keys(deltas: &Vec<Delta>, kept: &Vec<Delta>) -> (r: Vec<[u8; 32]>)
    ensures
        key_views(r@) == inline_keys_of(lost(delta_views(deltas@), delta_views(kept@))),
{
    let ghost d = delta_views(deltas@);
    let ghost k = delta_views(kept@);
    let set = sequence_set(kept);
    let mut keys: Vec<[u8; 32]> = Vec::new();
    let mut i: usize = 0;
    assert(d.take(0) =~= Seq::<DeltaView>::empty());
    assert(key_views(keys@) =~= Seq::<Seq<u8>>::empty());
    while i < deltas.len()
        invariant
            i <= deltas@.len(),
            d == delta_views(deltas@),
            set.wf(),
            forall|s: u64| #[trigger] set@.contains_key(SequenceKey(s)) == has_sequence(k, s),
            key_views(keys@) == inline_keys_of(lost(d.take(i as int), k)),
        decreases deltas@.len() - i,
    {
        let delta = &deltas[i];
        proof {
            let t = d.take(i + 1);
            assert(t.drop_last() =~= d.take(i as int));
            assert(t.last() == delta@);
            let front = lost(d.take(i as int), k);
            assert(front.push(delta@).drop_last() =~= front);
            assert(set@.contains_key(SequenceKey(delta@.header.sequence)) == has_sequence(
                k,
                delta@.header.sequence,
            ));
        }
        if !set.contains(&SequenceKey(delta.header.sequence.0)) && delta.header.has_inline_data {
            let ghost before = keys@;
            keys.push(derive_inline_key(&delta.header.hashed_key, delta.header.sequence.0));
            assert(key_views(keys@) =~= key_views(before).push(
                inline_key(delta.header.hashed_key@, delta.header.sequence.0),
            ));
        }
        i = i + 1;
    }
    assert(d.take(i as int) =~= d);
    keys
}

/// Inline keys of a list of deltas.
fn keys_of(deltas: &Vec<Delta>) -> (r: Vec<[u8; 32]>)
    ensures
        key_views(r@) == inline_keys_of(delta_views(deltas@)),
{
    let ghost d = delta_views(deltas@);
    let mut keys: Vec<[u8; 32]> = Vec::new();
    let mut i: usize = 0;
    assert(d.take(0) =~= Seq::<DeltaView>::empty());
    assert(key_views(keys@) =~= Seq::<Seq<u8>>::empty());
    while i < deltas.len()
        invariant
            i <= deltas@.len(),
            d == delta_views(deltas@),
            key_views(keys@) == inline_keys_of(d.take(i as int)),
        decreases deltas@.len() - i,
    {
        let delta = &deltas[i];
        proof {
            let t = d.take(i + 1);
            assert(t.drop_last() =~= d.take(i as int));
            assert(t.last() == delta@);
        }
        if delta.header.has_inline_data {
            let ghost before = keys@;
            keys.push(derive_inline_key(&delta.header.hashed_key, delta.header.sequence.0));
            assert(key_views(keys@) =~= key_views(before).push(
                inline_key(delta.header.hashed_key@, delta.header.sequence.0),
            ));
        }
        i = i + 1;
    }
    assert(d.take(i as int) =~= d);
    keys
}

/// Position of the first delta numbered `from` or higher.
fn first_at(deltas: &Vec<Delta>, from: u64) -> (r: usize)
    requires
        forall|i: int, j: int|
            0 <= i < j < deltas@.len() ==> (#[trigger] deltas@[i])@.header.sequence < (
            #[trigger] deltas@[j])@.header.sequence,
    ensures
        r <= deltas@.len(),
        forall|i: int| 0 <= i < r ==> (#[trigger] deltas@[i])@.header.sequence < from,
        forall|i: int|
            r <= i < deltas@.len() ==> (#[trigger] deltas@[i])@.header.sequence >= from,
{
    let mut lo: usize = 0;
    let mut hi: usize = deltas.len();
    while lo < hi
        invariant
            lo <= hi <= deltas@.len(),
            forall|i: int, j: int|
                0 <= i < j < deltas@.len() ==> (#[trigger] deltas@[i])@.header.sequence < (
                #[trigger] deltas@[j])@.header.sequence,
            forall|i: int| 0 <= i < lo ==> (#[trigger] deltas@[i])@.header.sequence < from,
            forall|i: int|
                hi <= i < deltas@.len() ==> (#[trigger] deltas@[i])@.header.sequence >= from,
        decreases hi - lo,
    {
        let mid: usize = lo + (hi - lo) / 2;
        assert(deltas@[mid as int]@.header.sequence == deltas@[mid as int].header.sequence.0);
        if deltas[mid].header.sequence.0 < from {
            lo = mid + 1;
        } else {
            hi = mid;
        }
    }
    lo
}

impl OpenRaftLogStore {
    /// Reads the deltas numbered `from..=to`. A payload that was offloaded is to be
    /// looked up and put back with [`DeltaRead::resolve`].
    pub fn read_deltas(&self, state: &ShardSmInner, req: ReadDeltasRequest) -> (r: Result<
        Vec<DeltaRead>,
        LogError,
    >)
        requires
            in_order(state@),
        ensures
            req.from.0 > req.to.0 ==> r == Err::<Vec<DeltaRead>, LogError>(
                LogError::InvalidRange(self.shard_id),
            ),
            req.from.0 <= req.to.0 ==> r is Ok && read_views(r->Ok_0@) == reads_of(
                numbered(state@.deltas, req.from.0, req.to.0),
                state@.inline_attached,
            ),
    {
        if req.from.0 > req.to.0 {
            return Err(LogError::InvalidRange(self.shard_id));
        }
        let ghost d = state@.deltas;
        let from: u64 = req.from.0;
        let to: u64 = req.to.0;
        proof {
            assert forall|i: int, j: int| 0 <= i < j < state.deltas@.len() implies (
            #[trigger] state.deltas@[i])@.header.sequence < (
            #[trigger] state.deltas@[j])@.header.sequence by {
                assert(d[i].header.sequence < d[j].header.sequence);
            }
        }
        let start: usize = first_at(&state.deltas, from);
        let mut out: Vec<DeltaRead> = Vec::new();
        let mut i: usize = start;
        proof {
            let t = d.take(start as int);
            assert forall|k: int| 0 <= k < t.len() implies !(from <= (
            #[trigger] t[k]).header.sequence <= to) by {
                assert(t[k] == state.deltas@[k]@);
            }
            lemma_numbered_none(t, from, to);
            assert(read_views(out@) =~= reads_of(numbered(t, from, to), state@.inline_attached));
        }
        while i < state.deltas.len() && state.deltas[i].header.sequence.0 <= to
            invariant
                start <= i <= state.deltas@.len(),
                d == state@.deltas,
                forall|k: int|
                    start <= k < state.deltas@.len() ==> (
                    #[trigger] state.deltas@[k])@.header.sequence >= from,
                read_views(out@) == reads_of(
                    numbered(d.take(i as int), from, to),
                    state@.inline_attached,
                ),
            decreases state.deltas@.len() - i,
        {
            let delta = &state.deltas[i];
            let ghost before = out@;
            let key: Option<[u8; 32]> = if delta.header.has_inline_data
                && delta.payload.ciphertext.len() == 0 && state.inline_attached {
                Some(derive_inline_key(&delta.header.hashed_key, delta.header.sequence.0))
            } else {
                None
            };
            let read = DeltaRead { delta: delta.clone(), inline_key: key };
            proof {
                let t = d.take(i + 1);
                assert(t.drop_last() =~= d.take(i as int));
                assert(t.last() == delta@);
                assert(state.deltas@[i as int]@.header.sequence >= from);
                assert(read@ =~= read_of(delta@, state@.inline_attached));
            }
            out.push(read);
            proof {
                let t = d.take(i + 1);
                assert(read_views(out@) =~= read_views(before).push(read@));
                assert(reads_of(numbered(t, from, to), state@.inline_attached) =~= reads_of(
                    numbered(d.take(i as int), from, to),
                    state@.inline_attached,
                ).push(read_of(delta@, state@.inline_attached)));
            }
            i = i + 1;
        }
        proof {
            let rest = d.skip(i as int);
            assert forall|k: int| 0 <= k < rest.len() implies !(from <= (
            #[trigger] rest[k]).header.sequence <= to) by {
                assert(rest[k] == d[i + k]);
                assert(d[i as int] == state.deltas@[i as int]@);
                if k > 0 {
                    assert(d[i as int].header.sequence < d[i + k].header.sequence);
                }
            }
            lemma_numbered_none(rest, from, to);
            lemma_numbered_concat(d.take(i as int), rest, from, to);
            assert(d.take(i as int) + rest =~= d);
            assert(numbered(d.take(i as int), from, to) + Seq::<DeltaView>::empty() =~= numbered(
                d.take(i as int),
                from,
                to,
            ));
        }
        Ok(out)
    }

    /// The row of a chunk.
    pub fn cluster_chunk_state_get(
        &self,
        state: &ShardSmInner,
        tenant_id: OrgId,
        chunk_id: ChunkId,
    ) -> (r: Option<ClusterChunkStateEntry>)
        requires
            state.wf(),
        ensures
            match r {
                Some(e) => state@.chunks.contains_key(ChunkKey { tenant: tenant_id, chunk: chunk_id })
                    && e@ == state@.chunks[ChunkKey { tenant: tenant_id, chunk: chunk_id }],
                None => !state@.chunks.contains_key(
                    ChunkKey { tenant: tenant_id, chunk: chunk_id },
                ),
            },
    {
        match state.cluster_chunk_state.get(&ChunkKey { tenant: tenant_id, chunk: chunk_id }) {
            Some(e) => Some(e.clone()),
            None => None,
        }
    }

    /// The rows of all chunks.
    pub fn cluster_chunk_state_iter(&self, state: &ShardSmInner) -> (r: Vec<
        (OrgId, ChunkId, ClusterChunkStateEntry),
    >)
        requires
            state.wf(),
        ensures
            r@.len() == state@.chunks.dom().len(),
            forall|i: int|
                0 <= i < r@.len() ==> ({
                    let key = ChunkKey { tenant: (#[trigger] r@[i]).0, chunk: r@[i].1 };
                    state@.chunks.contains_key(key) && r@[i].2@ == state@.chunks[key]
                }),
            forall|i: int, j: int|
                0 <= i < j < r@.len() ==> ((#[trigger] r@[i]).0, r@[i].1) != (
                    (#[trigger] r@[j]).0,
                    r@[j].1,
                ),
    {
        let m = &state.cluster_chunk_state;
        proof {
            m.lemma_entries();
            assert(state@.chunks.dom() =~= m@.dom());
        }
        let mut out: Vec<(OrgId, ChunkId, ClusterChunkStateEntry)> = Vec::new();
        let mut i: usize = 0;
        while i < m.len()
            invariant
                m.wf(),
                i <= m.entries().len(),
                out@.len() == i,
                forall|j: int|
                    0 <= j < i ==> (#[trigger] out@[j]).0 == m.entries()[j].0.tenant && out@[j].1
                        == m.entries()[j].0.chunk && out@[j].2@ == m.entries()[j].1@,
            decreases m.entries().len() - i,
        {
            let e = m.at(i);
            out.push((e.0.tenant, e.0.chunk, e.1.clone()));
            i = i + 1;
        }
        proof {
            assert forall|i: int| 0 <= i < out@.len() implies ({
                let key = ChunkKey { tenant: (#[trigger] out@[i]).0, chunk: out@[i].1 };
                state@.chunks.contains_key(key) && out@[i].2@ == state@.chunks[key]
            }) by {
                let key = ChunkKey { tenant: out@[i].0, chunk: out@[i].1 };
                assert(m.entries()[i].0 == key);
            }
            assert forall|i: int, j: int| 0 <= i < j < out@.len() implies (
                (#[trigger] out@[i]).0,
                out@[i].1,
            ) != ((#[trigger] out@[j]).0, out@[j].1) by {
                assert(m.entries()[i].0.rank() < m.entries()[j].0.rank());
            }
        }
        out
    }

    /// Lowest sequence number that is still there; zero where none is.
    pub fn earliest_visible_seq(&self, state: &ShardSmInner) -> (r: SequenceNumber)
        ensures
            r.0 == (if state@.deltas.len() == 0 {
                0
            } else {
                state@.deltas[0].header.sequence
            }),
    {
        if state.deltas.len() == 0 {
            SequenceNumber(0)
        } else {
            state.deltas[0].header.sequence
        }
    }

    /// Metadata of the shard, given its leader and its members. Maintenance mode
    /// shows in place of the lifecycle state.
    pub fn shard_health(
        &self,
        state: &ShardSmInner,
        leader: Option<NodeId>,
        raft_members: Vec<NodeId>,
    ) -> (r: ShardInfo)
        requires
            total_size(state@.deltas) <= u64::MAX,
        ensures
            r@ == health_of(*self, state@, leader, raft_members@),
    {
        let ghost d = state@.deltas;
        let mut size: u64 = 0;
        let mut i: usize = 0;
        assert(d.take(0) =~= Seq::<DeltaView>::empty());
        while i < state.deltas.len()
            invariant
                i <= state.deltas@.len(),
                d == state@.deltas,
                total_size(d) <= u64::MAX,
                size == total_size(d.take(i as int)),
            decreases state.deltas@.len() - i,
        {
            proof {
                let t = d.take(i + 1);
                assert(t.drop_last() =~= d.take(i as int));
                assert(t.last() == state.deltas@[i as int]@);
                lemma_total_size_prefix(d, i + 1);
            }
            size = size + (state.deltas[i].header.payload_size as u64 + 128);
            i = i + 1;
        }
        assert(d.take(i as int) =~= d);
        ShardInfo {
            shard_id: self.shard_id,
            tenant_id: self.tenant_id,
            raft_members,
            leader,
            tip: SequenceNumber(state.tip),
            delta_count: state.delta_count,
            byte_size: size,
            state: if state.maintenance {
                ShardState::Maintenance
            } else {
                state.state
            },
            config: state.config,
            range_start: state.range_start,
            range_end: state.range_end,
        }
    }

    /// The position below which no consumer will read again; zero without consumers.
    pub fn gc_boundary(&self, state: &ShardSmInner) -> (r: SequenceNumber)
        ensures
            r.0 == boundary_of(state@.watermarks),
    {
        match state.watermarks.gc_boundary() {
            Some(b) => b,
            None => SequenceNumber(0),
        }
    }

    /// Drops the deltas that every consumer has passed; returns the boundary, and
    /// the inline keys that this frees.
    pub fn truncate_log(&self, state: &mut ShardSmInner) -> (r: (SequenceNumber, Vec<[u8; 32]>))
        requires
            old(state).wf(),
        ensures
            final(state).wf(),
            ({
                let st = old(state)@;
                let boundary = boundary_of(st.watermarks);
                &&& r.0.0 == boundary
                &&& final(state)@ == truncated(st)
                &&& key_views(r.1@) == freed_by_truncation(st)
            }),
    {
        let ghost st = state@;
        let boundary = self.gc_boundary(state);
        let mut keys: Vec<[u8; 32]> = Vec::new();
        assert(key_views(keys@) =~= Seq::<Seq<u8>>::empty());
        if state.inline_attached && boundary.0 > 0 {
            let gone = pick_numbered(&state.deltas, 0, boundary.0 - 1);
            keys = keys_of(&gone);
        }
        let kept = pick_numbered(&state.deltas, boundary.0, u64::MAX);
        state.deltas = kept;
        assert(state@ =~= (SmView { deltas: from_boundary(st.deltas, boundary.0), ..st }));
        (boundary, keys)
    }

    /// Compacts the shard: of each key only the latest delta stays, and not even
    /// that where it is a tombstone that every consumer has passed. Returns how many
    /// deltas went, and the inline keys that this frees.
    pub fn compact_shard(&self, state: &mut ShardSmInner) -> (r: (u64, Vec<[u8; 32]>))
        requires
            old(state).wf(),
        ensures
            final(state).wf(),
            ({
                let st = old(state)@;
                let kept = final(state)@.deltas;
                &&& shard_compacted(st.deltas, boundary_of(st.watermarks), kept)
                &&& final(state)@ == compacted_to(st, kept)
                &&& r.0 == st.deltas.len() - kept.len()
                &&& key_views(r.1@) == freed_by_compaction(st, kept)
            }),
    {
        let ghost st = state@;
        let ghost d = st.deltas;
        let boundary = match state.watermarks.gc_boundary() {
            Some(b) => b,
            None => SequenceNumber(0),
        };
        let before: usize = state.deltas.len();
        let marked = mark_survivors(&state.deltas, boundary.0);
        let kept = pick_marked(&state.deltas, &marked, Ghost(survivors(d, boundary.0)));
        proof {
            let picked = choose|picked: Seq<usize>| #[trigger]
                selection(sequences(d), survivors(d, boundary.0), picked) && picked_deltas(
                    d,
                    picked,
                    delta_views(kept@),
                );
            lemma_selection_len(sequences(d), survivors(d, boundary.0), picked);
            assert(shard_compacted(d, boundary.0, delta_views(kept@)));
        }
        let mut keys: Vec<[u8; 32]> = Vec::new();
        assert(key_views(keys@) =~= Seq::<Seq<u8>>::empty());
        if state.inline_attached {
            keys = lost_keys(&state.deltas, &kept);
        }
        let after: usize = kept.len();
        state.deltas = kept;
        state.delta_count = after as u64;
        ((before - after) as u64, keys)
    }
}

// ---------------------------------------------------------------------------
// Start-up
// ---------------------------------------------------------------------------

/// Whether the text of a refused initialisation says that the group is already
/// initialised.
pub open spec fn says_initialized(message: Seq<char>) -> bool {
    text_contains(message, "not allowed"@) || text_contains(message, "already initialized"@)
}

/// The outcome of initialising the group: one that is already initialised is fine.
pub fn membership_initialized(outcome: Result<(), String>) -> (r: Result<(), LogError>)
    ensures
        match outcome {
            Ok(()) => r is Ok,
            Err(m) => if says_initialized(m@) {
                r is Ok
            } else {
                r == Err::<(), LogError>(LogError::Unavailable)
            },
        },
{
    match outcome {
        Ok(()) => Ok(()),
        Err(m) => {
            if contains_text(m.as_str(), "not allowed") || contains_text(
                m.as_str(),
                "already initialized",
            ) {
                Ok(())
            } else {
                Err(LogError::Unavailable)
            }
        },
    }
}

/// What a list of members holds.
pub open spec fn member_views(s: Seq<(u64, String)>) -> Seq<(u64, Seq<char>)> {
    Seq::new(s.len(), |i: int| (s[i].0, s[i].1@))
}

/// The first members of a group: the configured peers, or node one on this machine
/// where none is configured.
pub fn initial_members(peers: Vec<(u64, String)>) -> (r: Vec<(u64, String)>)
    ensures
        member_views(r@) == (if peers@.len() > 0 {
            member_views(peers@)
        } else {
            seq![(1u64, "localhost:9201"@)]
        }),
{
    if peers.len() > 0 {
        return peers;
    }
    let mut one: Vec<(u64, String)> = Vec::new();
    one.push((1, "localhost:9201".to_owned()));
    assert(member_views(one@) =~= seq![(1u64, "localhost:9201"@)]);
    one
}

/// Whether syncs of the log are coalesced, and how: only where the window and the
/// batch are both set to positive numbers.
pub fn fsync_coalescing(window_us: Option<&str>, max_batch: Option<&str>) -> (r: Option<
    (u64, usize),
>)
    ensures
        ({
            let w = positive_or(text_of(window_us), u64::MAX as nat, 0);
            let b = positive_or(text_of(max_batch), usize::MAX as nat, 0);
            if w > 0 && b > 0 {
                r == Some((w as u64, b as usize))
            } else {
                r is None
            }
        }),
{
    let w: u64 = positive_u64_or(window_us, 0);
    let b: usize = positive_usize_or(max_batch, 0);
    if w > 0 && b > 0 {
        Some((w, b))
    } else {
        None
    }
}

/// Where a replica keeps its log.
#[derive(Clone, Copy, Debug, PartialEq, Eq, Structural)]
pub enum LogBackend {
    /// In memory.
    Memory,
    /// On disk, with a sync of its own for each append.
    Disk,
    /// On disk, with syncs that wait for one another.
    DiskCoalesced {
        /// How long a sync waits, in microseconds.
        window_us: u64,
        /// How many share one sync at most.
        max_batch: usize,
    },
}

/// How a replica is put together.
#[derive(Clone, Copy, Debug, PartialEq, Eq, Structural)]
pub struct ReplicaPlan {
    /// Where the log is kept.
    pub backend: LogBackend,
    /// Whether the replica talks to others.
    pub networked: bool,
}

/// A step of putting a replica together.
#[derive(Clone, Copy, Debug, PartialEq, Eq, Structural)]
pub enum ConstructionStep {
    /// The directory of the log is made.
    CreateDirectory,
    /// The log is opened.
    OpenLog,
    /// The replica is started.
    StartReplica,
}

/// Where a replica keeps its log, with these settings of the coalescing.
pub open spec fn backend_of(
    durable: bool,
    window_us: Option<Seq<char>>,
    max_batch: Option<Seq<char>>,
) -> LogBackend {
    let w = positive_or(window_us, u64::MAX as nat, 0);
    let b = positive_or(max_batch, usize::MAX as nat, 0);
    if !durable {
        LogBackend::Memory
    } else if w > 0 && b > 0 {
        LogBackend::DiskCoalesced { window_us: w as u64, max_batch: b as usize }
    } else {
        LogBackend::Disk
    }
}

/// How a replica is put together: on disk where there is a data directory, with a
/// network where there is more than one member.
pub fn plan_replica(
    members: usize,
    durable: bool,
    window_us: Option<&str>,
    max_batch: Option<&str>,
) -> (r: ReplicaPlan)
    ensures
        r.networked == (members > 1),
        r.backend == backend_of(durable, text_of(window_us), text_of(max_batch)),
{
    let backend = if !durable {
        LogBackend::Memory
    } else {
        match fsync_coalescing(window_us, max_batch) {
            Some((window_us, max_batch)) => LogBackend::DiskCoalesced { window_us, max_batch },
            None => LogBackend::Disk,
        }
    };
    ReplicaPlan { backend, networked: members > 1 }
}

/// The name of a shard's log below the directory of the logs.
pub fn log_name(shard_id: ShardId) -> (r: String)
    ensures
        r@ == "shard-"@ + uuid_text(shard_id.0),
{
    let id = uuid_to_string(shard_id.0);
    join2("shard-", id.as_str())
}

/// What is said of a step that failed, before the cause.
pub open spec fn construction_context(plan: ReplicaPlan, step: ConstructionStep, path: Seq<char>) -> Seq<
    char,
> {
    match step {
        ConstructionStep::CreateDirectory => "create_dir_all("@ + path + "): "@,
        ConstructionStep::OpenLog => if plan.backend is DiskCoalesced {
            "fjall open (coalesced) at "@ + path + ": "@
        } else {
            "fjall open at "@ + path + ": "@
        },
        ConstructionStep::StartReplica => (if plan.networked {
            "Raft::new multi-node"@
        } else {
            "Raft::new single-node"@
        }) + (if plan.backend is Memory {
            " (mem-store): "@
        } else {
            ": "@
        }),
    }
}

/// The error of a step that failed: which step it was, then the cause.
pub fn construction_error(plan: ReplicaPlan, step: ConstructionStep, path: &str, cause: &str) -> (r:
    LogError)
    ensures
        r matches LogError::StoreConstruction(m) && m@ == construction_context(plan, step, path@)
            + cause@,
{
    let context = match step {
        ConstructionStep::CreateDirectory => join3("create_dir_all(", path, "): "),
        ConstructionStep::OpenLog => match plan.backend {
            LogBackend::DiskCoalesced { .. } => join3("fjall open (coalesced) at ", path, ": "),
            _ => join3("fjall open at ", path, ": "),
        },
        ConstructionStep::StartReplica => {
            let start = if plan.networked {
                "Raft::new multi-node"
            } else {
                "Raft::new single-node"
            };
            match plan.backend {
                LogBackend::Memory => join2(start, " (mem-store): "),
                _ => join2(start, ": "),
            }
        },
    };
    LogError::StoreConstruction(join2(context.as_str(), cause))
}

// ---------------------------------------------------------------------------
// Laws
// ---------------------------------------------------------------------------

/// A write is read back: once the command of a request is applied, its answer is
/// the number of the delta, and a read of that number gives one delta, with what
/// the request held.
pub proof fn written_delta_is_read_back(
    st: SmView,
    cmd: LogCommand,
    req: AppendView,
    log_index: u64,
    now_ms: u64,
)
    requires
        in_order(st),
        has_room(st, cmd),
        appends(cmd, draft_of(req)),
        !(req.has_inline_data && st.inline_attached),
    ensures
        ({
            let next = applied(st, cmd, log_index, now_ms);
            let seq = (st.tip + 1) as u64;
            let got = reads_of(numbered(next.deltas, seq, seq), st.inline_attached);
            &&& append_answer(
                Ok(response(st, cmd, log_index, now_ms)),
                st.shard_id,
                false,
            ) == Ok::<SequenceNumber, LogError>(SequenceNumber(seq))
            &&& got.len() == 1
            &&& got[0].delta.header.sequence == seq
            &&& got[0].delta.header.tenant_id == req.tenant_id
            &&& got[0].delta.header.operation == req.operation
            &&& got[0].delta.header.hashed_key == req.hashed_key
            &&& got[0].delta.header.chunk_refs == req.chunk_refs
            &&& got[0].delta.payload.ciphertext == req.payload
        }),
{
    op_code_round_trip(req.operation);
    let seq = (st.tip + 1) as u64;
    let next = applied(st, cmd, log_index, now_ms);
    assert(next.deltas.drop_last() =~= st.deltas);
    assert forall|i: int| 0 <= i < st.deltas.len() implies !(seq <= (
    #[trigger] st.deltas[i]).header.sequence <= seq) by {}
    lemma_numbered_none(st.deltas, seq, seq);
}

/// A moved delta is read back with its timestamp: once the command of its request is
/// applied, its answer is the number of the delta, and a read of that number gives
/// one delta, with what the request held.
pub proof fn moved_delta_is_read_back(
    st: SmView,
    cmd: LogCommand,
    req: AppendView,
    log_index: u64,
    now_ms: u64,
)
    requires
        in_order(st),
        has_room(st, cmd),
        moves(cmd, draft_of(req), req.timestamp),
        !(req.has_inline_data && st.inline_attached),
    ensures
        ({
            let next = applied(st, cmd, log_index, now_ms);
            let seq = (st.tip + 1) as u64;
            let got = reads_of(numbered(next.deltas, seq, seq), st.inline_attached);
            &&& append_answer(
                Ok(response(st, cmd, log_index, now_ms)),
                st.shard_id,
                false,
            ) == Ok::<SequenceNumber, LogError>(SequenceNumber(seq))
            &&& got.len() == 1
            &&& got[0].delta.header.sequence == seq
            &&& got[0].delta.header.timestamp == req.timestamp
            &&& got[0].delta.header.tenant_id == req.tenant_id
            &&& got[0].delta.header.operation == req.operation
            &&& got[0].delta.header.hashed_key == req.hashed_key
            &&& got[0].delta.header.chunk_refs == req.chunk_refs
            &&& got[0].delta.payload.ciphertext == req.payload
        }),
{
    op_code_round_trip(req.operation);
    let seq = (st.tip + 1) as u64;
    let next = applied(st, cmd, log_index, now_ms);
    assert(next.deltas.drop_last() =~= st.deltas);
    assert forall|i: int| 0 <= i < st.deltas.len() implies !(seq <= (
    #[trigger] st.deltas[i]).header.sequence <= seq) by {}
    lemma_numbered_none(st.deltas, seq, seq);
}

/// An offloaded payload is read back: the delta of an inline write asks for the key
/// under which its payload was stored, and with that payload it is the delta that
/// was written.
pub proof fn inline_write_is_read_back(
    st: SmView,
    cmd: LogCommand,
    req: AppendView,
    log_index: u64,
    now_ms: u64,
)
    requires
        in_order(st),
        has_room(st, cmd),
        appends(cmd, draft_of(req)),
        req.has_inline_data,
        st.inline_attached,
    ensures
        ({
            let next = applied(st, cmd, log_index, now_ms);
            let seq = (st.tip + 1) as u64;
            let got = reads_of(numbered(next.deltas, seq, seq), st.inline_attached);
            let puts = inline_puts(st, cmd, log_index, now_ms);
            &&& got.len() == 1
            &&& puts.len() == 1
            &&& got[0].inline_key == Some(puts[0].key)
            &&& puts[0].payload == req.payload
            &&& resolved(got[0], Some(puts[0].payload)).payload.ciphertext == req.payload
        }),
{
    op_code_round_trip(req.operation);
    let seq = (st.tip + 1) as u64;
    let next = applied(st, cmd, log_index, now_ms);
    assert(next.deltas.drop_last() =~= st.deltas);
    assert forall|i: int| 0 <= i < st.deltas.len() implies !(seq <= (
    #[trigger] st.deltas[i]).header.sequence <= seq) by {}
    lemma_numbered_none(st.deltas, seq, seq);
}

/// What a range of numbers picks of deltas in order is in order, and picked from
/// them.
proof fn lemma_numbered_in_order(d: Seq<DeltaView>, from: u64, to: u64, tip: u64)
    requires
        forall|i: int, j: int|
            0 <= i < j < d.len() ==> (#[trigger] d[i]).header.sequence < (
            #[trigger] d[j]).header.sequence,
        forall|i: int| 0 <= i < d.len() ==> (#[trigger] d[i]).header.sequence <= tip,
    ensures
        ({
            let n = numbered(d, from, to);
            &&& forall|i: int, j: int|
                0 <= i < j < n.len() ==> (#[trigger] n[i]).header.sequence < (
                #[trigger] n[j]).header.sequence
            &&& forall|i: int| 0 <= i < n.len() ==> (#[trigger] n[i]).header.sequence <= tip
            &&& d.len() > 0 ==> forall|i: int|
                0 <= i < n.len() ==> (#[trigger] n[i]).header.sequence <= d.last().header.sequence
        }),
    decreases d.len(),
{
    if d.len() > 0 {
        let f = d.drop_last();
        assert forall|i: int, j: int| 0 <= i < j < f.len() implies (
        #[trigger] f[i]).header.sequence < (#[trigger] f[j]).header.sequence by {
            assert(f[i] == d[i] && f[j] == d[j]);
        }
        assert forall|i: int| 0 <= i < f.len() implies (#[trigger] f[i]).header.sequence
            <= tip by {
            assert(f[i] == d[i]);
        }
        lemma_numbered_in_order(f, from, to, tip);
        assert(d[d.len() - 1] == d.last());
        if f.len() > 0 {
            assert(f.last() == d[d.len() - 2]);
            assert(f.last().header.sequence < d.last().header.sequence);
        }
    }
}

/// Dropping the deltas that every consumer has passed keeps the rest in order.
pub proof fn truncation_keeps_deltas_in_order(st: SmView)
    requires
        in_order(st),
    ensures
        in_order(
            SmView { deltas: from_boundary(st.deltas, boundary_of(st.watermarks)), ..st },
        ),
{
    lemma_numbered_in_order(st.deltas, boundary_of(st.watermarks), u64::MAX, st.tip);
}

/// A compaction leaves the deltas in order, and only deltas that were there.
pub proof fn compaction_keeps_deltas_in_order(st: SmView, kept: Seq<DeltaView>)
    requires
        in_order(st),
        shard_compacted(st.deltas, boundary_of(st.watermarks), kept),
    ensures
        in_order(SmView { deltas: kept, delta_count: kept.len() as u64, ..st }),
        forall|k: int| 0 <= k < kept.len() ==> st.deltas.contains(#[trigger] kept[k]),
{
    let d = st.deltas;
    let keep = survivors(d, boundary_of(st.watermarks));
    let picked = choose|picked: Seq<usize>| #[trigger]
        selection(sequences(d), keep, picked) && picked_deltas(d, picked, kept);
    assert forall|i: int, j: int| 0 <= i < j < kept.len() implies (
    #[trigger] kept[i]).header.sequence < (#[trigger] kept[j]).header.sequence by {
        let a = picked[i] as int;
        let b = picked[j] as int;
        assert(kept[i] == d[a] && kept[j] == d[b]);
        assert(sequences(d)[a] == d[a].header.sequence && sequences(d)[b]
            == d[b].header.sequence);
        if d[a].header.sequence == d[b].header.sequence {
            assert(a < b);
        }
    }
    assert forall|k: int| 0 <= k < kept.len() implies st.deltas.contains(#[trigger] kept[k]) by {
        assert(kept[k] == d[picked[k] as int]);
    }
    assert forall|k: int| 0 <= k < kept.len() implies (#[trigger] kept[k]).header.sequence
        <= st.tip by {
        assert(kept[k] == d[picked[k] as int]);
    }
}

} // verus!
