//! Errors of the log, and how callers of the system see them.

use vstd::prelude::*;
use vstd::string::*;

use crate::ids::{uuid_nil, NodeId, ShardId};
use crate::text::{decimal, join2, join4, node_string, shard_string};
use crate::text::{decimal_text, node_text, shard_text};

verus! {

/// Errors of log operations.
#[derive(Debug)]
pub enum LogError {
    /// No such shard.
    ShardNotFound(ShardId),
    /// The shard is in maintenance mode.
    MaintenanceMode(ShardId),
    /// The shard is splitting.
    ShardSplitting(ShardId),
    /// No leader is known.
    LeaderUnavailable(ShardId),
    /// The leader is another node, and it is known.
    ForwardToLeader {
        /// The shard.
        shard_id: ShardId,
        /// Its leader.
        leader_node_id: NodeId,
    },
    /// Quorum lost.
    QuorumLost(ShardId),
    /// The key is outside the shard's range.
    KeyOutOfRange(ShardId),
    /// A split or a merge is in progress.
    ShardBusy {
        /// The shard.
        shard_id: ShardId,
        /// Which operation is in progress.
        reason: &'static str,
    },
    /// The requested range is invalid.
    InvalidRange(ShardId),
    /// The delta log was pruned, so a full replay would lose deltas.
    DeltaLogPruned {
        /// The shard.
        shard_id: ShardId,
        /// The boundary up to which it was pruned.
        gc_boundary: u64,
    },
    /// Replication is unavailable.
    Unavailable,
    /// The store could not be constructed.
    StoreConstruction(String),
    /// Backing I/O failed; the cause as text.
    Io(String),
}

/// The message of an error.
pub open spec fn log_error_text(e: LogError) -> Seq<char> {
    match e {
        LogError::ShardNotFound(id) => "shard not found: "@ + shard_text(id),
        LogError::MaintenanceMode(id) => "shard in maintenance mode: "@ + shard_text(id),
        LogError::ShardSplitting(id) => "shard splitting: "@ + shard_text(id),
        LogError::LeaderUnavailable(id) => "leader unavailable: "@ + shard_text(id),
        LogError::ForwardToLeader {
            shard_id,
            leader_node_id,
        } => "forward to leader: shard="@ + shard_text(shard_id) + " leader="@ + node_text(
            leader_node_id,
        ),
        LogError::QuorumLost(id) => "quorum lost: "@ + shard_text(id),
        LogError::KeyOutOfRange(id) => "key out of range for shard "@ + shard_text(id),
        LogError::ShardBusy { shard_id, reason } => "shard busy: "@ + reason@,
        LogError::InvalidRange(id) => "invalid sequence range for shard "@ + shard_text(id),
        LogError::DeltaLogPruned { shard_id, gc_boundary } => "delta log pruned for shard "@
            + shard_text(shard_id) + " (gc boundary "@ + decimal_text(gc_boundary as nat)
            + " > 1); full-replay lifecycle op refused"@,
        LogError::Unavailable => "raft unavailable"@,
        LogError::StoreConstruction(msg) => "raft log store construction failed: "@ + msg@,
        LogError::Io(msg) => "log I/O error: "@ + msg@,
    }
}

/// Errors that a caller may retry.
#[derive(Clone, Copy, Debug, PartialEq, Eq, Structural)]
pub enum RetriableError {
    /// The shard cannot be reached right now.
    ShardUnavailable(ShardId),
    /// The shard is in maintenance mode.
    MaintenanceMode(ShardId),
    /// The shard has lost its quorum.
    QuorumLost(ShardId),
}

/// Errors that retrying cannot cure.
#[derive(Debug, PartialEq, Eq)]
pub enum PermanentError {
    /// Data of the shard is missing or damaged.
    DataCorruption(ShardId),
    /// An invariant does not hold.
    InvariantViolation(String),
}

/// Errors as callers of the system see them.
#[derive(Debug, PartialEq, Eq)]
pub enum KisekiError {
    /// May be retried.
    Retriable(RetriableError),
    /// May not.
    Permanent(PermanentError),
}

/// What a [`KisekiError`] holds.
pub enum KisekiErrorView {
    Retriable(RetriableError),
    DataCorruption(ShardId),
    InvariantViolation(Seq<char>),
}

impl View for KisekiError {
    type V = KisekiErrorView;

    open spec fn view(&self) -> KisekiErrorView {
        match self {
            KisekiError::Retriable(e) => KisekiErrorView::Retriable(*e),
            KisekiError::Permanent(PermanentError::DataCorruption(
                id,
            )) => KisekiErrorView::DataCorruption(*id),
            KisekiError::Permanent(PermanentError::InvariantViolation(
                msg,
            )) => KisekiErrorView::InvariantViolation(msg@),
        }
    }
}

/// How callers of the system see an error of the log.
pub open spec fn seen_as(e: LogError) -> KisekiErrorView {
    match e {
        LogError::ShardNotFound(id) => KisekiErrorView::DataCorruption(id),
        LogError::MaintenanceMode(id) => KisekiErrorView::Retriable(
            RetriableError::MaintenanceMode(id),
        ),
        LogError::LeaderUnavailable(id) | LogError::ShardSplitting(
            id,
        ) => KisekiErrorView::Retriable(RetriableError::ShardUnavailable(id)),
        LogError::ForwardToLeader { shard_id, .. } | LogError::ShardBusy {
            shard_id,
            ..
        } => KisekiErrorView::Retriable(RetriableError::ShardUnavailable(shard_id)),
        LogError::QuorumLost(id) => KisekiErrorView::Retriable(RetriableError::QuorumLost(id)),
        LogError::KeyOutOfRange(id) | LogError::InvalidRange(
            id,
        ) => KisekiErrorView::InvariantViolation("log error on shard "@ + shard_text(id)),
        LogError::DeltaLogPruned {
            shard_id,
            gc_boundary,
        } => KisekiErrorView::InvariantViolation(
            "delta log pruned for shard "@ + shard_text(shard_id) + " (gc boundary "@
                + decimal_text(gc_boundary as nat) + ")"@,
        ),
        LogError::Unavailable => KisekiErrorView::Retriable(
            RetriableError::ShardUnavailable(ShardId(0)),
        ),
        LogError::StoreConstruction(msg) => KisekiErrorView::InvariantViolation(
            "raft store construction: "@ + msg@,
        ),
        LogError::Io(msg) => KisekiErrorView::InvariantViolation("log I/O error: "@ + msg@),
    }
}

impl LogError {
    /// The message of this error.
    pub fn message(&self) -> (r: String)
        ensures
            r@ == log_error_text(*self),
    {
        match self {
            LogError::ShardNotFound(id) => join2("shard not found: ", shard_string(*id).as_str()),
            LogError::MaintenanceMode(id) => join2(
                "shard in maintenance mode: ",
                shard_string(*id).as_str(),
            ),
            LogError::ShardSplitting(id) => join2("shard splitting: ", shard_string(*id).as_str()),
            LogError::LeaderUnavailable(id) => join2(
                "leader unavailable: ",
                shard_string(*id).as_str(),
            ),
            LogError::ForwardToLeader { shard_id, leader_node_id } => join4(
                "forward to leader: shard=",
                shard_string(*shard_id).as_str(),
                " leader=",
                node_string(*leader_node_id).as_str(),
            ),
            LogError::QuorumLost(id) => join2("quorum lost: ", shard_string(*id).as_str()),
            LogError::KeyOutOfRange(id) => join2(
                "key out of range for shard ",
                shard_string(*id).as_str(),
            ),
            LogError::ShardBusy { shard_id: _, reason } => join2("shard busy: ", *reason),
            LogError::InvalidRange(id) => join2(
                "invalid sequence range for shard ",
                shard_string(*id).as_str(),
            ),
            LogError::DeltaLogPruned { shard_id, gc_boundary } => {
                let mut s = join4(
                    "delta log pruned for shard ",
                    shard_string(*shard_id).as_str(),
                    " (gc boundary ",
                    decimal(*gc_boundary).as_str(),
                );
                s.append(" > 1); full-replay lifecycle op refused");
                s
            },
            LogError::Unavailable => "raft unavailable".to_owned(),
            LogError::StoreConstruction(msg) => join2(
                "raft log store construction failed: ",
                msg.as_str(),
            ),
            LogError::Io(msg) => join2("log I/O error: ", msg.as_str()),
        }
    }

    /// This error as callers of the system see it.
    pub fn into_kiseki(self) -> (r: KisekiError)
        ensures
            r@ == seen_as(self),
    {
        match self {
            LogError::ShardNotFound(id) => KisekiError::Permanent(
                PermanentError::DataCorruption(id),
            ),
            LogError::MaintenanceMode(id) => KisekiError::Retriable(
                RetriableError::MaintenanceMode(id),
            ),
            LogError::LeaderUnavailable(id) | LogError::ShardSplitting(
                id,
            ) => KisekiError::Retriable(RetriableError::ShardUnavailable(id)),
            LogError::ForwardToLeader { shard_id, leader_node_id: _ } => KisekiError::Retriable(
                RetriableError::ShardUnavailable(shard_id),
            ),
            LogError::ShardBusy { shard_id, reason: _ } => KisekiError::Retriable(
                RetriableError::ShardUnavailable(shard_id),
            ),
            LogError::QuorumLost(id) => KisekiError::Retriable(RetriableError::QuorumLost(id)),
            LogError::KeyOutOfRange(id) | LogError::InvalidRange(id) => KisekiError::Permanent(
                PermanentError::InvariantViolation(
                    join2("log error on shard ", shard_string(id).as_str()),
                ),
            ),
            LogError::DeltaLogPruned { shard_id, gc_boundary } => {
                let mut s = join4(
                    "delta log pruned for shard ",
                    shard_string(shard_id).as_str(),
                    " (gc boundary ",
                    decimal(gc_boundary).as_str(),
                );
                s.append(")");
                KisekiError::Permanent(PermanentError::InvariantViolation(s))
            },
            LogError::Unavailable => KisekiError::Retriable(
                RetriableError::ShardUnavailable(ShardId(uuid_nil())),
            ),
            LogError::StoreConstruction(msg) => KisekiError::Permanent(
                PermanentError::InvariantViolation(
                    join2("raft store construction: ", msg.as_str()),
                ),
            ),
            LogError::Io(msg) => KisekiError::Permanent(
                PermanentError::InvariantViolation(join2("log I/O error: ", msg.as_str())),
            ),
        }
    }
}

} // verus!
