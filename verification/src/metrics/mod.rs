//! What is recorded of an operation.

pub mod outcome;

use vstd::prelude::*;

use crate::error::LogError;
use crate::metrics::outcome::{ERROR, FORWARD_TO_LEADER, OK, SHARD_NOT_FOUND};

verus! {

/// The outcome label of an error.
pub open spec fn label_of(e: LogError) -> &'static str {
    match e {
        LogError::ShardNotFound(_) => SHARD_NOT_FOUND,
        LogError::ForwardToLeader { .. } => FORWARD_TO_LEADER,
        _ => ERROR,
    }
}

/// The outcome label of an error.
pub fn outcome_for(err: &LogError) -> (r: &'static str)
    ensures
        r == label_of(*err),
{
    match err {
        LogError::ShardNotFound(_) => SHARD_NOT_FOUND,
        LogError::ForwardToLeader { .. } => FORWARD_TO_LEADER,
        _ => ERROR,
    }
}

/// The outcome label of an operation.
pub fn outcome_label<T>(result: &Result<T, LogError>) -> (r: &'static str)
    ensures
        r == (match *result {
            Ok(_) => OK,
            Err(e) => label_of(e),
        }),
{
    match result {
        Ok(_) => OK,
        Err(e) => outcome_for(e),
    }
}

/// The outcome label of a compaction, and how many deltas it removed.
pub fn compaction_record(result: &Result<u64, LogError>) -> (r: (&'static str, u64))
    ensures
        match *result {
            Ok(n) => r == (OK, n),
            Err(e) => r == (label_of(e), 0u64),
        },
{
    match result {
        Ok(n) => (OK, *n),
        Err(e) => (outcome_for(e), 0),
    }
}

/// A sequence number as a gauge shows it: what does not fit shows as the largest.
pub fn gauge_value(seq: u64) -> (r: i64)
    ensures
        r == (if seq <= i64::MAX {
            seq as int
        } else {
            i64::MAX as int
        }),
{
    if seq <= i64::MAX as u64 {
        seq as i64
    } else {
        i64::MAX
    }
}

} // verus!
