//! Outcome labels of operations.

use vstd::prelude::*;

verus! {

/// The operation completed.
pub const OK: &'static str = "ok";

/// The operation failed in a way that has no label of its own.
pub const ERROR: &'static str = "error";

/// There is no such shard.
pub const SHARD_NOT_FOUND: &'static str = "shard_not_found";

/// Another replica is the leader.
pub const FORWARD_TO_LEADER: &'static str = "forward_to_leader";

} // verus!
