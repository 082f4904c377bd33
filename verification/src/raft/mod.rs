//! The replicated state machine of a shard.

pub mod guarantees;
pub mod laws;
pub mod openraft_store;
pub mod replica_laws;
pub mod snapshot;
pub mod state_machine;
pub mod test_cluster;
pub mod types;
