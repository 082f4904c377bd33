//! Verified logic of a sharded, replicated delta log.
//!
//! Every item below is executable Rust whose behaviour is stated in its
//! contract and proved. Network, disk, clocks of other machines and async
//! plumbing live outside this crate: they hand it plain values and perform the
//! actions it returns.

pub mod auto_split;
pub mod bytes;
pub mod codec;
pub mod command;
pub mod committer_pipeline;
pub mod compaction_worker;
pub mod delta;
pub mod drain_laws;
pub mod error;
pub mod grpc;
pub mod ids;
pub mod inline_store;
pub mod intent;
pub mod intent_codec;
pub mod intent_committer;
pub mod intent_disk;
pub mod intent_fan_coalescer;
pub mod intent_laws;
pub mod intent_metrics;
pub mod intent_recv_coalescer;
pub mod intent_sync;
pub mod merge;
pub mod metrics;
pub mod ordered_map;
pub mod persistent_store;
pub mod raft;
pub mod raft_intent_sink;
pub mod raft_shard_store;
pub mod raft_store;
pub mod reissue;
pub mod settings;
pub mod shard;
pub mod shard_committer;
pub mod shard_laws;
pub mod sort;
pub mod store;
pub mod supervisor;
pub mod text;
pub mod time;
pub mod traits;
pub mod watermark;
pub mod wire_laws;

pub use delta::{Delta, DeltaHeader, DeltaPayload, OperationType};
pub use error::LogError;
pub use raft_store::RaftLogStore;
pub use shard::{ShardConfig, ShardInfo, ShardState};
pub use store::MemShardStore;
pub use traits::{AppendDeltaRequest, LogOps, ReadDeltasRequest};
pub use watermark::ConsumerWatermarks;
