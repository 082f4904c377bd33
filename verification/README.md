# kiseki_log

A sharded, replicated delta log, with its logic verified in Verus.

- `src/` is the library. Every function states what it returns or changes, and
  the statement is proved. Laws that relate several functions stand as public
  proof functions beside them.
- `app/` is what touches the outside: disk, network, metrics, timers and tasks. It
  hands the library plain values and does what the library answers.
- `tests/` runs the library on concrete values.

Where to look first:

| Module | What it holds |
| --- | --- |
| `raft::state_machine`, `raft::laws` | the replicated state of a shard and what every command keeps |
| `raft::openraft_store`, `raft::snapshot` | requests, answers, reads and snapshots of one replica |
| `raft_store`, `store`, `persistent_store` | shard stores behind one trait, and their restart |
| `intent`, `intent_codec`, `intent_disk` | writes on their way into the log, in memory and on disk |
| `intent_committer`, `shard_committer`, `supervisor`, `committer_pipeline` | recovery after an election and the drain into the log |
| `intent_fan_coalescer`, `intent_recv_coalescer`, `intent_sync` | quorum writes between nodes |
| `auto_split`, `merge`, `compaction_worker`, `raft_shard_store` | life of a shard |
| `grpc`, `metrics`, `error` | what callers see |

Calls into other crates (`uuid`, `postcard`) stand behind functions marked
`external_body`. Their doc comments say what is taken on trust.
