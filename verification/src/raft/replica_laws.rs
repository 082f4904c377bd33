//! What a replica of a shard promises: what a request becomes in the log, what a read
//! and a snapshot give back, how inline writes are metered, and who leads.

use vstd::arithmetic::div_mod::lemma_div_denominator;
use vstd::arithmetic::power::{lemma_pow_positive, pow};
use vstd::prelude::*;

use crate::bytes::{be_bytes, be_value, le_bytes};
use crate::command::{InlinePutView, LogCommand, NewChunkView};
use crate::delta::{op_code, DeltaView, OperationType};
use crate::error::LogError;
use crate::ids::{NodeId, SequenceNumber, ShardId};
use crate::inline_store::inline_key;
use crate::raft::openraft_store::{
    append_answer, appends, appends_chunks, backend_of, below_boundary, compacted_to, draft_of,
    exceeded_by, forwarding_error, freed_by_compaction, freed_by_truncation, has_sequence,
    health_of, lost, moves, plain_error, read_of, reads_of, recorded_by, resolved, says_initialized,
    total_size, truncated, InlineRateMeter, LogBackend, OpenRaftLogStore, WriteFailure,
    WriteOutcome,
};
use crate::raft::snapshot::{
    captures, exceeds_message, installed, installed_puts, readback_keys, stores, SnapshotView,
    StoredDelta,
};
use crate::raft::state_machine::{
    applied, at_least_one, entry_applied, entry_response, has_room, has_room_for_entry, reading_ms,
    response, EntryPayload, SmView,
};
use crate::raft::test_cluster::{
    delivery, has_majority, joins, touches, votes_for, Delivery, Link,
};
use crate::raft::types::LogResponse;
use crate::raft_store::boundary_of;
use crate::settings::positive_or;
use crate::shard::ShardState;
use crate::shard_laws::read_gives_the_numbers_asked_for;
use crate::text::stands_at;
use crate::traits::AppendView;

verus! {

// ---------------------------------------------------------------------------
// Requests and answers
// ---------------------------------------------------------------------------

/// Law: an operation is written as its place in the list of operations.
pub proof fn operations_are_numbered_in_order(op: OperationType)
    ensures
        op_code(op) == (match op {
            OperationType::Create => 0int,
            OperationType::Update => 1,
            OperationType::Delete => 2,
            OperationType::Rename => 3,
            OperationType::SetAttribute => 4,
            OperationType::Finalize => 5,
            OperationType::NamespaceCreate => 6,
            OperationType::MigrateChunkLocations => 7,
        }),
        crate::delta::op_of_code(op_code(op)) == op,
{
}

/// Whether the parts of a command are those of a request.
pub open spec fn parts_of(
    req: AppendView,
    tenant_id_bytes: [u8; 16],
    operation: u8,
    hashed_key: [u8; 32],
    chunk_refs: Seq<[u8; 32]>,
    payload: Seq<u8>,
    has_inline_data: bool,
) -> bool {
    &&& be_value(tenant_id_bytes@) as u128 == req.tenant_id.0
    &&& crate::delta::op_of_code(operation) == req.operation
    &&& hashed_key == req.hashed_key
    &&& chunk_refs.len() == req.chunk_refs.len()
    &&& forall|i: int|
        0 <= i < chunk_refs.len() ==> (#[trigger] req.chunk_refs[i]).0 == chunk_refs[i]
    &&& payload == req.payload
    &&& has_inline_data == req.has_inline_data
}

/// Law: the command of an append holds what the request held, and so do that of a
/// move, with the timestamp of the request, and that of an append with chunks, with
/// the chunks and payloads that came with it.
pub proof fn command_holds_the_request(
    cmd: LogCommand,
    req: AppendView,
    chunks: Seq<NewChunkView>,
    puts: Seq<InlinePutView>,
)
    ensures
        appends(cmd, draft_of(req)) ==> (cmd matches LogCommand::AppendDelta {
            tenant_id_bytes,
            operation,
            hashed_key,
            chunk_refs,
            payload,
            has_inline_data,
        } && parts_of(
            req,
            tenant_id_bytes,
            operation,
            hashed_key,
            chunk_refs@,
            payload@,
            has_inline_data,
        )),
        moves(cmd, draft_of(req), req.timestamp) ==> (cmd matches LogCommand::MoveDelta {
            tenant_id_bytes,
            operation,
            hashed_key,
            chunk_refs,
            payload,
            has_inline_data,
            timestamp,
        } && timestamp@ == req.timestamp && parts_of(
            req,
            tenant_id_bytes,
            operation,
            hashed_key,
            chunk_refs@,
            payload@,
            has_inline_data,
        )),
        appends_chunks(cmd, draft_of(req), chunks, puts) ==> (
        cmd matches LogCommand::ChunkAndDelta {
            tenant_id_bytes,
            operation,
            hashed_key,
            chunk_refs,
            payload,
            has_inline_data,
            new_chunks,
            inline_payloads,
        } && parts_of(
            req,
            tenant_id_bytes,
            operation,
            hashed_key,
            chunk_refs@,
            payload@,
            has_inline_data,
        ) && new_chunks@.len() == chunks.len() && (forall|i: int|
            0 <= i < chunks.len() ==> (#[trigger] new_chunks@[i])@ == chunks[i])
            && inline_payloads@.len() == puts.len() && (forall|i: int|
            0 <= i < puts.len() ==> (#[trigger] inline_payloads@[i])@ == puts[i])),
{
    crate::delta::op_code_round_trip(req.operation);
    let d = draft_of(req);
    match cmd {
        LogCommand::AppendDelta { chunk_refs, .. } => {
            assert(appends(cmd, d) ==> crate::command::chunk_ids(chunk_refs@) == req.chunk_refs);
        },
        LogCommand::MoveDelta { chunk_refs, .. } => {
            assert(moves(cmd, d, req.timestamp) ==> crate::command::chunk_ids(chunk_refs@)
                == req.chunk_refs);
        },
        LogCommand::ChunkAndDelta { chunk_refs, new_chunks, inline_payloads, .. } => {
            if appends_chunks(cmd, d, chunks, puts) {
                assert(crate::command::chunk_ids(chunk_refs@) == req.chunk_refs);
                assert forall|i: int| 0 <= i < chunks.len() implies (
                #[trigger] new_chunks@[i])@ == chunks[i] by {
                    assert(crate::command::new_chunk_views(new_chunks@)[i] == chunks[i]);
                }
                assert forall|i: int| 0 <= i < puts.len() implies (
                #[trigger] inline_payloads@[i])@ == puts[i] by {
                    assert(crate::command::inline_views(inline_payloads@)[i] == puts[i]);
                }
            }
        },
        _ => {},
    }
}

/// Law: an append is answered with a number exactly where one was given out, and with
/// that number. A caller that follows leaders is sent to the leader where it is known;
/// where there is a leader to wait for, the error names the shard, and otherwise the
/// shard is unavailable.
pub proof fn append_is_answered_with_its_number(
    outcome: WriteOutcome,
    shard_id: ShardId,
    forwarding: bool,
    n: u64,
)
    ensures
        append_answer(outcome, shard_id, forwarding) == Ok::<
            SequenceNumber,
            LogError,
        >(SequenceNumber(n)) <==> outcome == Ok::<LogResponse, WriteFailure>(
            LogResponse::Appended(n),
        ),
        outcome == Err::<LogResponse, WriteFailure>(
            WriteFailure::ForwardToLeader { leader: Some(n) },
        ) ==> append_answer(outcome, shard_id, forwarding) == Err::<
            SequenceNumber,
            LogError,
        >(
            if forwarding {
                LogError::ForwardToLeader { shard_id, leader_node_id: NodeId(n) }
            } else {
                LogError::LeaderUnavailable(shard_id)
            },
        ),
        outcome == Err::<LogResponse, WriteFailure>(
            WriteFailure::ForwardToLeader { leader: None },
        ) ==> append_answer(outcome, shard_id, forwarding) == Err::<
            SequenceNumber,
            LogError,
        >(LogError::LeaderUnavailable(shard_id)),
        outcome == Err::<LogResponse, WriteFailure>(WriteFailure::Other) || (outcome is Ok
            && !(outcome->Ok_0 is Appended)) ==> append_answer(outcome, shard_id, forwarding)
            == Err::<SequenceNumber, LogError>(LogError::Unavailable),
{
}

/// The refusal that names a leader.
pub open spec fn sends_to(n: u64) -> WriteFailure {
    WriteFailure::ForwardToLeader { leader: Some(n) }
}

/// Law: both kinds of callers learn the same of a failed write, but for the leader.
pub proof fn callers_differ_only_in_the_leader(err: WriteFailure, shard_id: ShardId)
    ensures
        forwarding_error(err, shard_id) is ForwardToLeader <==> (exists|n: u64|
            err == (#[trigger] sends_to(n))),
        !(forwarding_error(err, shard_id) is ForwardToLeader) ==> forwarding_error(err, shard_id)
            == plain_error(err, shard_id),
        plain_error(err, shard_id) == LogError::Unavailable <==> err is Other,
        !(err is Other) ==> plain_error(err, shard_id) == LogError::LeaderUnavailable(shard_id),
{
    match err {
        WriteFailure::ForwardToLeader { leader: Some(n) } => {
            assert(err == sends_to(n));
        },
        _ => {},
    }
}

/// Law: a group that says that it is initialised already is initialised: exactly where
/// one of two phrases stands somewhere in what it said.
pub proof fn phrase_may_stand_anywhere(message: Seq<char>)
    ensures
        says_initialized(message) <==> exists|i: int, j: int|
            0 <= i <= j <= message.len() && (#[trigger] message.subrange(i, j) == "not allowed"@
                || message.subrange(i, j) == "already initialized"@),
{
    if says_initialized(message) {
        if crate::text::text_contains(message, "not allowed"@) {
            let i = choose|i: int|
                0 <= i <= message.len() - "not allowed"@.len() && #[trigger] stands_at(
                    message,
                    "not allowed"@,
                    i,
                );
            assert(message.subrange(i, i + "not allowed"@.len()) == "not allowed"@);
        } else {
            let i = choose|i: int|
                0 <= i <= message.len() - "already initialized"@.len() && #[trigger] stands_at(
                    message,
                    "already initialized"@,
                    i,
                );
            assert(message.subrange(i, i + "already initialized"@.len())
                == "already initialized"@);
        }
    }
    if exists|i: int, j: int|
        0 <= i <= j <= message.len() && (#[trigger] message.subrange(i, j) == "not allowed"@
            || message.subrange(i, j) == "already initialized"@) {
        let (i, j) = choose|i: int, j: int|
            0 <= i <= j <= message.len() && (#[trigger] message.subrange(i, j) == "not allowed"@
                || message.subrange(i, j) == "already initialized"@);
        let part = message.subrange(i, j);
        assert(part.len() == j - i);
        assert(stands_at(message, part, i));
    }
}

// ---------------------------------------------------------------------------
// Rate of inline writes
// ---------------------------------------------------------------------------

/// Law: a meter counts every byte of its window. A write within the window adds its
/// bytes; the first one past it starts a window of its own; neither the length of the
/// window nor the budget changes. The answer says whether more has been written than
/// the budget allows for the age of the window, which counts as a millisecond at least.
pub proof fn meter_counts_every_byte(
    before: InlineRateMeter,
    bytes: u64,
    now: u64,
    after: InlineRateMeter,
    exceeded: bool,
)
    requires
        recorded_by(before, bytes, now, after, exceeded),
        before.window_bytes + bytes <= u64::MAX,
    ensures
        ({
            let past = now - before.window_start_ms > before.window_ms;
            let age = now - after.window_start_ms;
            &&& after.window_start_ms == (if past {
                now
            } else {
                before.window_start_ms
            })
            &&& after.window_bytes == (if past {
                0
            } else {
                before.window_bytes as int
            }) + bytes
            &&& after.window_ms == before.window_ms
            &&& after.budget_bytes_per_sec == before.budget_bytes_per_sec
            &&& exceeded <==> after.window_bytes * 1000 > after.budget_bytes_per_sec * (if age < 1 {
                1
            } else {
                age
            })
        }),
{
}

/// Law: what does not fit the counter is over any budget, and is not counted.
pub proof fn overflowing_write_is_over_budget(
    before: InlineRateMeter,
    bytes: u64,
    now: u64,
    after: InlineRateMeter,
    exceeded: bool,
)
    requires
        recorded_by(before, bytes, now, after, exceeded),
        now - before.window_start_ms <= before.window_ms,
        before.window_bytes + bytes > u64::MAX,
    ensures
        exceeded,
        after == before,
{
}

/// Law: a meter is over its budget exactly where its window lasts and holds more than
/// the budget allows for its age.
pub proof fn budget_holds_within_the_window(m: InlineRateMeter, now: u64)
    ensures
        ({
            let age = now - m.window_start_ms;
            exceeded_by(m, now) <==> age <= m.window_ms && m.window_bytes * 1000
                > m.budget_bytes_per_sec * (if age < 1 {
                1
            } else {
                age
            })
        }),
{
}

// ---------------------------------------------------------------------------
// Reads, and what is freed
// ---------------------------------------------------------------------------

/// A digit of a number to base 256, counted from the least significant one.
pub open spec fn digit(x: nat, i: nat) -> int {
    (x as int / pow(256, i)) % 256
}

/// Law: a number is written as its digits to base 256, the most significant first;
/// the other way round, the least significant first.
pub proof fn numbers_are_written_in_base_256(x: nat, n: nat, i: int)
    requires
        0 <= i < n,
    ensures
        be_bytes(x, n).len() == n,
        be_bytes(x, n)[i] == digit(x, (n - 1 - i) as nat),
        le_bytes(x, n)[n - 1 - i] == digit(x, (n - 1 - i) as nat),
    decreases n,
{
    crate::bytes::lemma_be_bytes_len(x, n);
    crate::bytes::lemma_be_bytes_len(x / 256, (n - 1) as nat);
    reveal(pow);
    if i == n - 1 {
        assert(pow(256, 0) == 1);
    } else {
        numbers_are_written_in_base_256(x / 256, (n - 1) as nat, i);
        let k = (n - 2 - i) as nat;
        lemma_pow_positive(256, k);
        lemma_div_denominator(x as int, 256, pow(256, k));
        assert(pow(256, (n - 1 - i) as nat) == 256 * pow(256, k));
    }
}

/// Law: the key of a payload is the key of its delta, with the number of the delta mixed
/// into the last eight bytes.
pub proof fn inline_key_is_the_key_and_the_number(hashed_key: Seq<u8>, sequence: u64, i: int)
    requires
        hashed_key.len() == 32,
        0 <= i < 32,
    ensures
        inline_key(hashed_key, sequence).len() == 32,
        i < 24 ==> inline_key(hashed_key, sequence)[i] == hashed_key[i],
        i >= 24 ==> inline_key(hashed_key, sequence)[i] == hashed_key[i] ^ (digit(
            sequence as nat,
            (i - 24) as nat,
        ) as u8),
{
    if i >= 24 {
        numbers_are_written_in_base_256(sequence as nat, 8, 7 - (i - 24));
    }
}

/// Law: a read gives back the deltas themselves, in order. It asks for the payload of a
/// delta exactly where that was taken out of it: it is inline data, there is none in the
/// delta, and there is a store that has it.
pub proof fn read_asks_for_what_was_taken_out(d: Seq<DeltaView>, attached: bool, i: int)
    requires
        0 <= i < d.len(),
    ensures
        reads_of(d, attached).len() == d.len(),
        reads_of(d, attached)[i].delta == d[i],
        reads_of(d, attached)[i].inline_key == (if attached && d[i].header.has_inline_data
            && d[i].payload.ciphertext == Seq::<u8>::empty() {
            Some(inline_key(d[i].header.hashed_key@, d[i].header.sequence))
        } else {
            None
        }),
{
    if d[i].payload.ciphertext.len() == 0 {
        assert(d[i].payload.ciphertext =~= Seq::<u8>::empty());
    }
}

/// Law: putting a payload back changes the payload of a delta that asked for it, and
/// nothing else of any delta.
pub proof fn payload_is_put_back(d: DeltaView, attached: bool, data: Option<Seq<u8>>)
    ensures
        ({
            let asked = attached && d.header.has_inline_data && d.payload.ciphertext.len() == 0;
            let back = resolved(read_of(d, attached), data);
            &&& back.header == d.header
            &&& back.payload.auth_tag == d.payload.auth_tag
            &&& back.payload.nonce == d.payload.nonce
            &&& back.payload.system_epoch == d.payload.system_epoch
            &&& back.payload.tenant_epoch == d.payload.tenant_epoch
            &&& back.payload.tenant_wrapped_material == d.payload.tenant_wrapped_material
            &&& asked && data is Some ==> back.payload.ciphertext == data->Some_0
            &&& !asked || data is None ==> back == d
        }),
{
}

/// Law: what a compaction loses are the deltas that it does not keep, all of them, in
/// order; what a truncation drops are the deltas below its boundary.
pub proof fn dropped_deltas_are_named(d: Seq<DeltaView>, kept: Seq<DeltaView>, boundary: u64)
    ensures
        lost(d, kept) == d.filter(
            |x: DeltaView|
                forall|i: int|
                    0 <= i < kept.len() ==> (#[trigger] kept[i]).header.sequence
                        != x.header.sequence,
        ),
        below_boundary(d, boundary) == d.filter(|x: DeltaView| x.header.sequence < boundary),
{
    lemma_lost(d, kept);
    let f = |x: DeltaView| x.header.sequence < boundary;
    if boundary == 0 {
        lemma_none_below(d);
    } else {
        let to = (boundary - 1) as u64;
        read_gives_the_numbers_asked_for(d, 0, to);
        crate::shard_laws::lemma_filter_same(
            d,
            |x: DeltaView| 0 <= x.header.sequence <= to,
            f,
        );
    }
}

proof fn lemma_none_below(d: Seq<DeltaView>)
    ensures
        d.filter(|x: DeltaView| x.header.sequence < 0u64) =~= Seq::<DeltaView>::empty(),
    decreases d.len(),
{
    reveal(Seq::filter);
    if d.len() > 0 {
        lemma_none_below(d.drop_last());
    }
}

proof fn lemma_lost(d: Seq<DeltaView>, kept: Seq<DeltaView>)
    ensures
        lost(d, kept) == d.filter(
            |x: DeltaView|
                forall|i: int|
                    0 <= i < kept.len() ==> (#[trigger] kept[i]).header.sequence
                        != x.header.sequence,
        ),
    decreases d.len(),
{
    reveal(Seq::filter);
    if d.len() > 0 {
        lemma_lost(d.drop_last(), kept);
        assert(has_sequence(kept, d.last().header.sequence) <==> !(forall|i: int|
            0 <= i < kept.len() ==> (#[trigger] kept[i]).header.sequence
                != d.last().header.sequence));
    }
}

/// Law: the size of deltas is counted delta by delta: nothing for none, and for one its
/// payload and a fixed part more.
pub proof fn sizes_add_up(a: Seq<DeltaView>, b: Seq<DeltaView>, d: DeltaView)
    ensures
        total_size(Seq::empty()) == 0,
        total_size(seq![d]) == d.header.payload_size + 128,
        total_size(a + b) == total_size(a) + total_size(b),
    decreases b.len(),
{
    assert(seq![d].drop_last() =~= Seq::<DeltaView>::empty());
    if b.len() == 0 {
        assert(a + b =~= a);
    } else {
        assert((a + b).drop_last() =~= a + b.drop_last());
        sizes_add_up(a, b.drop_last(), d);
    }
}

// ---------------------------------------------------------------------------
// Snapshots
// ---------------------------------------------------------------------------

/// Law: a snapshot asks for exactly the payloads that are not in their deltas, under the
/// keys at which they lie.
pub proof fn snapshot_asks_for_what_is_elsewhere(st: SmView, i: int)
    requires
        0 <= i < st.deltas.len(),
    ensures
        readback_keys(st).len() == st.deltas.len(),
        readback_keys(st)[i] == (if st.inline_attached && st.deltas[i].header.has_inline_data
            && st.deltas[i].payload.ciphertext.len() == 0 {
            Some(inline_key(st.deltas[i].header.hashed_key@, st.deltas[i].header.sequence))
        } else {
            None
        }),
{
}

/// Law: a snapshot holds of each delta its number, shard, tenant, operation, key, chunks,
/// size and marks, and its payload: the one that was found, where it lay elsewhere.
pub proof fn snapshot_holds_every_delta(
    st: SmView,
    found: Seq<Option<Seq<u8>>>,
    snap: SnapshotView,
    i: int,
)
    requires
        captures(snap, st, found),
        0 <= i < st.deltas.len(),
    ensures
        ({
            let s = snap.deltas[i];
            let d = st.deltas[i];
            let elsewhere = st.inline_attached && d.header.has_inline_data
                && d.payload.ciphertext.len() == 0;
            &&& snap.deltas.len() == st.deltas.len()
            &&& s.sequence == d.header.sequence
            &&& be_value(s.shard_id@) as u128 == d.header.shard_id.0
            &&& be_value(s.tenant_id@) as u128 == d.header.tenant_id.0
            &&& crate::delta::op_of_code(s.operation) == d.header.operation
            &&& s.hashed_key == d.header.hashed_key
            &&& s.tombstone == d.header.tombstone
            &&& s.chunk_refs.len() == d.header.chunk_refs.len()
            &&& forall|k: int|
                0 <= k < s.chunk_refs.len() ==> (#[trigger] d.header.chunk_refs[k]).0
                    == s.chunk_refs[k]
            &&& s.payload_size == d.header.payload_size
            &&& s.has_inline_data == d.header.has_inline_data
            &&& elsewhere && found[i] is Some ==> s.ciphertext == found[i]->Some_0
            &&& !elsewhere || found[i] is None ==> s.ciphertext == d.payload.ciphertext
        }),
{
    assert(stores(
        snap.deltas[i],
        st.deltas[i],
        crate::raft::snapshot::full_payload(st.deltas[i], st.inline_attached, found[i]),
    ));
    crate::delta::op_code_round_trip(st.deltas[i].header.operation);
}

/// Law: installing a snapshot offloads exactly the payloads of inline data that are not
/// empty, each under the key of its delta; without a store for them it offloads none.
pub proof fn installing_offloads_inline_data(s: Seq<StoredDelta>, attached: bool)
    ensures
        installed_puts(s, attached) == s.filter(
            |d: StoredDelta| attached && d.has_inline_data && d.ciphertext.len() > 0,
        ).map_values(
            |d: StoredDelta|
                InlinePutView {
                    key: inline_key(d.hashed_key@, d.sequence),
                    payload: d.ciphertext,
                },
        ),
    decreases s.len(),
{
    reveal(Seq::filter);
    let f = |d: StoredDelta| attached && d.has_inline_data && d.ciphertext.len() > 0;
    let g = |d: StoredDelta|
        InlinePutView { key: inline_key(d.hashed_key@, d.sequence), payload: d.ciphertext };
    if s.len() > 0 {
        installing_offloads_inline_data(s.drop_last(), attached);
        let front = s.drop_last().filter(f);
        if f(s.last()) {
            assert(front.push(s.last()).map_values(g) =~= front.map_values(g).push(g(s.last())));
        }
    } else {
        assert(s.filter(f).map_values(g) =~= Seq::<InlinePutView>::empty());
    }
}

/// Law: installing a snapshot leaves alone what no snapshot holds: the chunks, the range,
/// the state, the thresholds, and whether there is a store for payloads. A delta keeps
/// its payload, unless that is offloaded. The limits of the window are those given.
pub proof fn installing_keeps_what_is_local(
    st: SmView,
    snap: SnapshotView,
    window_entries: usize,
    window_ms: u64,
    i: int,
)
    ensures
        ({
            let n = installed(st, snap, window_entries, window_ms);
            &&& n.chunks == st.chunks
            &&& n.range_start == st.range_start
            &&& n.range_end == st.range_end
            &&& n.state == st.state
            &&& n.config == st.config
            &&& n.inline_attached == st.inline_attached
            &&& n.window_entries == window_entries
            &&& n.window_ms == window_ms
            &&& n.deltas.len() == snap.deltas.len()
            &&& snap.shard_id is None ==> n.shard_id == st.shard_id
            &&& snap.tenant_id is None ==> n.tenant_id == st.tenant_id
            &&& 0 <= i < snap.deltas.len() ==> n.deltas[i].payload.ciphertext == (if st.inline_attached
                && snap.deltas[i].has_inline_data {
                Seq::empty()
            } else {
                snap.deltas[i].ciphertext
            })
        }),
{
}

// ---------------------------------------------------------------------------
// Groups
// ---------------------------------------------------------------------------

/// Law: the votes for a leader are the reports that name it, and a majority is more than
/// half of all reports, those that name nobody included.
pub proof fn votes_are_reports_that_name_the_leader(reports: Seq<Option<u64>>, leader: u64)
    ensures
        votes_for(reports, leader) == reports.filter(|r: Option<u64>| r == Some(leader)).len(),
        has_majority(reports, leader) <==> reports.filter(
            |r: Option<u64>| r == Some(leader),
        ).len() > reports.filter(|r: Option<u64>| r != Some(leader)).len(),
    decreases reports.len(),
{
    reveal(Seq::filter);
    if reports.len() > 0 {
        votes_are_reports_that_name_the_leader(reports.drop_last(), leader);
        lemma_votes_split(reports, leader);
    }
}

proof fn lemma_votes_split(reports: Seq<Option<u64>>, leader: u64)
    ensures
        reports.filter(|r: Option<u64>| r == Some(leader)).len() + reports.filter(
            |r: Option<u64>| r != Some(leader),
        ).len() == reports.len(),
    decreases reports.len(),
{
    reveal(Seq::filter);
    if reports.len() > 0 {
        lemma_votes_split(reports.drop_last(), leader);
    }
}

/// Law: cutting a node off cuts the links between it and every other node, both ways, and
/// no link between two others; restoring it mends at least those.
pub proof fn isolation_is_between_one_and_the_others(a: u64, b: u64, node: u64, all: Set<NodeId>)
    requires
        all.contains(NodeId(a)),
        all.contains(NodeId(b)),
    ensures
        joins(Link { from: a, to: b }, node, all) <==> (a == node) != (b == node),
        joins(Link { from: a, to: b }, node, all) == joins(Link { from: b, to: a }, node, all),
        touches(Link { from: a, to: b }, node, all) <==> a == node || b == node,
        joins(Link { from: a, to: b }, node, all) ==> touches(Link { from: a, to: b }, node, all),
{
}

/// Law: a message arrives exactly where its link is not cut and its receiver answers; a cut
/// link is told from a receiver that does not answer.
pub proof fn message_arrives_over_an_open_link(
    nodes: Set<NodeId>,
    blocked: Set<Link>,
    from: u64,
    to: u64,
)
    ensures
        delivery(nodes, blocked, from, to) == Delivery::Delivered <==> nodes.contains(NodeId(to))
            && !blocked.contains(Link { from, to }),
        delivery(nodes, blocked, from, to) == Delivery::Partitioned <==> blocked.contains(
            Link { from, to },
        ),
{
}

/// Law: a truncation of a replica drops the deltas below the boundary and frees the inline
/// keys of those of them that hold inline data, where there is a store for it; a compaction
/// frees those of the deltas that it does not keep. Neither changes anything else but, for
/// a compaction, the count.
pub proof fn dropped_inline_data_is_freed(st: SmView, kept: Seq<DeltaView>)
    ensures
        ({
            let b = boundary_of(st.watermarks);
            let inline = |x: DeltaView| x.header.has_inline_data;
            let key = |x: DeltaView| inline_key(x.header.hashed_key@, x.header.sequence);
            &&& truncated(st) == (SmView {
                deltas: st.deltas.filter(|x: DeltaView| b <= x.header.sequence),
                ..st
            })
            &&& st.inline_attached ==> freed_by_truncation(st) == st.deltas.filter(
                |x: DeltaView| x.header.sequence < b,
            ).filter(inline).map_values(key)
            &&& compacted_to(st, kept) == (SmView {
                deltas: kept,
                delta_count: kept.len() as u64,
                ..st
            })
            &&& st.inline_attached ==> freed_by_compaction(st, kept) == st.deltas.filter(
                |x: DeltaView|
                    forall|i: int|
                        0 <= i < kept.len() ==> (#[trigger] kept[i]).header.sequence
                            != x.header.sequence,
            ).filter(inline).map_values(key)
            &&& !st.inline_attached ==> freed_by_truncation(st).len() == 0 && freed_by_compaction(
                st,
                kept,
            ).len() == 0
        }),
{
    let b = boundary_of(st.watermarks);
    crate::shard_laws::truncation_keeps_what_may_be_read(st.deltas, st.watermarks);
    dropped_deltas_are_named(st.deltas, kept, b);
    crate::raft::guarantees::lemma_inline_keys(below_boundary(st.deltas, b));
    crate::raft::guarantees::lemma_inline_keys(lost(st.deltas, kept));
}

/// Law: a replica keeps its log in memory exactly where it has no directory, and its syncs
/// wait for one another exactly where both settings are positive numbers, as they are set.
pub proof fn log_is_kept_where_it_is_durable(
    durable: bool,
    window_us: Option<Seq<char>>,
    max_batch: Option<Seq<char>>,
)
    ensures
        ({
            let w = positive_or(window_us, u64::MAX as nat, 0);
            let m = positive_or(max_batch, usize::MAX as nat, 0);
            let r = backend_of(durable, window_us, max_batch);
            &&& r is Memory <==> !durable
            &&& r is DiskCoalesced <==> durable && w > 0 && m > 0
            &&& r matches LogBackend::DiskCoalesced { window_us, max_batch } ==> window_us == w
                && max_batch == m
        }),
{
    crate::wire_laws::setting_or_default(
        window_us->Some_0,
        crate::settings::decimal_number(window_us->Some_0)->Some_0,
        u64::MAX as nat,
        0,
    );
    crate::wire_laws::setting_or_default(
        max_batch->Some_0,
        crate::settings::decimal_number(max_batch->Some_0)->Some_0,
        usize::MAX as nat,
        0,
    );
}

/// Law: the metadata of a shard are those of its replica: identity, tip, count, range and
/// thresholds as they are, the state unless maintenance hides it, and the size of one delta
/// more than before where one was appended.
pub proof fn metadata_are_those_of_the_replica(
    store: OpenRaftLogStore,
    st: SmView,
    leader: Option<NodeId>,
    members: Seq<NodeId>,
    d: DeltaView,
)
    requires
        total_size(st.deltas) + d.header.payload_size + 128 <= u64::MAX,
    ensures
        ({
            let h = health_of(store, st, leader, members);
            let more = health_of(store, SmView { deltas: st.deltas.push(d), ..st }, leader, members);
            &&& h.shard_id == store.shard_id && h.tenant_id == store.tenant_id
            &&& h.raft_members == members && h.leader == leader
            &&& h.tip == st.tip && h.delta_count == st.delta_count
            &&& h.config == st.config
            &&& h.range_start == st.range_start && h.range_end == st.range_end
            &&& st.maintenance ==> h.state == ShardState::Maintenance
            &&& !st.maintenance ==> h.state == st.state
            &&& st.deltas.len() == 0 ==> h.byte_size == 0
            &&& more.byte_size == h.byte_size + d.header.payload_size + 128
        }),
{
    sizes_add_up(st.deltas, seq![d], d);
    assert(st.deltas.push(d) =~= st.deltas + seq![d]);
    if st.deltas.len() == 0 {
        assert(st.deltas =~= Seq::<DeltaView>::empty());
    }
}

/// Law: a snapshot is too large exactly where it and the frame do not fit together; an empty
/// one never is.
pub proof fn snapshot_and_frame_share_a_message(len: usize, max_message: usize, frame: usize)
    ensures
        len > 0 ==> (exceeds_message(len, max_message, frame) <==> len + frame > max_message),
        !exceeds_message(0, max_message, frame),
{
}

/// Law: only a command changes the machine: any other entry leaves it as it is and is done.
/// A command is applied and answered as such.
pub proof fn only_commands_change_the_machine(
    st: SmView,
    payload: EntryPayload,
    log_index: u64,
    now_ms: u64,
)
    ensures
        !(payload is Normal) ==> entry_applied(st, payload, log_index, now_ms) == st
            && entry_response(st, payload, log_index, now_ms) == LogResponse::Done
            && has_room_for_entry(st, payload),
        payload matches EntryPayload::Normal(cmd) ==> entry_applied(st, payload, log_index, now_ms)
            == applied(st, cmd, log_index, now_ms) && entry_response(st, payload, log_index, now_ms)
            == response(st, cmd, log_index, now_ms) && (has_room_for_entry(st, payload) <==> has_room(
            st,
            cmd,
        )),
{
}

/// Law: a reading of the clock counts as it is, from the epoch on and as far as it fits; a
/// bound of the window counts as it is, from one on.
pub proof fn readings_and_bounds_are_kept_in_range(ms: u128, n: int)
    ensures
        reading_ms(None) == 0,
        ms <= 0xffff_ffff_ffff_ffff ==> reading_ms(Some(ms)) == ms,
        ms > 0xffff_ffff_ffff_ffff ==> reading_ms(Some(ms)) == 0xffff_ffff_ffff_ffff,
        n >= 1 ==> at_least_one(n) == n,
        n < 1 ==> at_least_one(n) == 1,
{
}

} // verus!
