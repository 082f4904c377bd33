//! What a shard promises its writers, in terms of what goes in and what comes out:
//! which delta a command leaves behind, how often an intent is incorporated, how many
//! references a chunk has, and which deltas survive a prune.

use vstd::prelude::*;

use crate::bytes::be_value;
use crate::command::{InlinePayload, InlinePutView, IncorporateItem, ItemView, LogCommand};
use crate::command::NewChunkMeta;
use crate::delta::{DeltaView, OperationType};
use crate::ids::{ChunkId, ChunkKey, OrgId, ShardId};
use crate::inline_store::inline_key;
use crate::raft::laws::{
    in_order, introducing_chunks, replay_changes_nothing, single_item, window_in_sync,
};
use crate::raft::laws::commands_keep_the_window;
use crate::raft::state_machine::{
    applied, below_count, chunks_created, evicted, fresh, has_room, incorporated, incorporated_all,
    inline_deletes, inline_puts, lemma_chunks_created_frame, lemma_evicted_frame,
    lemma_recent_pushed_frame, must_evict, oldest_evicted, prunable, response,
    RecentIncorporatedEntry, SmView,
};
use crate::raft::types::LogResponse;
use crate::shard::{ShardConfig, ShardState};
use crate::time::{ClockQuality, DeltaTimestamp, HybridLogicalClock};

verus! {

// ---------------------------------------------------------------------------
// The window of recent intents
// ---------------------------------------------------------------------------

/// Law: nothing leaves the window early. A window that holds no more entries than its
/// bound, and whose oldest entry is no older than its span, is left as it is.
pub proof fn window_is_not_trimmed_early(st: SmView, now_ms: u64)
    requires
        st.recent.len() <= st.window_entries,
        st.recent.len() > 0 ==> now_ms - st.recent[0].apply_ms <= st.window_ms,
    ensures
        evicted(st, now_ms) == st,
{
}

/// Law: what a trim takes out and what it leaves. It takes out the oldest entries and
/// no others; each of them was one too many or too old, and of those that stay none
/// is. Their readings are forgotten, every position up to theirs is ancient, and
/// nothing else changes.
pub proof fn trim_takes_what_is_due(st: SmView, now_ms: u64)
    ensures
        ({
            let next = evicted(st, now_ms);
            let gone = st.recent.len() - next.recent.len();
            &&& 0 <= gone
            &&& next.recent == st.recent.skip(gone)
            &&& next.recent.len() <= st.window_entries
            &&& next.recent.len() > 0 ==> now_ms - next.recent[0].apply_ms <= st.window_ms
            &&& forall|i: int|
                0 <= i < gone ==> st.recent.len() - i > st.window_entries || now_ms - (
                #[trigger] st.recent[i]).apply_ms > st.window_ms
            &&& forall|s: HybridLogicalClock| #[trigger]
                next.recent_seqs.contains(s) <==> st.recent_seqs.contains(s) && forall|i: int|
                    0 <= i < gone ==> (#[trigger] st.recent[i]).perspective_seq != s
            &&& next.cutoff >= st.cutoff
            &&& forall|i: int|
                0 <= i < gone ==> (#[trigger] st.recent[i]).log_index < next.cutoff
                    || next.cutoff == u64::MAX
            &&& next.cutoff == st.cutoff || exists|i: int|
                0 <= i < gone && (next.cutoff == (#[trigger] st.recent[i]).log_index + 1
                    || st.recent[i].log_index == u64::MAX)
            &&& next == (SmView {
                recent: next.recent,
                recent_seqs: next.recent_seqs,
                cutoff: next.cutoff,
                ..st
            })
        }),
    decreases st.recent.len(),
{
    let next = evicted(st, now_ms);
    lemma_evicted_frame(st, now_ms);
    if st.recent.len() > 0 && must_evict(st, now_ms) {
        let mid = oldest_evicted(st);
        trim_takes_what_is_due(mid, now_ms);
        let gone = st.recent.len() - next.recent.len();
        let less = mid.recent.len() - next.recent.len();
        assert(gone == less + 1);
        assert(next.recent =~= st.recent.skip(gone));
        assert forall|i: int| 0 <= i < gone implies (st.recent.len() - i > st.window_entries
            || now_ms - (#[trigger] st.recent[i]).apply_ms > st.window_ms) && (
        st.recent[i].log_index < next.cutoff || next.cutoff == u64::MAX) by {
            if i > 0 {
                assert(mid.recent[i - 1] == st.recent[i]);
            }
        }
        assert forall|s: HybridLogicalClock| #[trigger]
            next.recent_seqs.contains(s) <==> st.recent_seqs.contains(s) && forall|i: int|
                0 <= i < gone ==> (#[trigger] st.recent[i]).perspective_seq != s by {
            if next.recent_seqs.contains(s) {
                assert(mid.recent_seqs.contains(s));
                assert forall|i: int| 0 <= i < gone implies (
                #[trigger] st.recent[i]).perspective_seq != s by {
                    if i > 0 {
                        assert(mid.recent[i - 1] == st.recent[i]);
                    }
                }
            }
            if st.recent_seqs.contains(s) && forall|i: int|
                0 <= i < gone ==> (#[trigger] st.recent[i]).perspective_seq != s {
                assert(st.recent[0].perspective_seq != s);
                assert(mid.recent_seqs.contains(s));
                assert forall|i: int| 0 <= i < less implies (
                #[trigger] mid.recent[i]).perspective_seq != s by {
                    assert(mid.recent[i] == st.recent[i + 1]);
                }
            }
        }
        if next.cutoff != mid.cutoff {
            let i = choose|i: int|
                0 <= i < less && (next.cutoff == (#[trigger] mid.recent[i]).log_index + 1
                    || mid.recent[i].log_index == u64::MAX);
            assert(mid.recent[i] == st.recent[i + 1]);
        } else if next.cutoff != st.cutoff {
            assert(next.cutoff == st.recent[0].log_index + 1 || st.recent[0].log_index == u64::MAX);
        }
    } else {
        assert(st.recent.skip(0) =~= st.recent);
    }
}

/// Law: an entry stays in the window through a trim for as long as no more than the
/// bound of the window are as new as it is, and it is no older than its span.
pub proof fn recent_entry_survives_a_trim(st: SmView, now_ms: u64, i: int)
    requires
        0 <= i < st.recent.len(),
        st.recent.len() - i <= st.window_entries,
        now_ms - st.recent[i].apply_ms <= st.window_ms,
    ensures
        ({
            let next = evicted(st, now_ms);
            let j = i - (st.recent.len() - next.recent.len());
            &&& 0 <= j < next.recent.len()
            &&& next.recent[j] == st.recent[i]
        }),
{
    trim_takes_what_is_due(st, now_ms);
}

/// How many intents a command delivers.
pub open spec fn intents_in(cmd: LogCommand) -> nat {
    match cmd {
        LogCommand::IncorporateIntent { .. } => 1,
        LogCommand::IncorporateIntents { items } => items@.len(),
        _ => 0,
    }
}

/// How many intents a run of commands delivers.
pub open spec fn intents_of(steps: Seq<(LogCommand, u64, u64)>) -> nat
    decreases steps.len(),
{
    if steps.len() == 0 {
        0
    } else {
        intents_of(steps.drop_last()) + intents_in(steps.last().0)
    }
}

/// The state after a run of commands, each with its log position and its time.
pub open spec fn run_of(st: SmView, steps: Seq<(LogCommand, u64, u64)>) -> SmView
    decreases steps.len(),
{
    if steps.len() == 0 {
        st
    } else {
        applied(
            run_of(st, steps.drop_last()),
            steps.last().0,
            steps.last().1,
            steps.last().2,
        )
    }
}

/// Whether an entry stands in the window with at most `n` newer ones.
spec fn stands(st: SmView, e: RecentIncorporatedEntry, n: int) -> bool {
    exists|i: int|
        0 <= i < st.recent.len() && #[trigger] st.recent[i] == e && st.recent.len() - i - 1 <= n
}

proof fn lemma_stands_one(
    st: SmView,
    item: ItemView,
    log_index: u64,
    now_ms: u64,
    e: RecentIncorporatedEntry,
    n: int,
)
    requires
        stands(st, e, n),
        n + 1 < st.window_entries,
        now_ms - e.apply_ms <= st.window_ms,
    ensures
        stands(incorporated(st, item, log_index, now_ms), e, n + 1),
        incorporated(st, item, log_index, now_ms).window_entries == st.window_entries,
        incorporated(st, item, log_index, now_ms).window_ms == st.window_ms,
{
    let i = choose|i: int|
        0 <= i < st.recent.len() && #[trigger] st.recent[i] == e && st.recent.len() - i - 1 <= n;
    let next = incorporated(st, item, log_index, now_ms);
    if st.recent_seqs.contains(item.seq) || log_index < st.cutoff {
        assert(next.recent == st.recent);
        assert(next.recent[i] == e);
    } else {
        let rows = chunks_created(st, item.draft.tenant, item.new_chunks, log_index);
        lemma_chunks_created_frame(st, item.draft.tenant, item.new_chunks, log_index);
        let grown = crate::raft::state_machine::delta_appended(rows, item.draft, log_index);
        let mid = SmView {
            recent: grown.recent.push(
                RecentIncorporatedEntry {
                    log_index,
                    perspective_seq: item.seq,
                    apply_ms: now_ms,
                },
            ),
            recent_seqs: grown.recent_seqs.insert(item.seq),
            ..grown
        };
        assert(next == evicted(mid, now_ms));
        assert(mid.recent[i] == e);
        recent_entry_survives_a_trim(mid, now_ms, i);
        trim_takes_what_is_due(mid, now_ms);
        let j = i - (mid.recent.len() - next.recent.len());
        assert(next.recent[j] == e);
    }
}

proof fn lemma_stands_batch(
    st: SmView,
    items: Seq<ItemView>,
    log_index: u64,
    now_ms: u64,
    e: RecentIncorporatedEntry,
    n: int,
)
    requires
        stands(st, e, n),
        n + items.len() < st.window_entries,
        now_ms - e.apply_ms <= st.window_ms,
    ensures
        stands(incorporated_all(st, items, log_index, now_ms), e, n + items.len()),
        incorporated_all(st, items, log_index, now_ms).window_entries == st.window_entries,
        incorporated_all(st, items, log_index, now_ms).window_ms == st.window_ms,
    decreases items.len(),
{
    if items.len() > 0 {
        let front = items.drop_last();
        lemma_stands_batch(st, front, log_index, now_ms, e, n);
        lemma_stands_one(
            incorporated_all(st, front, log_index, now_ms),
            items.last(),
            log_index,
            now_ms,
            e,
            n + front.len(),
        );
    }
}

proof fn lemma_stands_step(
    st: SmView,
    cmd: LogCommand,
    log_index: u64,
    now_ms: u64,
    e: RecentIncorporatedEntry,
    n: int,
)
    requires
        stands(st, e, n),
        n + intents_in(cmd) < st.window_entries,
        now_ms - e.apply_ms <= st.window_ms,
    ensures
        stands(applied(st, cmd, log_index, now_ms), e, n + intents_in(cmd)),
        applied(st, cmd, log_index, now_ms).window_entries == st.window_entries,
        applied(st, cmd, log_index, now_ms).window_ms == st.window_ms,
{
    let next = applied(st, cmd, log_index, now_ms);
    match cmd {
        LogCommand::IncorporateIntent { .. } => {
            lemma_stands_one(st, single_item(cmd), log_index, now_ms, e, n);
        },
        LogCommand::IncorporateIntents { items } => {
            lemma_stands_batch(
                st,
                crate::command::item_views(items@),
                log_index,
                now_ms,
                e,
                n,
            );
        },
        LogCommand::ChunkAndDelta { tenant_id_bytes, new_chunks, .. } => {
            lemma_chunks_created_frame(
                st,
                crate::command::tenant_of(tenant_id_bytes),
                crate::command::new_chunk_views(new_chunks@),
                log_index,
            );
            let i = choose|i: int|
                0 <= i < st.recent.len() && #[trigger] st.recent[i] == e && st.recent.len() - i - 1
                    <= n;
            assert(next.recent[i] == e);
        },
        _ => {
            let i = choose|i: int|
                0 <= i < st.recent.len() && #[trigger] st.recent[i] == e && st.recent.len() - i - 1
                    <= n;
            assert(next.recent[i] == e);
        },
    }
}

/// Law: an intent is incorporated once. An intent that stands in the window still
/// stands there after any run of commands, as long as fewer intents came after it
/// than the window holds, and no command of the run was applied later than the span
/// of the window after it. Delivered again it then changes nothing, puts nothing into
/// the inline store, and is answered with the tip.
pub proof fn intent_is_incorporated_once(
    st: SmView,
    steps: Seq<(LogCommand, u64, u64)>,
    i: int,
    again: LogCommand,
    log_index: u64,
    now_ms: u64,
)
    requires
        window_in_sync(st),
        st.recent.len() <= st.window_entries,
        0 <= i < st.recent.len(),
        st.recent.len() - i - 1 + intents_of(steps) < st.window_entries,
        forall|k: int|
            0 <= k < steps.len() ==> (#[trigger] steps[k]).2 - st.recent[i].apply_ms
                <= st.window_ms,
    ensures
        run_of(st, steps).recent_seqs.contains(st.recent[i].perspective_seq),
        again matches LogCommand::IncorporateIntent { perspective_seq, .. } && perspective_seq
            == st.recent[i].perspective_seq ==> {
            let now = run_of(st, steps);
            &&& applied(now, again, log_index, now_ms) == now
            &&& response(now, again, log_index, now_ms) == LogResponse::Appended(now.tip)
            &&& inline_puts(now, again, log_index, now_ms) == Seq::<InlinePutView>::empty()
        },
{
    let e = st.recent[i];
    assert(stands(st, e, st.recent.len() - i - 1));
    lemma_stands_run(st, steps, e, st.recent.len() - i - 1);
    let now = run_of(st, steps);
    let j = choose|j: int|
        0 <= j < now.recent.len() && #[trigger] now.recent[j] == e && now.recent.len() - j - 1
            <= st.recent.len() - i - 1 + intents_of(steps);
    assert(now.recent[j].perspective_seq == e.perspective_seq);
    if again is IncorporateIntent {
        if single_item(again).seq == e.perspective_seq {
            replay_changes_nothing(now, single_item(again), log_index, now_ms);
        }
    }
}

proof fn lemma_stands_run(
    st: SmView,
    steps: Seq<(LogCommand, u64, u64)>,
    e: RecentIncorporatedEntry,
    n: int,
)
    requires
        window_in_sync(st),
        st.recent.len() <= st.window_entries,
        stands(st, e, n),
        n + intents_of(steps) < st.window_entries,
        forall|k: int|
            0 <= k < steps.len() ==> (#[trigger] steps[k]).2 - e.apply_ms <= st.window_ms,
    ensures
        stands(run_of(st, steps), e, n + intents_of(steps)),
        window_in_sync(run_of(st, steps)),
        run_of(st, steps).recent.len() <= st.window_entries,
        run_of(st, steps).window_entries == st.window_entries,
        run_of(st, steps).window_ms == st.window_ms,
    decreases steps.len(),
{
    if steps.len() > 0 {
        let front = steps.drop_last();
        let last = steps.last();
        assert forall|k: int| 0 <= k < front.len() implies (#[trigger] front[k]).2 - e.apply_ms
            <= st.window_ms by {
            assert(front[k] == steps[k]);
        }
        assert(last == steps[steps.len() - 1]);
        lemma_stands_run(st, front, e, n);
        let mid = run_of(st, front);
        lemma_stands_step(mid, last.0, last.1, last.2, e, n + intents_of(front));
        commands_keep_the_window(mid, last.0, last.1, last.2);
    }
}

/// Law: an intent that is new is not lost. One whose reading is not in the window, at a
/// position that is not ancient, is appended as the next delta and enters the window;
/// one at an ancient position is counted and changes nothing else.
pub proof fn new_intent_is_appended(
    st: SmView,
    item: ItemView,
    log_index: u64,
    now_ms: u64,
)
    requires
        !st.recent_seqs.contains(item.seq),
        st.tip < u64::MAX,
        st.delta_count < u64::MAX,
        st.window_entries >= 1,
    ensures
        ({
            let next = incorporated(st, item, log_index, now_ms);
            let rows = chunks_created(st, item.draft.tenant, item.new_chunks, log_index);
            if log_index < st.cutoff {
                &&& next.ancient_refused == st.ancient_refused + 1 || (next.ancient_refused
                    == st.ancient_refused && st.ancient_refused == u64::MAX)
                &&& next == (SmView { ancient_refused: next.ancient_refused, ..st })
            } else {
                &&& next.tip == st.tip + 1
                &&& next.delta_count == st.delta_count + 1
                &&& next.deltas.len() == st.deltas.len() + 1
                &&& next.deltas.drop_last() == st.deltas
                &&& next.recent.len() > 0
                &&& next.recent.last() == (RecentIncorporatedEntry {
                    log_index,
                    perspective_seq: item.seq,
                    apply_ms: now_ms,
                })
                &&& next.recent.len() <= st.recent.len() + 1
                &&& window_in_sync(st) ==> next.recent_seqs.contains(item.seq)
                &&& next.chunks == rows.chunks
                &&& next.parked == rows.parked
                &&& next == (SmView {
                    tip: next.tip,
                    delta_count: next.delta_count,
                    deltas: next.deltas,
                    chunks: next.chunks,
                    parked: next.parked,
                    recent: next.recent,
                    recent_seqs: next.recent_seqs,
                    cutoff: next.cutoff,
                    ..st
                })
            }
        }),
{
    if !(log_index < st.cutoff) {
        let rows = chunks_created(st, item.draft.tenant, item.new_chunks, log_index);
        lemma_chunks_created_frame(st, item.draft.tenant, item.new_chunks, log_index);
        let grown = crate::raft::state_machine::delta_appended(rows, item.draft, log_index);
        let e = RecentIncorporatedEntry { log_index, perspective_seq: item.seq, apply_ms: now_ms };
        let mid = SmView {
            recent: grown.recent.push(e),
            recent_seqs: grown.recent_seqs.insert(item.seq),
            ..grown
        };
        let next = incorporated(st, item, log_index, now_ms);
        assert(next == evicted(mid, now_ms));
        trim_takes_what_is_due(mid, now_ms);
        recent_entry_survives_a_trim(mid, now_ms, st.recent.len() as int);
        assert(next.deltas.drop_last() =~= st.deltas);
        let gone = mid.recent.len() - next.recent.len();
        assert(next.recent.last() == mid.recent[mid.recent.len() - 1]);
        if !next.recent_seqs.contains(item.seq) {
            let i = choose|i: int|
                0 <= i < gone && (#[trigger] mid.recent[i]).perspective_seq == item.seq;
            assert(mid.recent[i] == st.recent[i]);
        }
    }
}

/// Law: a fresh machine remembers a hundred thousand intents for a minute, and is
/// empty.
pub proof fn fresh_machine_is_empty(shard_id: ShardId, tenant_id: OrgId, n: usize, ms: u64)
    ensures
        ({
            let st = fresh(shard_id, tenant_id, n, ms);
            &&& st.shard_id == shard_id
            &&& st.tenant_id == tenant_id
            &&& st.window_entries == n
            &&& st.window_ms == ms
            &&& st.tip == 0 && st.delta_count == 0 && st.cutoff == 0 && st.ancient_refused == 0
            &&& st.deltas.len() == 0 && st.watermarks.len() == 0 && st.recent.len() == 0
            &&& forall|s: HybridLogicalClock| !#[trigger] st.recent_seqs.contains(s)
            &&& forall|k: ChunkKey| !#[trigger] st.chunks.contains_key(k)
            &&& forall|k: ChunkKey| !#[trigger] st.parked.contains_key(k)
            &&& !st.maintenance && !st.inline_attached
            &&& st.state == ShardState::Healthy
            &&& forall|i: int| 0 <= i < 32 ==> #[trigger] st.range_start@[i] == 0
            &&& forall|i: int| 0 <= i < 32 ==> #[trigger] st.range_end@[i] == 0xff
        }),
        crate::raft::state_machine::DEFAULT_DEDUP_WINDOW_ENTRIES == 100_000,
        crate::raft::state_machine::DEFAULT_DEDUP_WINDOW_MS == 60_000,
        crate::raft::state_machine::PENDING_CHUNK_DECREMENTS_CAP == 65_536,
{
}

// ---------------------------------------------------------------------------
// The delta that a command leaves behind
// ---------------------------------------------------------------------------

/// Whether a delta carries what a command asked for: the fields of the command, under
/// a number, in a shard.
pub open spec fn carries(
    d: DeltaView,
    sequence: int,
    shard_id: ShardId,
    tenant: [u8; 16],
    operation: u8,
    hashed_key: [u8; 32],
    chunk_refs: Seq<[u8; 32]>,
    payload: Seq<u8>,
    has_inline_data: bool,
    offloaded: bool,
) -> bool {
    &&& d.header.sequence == sequence
    &&& d.header.shard_id == shard_id
    &&& d.header.tenant_id.0 == be_value(tenant@)
    &&& operation == 0 ==> d.header.operation == OperationType::Create
    &&& operation == 1 ==> d.header.operation == OperationType::Update
    &&& operation == 2 ==> d.header.operation == OperationType::Delete
    &&& operation == 3 ==> d.header.operation == OperationType::Rename
    &&& operation == 4 ==> d.header.operation == OperationType::SetAttribute
    &&& operation == 5 ==> d.header.operation == OperationType::Finalize
    &&& operation == 6 ==> d.header.operation == OperationType::NamespaceCreate
    &&& operation > 6 ==> d.header.operation == OperationType::MigrateChunkLocations
    &&& d.header.tombstone <==> operation == 2
    &&& d.header.hashed_key == hashed_key
    &&& d.header.chunk_refs.len() == chunk_refs.len()
    &&& forall|i: int|
        0 <= i < chunk_refs.len() ==> (#[trigger] d.header.chunk_refs[i]).0 == chunk_refs[i]
    &&& d.header.payload_size == payload.len() % 0x1_0000_0000
    &&& d.header.has_inline_data == has_inline_data
    &&& offloaded ==> d.payload.ciphertext.len() == 0
    &&& !offloaded ==> d.payload.ciphertext == payload
    &&& d.payload.auth_tag.len() == 0 && d.payload.nonce.len() == 0
    &&& d.payload.tenant_wrapped_material.len() == 0
    &&& d.payload.system_epoch is None && d.payload.tenant_epoch is None
}

/// Whether a state is another with one more delta, numbered past the tip.
pub open spec fn grew_by_one(st: SmView, next: SmView) -> bool {
    &&& next.tip == st.tip + 1
    &&& next.delta_count == st.delta_count + 1
    &&& next.deltas.len() == st.deltas.len() + 1
    &&& next.deltas.drop_last() == st.deltas
}

/// Whether what a command hands to the inline store for its delta is right: its
/// payload under a key of its own, where it is inline and a store is attached, and
/// nothing otherwise.
pub open spec fn offloads(
    puts: Seq<InlinePutView>,
    st: SmView,
    hashed_key: [u8; 32],
    payload: Seq<u8>,
    has_inline_data: bool,
) -> bool {
    if has_inline_data && st.inline_attached {
        &&& puts.len() == 1
        &&& puts[0].payload == payload
        &&& puts[0].key == inline_key(hashed_key@, (st.tip + 1) as u64)
    } else {
        puts.len() == 0
    }
}

proof fn lemma_tenant_fits(tenant: [u8; 16])
    ensures
        (be_value(tenant@) as u128) as nat == be_value(tenant@),
{
    crate::bytes::lemma_be_value_bound(tenant@);
    assert(crate::bytes::radix(16) == 0x1_0000_0000_0000_0000_0000_0000_0000_0000) by {
        reveal_with_fuel(crate::bytes::radix, 17);
    }
}

/// Law: an append leaves one delta more, with what it asked for, stamped with its log
/// position; an inline payload goes to the inline store, where one is attached.
/// Nothing else changes, and the answer is the number of the delta.
pub proof fn append_leaves_its_delta(
    st: SmView,
    tenant_id_bytes: [u8; 16],
    operation: u8,
    hashed_key: [u8; 32],
    chunk_refs: Vec<[u8; 32]>,
    payload: Vec<u8>,
    has_inline_data: bool,
    log_index: u64,
    now_ms: u64,
)
    requires
        st.tip < u64::MAX,
        st.delta_count < u64::MAX,
    ensures
        ({
            let cmd = LogCommand::AppendDelta {
                tenant_id_bytes,
                operation,
                hashed_key,
                chunk_refs,
                payload,
                has_inline_data,
            };
            let next = applied(st, cmd, log_index, now_ms);
            let d = next.deltas.last();
            &&& grew_by_one(st, next)
            &&& carries(
                d,
                st.tip + 1,
                st.shard_id,
                tenant_id_bytes,
                operation,
                hashed_key,
                chunk_refs@,
                payload@,
                has_inline_data,
                has_inline_data && st.inline_attached,
            )
            &&& d.header.timestamp.hlc.physical_ms == log_index
            &&& d.header.timestamp.hlc.logical == 0
            &&& d.header.timestamp.hlc.node_id.0 == 0
            &&& d.header.timestamp.millis == log_index
            &&& d.header.timestamp.quality == ClockQuality::Ntp
            &&& next == (SmView {
                tip: next.tip,
                delta_count: next.delta_count,
                deltas: next.deltas,
                ..st
            })
            &&& response(st, cmd, log_index, now_ms) == LogResponse::Appended(next.tip)
            &&& offloads(
                inline_puts(st, cmd, log_index, now_ms),
                st,
                hashed_key,
                payload@,
                has_inline_data,
            )
            &&& inline_deletes(st, cmd).len() == 0
        }),
{
    let cmd = LogCommand::AppendDelta {
        tenant_id_bytes,
        operation,
        hashed_key,
        chunk_refs,
        payload,
        has_inline_data,
    };
    assert(applied(st, cmd, log_index, now_ms).deltas.drop_last() =~= st.deltas);
    lemma_tenant_fits(tenant_id_bytes);
}

/// Law: a move leaves one delta more, with what it asked for and with its own
/// timestamp. Otherwise it is an append.
pub proof fn move_leaves_its_delta(
    st: SmView,
    tenant_id_bytes: [u8; 16],
    operation: u8,
    hashed_key: [u8; 32],
    chunk_refs: Vec<[u8; 32]>,
    payload: Vec<u8>,
    has_inline_data: bool,
    timestamp: DeltaTimestamp,
    log_index: u64,
    now_ms: u64,
)
    requires
        st.tip < u64::MAX,
        st.delta_count < u64::MAX,
    ensures
        ({
            let cmd = LogCommand::MoveDelta {
                tenant_id_bytes,
                operation,
                hashed_key,
                chunk_refs,
                payload,
                has_inline_data,
                timestamp,
            };
            let next = applied(st, cmd, log_index, now_ms);
            let d = next.deltas.last();
            &&& grew_by_one(st, next)
            &&& carries(
                d,
                st.tip + 1,
                st.shard_id,
                tenant_id_bytes,
                operation,
                hashed_key,
                chunk_refs@,
                payload@,
                has_inline_data,
                has_inline_data && st.inline_attached,
            )
            &&& d.header.timestamp == timestamp@
            &&& next == (SmView {
                tip: next.tip,
                delta_count: next.delta_count,
                deltas: next.deltas,
                ..st
            })
            &&& response(st, cmd, log_index, now_ms) == LogResponse::Appended(next.tip)
            &&& offloads(
                inline_puts(st, cmd, log_index, now_ms),
                st,
                hashed_key,
                payload@,
                has_inline_data,
            )
            &&& inline_deletes(st, cmd).len() == 0
        }),
{
    let cmd = LogCommand::MoveDelta {
        tenant_id_bytes,
        operation,
        hashed_key,
        chunk_refs,
        payload,
        has_inline_data,
        timestamp,
    };
    assert(applied(st, cmd, log_index, now_ms).deltas.drop_last() =~= st.deltas);
    lemma_tenant_fits(tenant_id_bytes);
}

/// Whether chunk rows are those of a state once a list of chunks was introduced for a
/// tenant at a log position: a row that was there stays as it was, a chunk of the list
/// without a row gets one, with one reference, or as a tombstone where references
/// were parked for it; no other row and no other parked count changes.
pub open spec fn introduces(
    st: SmView,
    next: SmView,
    tenant: [u8; 16],
    metas: Seq<NewChunkMeta>,
    log_index: u64,
) -> bool {
    forall|key: ChunkKey|
        {
            let named = key.tenant.0 == be_value(tenant@) && exists|j: int|
                0 <= j < metas.len() && ChunkId((#[trigger] metas[j]).chunk_id) == key.chunk;
            let parked = st.parked.contains_key(key) && st.parked[key] > 0;
            if st.chunks.contains_key(key) || !named {
                &&& #[trigger] next.chunks.contains_key(key) == st.chunks.contains_key(key)
                &&& st.chunks.contains_key(key) ==> next.chunks[key] == st.chunks[key]
                &&& next.parked.contains_key(key) == st.parked.contains_key(key)
                &&& st.parked.contains_key(key) ==> next.parked[key] == st.parked[key]
            } else {
                &&& next.chunks.contains_key(key)
                &&& next.chunks[key].tombstoned == parked
                &&& next.chunks[key].refcount == (if parked {
                    0int
                } else {
                    1
                })
                &&& next.chunks[key].created_ms == log_index
                &&& !next.parked.contains_key(key)
                &&& exists|i: int|
                    {
                        &&& 0 <= i < metas.len()
                        &&& ChunkId((#[trigger] metas[i]).chunk_id) == key.chunk
                        &&& next.chunks[key].placement == metas[i].placement@
                        &&& next.chunks[key].original_len == metas[i].original_len
                    }
            }
        }
}

proof fn lemma_introduces(
    st: SmView,
    next: SmView,
    tenant: [u8; 16],
    metas: Seq<NewChunkMeta>,
    log_index: u64,
)
    requires
        ({
            let rows = chunks_created(
                st,
                crate::command::tenant_of(tenant),
                crate::command::new_chunk_views(metas),
                log_index,
            );
            next.chunks == rows.chunks && next.parked == rows.parked
        }),
    ensures
        introduces(st, next, tenant, metas, log_index),
{
    let views = crate::command::new_chunk_views(metas);
    let t = crate::command::tenant_of(tenant);
    lemma_tenant_fits(tenant);
    assert forall|key: ChunkKey|
        {
            let named = key.tenant.0 == be_value(tenant@) && exists|j: int|
                0 <= j < metas.len() && ChunkId((#[trigger] metas[j]).chunk_id) == key.chunk;
            let parked = st.parked.contains_key(key) && st.parked[key] > 0;
            if st.chunks.contains_key(key) || !named {
                &&& #[trigger] next.chunks.contains_key(key) == st.chunks.contains_key(key)
                &&& st.chunks.contains_key(key) ==> next.chunks[key] == st.chunks[key]
                &&& next.parked.contains_key(key) == st.parked.contains_key(key)
                &&& st.parked.contains_key(key) ==> next.parked[key] == st.parked[key]
            } else {
                &&& next.chunks.contains_key(key)
                &&& next.chunks[key].tombstoned == parked
                &&& next.chunks[key].refcount == (if parked {
                    0int
                } else {
                    1
                })
                &&& next.chunks[key].created_ms == log_index
                &&& !next.parked.contains_key(key)
                &&& exists|i: int|
                    {
                        &&& 0 <= i < metas.len()
                        &&& ChunkId((#[trigger] metas[i]).chunk_id) == key.chunk
                        &&& next.chunks[key].placement == metas[i].placement@
                        &&& next.chunks[key].original_len == metas[i].original_len
                    }
            }
        } by {
        introducing_chunks(st, t, views, log_index, log_index, key);
        let listed = exists|j: int|
            0 <= j < views.len() && (#[trigger] views[j]).chunk == key.chunk;
        if exists|j: int| 0 <= j < metas.len() && ChunkId((#[trigger] metas[j]).chunk_id) == key.chunk {
            let j = choose|j: int|
                0 <= j < metas.len() && ChunkId((#[trigger] metas[j]).chunk_id) == key.chunk;
            assert(views[j].chunk == key.chunk);
        }
        if listed {
            let j = choose|j: int| 0 <= j < views.len() && (#[trigger] views[j]).chunk == key.chunk;
            assert(ChunkId(metas[j].chunk_id) == key.chunk);
        }
        if !st.chunks.contains_key(key) && key.tenant == t && listed {
            let i = choose|i: int|
                {
                    &&& 0 <= i < views.len()
                    &&& (#[trigger] views[i]).chunk == key.chunk
                    &&& next.chunks[key].placement == views[i].placement
                    &&& next.chunks[key].original_len == views[i].original_len
                };
            assert(ChunkId(metas[i].chunk_id) == key.chunk);
        }
    }
}

/// Law: an append with chunks leaves one delta more, introduces its chunks for its
/// tenant, and hands their payloads and its own to the inline store, where one is
/// attached. Nothing else changes.
pub proof fn chunk_append_leaves_delta_and_rows(
    st: SmView,
    tenant_id_bytes: [u8; 16],
    operation: u8,
    hashed_key: [u8; 32],
    chunk_refs: Vec<[u8; 32]>,
    payload: Vec<u8>,
    has_inline_data: bool,
    new_chunks: Vec<NewChunkMeta>,
    inline_payloads: Vec<InlinePayload>,
    log_index: u64,
    now_ms: u64,
)
    requires
        st.tip < u64::MAX,
        st.delta_count < u64::MAX,
    ensures
        ({
            let cmd = LogCommand::ChunkAndDelta {
                tenant_id_bytes,
                operation,
                hashed_key,
                chunk_refs,
                payload,
                has_inline_data,
                new_chunks,
                inline_payloads,
            };
            let next = applied(st, cmd, log_index, now_ms);
            let d = next.deltas.last();
            let puts = inline_puts(st, cmd, log_index, now_ms);
            &&& grew_by_one(st, next)
            &&& carries(
                d,
                st.tip + 1,
                st.shard_id,
                tenant_id_bytes,
                operation,
                hashed_key,
                chunk_refs@,
                payload@,
                has_inline_data,
                has_inline_data && st.inline_attached,
            )
            &&& d.header.timestamp.hlc.physical_ms == log_index
            &&& d.header.timestamp.millis == log_index
            &&& introduces(st, next, tenant_id_bytes, new_chunks@, log_index)
            &&& next == (SmView {
                tip: next.tip,
                delta_count: next.delta_count,
                deltas: next.deltas,
                chunks: next.chunks,
                parked: next.parked,
                ..st
            })
            &&& response(st, cmd, log_index, now_ms) == LogResponse::Appended(next.tip)
            &&& hands_over(puts, st, inline_payloads@, hashed_key, payload@, has_inline_data)
            &&& inline_deletes(st, cmd).len() == 0
        }),
{
    let cmd = LogCommand::ChunkAndDelta {
        tenant_id_bytes,
        operation,
        hashed_key,
        chunk_refs,
        payload,
        has_inline_data,
        new_chunks,
        inline_payloads,
    };
    let next = applied(st, cmd, log_index, now_ms);
    let t = crate::command::tenant_of(tenant_id_bytes);
    let views = crate::command::new_chunk_views(new_chunks@);
    lemma_chunks_created_frame(st, t, views, log_index);
    lemma_introduces(st, next, tenant_id_bytes, new_chunks@, log_index);
    lemma_tenant_fits(tenant_id_bytes);
    assert(next.deltas.drop_last() =~= st.deltas);
    let puts = inline_puts(st, cmd, log_index, now_ms);
    let n = if st.inline_attached {
        inline_payloads@.len() as int
    } else {
        0
    };
    assert(puts.skip(n) =~= crate::raft::state_machine::append_puts(
        st,
        crate::raft::state_machine::draft(
            tenant_id_bytes,
            operation,
            hashed_key,
            chunk_refs@,
            payload@,
            has_inline_data,
        ),
    ));
}

/// Whether what a command hands to the inline store is right: where one is attached,
/// the payloads of its chunks under their keys, in order, and then that of its delta.
pub open spec fn hands_over(
    puts: Seq<InlinePutView>,
    st: SmView,
    payloads: Seq<InlinePayload>,
    hashed_key: [u8; 32],
    payload: Seq<u8>,
    has_inline_data: bool,
) -> bool {
    if st.inline_attached {
        &&& puts.len() >= payloads.len()
        &&& forall|i: int|
            0 <= i < payloads.len() ==> (#[trigger] puts[i]).key == payloads[i].chunk_id@
                && puts[i].payload == payloads[i].payload@
        &&& offloads(
            puts.skip(payloads.len() as int),
            st,
            hashed_key,
            payload,
            has_inline_data,
        )
    } else {
        puts.len() == 0
    }
}

/// Law: an intent that is neither in the window nor ancient leaves one delta more, with
/// what it asked for, introduces its chunks, and hands its payloads over; one that is
/// in the window or ancient leaves neither delta, nor row, nor payload.
pub proof fn intent_leaves_its_delta(
    st: SmView,
    tenant_id_bytes: [u8; 16],
    operation: u8,
    hashed_key: [u8; 32],
    chunk_refs: Vec<[u8; 32]>,
    payload: Vec<u8>,
    has_inline_data: bool,
    new_chunks: Vec<NewChunkMeta>,
    perspective_seq: HybridLogicalClock,
    inline_payloads: Vec<InlinePayload>,
    log_index: u64,
    now_ms: u64,
)
    requires
        st.tip < u64::MAX,
        st.delta_count < u64::MAX,
        st.window_entries >= 1,
    ensures
        ({
            let cmd = LogCommand::IncorporateIntent {
                tenant_id_bytes,
                operation,
                hashed_key,
                chunk_refs,
                payload,
                has_inline_data,
                new_chunks,
                perspective_seq,
                inline_payloads,
            };
            let next = applied(st, cmd, log_index, now_ms);
            let d = next.deltas.last();
            let puts = inline_puts(st, cmd, log_index, now_ms);
            &&& response(st, cmd, log_index, now_ms) == LogResponse::Appended(next.tip)
            &&& inline_deletes(st, cmd).len() == 0
            &&& if st.recent_seqs.contains(perspective_seq) {
                next == st && puts.len() == 0
            } else if log_index < st.cutoff {
                &&& next == (SmView { ancient_refused: next.ancient_refused, ..st })
                &&& next.ancient_refused == (if st.ancient_refused < u64::MAX {
                    st.ancient_refused + 1
                } else {
                    u64::MAX as int
                })
                &&& puts.len() == 0
            } else {
                &&& grew_by_one(st, next)
                &&& carries(
                    d,
                    st.tip + 1,
                    st.shard_id,
                    tenant_id_bytes,
                    operation,
                    hashed_key,
                    chunk_refs@,
                    payload@,
                    has_inline_data,
                    has_inline_data && st.inline_attached,
                )
                &&& d.header.timestamp.hlc.physical_ms == log_index
                &&& d.header.timestamp.millis == log_index
                &&& introduces(st, next, tenant_id_bytes, new_chunks@, log_index)
                &&& hands_over(puts, st, inline_payloads@, hashed_key, payload@, has_inline_data)
                &&& next.recent.last().perspective_seq == perspective_seq
                &&& next.recent.last().log_index == log_index
                &&& next.recent.last().apply_ms == now_ms
            }
        }),
{
    let cmd = LogCommand::IncorporateIntent {
        tenant_id_bytes,
        operation,
        hashed_key,
        chunk_refs,
        payload,
        has_inline_data,
        new_chunks,
        perspective_seq,
        inline_payloads,
    };
    let next = applied(st, cmd, log_index, now_ms);
    let item = single_item(cmd);
    if !st.recent_seqs.contains(perspective_seq) {
        new_intent_is_appended(st, item, log_index, now_ms);
        if !(log_index < st.cutoff) {
            let rows = chunks_created(st, item.draft.tenant, item.new_chunks, log_index);
            lemma_chunks_created_frame(st, item.draft.tenant, item.new_chunks, log_index);
            let grown = crate::raft::state_machine::delta_appended(rows, item.draft, log_index);
            lemma_recent_pushed_frame(grown, log_index, item.seq, now_ms);
            assert(next.deltas == grown.deltas);
            lemma_introduces(st, next, tenant_id_bytes, new_chunks@, log_index);
            lemma_tenant_fits(tenant_id_bytes);
            let puts = inline_puts(st, cmd, log_index, now_ms);
            let n = if st.inline_attached {
                inline_payloads@.len() as int
            } else {
                0
            };
            assert(puts.skip(n) =~= crate::raft::state_machine::append_puts(st, item.draft));
        }
    }
}

/// Whether a command is the one for an item of a batch.
pub open spec fn command_for(cmd: LogCommand, item: IncorporateItem) -> bool {
    cmd matches LogCommand::IncorporateIntent {
        tenant_id_bytes,
        operation,
        hashed_key,
        chunk_refs,
        payload,
        has_inline_data,
        new_chunks,
        perspective_seq,
        inline_payloads,
    } && tenant_id_bytes == item.tenant_id_bytes && operation == item.operation && hashed_key
        == item.hashed_key && chunk_refs@ == item.chunk_refs@ && payload@ == item.payload@
        && has_inline_data == item.has_inline_data && new_chunks@ == item.new_chunks@
        && perspective_seq == item.perspective_seq && inline_payloads@ == item.inline_payloads@
}

/// Law: a batch does what the commands for its intents do, one after the other, at one
/// position and time, and hands over what they hand over.
pub proof fn batch_is_its_commands(
    st: SmView,
    items: Vec<IncorporateItem>,
    front: Vec<IncorporateItem>,
    last: LogCommand,
    log_index: u64,
    now_ms: u64,
)
    requires
        items@.len() > 0,
        front@ == items@.drop_last(),
        command_for(last, items@.last()),
    ensures
        ({
            let whole = LogCommand::IncorporateIntents { items };
            let first = LogCommand::IncorporateIntents { items: front };
            let mid = applied(st, first, log_index, now_ms);
            &&& applied(st, whole, log_index, now_ms) == applied(mid, last, log_index, now_ms)
            &&& inline_puts(st, whole, log_index, now_ms) == inline_puts(
                st,
                first,
                log_index,
                now_ms,
            ) + inline_puts(mid, last, log_index, now_ms)
            &&& response(st, whole, log_index, now_ms) == response(mid, last, log_index, now_ms)
        }),
{
    let views = crate::command::item_views(items@);
    assert(views.drop_last() =~= crate::command::item_views(front@));
    assert(views.last() =~= single_item(last));
}

/// Law: an empty batch does nothing.
pub proof fn empty_batch_does_nothing(
    st: SmView,
    items: Vec<IncorporateItem>,
    log_index: u64,
    now_ms: u64,
)
    requires
        items@.len() == 0,
    ensures
        ({
            let cmd = LogCommand::IncorporateIntents { items };
            &&& applied(st, cmd, log_index, now_ms) == st
            &&& inline_puts(st, cmd, log_index, now_ms).len() == 0
            &&& response(st, cmd, log_index, now_ms) == LogResponse::Appended(st.tip)
        }),
{
}

/// Law: a command that sets something sets it to what it was given, and nothing else
/// changes.
pub proof fn settings_are_set(
    st: SmView,
    enabled: bool,
    range_start: [u8; 32],
    range_end: [u8; 32],
    config: ShardConfig,
    log_index: u64,
    now_ms: u64,
)
    ensures
        applied(st, LogCommand::SetMaintenance { enabled }, log_index, now_ms) == (SmView {
            maintenance: enabled,
            ..st
        }),
        applied(
            st,
            LogCommand::UpdateShardRange { range_start, range_end },
            log_index,
            now_ms,
        ) == (SmView { range_start, range_end, ..st }),
        applied(
            st,
            LogCommand::SetShardConfig {
                max_delta_count: config.max_delta_count,
                max_byte_size: config.max_byte_size,
                inline_threshold_bytes: config.inline_threshold_bytes,
                inline_floor_bytes: config.inline_floor_bytes,
                inline_ceiling_bytes: config.inline_ceiling_bytes,
            },
            log_index,
            now_ms,
        ) == (SmView { config, ..st }),
{
}

/// Law: a state is set from its code, in the order of the states; a code past the last
/// one changes nothing.
pub proof fn state_is_set_from_its_code(st: SmView, code: u8, log_index: u64, now_ms: u64)
    ensures
        ({
            let next = applied(st, LogCommand::SetShardState { state: code }, log_index, now_ms);
            &&& next == (SmView { state: next.state, ..st })
            &&& code == crate::shard::state_code(next.state) || (next.state == st.state && forall|
                s: ShardState,
            | #[trigger] crate::shard::state_code(s) != code)
            &&& forall|s: ShardState| #[trigger]
                crate::shard::state_code(s) == code ==> next.state == s
        }),
{
    crate::shard::state_code_round_trip(st.state, code);
    assert forall|s: ShardState| #[trigger] crate::shard::state_code(s) == code implies applied(
        st,
        LogCommand::SetShardState { state: code },
        log_index,
        now_ms,
    ).state == s by {
        crate::shard::state_code_round_trip(s, code);
    }
}

/// Law: the counters have room for a command exactly where no counter would pass its
/// largest value.
pub proof fn room_is_what_the_counters_leave(st: SmView, cmd: LogCommand)
    ensures
        !(cmd is DecrementChunkRefcount) ==> (has_room(st, cmd) <==> st.tip + (match cmd {
            LogCommand::IncorporateIntents { items } => items@.len() as int,
            LogCommand::AppendDelta { .. } => 1,
            LogCommand::MoveDelta { .. } => 1,
            LogCommand::ChunkAndDelta { .. } => 1,
            LogCommand::IncorporateIntent { .. } => 1,
            _ => 0,
        }) <= u64::MAX && st.delta_count + (match cmd {
            LogCommand::IncorporateIntents { items } => items@.len() as int,
            LogCommand::AppendDelta { .. } => 1,
            LogCommand::MoveDelta { .. } => 1,
            LogCommand::ChunkAndDelta { .. } => 1,
            LogCommand::IncorporateIntent { .. } => 1,
            _ => 0,
        }) <= u64::MAX),
        cmd is DecrementChunkRefcount && (forall|k: ChunkKey| #[trigger]
            st.parked.contains_key(k) ==> st.parked[k] < u64::MAX) ==> has_room(st, cmd),
{
}

// ---------------------------------------------------------------------------
// References of chunks
// ---------------------------------------------------------------------------

/// The command that adds a reference to a chunk, and the one that drops one.
pub open spec fn increment(tenant: [u8; 16], chunk_id: [u8; 32]) -> LogCommand {
    LogCommand::IncrementChunkRefcount { tenant_id_bytes: tenant, chunk_id }
}

/// The command that drops a reference of a chunk.
pub open spec fn decrement(tenant: [u8; 16], chunk_id: [u8; 32]) -> LogCommand {
    LogCommand::DecrementChunkRefcount { tenant_id_bytes: tenant, chunk_id }
}

/// Whether a key is that of a chunk of a tenant.
pub open spec fn names(key: ChunkKey, tenant: [u8; 16], chunk_id: [u8; 32]) -> bool {
    key.tenant.0 == be_value(tenant@) && key.chunk.0 == chunk_id
}

/// Law: adding a reference raises the count of the row by one, and takes a tombstone
/// back; the row keeps its placement, its length and its age. A chunk without a row
/// is left alone, and so is everything else.
pub proof fn reference_is_added(
    st: SmView,
    tenant: [u8; 16],
    chunk_id: [u8; 32],
    key: ChunkKey,
    log_index: u64,
    now_ms: u64,
)
    requires
        names(key, tenant, chunk_id),
    ensures
        ({
            let next = applied(st, increment(tenant, chunk_id), log_index, now_ms);
            &&& !st.chunks.contains_key(key) ==> next == st
            &&& st.chunks.contains_key(key) ==> {
                let was = st.chunks[key];
                let row = next.chunks[key];
                &&& next.chunks.contains_key(key)
                &&& was.refcount < u64::MAX ==> row.refcount == was.refcount + 1
                &&& was.refcount == u64::MAX ==> row.refcount == u64::MAX
                &&& !row.tombstoned
                &&& row.placement == was.placement
                &&& row.created_ms == was.created_ms
                &&& row.original_len == was.original_len
                &&& next.chunks.remove(key) == st.chunks.remove(key)
                &&& next == (SmView { chunks: next.chunks, ..st })
            }
            &&& response(st, increment(tenant, chunk_id), log_index, now_ms) == LogResponse::Done
        }),
{
    lemma_tenant_fits(tenant);
    let next = applied(st, increment(tenant, chunk_id), log_index, now_ms);
    assert(key == ChunkKey { tenant: crate::command::tenant_of(tenant), chunk: ChunkId(chunk_id) });
    assert(next.chunks.remove(key) =~= st.chunks.remove(key));
}

/// Law: dropping a reference lowers the count of the row by one. The last one leaves a
/// tombstone, and only then is one reported. Of a chunk without a row the drop is
/// remembered, unless as many other chunks as are kept track of are remembered
/// already. Nothing else changes.
pub proof fn reference_is_dropped(
    st: SmView,
    tenant: [u8; 16],
    chunk_id: [u8; 32],
    key: ChunkKey,
    log_index: u64,
    now_ms: u64,
)
    requires
        names(key, tenant, chunk_id),
        st.parked.contains_key(key) ==> st.parked[key] < u64::MAX,
    ensures
        ({
            let cmd = decrement(tenant, chunk_id);
            let next = applied(st, cmd, log_index, now_ms);
            let answer = response(st, cmd, log_index, now_ms);
            &&& st.chunks.contains_key(key) ==> {
                let was = st.chunks[key];
                let row = next.chunks[key];
                &&& next.chunks.contains_key(key)
                &&& was.refcount > 0 ==> row.refcount == was.refcount - 1
                &&& was.refcount == 0 ==> row.refcount == 0
                &&& row.tombstoned <==> was.tombstoned || was.refcount <= 1
                &&& row.placement == was.placement
                &&& row.created_ms == was.created_ms
                &&& row.original_len == was.original_len
                &&& next.chunks.remove(key) == st.chunks.remove(key)
                &&& next == (SmView { chunks: next.chunks, ..st })
                &&& answer == LogResponse::DecrementOutcome(
                    was.refcount <= 1 && !was.tombstoned,
                )
            }
            &&& !st.chunks.contains_key(key) ==> {
                &&& answer == LogResponse::DecrementOutcome(false)
                &&& if st.parked.contains_key(key) {
                    next == (SmView {
                        parked: st.parked.insert(key, (st.parked[key] + 1) as u64),
                        ..st
                    })
                } else if st.parked.dom().len() < 65_536 {
                    next == (SmView { parked: st.parked.insert(key, 1), ..st })
                } else {
                    next == st
                }
            }
        }),
{
    lemma_tenant_fits(tenant);
    let next = applied(st, decrement(tenant, chunk_id), log_index, now_ms);
    assert(key == ChunkKey { tenant: crate::command::tenant_of(tenant), chunk: ChunkId(chunk_id) });
    if st.chunks.contains_key(key) {
        assert(next.chunks.remove(key) =~= st.chunks.remove(key));
    }
}

/// The state after a command was applied a number of times.
pub open spec fn repeated(
    st: SmView,
    cmd: LogCommand,
    n: nat,
    log_index: u64,
    now_ms: u64,
) -> SmView
    decreases n,
{
    if n == 0 {
        st
    } else {
        applied(repeated(st, cmd, (n - 1) as nat, log_index, now_ms), cmd, log_index, now_ms)
    }
}

/// Law: references are counted. After a number of adds and then of no more drops, the
/// count of a row is what it was, and the adds, less the drops; and as long as one is
/// left, no drop is reported as the last, and the next drop is exactly where one is.
pub proof fn references_are_counted(
    st: SmView,
    tenant: [u8; 16],
    chunk_id: [u8; 32],
    key: ChunkKey,
    adds: nat,
    drops: nat,
    log_index: u64,
    now_ms: u64,
)
    requires
        names(key, tenant, chunk_id),
        st.chunks.contains_key(key),
        st.chunks[key].refcount > 0,
        !st.chunks[key].tombstoned,
        st.chunks[key].refcount + adds <= u64::MAX,
        drops < st.chunks[key].refcount + adds,
    ensures
        ({
            let added = repeated(st, increment(tenant, chunk_id), adds, log_index, now_ms);
            let now = repeated(added, decrement(tenant, chunk_id), drops, log_index, now_ms);
            let left = st.chunks[key].refcount + adds - drops;
            &&& now.chunks.contains_key(key)
            &&& now.chunks[key].refcount == left
            &&& !now.chunks[key].tombstoned
            &&& response(now, decrement(tenant, chunk_id), log_index, now_ms)
                == LogResponse::DecrementOutcome(left == 1)
            &&& applied(
                now,
                decrement(tenant, chunk_id),
                log_index,
                now_ms,
            ).chunks[key].tombstoned <==> left == 1
        }),
    decreases drops, adds,
{
    let up = increment(tenant, chunk_id);
    let down = decrement(tenant, chunk_id);
    lemma_tenant_fits(tenant);
    assert(key == ChunkKey { tenant: crate::command::tenant_of(tenant), chunk: ChunkId(chunk_id) });
    if drops > 0 {
        references_are_counted(
            st,
            tenant,
            chunk_id,
            key,
            adds,
            (drops - 1) as nat,
            log_index,
            now_ms,
        );
        let added = repeated(st, up, adds, log_index, now_ms);
        let before = repeated(added, down, (drops - 1) as nat, log_index, now_ms);
        assert(repeated(added, down, drops, log_index, now_ms) == applied(
            before,
            down,
            log_index,
            now_ms,
        ));
    } else if adds > 0 {
        references_are_counted(
            st,
            tenant,
            chunk_id,
            key,
            (adds - 1) as nat,
            0,
            log_index,
            now_ms,
        );
        let before = repeated(st, up, (adds - 1) as nat, log_index, now_ms);
        assert(repeated(before, down, 0, log_index, now_ms) == before);
        let added = repeated(st, up, adds, log_index, now_ms);
        assert(added == applied(before, up, log_index, now_ms));
        assert(repeated(added, down, 0, log_index, now_ms) == added);
    } else {
        assert(repeated(st, up, 0, log_index, now_ms) == st);
        assert(repeated(st, down, 0, log_index, now_ms) == st);
    }
}

// ---------------------------------------------------------------------------
// Watermarks and pruning
// ---------------------------------------------------------------------------

proof fn lemma_below_count_filter(deltas: Seq<DeltaView>, boundary: u64)
    requires
        forall|i: int, j: int|
            0 <= i < j < deltas.len() ==> (#[trigger] deltas[i]).header.sequence < (
            #[trigger] deltas[j]).header.sequence,
    ensures
        below_count(deltas, boundary) <= deltas.len(),
        forall|i: int|
            0 <= i < deltas.len() ==> ((#[trigger] deltas[i]).header.sequence < boundary <==> i
                < below_count(deltas, boundary)),
    decreases deltas.len(),
{
    if deltas.len() > 0 && deltas[0].header.sequence < boundary {
        let rest = deltas.subrange(1, deltas.len() as int);
        assert forall|i: int, j: int| 0 <= i < j < rest.len() implies (
        #[trigger] rest[i]).header.sequence < (#[trigger] rest[j]).header.sequence by {
            assert(rest[i] == deltas[i + 1] && rest[j] == deltas[j + 1]);
        }
        lemma_below_count_filter(rest, boundary);
        assert forall|i: int| 0 <= i < deltas.len() implies ((
        #[trigger] deltas[i]).header.sequence < boundary <==> i < below_count(deltas, boundary)) by {
            if i > 0 {
                assert(rest[i - 1] == deltas[i]);
            }
        }
    } else if deltas.len() > 0 {
        assert forall|i: int| 0 <= i < deltas.len() implies (
        #[trigger] deltas[i]).header.sequence >= boundary by {
            if i > 0 {
                assert(deltas[0].header.sequence < deltas[i].header.sequence);
            }
        }
    }
}

/// Law: a prune drops exactly what every consumer has passed. Once a consumer has
/// moved, the deltas that are left are those at or past the lowest position of any
/// consumer, in order; the inline keys that are freed are those of the dropped deltas
/// with inline data, in order, where a store is attached. Tip, count and everything
/// else but the watermarks stay.
pub proof fn prune_drops_what_all_have_passed(
    st: SmView,
    consumer: String,
    position: u64,
    low: u64,
    log_index: u64,
    now_ms: u64,
)
    requires
        in_order(st),
        ({
            let w = applied(
                st,
                LogCommand::AdvanceWatermark { consumer, position },
                log_index,
                now_ms,
            ).watermarks;
            &&& exists|i: int| 0 <= i < w.len() && (#[trigger] w[i]).1 == low
            &&& forall|i: int| 0 <= i < w.len() ==> low <= (#[trigger] w[i]).1
        }),
    ensures
        ({
            let cmd = LogCommand::AdvanceWatermark { consumer, position };
            let next = applied(st, cmd, log_index, now_ms);
            let dropped = st.deltas.len() - next.deltas.len();
            let freed = inline_deletes(st, cmd);
            &&& 0 <= dropped
            &&& next.deltas == st.deltas.skip(dropped)
            &&& forall|i: int|
                0 <= i < st.deltas.len() ==> ((#[trigger] st.deltas[i]).header.sequence < low <==> i
                    < dropped)
            &&& next == (SmView { watermarks: next.watermarks, deltas: next.deltas, ..st })
            &&& response(st, cmd, log_index, now_ms) == LogResponse::Done
            &&& freed == (if st.inline_attached {
                st.deltas.take(dropped).filter(|d: DeltaView| d.header.has_inline_data).map_values(
                    |d: DeltaView| inline_key(d.header.hashed_key@, d.header.sequence),
                )
            } else {
                Seq::empty()
            })
        }),
{
    let cmd = LogCommand::AdvanceWatermark { consumer, position };
    let next = applied(st, cmd, log_index, now_ms);
    let mid = crate::raft::state_machine::consumer_advanced(st, consumer@, position);
    assert(next.watermarks == mid.watermarks);
    crate::watermark::lowest_position_is_minimum(mid.watermarks);
    let i = choose|i: int| 0 <= i < mid.watermarks.len() && (#[trigger] mid.watermarks[i]).1 == low;
    let b = crate::watermark::lowest_position(mid.watermarks)->0;
    assert(crate::watermark::lowest_position(mid.watermarks) is Some);
    let j = choose|j: int| 0 <= j < mid.watermarks.len() && (#[trigger] mid.watermarks[j]).1 == b;
    assert(low <= mid.watermarks[j].1 && b <= mid.watermarks[i].1);
    assert(b == low);
    lemma_below_count_filter(st.deltas, low);
    let k = prunable(mid) as int;
    lemma_inline_keys(st.deltas.take(k));
}

/// The inline keys of deltas, in order.
pub proof fn lemma_inline_keys(deltas: Seq<DeltaView>)
    ensures
        crate::raft::state_machine::inline_keys_of(deltas) == deltas.filter(
            |d: DeltaView| d.header.has_inline_data,
        ).map_values(|d: DeltaView| inline_key(d.header.hashed_key@, d.header.sequence)),
    decreases deltas.len(),
{
    let p = |d: DeltaView| d.header.has_inline_data;
    let f = |d: DeltaView| inline_key(d.header.hashed_key@, d.header.sequence);
    reveal(Seq::filter);
    if deltas.len() > 0 {
        lemma_inline_keys(deltas.drop_last());
        let front = deltas.drop_last().filter(p);
        assert(deltas.filter(p).map_values(f) =~= if p(deltas.last()) {
            front.map_values(f).push(f(deltas.last()))
        } else {
            front.map_values(f)
        });
    } else {
        assert(deltas.filter(p).map_values(f) =~= Seq::<Seq<u8>>::empty());
    }
}

} // verus!
