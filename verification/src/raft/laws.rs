//! Laws of the state machine: what holds of every state it can reach and of
//! every command it applies.

use vstd::prelude::*;

use crate::command::{
    inline_views, item_views, new_chunk_views, tenant_of, DraftView, InlinePutView, ItemView,
    LogCommand, NewChunkView,
};
use crate::delta::DeltaView;
use crate::ids::{ChunkId, ChunkKey, OrgId};
use crate::inline_store::inline_key;
use crate::raft::state_machine::{
    append_puts, applied, below_count, chunk_created, chunks_created, consumer_advanced,
    delta_appended, draft, drop_tombstones, evicted, gate_open, has_room, incorporate_puts,
    incorporated, incorporated_all, inline_keys_of, lemma_chunks_created_frame,
    lemma_incorporated_counts, lemma_incorporated_shape, lemma_recent_pushed_frame, must_evict,
    oldest_evicted, parks, prunable, pruned, recent_pushed, reference_added, reference_dropped,
    response, sat_add, stamped, ChunkRow, RecentIncorporatedEntry, SmView,
    PENDING_CHUNK_DECREMENTS_CAP,
};
use crate::raft::types::LogResponse;
use crate::time::HybridLogicalClock;
use crate::watermark::lowest_position;

verus! {

// ---------------------------------------------------------------------------
// Total order of deltas
// ---------------------------------------------------------------------------

/// The deltas that are still there are numbered without a gap, up to the tip.
pub open spec fn gap_free(st: SmView) -> bool {
    &&& st.deltas.len() <= st.tip
    &&& forall|i: int|
        0 <= i < st.deltas.len() ==> (#[trigger] st.deltas[i]).header.sequence == st.tip
            - st.deltas.len() + 1 + i
}

/// The deltas that are still there are in strictly ascending order, up to the tip.
/// Unlike the numbering without a gap, this outlives a compaction.
pub open spec fn in_order(st: SmView) -> bool {
    &&& forall|i: int, j: int|
        0 <= i < j < st.deltas.len() ==> (#[trigger] st.deltas[i]).header.sequence < (
        #[trigger] st.deltas[j]).header.sequence
    &&& forall|i: int|
        0 <= i < st.deltas.len() ==> (#[trigger] st.deltas[i]).header.sequence <= st.tip
}

proof fn lemma_below_count_bound(deltas: Seq<DeltaView>, boundary: u64)
    ensures
        below_count(deltas, boundary) <= deltas.len(),
        forall|i: int|
            0 <= i < below_count(deltas, boundary) ==> (#[trigger] deltas[i]).header.sequence
                < boundary,
        below_count(deltas, boundary) < deltas.len()
            ==> deltas[below_count(deltas, boundary) as int].header.sequence >= boundary,
    decreases deltas.len(),
{
    if deltas.len() > 0 && deltas[0].header.sequence < boundary {
        let rest = deltas.subrange(1, deltas.len() as int);
        lemma_below_count_bound(rest, boundary);
        assert forall|i: int| 0 <= i < below_count(deltas, boundary) implies (
        #[trigger] deltas[i]).header.sequence < boundary by {
            if i > 0 {
                assert(rest[i - 1] == deltas[i]);
            }
        }
        if below_count(deltas, boundary) < deltas.len() {
            assert(rest[below_count(rest, boundary) as int] == deltas[below_count(
                deltas,
                boundary,
            ) as int]);
        }
    }
}

proof fn lemma_gap_free_append(st: SmView, d: DraftView, log_index: u64)
    requires
        gap_free(st),
        st.tip < u64::MAX,
    ensures
        gap_free(delta_appended(st, d, log_index)),
{
    let next = delta_appended(st, d, log_index);
    assert forall|i: int| 0 <= i < next.deltas.len() implies (
    #[trigger] next.deltas[i]).header.sequence == next.tip - next.deltas.len() + 1 + i by {
        if i < st.deltas.len() {
            assert(next.deltas[i] == st.deltas[i]);
        }
    }
}

proof fn lemma_gap_free_incorporated(st: SmView, item: ItemView, log_index: u64, now_ms: u64)
    requires
        gap_free(st),
        st.tip < u64::MAX,
    ensures
        gap_free(incorporated(st, item, log_index, now_ms)),
{
    if gate_open(st, item.seq, log_index) {
        lemma_incorporated_shape(st, item, log_index, now_ms);
        lemma_gap_free_append(st, item.draft, log_index);
    }
}

proof fn lemma_gap_free_batch(st: SmView, items: Seq<ItemView>, log_index: u64, now_ms: u64)
    requires
        gap_free(st),
        st.tip + items.len() <= u64::MAX,
        st.delta_count + items.len() <= u64::MAX,
    ensures
        gap_free(incorporated_all(st, items, log_index, now_ms)),
        st.tip <= incorporated_all(st, items, log_index, now_ms).tip <= st.tip + items.len(),
        incorporated_all(st, items, log_index, now_ms).delta_count <= st.delta_count + items.len(),
    decreases items.len(),
{
    if items.len() > 0 {
        let front = items.drop_last();
        lemma_gap_free_batch(st, front, log_index, now_ms);
        let mid = incorporated_all(st, front, log_index, now_ms);
        lemma_gap_free_incorporated(mid, items.last(), log_index, now_ms);
        lemma_incorporated_counts(mid, items.last(), log_index, now_ms);
    }
}

/// Law: every command keeps the numbering of a shard's deltas monotonic and
/// without gaps, and never lowers the tip.
pub proof fn commands_keep_deltas_gap_free(
    st: SmView,
    cmd: LogCommand,
    log_index: u64,
    now_ms: u64,
)
    requires
        gap_free(st),
        has_room(st, cmd),
    ensures
        gap_free(applied(st, cmd, log_index, now_ms)),
        applied(st, cmd, log_index, now_ms).tip >= st.tip,
{
    let next = applied(st, cmd, log_index, now_ms);
    match cmd {
        LogCommand::AppendDelta {
            tenant_id_bytes,
            operation,
            hashed_key,
            chunk_refs,
            payload,
            has_inline_data,
        } => {
            lemma_gap_free_append(
                st,
                draft(
                    tenant_id_bytes,
                    operation,
                    hashed_key,
                    chunk_refs@,
                    payload@,
                    has_inline_data,
                ),
                log_index,
            );
        },
        LogCommand::MoveDelta {
            tenant_id_bytes,
            operation,
            hashed_key,
            chunk_refs,
            payload,
            has_inline_data,
            timestamp,
        } => {
            let d = draft(
                tenant_id_bytes,
                operation,
                hashed_key,
                chunk_refs@,
                payload@,
                has_inline_data,
            );
            lemma_gap_free_append(st, stamped(d, Some(timestamp@)), log_index);
        },
        LogCommand::ChunkAndDelta {
            tenant_id_bytes,
            operation,
            hashed_key,
            chunk_refs,
            payload,
            has_inline_data,
            new_chunks,
            inline_payloads,
        } => {
            let metas = new_chunk_views(new_chunks@);
            lemma_chunks_created_frame(st, tenant_of(tenant_id_bytes), metas, log_index);
            lemma_gap_free_append(
                chunks_created(st, tenant_of(tenant_id_bytes), metas, log_index),
                draft(
                    tenant_id_bytes,
                    operation,
                    hashed_key,
                    chunk_refs@,
                    payload@,
                    has_inline_data,
                ),
                log_index,
            );
        },
        LogCommand::IncorporateIntent { .. } => {
            let item = single_item(cmd);
            lemma_gap_free_incorporated(st, item, log_index, now_ms);
            lemma_incorporated_counts(st, item, log_index, now_ms);
        },
        LogCommand::IncorporateIntents { items } => {
            lemma_gap_free_batch(st, item_views(items@), log_index, now_ms);
        },
        LogCommand::AdvanceWatermark { consumer, position } => {
            let mid = consumer_advanced(st, consumer@, position);
            let k = prunable(mid);
            match lowest_position(mid.watermarks) {
                Some(b) => {
                    lemma_below_count_bound(mid.deltas, b);
                },
                None => {},
            }
            assert forall|i: int| 0 <= i < next.deltas.len() implies (
            #[trigger] next.deltas[i]).header.sequence == next.tip - next.deltas.len() + 1 + i by {
                assert(next.deltas[i] == st.deltas[i + k]);
            }
        },
        _ => {},
    }
}

proof fn lemma_in_order_append(st: SmView, d: DraftView, log_index: u64)
    requires
        in_order(st),
        st.tip < u64::MAX,
    ensures
        in_order(delta_appended(st, d, log_index)),
{
    let next = delta_appended(st, d, log_index);
    let n = st.deltas.len() as int;
    assert forall|i: int, j: int| 0 <= i < j < next.deltas.len() implies (
    #[trigger] next.deltas[i]).header.sequence < (#[trigger] next.deltas[j]).header.sequence by {
        assert(next.deltas[i] == st.deltas[i]);
        if j < n {
            assert(next.deltas[j] == st.deltas[j]);
        }
    }
    assert forall|i: int| 0 <= i < next.deltas.len() implies (
    #[trigger] next.deltas[i]).header.sequence <= next.tip by {
        if i < n {
            assert(next.deltas[i] == st.deltas[i]);
        }
    }
}

proof fn lemma_in_order_incorporated(st: SmView, item: ItemView, log_index: u64, now_ms: u64)
    requires
        in_order(st),
        st.tip < u64::MAX,
    ensures
        in_order(incorporated(st, item, log_index, now_ms)),
{
    if gate_open(st, item.seq, log_index) {
        lemma_incorporated_shape(st, item, log_index, now_ms);
        lemma_in_order_append(st, item.draft, log_index);
    }
}

proof fn lemma_in_order_batch(st: SmView, items: Seq<ItemView>, log_index: u64, now_ms: u64)
    requires
        in_order(st),
        st.tip + items.len() <= u64::MAX,
        st.delta_count + items.len() <= u64::MAX,
    ensures
        in_order(incorporated_all(st, items, log_index, now_ms)),
        incorporated_all(st, items, log_index, now_ms).tip <= st.tip + items.len(),
        incorporated_all(st, items, log_index, now_ms).delta_count <= st.delta_count + items.len(),
    decreases items.len(),
{
    if items.len() > 0 {
        let front = items.drop_last();
        lemma_in_order_batch(st, front, log_index, now_ms);
        let mid = incorporated_all(st, front, log_index, now_ms);
        lemma_in_order_incorporated(mid, items.last(), log_index, now_ms);
        lemma_incorporated_counts(mid, items.last(), log_index, now_ms);
    }
}

/// Law: every command keeps a shard's deltas in strictly ascending order.
pub proof fn commands_keep_deltas_in_order(
    st: SmView,
    cmd: LogCommand,
    log_index: u64,
    now_ms: u64,
)
    requires
        in_order(st),
        has_room(st, cmd),
    ensures
        in_order(applied(st, cmd, log_index, now_ms)),
{
    let next = applied(st, cmd, log_index, now_ms);
    match cmd {
        LogCommand::AppendDelta {
            tenant_id_bytes,
            operation,
            hashed_key,
            chunk_refs,
            payload,
            has_inline_data,
        } => {
            lemma_in_order_append(
                st,
                draft(
                    tenant_id_bytes,
                    operation,
                    hashed_key,
                    chunk_refs@,
                    payload@,
                    has_inline_data,
                ),
                log_index,
            );
        },
        LogCommand::MoveDelta {
            tenant_id_bytes,
            operation,
            hashed_key,
            chunk_refs,
            payload,
            has_inline_data,
            timestamp,
        } => {
            let d = draft(
                tenant_id_bytes,
                operation,
                hashed_key,
                chunk_refs@,
                payload@,
                has_inline_data,
            );
            lemma_in_order_append(st, stamped(d, Some(timestamp@)), log_index);
        },
        LogCommand::ChunkAndDelta {
            tenant_id_bytes,
            operation,
            hashed_key,
            chunk_refs,
            payload,
            has_inline_data,
            new_chunks,
            inline_payloads,
        } => {
            let metas = new_chunk_views(new_chunks@);
            lemma_chunks_created_frame(st, tenant_of(tenant_id_bytes), metas, log_index);
            lemma_in_order_append(
                chunks_created(st, tenant_of(tenant_id_bytes), metas, log_index),
                draft(
                    tenant_id_bytes,
                    operation,
                    hashed_key,
                    chunk_refs@,
                    payload@,
                    has_inline_data,
                ),
                log_index,
            );
        },
        LogCommand::IncorporateIntent { .. } => {
            lemma_in_order_incorporated(st, single_item(cmd), log_index, now_ms);
        },
        LogCommand::IncorporateIntents { items } => {
            lemma_in_order_batch(st, item_views(items@), log_index, now_ms);
        },
        LogCommand::AdvanceWatermark { consumer, position } => {
            let mid = consumer_advanced(st, consumer@, position);
            let k = prunable(mid);
            match lowest_position(mid.watermarks) {
                Some(b) => {
                    lemma_below_count_bound(mid.deltas, b);
                },
                None => {},
            }
            assert forall|i: int, j: int| 0 <= i < j < next.deltas.len() implies (
            #[trigger] next.deltas[i]).header.sequence < (
            #[trigger] next.deltas[j]).header.sequence by {
                assert(next.deltas[i] == st.deltas[i + k]);
                assert(next.deltas[j] == st.deltas[j + k]);
            }
            assert forall|i: int| 0 <= i < next.deltas.len() implies (
            #[trigger] next.deltas[i]).header.sequence <= next.tip by {
                assert(next.deltas[i] == st.deltas[i + k]);
            }
        },
        _ => {},
    }
}

/// The item that a command for a single intent holds.
pub open spec fn single_item(cmd: LogCommand) -> ItemView {
    match cmd {
        LogCommand::IncorporateIntent {
            tenant_id_bytes,
            operation,
            hashed_key,
            chunk_refs,
            payload,
            has_inline_data,
            new_chunks,
            perspective_seq,
            inline_payloads,
        } => ItemView {
            draft: draft(
                tenant_id_bytes,
                operation,
                hashed_key,
                chunk_refs@,
                payload@,
                has_inline_data,
            ),
            new_chunks: new_chunk_views(new_chunks@),
            seq: perspective_seq,
            inline_payloads: inline_views(inline_payloads@),
        },
        _ => arbitrary(),
    }
}

/// Law: a command that appends answers with the sequence number of the last
/// delta of the shard, and that number is the tip.
pub proof fn appended_answer_is_the_tip(
    st: SmView,
    cmd: LogCommand,
    log_index: u64,
    now_ms: u64,
)
    requires
        gap_free(st),
        has_room(st, cmd),
    ensures
        response(st, cmd, log_index, now_ms) matches LogResponse::Appended(seq) ==> {
            let next = applied(st, cmd, log_index, now_ms);
            &&& seq == next.tip
            &&& next.deltas.len() > 0 ==> next.deltas.last().header.sequence == seq
        },
{
    commands_keep_deltas_gap_free(st, cmd, log_index, now_ms);
}

// ---------------------------------------------------------------------------
// Committed deltas are immutable, and only consumed ones are dropped
// ---------------------------------------------------------------------------

proof fn lemma_batch_keeps_prefix(st: SmView, items: Seq<ItemView>, log_index: u64, now_ms: u64)
    ensures
        st.deltas.len() <= incorporated_all(st, items, log_index, now_ms).deltas.len(),
        incorporated_all(st, items, log_index, now_ms).deltas.take(st.deltas.len() as int)
            == st.deltas,
    decreases items.len(),
{
    if items.len() == 0 {
        assert(st.deltas.take(st.deltas.len() as int) =~= st.deltas);
    } else {
        let front = items.drop_last();
        lemma_batch_keeps_prefix(st, front, log_index, now_ms);
        let mid = incorporated_all(st, front, log_index, now_ms);
        let next = incorporated(mid, items.last(), log_index, now_ms);
        if gate_open(mid, items.last().seq, log_index) {
            lemma_incorporated_shape(mid, items.last(), log_index, now_ms);
        }
        assert(next.deltas.take(st.deltas.len() as int) =~= mid.deltas.take(
            st.deltas.len() as int,
        ));
    }
}

/// Law: no command changes a committed delta. Except for a watermark command,
/// the deltas of before are a prefix of the deltas of after.
pub proof fn committed_deltas_are_immutable(
    st: SmView,
    cmd: LogCommand,
    log_index: u64,
    now_ms: u64,
)
    requires
        !(cmd is AdvanceWatermark),
    ensures
        st.deltas.len() <= applied(st, cmd, log_index, now_ms).deltas.len(),
        applied(st, cmd, log_index, now_ms).deltas.take(st.deltas.len() as int) == st.deltas,
{
    let next = applied(st, cmd, log_index, now_ms);
    match cmd {
        LogCommand::ChunkAndDelta { tenant_id_bytes, new_chunks, .. } => {
            lemma_chunks_created_frame(
                st,
                tenant_of(tenant_id_bytes),
                new_chunk_views(new_chunks@),
                log_index,
            );
        },
        LogCommand::IncorporateIntent { .. } => {
            let item = single_item(cmd);
            if gate_open(st, item.seq, log_index) {
                lemma_incorporated_shape(st, item, log_index, now_ms);
            }
        },
        LogCommand::IncorporateIntents { items } => {
            lemma_batch_keeps_prefix(st, item_views(items@), log_index, now_ms);
        },
        _ => {},
    }
    assert(next.deltas.take(st.deltas.len() as int) =~= st.deltas);
}

/// Law: a watermark command drops exactly the deltas that every consumer has
/// passed, and keeps the others in order; without a consumer it drops none. The
/// count of committed deltas stays.
pub proof fn pruning_drops_what_every_consumer_passed(
    st: SmView,
    consumer: Seq<char>,
    position: u64,
)
    requires
        gap_free(st),
    ensures
        ({
            let mid = consumer_advanced(st, consumer, position);
            let next = pruned(mid);
            &&& next.deltas == st.deltas.skip(prunable(mid) as int)
            &&& next.delta_count == st.delta_count
            &&& next.tip == st.tip
            &&& match lowest_position(mid.watermarks) {
                Some(b) => {
                    &&& forall|i: int|
                        0 <= i < st.deltas.len() ==> ((#[trigger] st.deltas[i]).header.sequence < b
                            <==> i < prunable(mid))
                    &&& forall|i: int|
                        0 <= i < next.deltas.len() ==> (#[trigger] next.deltas[i]).header.sequence
                            >= b
                },
                None => next.deltas == st.deltas,
            }
        }),
{
    let mid = consumer_advanced(st, consumer, position);
    let next = pruned(mid);
    match lowest_position(mid.watermarks) {
        Some(b) => {
            lemma_below_count_bound(st.deltas, b);
            let k = prunable(mid) as int;
            assert forall|i: int| 0 <= i < st.deltas.len() implies ((
            #[trigger] st.deltas[i]).header.sequence < b <==> i < k) by {
                if i >= k {
                    assert(st.deltas[k].header.sequence >= b);
                }
            }
            assert forall|i: int| 0 <= i < next.deltas.len() implies (
            #[trigger] next.deltas[i]).header.sequence >= b by {
                assert(next.deltas[i] == st.deltas[i + k]);
            }
        },
        None => {
            assert(st.deltas.skip(0) =~= st.deltas);
        },
    }
}

// ---------------------------------------------------------------------------
// Exactly-once incorporation of intents
// ---------------------------------------------------------------------------

/// The window and the set of its clock readings agree, and no reading is in the
/// window twice.
pub open spec fn window_in_sync(st: SmView) -> bool {
    &&& forall|i: int, j: int|
        0 <= i < j < st.recent.len() ==> (#[trigger] st.recent[i]).perspective_seq != (
        #[trigger] st.recent[j]).perspective_seq
    &&& forall|s: HybridLogicalClock| #[trigger]
        st.recent_seqs.contains(s) <==> exists|i: int|
            0 <= i < st.recent.len() && (#[trigger] st.recent[i]).perspective_seq == s
}

proof fn lemma_oldest_evicted_in_sync(st: SmView)
    requires
        window_in_sync(st),
        st.recent.len() > 0,
    ensures
        window_in_sync(oldest_evicted(st)),
{
    let next = oldest_evicted(st);
    assert forall|s: HybridLogicalClock| #[trigger]
        next.recent_seqs.contains(s) <==> exists|i: int|
            0 <= i < next.recent.len() && (#[trigger] next.recent[i]).perspective_seq == s by {
        if next.recent_seqs.contains(s) {
            assert(st.recent_seqs.contains(s));
            let i = choose|i: int|
                0 <= i < st.recent.len() && (#[trigger] st.recent[i]).perspective_seq == s;
            assert(next.recent[i - 1].perspective_seq == s);
        }
        if exists|i: int| 0 <= i < next.recent.len() && (#[trigger] next.recent[i]).perspective_seq
            == s {
            let i = choose|i: int|
                0 <= i < next.recent.len() && (#[trigger] next.recent[i]).perspective_seq == s;
            assert(st.recent[i + 1].perspective_seq == s);
            assert(st.recent[0].perspective_seq != st.recent[i + 1].perspective_seq);
        }
    }
    assert forall|i: int, j: int| 0 <= i < j < next.recent.len() implies (
    #[trigger] next.recent[i]).perspective_seq != (#[trigger] next.recent[j]).perspective_seq by {
        assert(next.recent[i] == st.recent[i + 1] && next.recent[j] == st.recent[j + 1]);
    }
}

proof fn lemma_evicted_in_sync(st: SmView, now_ms: u64)
    requires
        window_in_sync(st),
    ensures
        window_in_sync(evicted(st, now_ms)),
        evicted(st, now_ms).recent.len() <= st.window_entries || evicted(
            st,
            now_ms,
        ).recent.len() == 0,
        evicted(st, now_ms).cutoff >= st.cutoff,
        evicted(st, now_ms).recent.len() <= st.recent.len(),
        evicted(st, now_ms).recent == st.recent.skip(
            st.recent.len() - evicted(st, now_ms).recent.len(),
        ),
    decreases st.recent.len(),
{
    if st.recent.len() > 0 && must_evict(st, now_ms) {
        lemma_oldest_evicted_in_sync(st);
        let mid = oldest_evicted(st);
        lemma_evicted_in_sync(mid, now_ms);
        let last = evicted(st, now_ms);
        assert(last.recent =~= st.recent.skip(st.recent.len() - last.recent.len()));
    } else {
        assert(st.recent.skip(0) =~= st.recent);
    }
}

/// The newest entry is still there after trimming, if the window holds one.
proof fn lemma_newest_stays(st: SmView, now_ms: u64)
    requires
        st.recent.len() > 0,
        st.window_entries >= 1,
        st.recent.last().apply_ms == now_ms,
    ensures
        evicted(st, now_ms).recent.len() > 0,
        evicted(st, now_ms).recent.last() == st.recent.last(),
    decreases st.recent.len(),
{
    if must_evict(st, now_ms) {
        assert(st.recent.len() > 1);
        lemma_newest_stays(oldest_evicted(st), now_ms);
    }
}

proof fn lemma_pushed_in_sync(
    st: SmView,
    log_index: u64,
    seq: HybridLogicalClock,
    now_ms: u64,
)
    requires
        window_in_sync(st),
        !st.recent_seqs.contains(seq),
    ensures
        window_in_sync(recent_pushed(st, log_index, seq, now_ms)),
        recent_pushed(st, log_index, seq, now_ms).recent.len() <= st.window_entries
            || recent_pushed(st, log_index, seq, now_ms).recent.len() == 0,
        recent_pushed(st, log_index, seq, now_ms).cutoff >= st.cutoff,
        st.window_entries >= 1 ==> recent_pushed(
            st,
            log_index,
            seq,
            now_ms,
        ).recent_seqs.contains(seq),
{
    let entry = RecentIncorporatedEntry { log_index, perspective_seq: seq, apply_ms: now_ms };
    let mid = SmView {
        recent: st.recent.push(entry),
        recent_seqs: st.recent_seqs.insert(seq),
        ..st
    };
    assert forall|s: HybridLogicalClock| #[trigger]
        mid.recent_seqs.contains(s) <==> exists|i: int|
            0 <= i < mid.recent.len() && (#[trigger] mid.recent[i]).perspective_seq == s by {
        if mid.recent_seqs.contains(s) {
            if s == seq {
                assert(mid.recent[st.recent.len() as int].perspective_seq == s);
            } else {
                assert(st.recent_seqs.contains(s));
                let i = choose|i: int|
                    0 <= i < st.recent.len() && (#[trigger] st.recent[i]).perspective_seq == s;
                assert(mid.recent[i].perspective_seq == s);
            }
        }
        if exists|i: int| 0 <= i < mid.recent.len() && (#[trigger] mid.recent[i]).perspective_seq
            == s {
            let i = choose|i: int|
                0 <= i < mid.recent.len() && (#[trigger] mid.recent[i]).perspective_seq == s;
            if i < st.recent.len() {
                assert(st.recent[i].perspective_seq == s);
                assert(st.recent_seqs.contains(s));
            }
        }
    }
    assert forall|i: int, j: int| 0 <= i < j < mid.recent.len() implies (
    #[trigger] mid.recent[i]).perspective_seq != (#[trigger] mid.recent[j]).perspective_seq by {
        assert(mid.recent[i] == st.recent[i]);
        if j < st.recent.len() {
            assert(mid.recent[j] == st.recent[j]);
        } else {
            assert(st.recent_seqs.contains(st.recent[i].perspective_seq));
        }
    }
    lemma_evicted_in_sync(mid, now_ms);
    if st.window_entries >= 1 {
        lemma_newest_stays(mid, now_ms);
        let last = evicted(mid, now_ms);
        assert(last.recent[last.recent.len() - 1].perspective_seq == seq);
    }
}

proof fn lemma_incorporated_window(st: SmView, item: ItemView, log_index: u64, now_ms: u64)
    requires
        window_in_sync(st),
        st.recent.len() <= st.window_entries,
    ensures
        window_in_sync(incorporated(st, item, log_index, now_ms)),
        incorporated(st, item, log_index, now_ms).recent.len() <= st.window_entries,
        incorporated(st, item, log_index, now_ms).cutoff >= st.cutoff,
        incorporated(st, item, log_index, now_ms).window_entries == st.window_entries,
        gate_open(st, item.seq, log_index) && st.window_entries >= 1 ==> incorporated(
            st,
            item,
            log_index,
            now_ms,
        ).recent_seqs.contains(item.seq),
{
    if gate_open(st, item.seq, log_index) {
        lemma_chunks_created_frame(st, item.draft.tenant, item.new_chunks, log_index);
        let mid = delta_appended(
            chunks_created(st, item.draft.tenant, item.new_chunks, log_index),
            item.draft,
            log_index,
        );
        assert(window_in_sync(mid));
        lemma_pushed_in_sync(mid, log_index, item.seq, now_ms);
        lemma_recent_pushed_frame(mid, log_index, item.seq, now_ms);
    } else {
        let next = incorporated(st, item, log_index, now_ms);
        assert(next.recent == st.recent && next.recent_seqs == st.recent_seqs);
        assert(window_in_sync(next));
    }
}

proof fn lemma_batch_window(st: SmView, items: Seq<ItemView>, log_index: u64, now_ms: u64)
    requires
        window_in_sync(st),
        st.recent.len() <= st.window_entries,
    ensures
        window_in_sync(incorporated_all(st, items, log_index, now_ms)),
        incorporated_all(st, items, log_index, now_ms).recent.len() <= st.window_entries,
        incorporated_all(st, items, log_index, now_ms).cutoff >= st.cutoff,
        incorporated_all(st, items, log_index, now_ms).window_entries == st.window_entries,
    decreases items.len(),
{
    if items.len() > 0 {
        let front = items.drop_last();
        lemma_batch_window(st, front, log_index, now_ms);
        lemma_incorporated_window(
            incorporated_all(st, front, log_index, now_ms),
            items.last(),
            log_index,
            now_ms,
        );
    }
}

/// Law: every command keeps the window and its set of clock readings in step,
/// keeps the window within its bound, and never lowers the ancient cutoff.
pub proof fn commands_keep_the_window(
    st: SmView,
    cmd: LogCommand,
    log_index: u64,
    now_ms: u64,
)
    requires
        window_in_sync(st),
        st.recent.len() <= st.window_entries,
    ensures
        window_in_sync(applied(st, cmd, log_index, now_ms)),
        applied(st, cmd, log_index, now_ms).recent.len() <= applied(
            st,
            cmd,
            log_index,
            now_ms,
        ).window_entries,
        applied(st, cmd, log_index, now_ms).cutoff >= st.cutoff,
{
    let next = applied(st, cmd, log_index, now_ms);
    match cmd {
        LogCommand::ChunkAndDelta { tenant_id_bytes, new_chunks, .. } => {
            lemma_chunks_created_frame(
                st,
                tenant_of(tenant_id_bytes),
                new_chunk_views(new_chunks@),
                log_index,
            );
        },
        LogCommand::IncorporateIntent { .. } => {
            lemma_incorporated_window(st, single_item(cmd), log_index, now_ms);
        },
        LogCommand::IncorporateIntents { items } => {
            lemma_batch_window(st, item_views(items@), log_index, now_ms);
        },
        _ => {},
    }
    assert(next.recent == st.recent && next.recent_seqs == st.recent_seqs ==> window_in_sync(next));
}

/// Law: an intent that is in the window changes nothing when it is delivered
/// again, at whatever log position and time.
pub proof fn replay_changes_nothing(
    st: SmView,
    item: ItemView,
    log_index: u64,
    now_ms: u64,
)
    requires
        st.recent_seqs.contains(item.seq),
    ensures
        incorporated(st, item, log_index, now_ms) == st,
        incorporate_puts(st, item, log_index) == Seq::<InlinePutView>::empty(),
{
}

/// Law: an intent delivered twice in a row is incorporated once.
pub proof fn incorporation_is_idempotent(
    st: SmView,
    item: ItemView,
    first_index: u64,
    first_ms: u64,
    again_index: u64,
    again_ms: u64,
)
    requires
        window_in_sync(st),
        st.recent.len() <= st.window_entries,
        st.window_entries >= 1,
        gate_open(st, item.seq, first_index),
    ensures
        ({
            let once = incorporated(st, item, first_index, first_ms);
            incorporated(once, item, again_index, again_ms) == once
        }),
{
    lemma_incorporated_window(st, item, first_index, first_ms);
}

/// Law: an intent at an ancient log position that is not in the window is
/// refused: it is counted, and nothing else changes.
pub proof fn ancient_intent_is_refused(
    st: SmView,
    item: ItemView,
    log_index: u64,
    now_ms: u64,
)
    requires
        !st.recent_seqs.contains(item.seq),
        log_index < st.cutoff,
    ensures
        incorporated(st, item, log_index, now_ms) == (SmView {
            ancient_refused: sat_add(st.ancient_refused, 1),
            ..st
        }),
        incorporate_puts(st, item, log_index) == Seq::<InlinePutView>::empty(),
{
}

/// Law: what leaves the window is ancient from then on, so that it cannot be
/// incorporated a second time at its own log position or an earlier one.
pub proof fn evicted_positions_are_ancient(st: SmView, now_ms: u64, i: int)
    requires
        0 <= i < st.recent.len(),
        i < st.recent.len() - evicted(st, now_ms).recent.len(),
        st.recent[i].log_index < u64::MAX,
    ensures
        st.recent[i].log_index < evicted(st, now_ms).cutoff,
    decreases st.recent.len(),
{
    if must_evict(st, now_ms) {
        let mid = oldest_evicted(st);
        lemma_cutoff_grows(mid, now_ms);
        if i > 0 {
            assert(mid.recent[i - 1] == st.recent[i]);
            evicted_positions_are_ancient(mid, now_ms, i - 1);
        }
    }
}

proof fn lemma_cutoff_grows(st: SmView, now_ms: u64)
    ensures
        evicted(st, now_ms).cutoff >= st.cutoff,
    decreases st.recent.len(),
{
    if st.recent.len() > 0 && must_evict(st, now_ms) {
        lemma_cutoff_grows(oldest_evicted(st), now_ms);
    }
}

/// Law: a batch is its items one after the other.
pub proof fn batch_is_its_items(
    st: SmView,
    a: Seq<ItemView>,
    b: Seq<ItemView>,
    log_index: u64,
    now_ms: u64,
)
    ensures
        incorporated_all(st, a + b, log_index, now_ms) == incorporated_all(
            incorporated_all(st, a, log_index, now_ms),
            b,
            log_index,
            now_ms,
        ),
    decreases b.len(),
{
    if b.len() == 0 {
        assert(a + b =~= a);
    } else {
        assert((a + b).drop_last() =~= a + b.drop_last());
        batch_is_its_items(st, a, b.drop_last(), log_index, now_ms);
    }
}

/// Law: a batch of one item does what the command for that item does.
pub proof fn batch_of_one(st: SmView, item: ItemView, log_index: u64, now_ms: u64)
    ensures
        incorporated_all(st, seq![item], log_index, now_ms) == incorporated(
            st,
            item,
            log_index,
            now_ms,
        ),
{
    assert(seq![item].drop_last() =~= Seq::<ItemView>::empty());
    assert(incorporated_all(st, Seq::<ItemView>::empty(), log_index, now_ms) == st);
}

// ---------------------------------------------------------------------------
// Chunk references
// ---------------------------------------------------------------------------

/// A row is tombstoned exactly where it has no reference left; references are
/// parked only for chunks without a row; no parked count is zero; and no more
/// keys are parked than the cap allows.
pub open spec fn references_consistent(st: SmView) -> bool {
    &&& forall|k: ChunkKey| #[trigger]
        st.chunks.contains_key(k) ==> (st.chunks[k].tombstoned <==> st.chunks[k].refcount == 0)
    &&& forall|k: ChunkKey| #[trigger]
        st.parked.contains_key(k) ==> !st.chunks.contains_key(k) && st.parked[k] > 0
    &&& st.parked.dom().finite()
    &&& st.parked.dom().len() <= PENDING_CHUNK_DECREMENTS_CAP
}

proof fn lemma_created_consistent(st: SmView, tenant: OrgId, meta: NewChunkView, log_index: u64)
    requires
        references_consistent(st),
    ensures
        references_consistent(chunk_created(st, tenant, meta, log_index)),
{
    let key = ChunkKey { tenant, chunk: meta.chunk };
    let next = chunk_created(st, tenant, meta, log_index);
    assert(next.parked.dom() =~= st.parked.dom() || next.parked.dom() =~= st.parked.dom().remove(
        key,
    ));
    assert forall|k: ChunkKey| #[trigger] next.parked.contains_key(k) implies !next.chunks.contains_key(
        k,
    ) && next.parked[k] > 0 by {
        assert(st.parked.contains_key(k));
    }
}

proof fn lemma_all_created_consistent(
    st: SmView,
    tenant: OrgId,
    metas: Seq<NewChunkView>,
    log_index: u64,
)
    requires
        references_consistent(st),
    ensures
        references_consistent(chunks_created(st, tenant, metas, log_index)),
    decreases metas.len(),
{
    if metas.len() > 0 {
        lemma_all_created_consistent(st, tenant, metas.drop_last(), log_index);
        lemma_created_consistent(
            chunks_created(st, tenant, metas.drop_last(), log_index),
            tenant,
            metas.last(),
            log_index,
        );
    }
}

proof fn lemma_incorporated_consistent(st: SmView, item: ItemView, log_index: u64, now_ms: u64)
    requires
        references_consistent(st),
    ensures
        references_consistent(incorporated(st, item, log_index, now_ms)),
{
    if gate_open(st, item.seq, log_index) {
        lemma_incorporated_shape(st, item, log_index, now_ms);
        lemma_all_created_consistent(st, item.draft.tenant, item.new_chunks, log_index);
        let rows = chunks_created(st, item.draft.tenant, item.new_chunks, log_index);
        let next = incorporated(st, item, log_index, now_ms);
        assert(next.chunks == rows.chunks && next.parked == rows.parked);
    }
}

proof fn lemma_batch_consistent(st: SmView, items: Seq<ItemView>, log_index: u64, now_ms: u64)
    requires
        references_consistent(st),
    ensures
        references_consistent(incorporated_all(st, items, log_index, now_ms)),
    decreases items.len(),
{
    if items.len() > 0 {
        lemma_batch_consistent(st, items.drop_last(), log_index, now_ms);
        lemma_incorporated_consistent(
            incorporated_all(st, items.drop_last(), log_index, now_ms),
            items.last(),
            log_index,
            now_ms,
        );
    }
}

/// Law: every command keeps chunk references consistent.
pub proof fn commands_keep_references_consistent(
    st: SmView,
    cmd: LogCommand,
    log_index: u64,
    now_ms: u64,
)
    requires
        references_consistent(st),
        has_room(st, cmd),
    ensures
        references_consistent(applied(st, cmd, log_index, now_ms)),
{
    let next = applied(st, cmd, log_index, now_ms);
    match cmd {
        LogCommand::ChunkAndDelta { tenant_id_bytes, new_chunks, .. } => {
            let metas = new_chunk_views(new_chunks@);
            lemma_all_created_consistent(st, tenant_of(tenant_id_bytes), metas, log_index);
            let rows = chunks_created(st, tenant_of(tenant_id_bytes), metas, log_index);
            assert(next.chunks == rows.chunks && next.parked == rows.parked);
        },
        LogCommand::IncorporateIntent { .. } => {
            lemma_incorporated_consistent(st, single_item(cmd), log_index, now_ms);
        },
        LogCommand::IncorporateIntents { items } => {
            lemma_batch_consistent(st, item_views(items@), log_index, now_ms);
        },
        LogCommand::IncrementChunkRefcount { tenant_id_bytes, chunk_id } => {
            assert forall|k: ChunkKey| #[trigger] next.parked.contains_key(
                k,
            ) implies !next.chunks.contains_key(k) && next.parked[k] > 0 by {
                assert(st.parked.contains_key(k));
            }
        },
        LogCommand::DecrementChunkRefcount { tenant_id_bytes, chunk_id } => {
            let key = ChunkKey { tenant: tenant_of(tenant_id_bytes), chunk: ChunkId(chunk_id) };
            assert(next.parked.dom() =~= st.parked.dom() || next.parked.dom()
                =~= st.parked.dom().insert(key));
            assert forall|k: ChunkKey| #[trigger] next.parked.contains_key(
                k,
            ) implies !next.chunks.contains_key(k) && next.parked[k] > 0 by {
                if k != key {
                    assert(st.parked.contains_key(k));
                }
            }
        },
        _ => {
            assert(next.chunks == st.chunks && next.parked == st.parked);
        },
    }
}

/// Law: dropping the reference of a chunk before its row exists ends, once the
/// row is created, in the same row as dropping it afterwards: no reference left,
/// and tombstoned.
pub proof fn drop_before_create_converges(
    st: SmView,
    tenant: OrgId,
    meta: NewChunkView,
    log_index: u64,
)
    requires
        references_consistent(st),
        ({
            let key = ChunkKey { tenant, chunk: meta.chunk };
            &&& !st.chunks.contains_key(key)
            &&& !st.parked.contains_key(key)
            &&& parks(st, key)
        }),
    ensures
        ({
            let key = ChunkKey { tenant, chunk: meta.chunk };
            let drop_first = chunk_created(reference_dropped(st, key), tenant, meta, log_index);
            let create_first = reference_dropped(chunk_created(st, tenant, meta, log_index), key);
            &&& drop_first == create_first
            &&& drop_first.chunks[key].refcount == 0
            &&& drop_first.chunks[key].tombstoned
            &&& !drop_first.parked.contains_key(key)
        }),
{
    let key = ChunkKey { tenant, chunk: meta.chunk };
    let drop_first = chunk_created(reference_dropped(st, key), tenant, meta, log_index);
    let create_first = reference_dropped(chunk_created(st, tenant, meta, log_index), key);
    assert(drop_first.parked =~= create_first.parked);
    assert(drop_first.chunks =~= create_first.chunks);
}

/// Law: a chunk is reported as tombstoned exactly when its last reference is
/// dropped.
pub proof fn tombstone_is_reported_once(st: SmView, key: ChunkKey)
    requires
        references_consistent(st),
    ensures
        drop_tombstones(st, key) <==> st.chunks.contains_key(key) && st.chunks[key].refcount == 1,
        !drop_tombstones(reference_dropped(st, key), key) || (st.chunks.contains_key(key)
            && st.chunks[key].refcount == 2),
{
}

/// Law: rows of one tenant are never touched by chunks that another tenant
/// introduces.
pub proof fn new_chunks_stay_with_their_tenant(
    st: SmView,
    tenant: OrgId,
    metas: Seq<NewChunkView>,
    log_index: u64,
    other: ChunkKey,
)
    requires
        other.tenant != tenant,
    ensures
        ({
            let next = chunks_created(st, tenant, metas, log_index);
            &&& next.chunks.contains_key(other) == st.chunks.contains_key(other)
            &&& st.chunks.contains_key(other) ==> next.chunks[other] == st.chunks[other]
            &&& next.parked.contains_key(other) == st.parked.contains_key(other)
            &&& st.parked.contains_key(other) ==> next.parked[other] == st.parked[other]
        }),
    decreases metas.len(),
{
    if metas.len() > 0 {
        new_chunks_stay_with_their_tenant(st, tenant, metas.drop_last(), log_index, other);
    }
}

/// Law: adding or dropping a reference touches the row of that tenant's chunk
/// and no other.
pub proof fn references_stay_with_their_key(st: SmView, key: ChunkKey, other: ChunkKey)
    requires
        key != other,
    ensures
        ({
            let added = reference_added(st, key);
            let dropped = reference_dropped(st, key);
            &&& added.chunks.contains_key(other) == st.chunks.contains_key(other)
            &&& st.chunks.contains_key(other) ==> added.chunks[other] == st.chunks[other]
            &&& dropped.chunks.contains_key(other) == st.chunks.contains_key(other)
            &&& st.chunks.contains_key(other) ==> dropped.chunks[other] == st.chunks[other]
            &&& dropped.parked.contains_key(other) == st.parked.contains_key(other)
            &&& st.parked.contains_key(other) ==> dropped.parked[other] == st.parked[other]
        }),
{
}

/// Law: once a command has introduced a chunk, its row exists; a row that
/// existed before keeps its references and its placement.
pub proof fn introduced_chunk_has_a_row(
    st: SmView,
    tenant: OrgId,
    metas: Seq<NewChunkView>,
    log_index: u64,
    i: int,
)
    requires
        0 <= i < metas.len(),
    ensures
        ({
            let key = ChunkKey { tenant, chunk: metas[i].chunk };
            let next = chunks_created(st, tenant, metas, log_index);
            &&& next.chunks.contains_key(key)
            &&& st.chunks.contains_key(key) ==> next.chunks[key] == st.chunks[key]
        }),
    decreases metas.len(),
{
    let key = ChunkKey { tenant, chunk: metas[i].chunk };
    let front = metas.drop_last();
    lemma_rows_stay(st, tenant, front, log_index, key);
    if i < front.len() {
        assert(front[i] == metas[i]);
        introduced_chunk_has_a_row(st, tenant, front, log_index, i);
    }
}

/// Law: a chunk that is introduced for the first time gets a row of its own, made at
/// the position of its command, with the placement and the length that were given.
/// It starts with one reference; where references were dropped before it existed,
/// it starts with none, as a tombstone, and they are parked no longer.
pub proof fn introduced_chunk_has_this_row(
    st: SmView,
    tenant: OrgId,
    metas: Seq<NewChunkView>,
    log_index: u64,
    i: int,
)
    requires
        0 <= i < metas.len(),
        forall|j: int| 0 <= j < i ==> (#[trigger] metas[j]).chunk != metas[i].chunk,
        !st.chunks.contains_key(ChunkKey { tenant, chunk: metas[i].chunk }),
    ensures
        ({
            let key = ChunkKey { tenant, chunk: metas[i].chunk };
            let next = chunks_created(st, tenant, metas, log_index);
            let parked = st.parked.contains_key(key) && st.parked[key] > 0;
            &&& next.chunks.contains_key(key)
            &&& next.chunks[key] == (ChunkRow {
                refcount: if parked {
                    0
                } else {
                    1
                },
                placement: metas[i].placement,
                tombstoned: parked,
                created_ms: log_index,
                original_len: metas[i].original_len,
            })
            &&& !next.parked.contains_key(key)
        }),
    decreases metas.len(),
{
    let key = ChunkKey { tenant, chunk: metas[i].chunk };
    let front = metas.drop_last();
    if i < front.len() {
        assert(front[i] == metas[i]);
        assert forall|j: int| 0 <= j < i implies (#[trigger] front[j]).chunk
            != front[i].chunk by {
            assert(front[j] == metas[j]);
        }
        introduced_chunk_has_this_row(st, tenant, front, log_index, i);
    } else {
        assert forall|j: int| 0 <= j < front.len() implies (#[trigger] front[j]).chunk
            != key.chunk by {
            assert(front[j] == metas[j]);
        }
        lemma_untouched_row(st, tenant, front, log_index, key);
    }
}

/// What a list of new chunks does not name stays as it was.
proof fn lemma_untouched_row(
    st: SmView,
    tenant: OrgId,
    metas: Seq<NewChunkView>,
    log_index: u64,
    key: ChunkKey,
)
    requires
        key.tenant != tenant || forall|j: int|
            0 <= j < metas.len() ==> (#[trigger] metas[j]).chunk != key.chunk,
    ensures
        ({
            let next = chunks_created(st, tenant, metas, log_index);
            &&& next.chunks.contains_key(key) == st.chunks.contains_key(key)
            &&& st.chunks.contains_key(key) ==> next.chunks[key] == st.chunks[key]
            &&& next.parked.contains_key(key) == st.parked.contains_key(key)
            &&& st.parked.contains_key(key) ==> next.parked[key] == st.parked[key]
        }),
    decreases metas.len(),
{
    if metas.len() > 0 {
        let front = metas.drop_last();
        assert(metas.last() == metas[metas.len() - 1]);
        if key.tenant == tenant {
            assert forall|j: int| 0 <= j < front.len() implies (#[trigger] front[j]).chunk
                != key.chunk by {
                assert(front[j] == metas[j]);
            }
        }
        lemma_untouched_row(st, tenant, front, log_index, key);
    }
}

/// Law: what introducing a list of chunks does to any key, and to the rest. A row
/// that exists stays as it is, with what is parked for it. A key of the list
/// without a row gets the row of its first entry: one reference, or none and a
/// tombstone where references were parked, which are then parked no longer. Any
/// other key keeps its row and what is parked for it; nothing else changes; and
/// introducing the list again, at whatever position, changes nothing.
pub proof fn introducing_chunks(
    st: SmView,
    tenant: OrgId,
    metas: Seq<NewChunkView>,
    log_index: u64,
    again: u64,
    key: ChunkKey,
)
    ensures
        ({
            let next = chunks_created(st, tenant, metas, log_index);
            let parked = st.parked.contains_key(key) && st.parked[key] > 0;
            let named = key.tenant == tenant && exists|j: int|
                0 <= j < metas.len() && (#[trigger] metas[j]).chunk == key.chunk;
            &&& st.chunks.contains_key(key) || !named ==> {
                &&& next.chunks.contains_key(key) == st.chunks.contains_key(key)
                &&& st.chunks.contains_key(key) ==> next.chunks[key] == st.chunks[key]
                &&& next.parked.contains_key(key) == st.parked.contains_key(key)
                &&& st.parked.contains_key(key) ==> next.parked[key] == st.parked[key]
            }
            &&& !st.chunks.contains_key(key) && named ==> exists|i: int|
                {
                    &&& 0 <= i < metas.len()
                    &&& (#[trigger] metas[i]).chunk == key.chunk
                    &&& forall|j: int| 0 <= j < i ==> (#[trigger] metas[j]).chunk != key.chunk
                    &&& next.chunks.contains_key(key)
                    &&& next.chunks[key] == (ChunkRow {
                        refcount: if parked {
                            0
                        } else {
                            1
                        },
                        placement: metas[i].placement,
                        tombstoned: parked,
                        created_ms: log_index,
                        original_len: metas[i].original_len,
                    })
                    &&& !next.parked.contains_key(key)
                }
            &&& next == (SmView { chunks: next.chunks, parked: next.parked, ..st })
            &&& chunks_created(next, tenant, metas, again) == next
        }),
{
    lemma_chunks_created_frame(st, tenant, metas, log_index);
    introducing_chunks_again_changes_nothing(st, tenant, metas, log_index, again);
    lemma_rows_stay(st, tenant, metas, log_index, key);
    if key.tenant == tenant && exists|j: int|
        0 <= j < metas.len() && (#[trigger] metas[j]).chunk == key.chunk {
        if !st.chunks.contains_key(key) {
            let j = choose|j: int| 0 <= j < metas.len() && (#[trigger] metas[j]).chunk == key.chunk;
            let i = lemma_first_named(metas, key.chunk, j);
            introduced_chunk_has_this_row(st, tenant, metas, log_index, i);
            assert(key == ChunkKey { tenant, chunk: metas[i].chunk });
        }
    } else {
        lemma_untouched_row(st, tenant, metas, log_index, key);
    }
}

/// A list that names a chunk has a first entry that does.
proof fn lemma_first_named(metas: Seq<NewChunkView>, chunk: ChunkId, j: int) -> (i: int)
    requires
        0 <= j < metas.len(),
        metas[j].chunk == chunk,
    ensures
        0 <= i <= j,
        metas[i].chunk == chunk,
        forall|k: int| 0 <= k < i ==> (#[trigger] metas[k]).chunk != chunk,
    decreases j,
{
    if exists|k: int| 0 <= k < j && (#[trigger] metas[k]).chunk == chunk {
        let k = choose|k: int| 0 <= k < j && (#[trigger] metas[k]).chunk == chunk;
        lemma_first_named(metas, chunk, k)
    } else {
        j
    }
}

/// Law: introducing the same chunks a second time changes nothing, at whatever
/// position.
pub proof fn introducing_chunks_again_changes_nothing(
    st: SmView,
    tenant: OrgId,
    metas: Seq<NewChunkView>,
    first: u64,
    second: u64,
)
    ensures
        chunks_created(chunks_created(st, tenant, metas, first), tenant, metas, second)
            == chunks_created(st, tenant, metas, first),
{
    let next = chunks_created(st, tenant, metas, first);
    assert forall|i: int| 0 <= i < metas.len() implies next.chunks.contains_key(
        ChunkKey { tenant, chunk: (#[trigger] metas[i]).chunk },
    ) by {
        introduced_chunk_has_a_row(st, tenant, metas, first, i);
    }
    lemma_known_chunks(next, tenant, metas, second);
}

/// A list of chunks that all have rows changes nothing.
proof fn lemma_known_chunks(
    st: SmView,
    tenant: OrgId,
    metas: Seq<NewChunkView>,
    log_index: u64,
)
    requires
        forall|i: int|
            0 <= i < metas.len() ==> st.chunks.contains_key(
                ChunkKey { tenant, chunk: (#[trigger] metas[i]).chunk },
            ),
    ensures
        chunks_created(st, tenant, metas, log_index) == st,
    decreases metas.len(),
{
    if metas.len() > 0 {
        let front = metas.drop_last();
        assert(metas.last() == metas[metas.len() - 1]);
        assert forall|i: int| 0 <= i < front.len() implies st.chunks.contains_key(
            ChunkKey { tenant, chunk: (#[trigger] front[i]).chunk },
        ) by {
            assert(front[i] == metas[i]);
        }
        lemma_known_chunks(st, tenant, front, log_index);
    }
}

proof fn lemma_rows_stay(
    st: SmView,
    tenant: OrgId,
    metas: Seq<NewChunkView>,
    log_index: u64,
    key: ChunkKey,
)
    ensures
        st.chunks.contains_key(key) ==> chunks_created(
            st,
            tenant,
            metas,
            log_index,
        ).chunks.contains_key(key) && chunks_created(st, tenant, metas, log_index).chunks[key]
            == st.chunks[key],
        ({
            let next = chunks_created(st, tenant, metas, log_index);
            st.chunks.contains_key(key) ==> next.parked.contains_key(key)
                == st.parked.contains_key(key) && (st.parked.contains_key(key) ==> next.parked[key]
                == st.parked[key])
        }),
    decreases metas.len(),
{
    if metas.len() > 0 {
        lemma_rows_stay(st, tenant, metas.drop_last(), log_index, key);
    }
}

// ---------------------------------------------------------------------------
// Inline payloads
// ---------------------------------------------------------------------------

/// An inline store after a list of puts: a later put of a key wins.
pub open spec fn stored(store: Map<Seq<u8>, Seq<u8>>, puts: Seq<InlinePutView>) -> Map<
    Seq<u8>,
    Seq<u8>,
>
    decreases puts.len(),
{
    if puts.len() == 0 {
        store
    } else {
        stored(store, puts.drop_last()).insert(puts.last().key, puts.last().payload)
    }
}

/// Law: a command for a single delta with inline data leaves its bytes in the
/// inline store under the delta's own key, and not in the delta. So a reader
/// that looks up the delta's key finds what was written.
pub proof fn inline_payload_is_stored_under_its_key(
    st: SmView,
    d: DraftView,
    puts: Seq<InlinePutView>,
    store: Map<Seq<u8>, Seq<u8>>,
    log_index: u64,
)
    requires
        st.inline_attached,
        d.has_inline_data,
        st.tip < u64::MAX,
    ensures
        ({
            let delta = delta_appended(st, d, log_index).deltas.last();
            let after = stored(store, puts + append_puts(st, d));
            let key = inline_key(delta.header.hashed_key@, delta.header.sequence);
            &&& delta.payload.ciphertext == Seq::<u8>::empty()
            &&& after.contains_key(key)
            &&& after[key] == d.payload
        }),
{
    let all = puts + append_puts(st, d);
    assert(all.last() == append_puts(st, d)[0]);
}

/// Law: without inline data, or without an inline store, the bytes stay in the
/// delta and nothing is put.
pub proof fn plain_payload_stays_in_the_delta(st: SmView, d: DraftView, log_index: u64)
    requires
        !(st.inline_attached && d.has_inline_data),
    ensures
        delta_appended(st, d, log_index).deltas.last().payload.ciphertext == d.payload,
        append_puts(st, d) == Seq::<InlinePutView>::empty(),
{
}

/// Law: pruning frees the inline key of every dropped delta with inline data,
/// and no other key.
pub proof fn pruning_frees_inline_keys(deltas: Seq<DeltaView>, key: Seq<u8>)
    ensures
        inline_keys_of(deltas).contains(key) <==> exists|i: int|
            0 <= i < deltas.len() && (#[trigger] deltas[i]).header.has_inline_data && key
                == inline_key(deltas[i].header.hashed_key@, deltas[i].header.sequence),
    decreases deltas.len(),
{
    if deltas.len() > 0 {
        let front = deltas.drop_last();
        let d = deltas.last();
        pruning_frees_inline_keys(front, key);
        let all = inline_keys_of(deltas);
        let rest = inline_keys_of(front);
        if all.contains(key) {
            let k = choose|k: int| 0 <= k < all.len() && all[k] == key;
            if k < rest.len() {
                assert(rest[k] == key);
                let i = choose|i: int|
                    0 <= i < front.len() && (#[trigger] front[i]).header.has_inline_data && key
                        == inline_key(front[i].header.hashed_key@, front[i].header.sequence);
                assert(deltas[i] == front[i]);
            } else {
                assert(deltas[deltas.len() - 1] == d);
            }
        }
        if exists|i: int|
            0 <= i < deltas.len() && (#[trigger] deltas[i]).header.has_inline_data && key
                == inline_key(deltas[i].header.hashed_key@, deltas[i].header.sequence) {
            let i = choose|i: int|
                0 <= i < deltas.len() && (#[trigger] deltas[i]).header.has_inline_data && key
                    == inline_key(deltas[i].header.hashed_key@, deltas[i].header.sequence);
            if i < front.len() {
                assert(front[i] == deltas[i]);
                assert(rest.contains(key));
                let k = choose|k: int| 0 <= k < rest.len() && rest[k] == key;
                assert(all[k] == key);
            } else {
                assert(all[all.len() - 1] == key);
            }
        }
    }
}

} // verus!
