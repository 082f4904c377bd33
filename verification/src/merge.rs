//! Shard merges: preparation, copy and order.
//!
//! Two adjacent shards merge by copying their deltas into a shard over both
//! ranges. Deltas are copied in the order of their keys; those of one key in the
//! order of their clock readings, and at one reading the shard with the lower
//! identifier goes first.

use std::cmp::Ordering;

use vstd::prelude::*;

use crate::bytes::{be_value, lemma_be_value_injective};
use crate::bytes::{order_bytes, same_bytes, KeyOrder};
use crate::compaction_worker::{lemma_selection_len, picked_deltas};
use crate::delta::{delta_views, DeltaView};
use crate::delta::Delta;
use crate::error::LogError;
use crate::ids::{lemma_array32_equal, lemma_split_order, lemma_split_unique};
use crate::ids::{uuid_new_v4, NodeId, OrgId, SequenceNumber, ShardId};
use crate::ordered_map::OrderedKey;
use crate::reissue::{append_all, check_history};
use crate::reissue::{
    all_accepted, pruned, pruned_refusal, refilled_to, reissues, stamped_as_asked,
};
use crate::shard::{busy, busy_reason, default_config, ShardInfoView};
use crate::shard::{busy_error, ShardConfig, ShardState};
use crate::sort::{position_less, positions_of, ranks_of, selection, selection_is_unique};
use crate::sort::sorted_order;
use crate::time::{hlc_rank, TimestampView};
use crate::time::HybridLogicalClock;
use crate::traits::{
    append_refusal, fresh_shard, in_range, lemma_total_cost_concat, numbered, payload_cost,
    ranged_in, shard_has_room, shard_has_room_for, shard_maintained, state_set_in, total_cost,
    AppendView, ShardModel,
};
use crate::traits::{LogOps, ReadDeltasRequest};

verus! {

/// A merge was refused.
#[derive(Clone, Copy, Debug, PartialEq, Eq)]
pub struct MergeRefusedEvent {
    /// Why.
    pub reason: &'static str,
}

/// A merge is complete.
#[derive(Clone, Copy, Debug)]
pub struct ShardMergedEvent {
    /// The shards that were merged.
    pub input_shards: [ShardId; 2],
    /// The shard that holds both.
    pub merged_shard: ShardId,
    /// Start of the combined range.
    pub range_start: [u8; 32],
    /// End of the combined range.
    pub range_end: [u8; 32],
}

/// A merge was given up.
#[derive(Clone, Copy, Debug, PartialEq, Eq)]
pub struct MergeAbortedEvent {
    /// The shards that were to be merged.
    pub input_shards: [ShardId; 2],
    /// Why.
    pub reason: MergeAbortReason,
}

/// Why a merge is given up.
#[derive(Clone, Copy, Debug, PartialEq, Eq, Structural)]
pub enum MergeAbortReason {
    /// The copy did not catch up with the writes in time.
    ConvergenceTimeout,
    /// Too many deltas were left for the cutover.
    CutoverBudgetExceeded,
}

/// A merge in progress.
#[derive(Clone, Copy, Debug)]
pub struct MergeState {
    /// The shard with the lower range.
    pub shard_a: ShardId,
    /// The shard with the upper range.
    pub shard_b: ShardId,
    /// The tenant of both.
    pub tenant_id: OrgId,
    /// The shard that will hold both.
    pub merged_shard: ShardId,
    /// Start of the combined range.
    pub range_start: [u8; 32],
    /// End of the combined range.
    pub range_end: [u8; 32],
    /// Tip of the lower shard when the copy starts.
    pub hwm_a: SequenceNumber,
    /// Tip of the upper shard when the copy starts.
    pub hwm_b: SequenceNumber,
    /// How many deltas the cutover may copy before the merge is given up.
    pub cutover_budget_deltas: u64,
    /// How many seconds the copy may take to catch up.
    pub convergence_timeout_secs: u64,
}

/// Why two shards cannot be merged, where they cannot: one does not exist, the
/// ranges do not meet, or one is in a split or a merge.
pub open spec fn merge_refusal(
    shards: Map<ShardId, ShardModel>,
    a: ShardId,
    b: ShardId,
) -> Option<LogError> {
    if !shards.contains_key(a) {
        Some(LogError::ShardNotFound(a))
    } else if !shards.contains_key(b) {
        Some(LogError::ShardNotFound(b))
    } else if shards[a].info.range_end != shards[b].info.range_start {
        Some(LogError::ShardBusy { shard_id: a, reason: "shards are not adjacent" })
    } else if busy(shards[a].info.state) {
        Some(LogError::ShardBusy { shard_id: a, reason: busy_reason(shards[a].info.state) })
    } else if busy(shards[b].info.state) {
        Some(LogError::ShardBusy { shard_id: b, reason: busy_reason(shards[b].info.state) })
    } else {
        None
    }
}

/// The shards with maintenance mode set on one of them.
pub open spec fn maintained_in(
    shards: Map<ShardId, ShardModel>,
    id: ShardId,
) -> Map<ShardId, ShardModel> {
    shards.insert(id, shard_maintained(shards[id], true))
}

/// First member of the merged shard's group: the leader of the lower shard.
pub open spec fn merge_node(info: ShardInfoView) -> NodeId {
    match info.leader {
        Some(n) => n,
        None => NodeId(1),
    }
}

/// The shards once a merge is prepared: both inputs are merging, and the merged
/// shard exists, without deltas, over both ranges.
pub open spec fn merge_prepared(
    shards: Map<ShardId, ShardModel>,
    a: ShardId,
    b: ShardId,
    tenant_id: OrgId,
    merged: ShardId,
) -> Map<ShardId, ShardModel> {
    let paused = maintained_in(maintained_in(shards, a), b);
    let marked = state_set_in(
        state_set_in(paused, a, ShardState::Merging),
        b,
        ShardState::Merging,
    );
    ranged_in(
        marked.insert(
            merged,
            fresh_shard(merged, tenant_id, merge_node(shards[a].info), default_config()),
        ),
        merged,
        shards[a].info.range_start,
        shards[b].info.range_end,
    )
}

/// Whether a merge in progress is that of two shards into a third.
pub open spec fn merges(
    st: MergeState,
    a: ShardInfoView,
    b: ShardInfoView,
    shard_a: ShardId,
    shard_b: ShardId,
    tenant_id: OrgId,
) -> bool {
    &&& st.shard_a == shard_a
    &&& st.shard_b == shard_b
    &&& st.tenant_id == tenant_id
    &&& st.range_start == a.range_start
    &&& st.range_end == b.range_end
    &&& st.hwm_a.0 == a.tip
    &&& st.hwm_b.0 == b.tip
    &&& st.cutover_budget_deltas == 200
    &&& st.convergence_timeout_secs == 60
}

/// Prepares the merge of two shards into a given third: marks both as merging and
/// creates the merged shard. A log that fails leaves the shards as they were, or the
/// first input in maintenance.
pub fn prepare_merge_into<L: LogOps>(
    log: &mut L,
    shard_a: ShardId,
    shard_b: ShardId,
    tenant_id: OrgId,
    merged: ShardId,
) -> (r: Result<MergeState, LogError>)
    requires
        old(log).ready(),
        old(log).shards().contains_key(shard_a) ==> shard_has_room(
            old(log).shards()[shard_a],
            1,
            0,
        ),
        old(log).shards().contains_key(shard_b) ==> shard_has_room(
            old(log).shards()[shard_b],
            1,
            0,
        ),
    ensures
        final(log).ready(),
        final(log).reliable() == old(log).reliable(),
        match merge_refusal(old(log).shards(), shard_a, shard_b) {
            Some(e) => {
                &&& r is Err
                &&& old(log).reliable() ==> r == Err::<MergeState, LogError>(e)
                &&& final(log).shards() == old(log).shards()
            },
            None => {
                let s = old(log).shards();
                &&& old(log).reliable() ==> r is Ok
                &&& r matches Ok(st) ==> st.merged_shard == merged && merges(
                    st,
                    s[shard_a].info,
                    s[shard_b].info,
                    shard_a,
                    shard_b,
                    tenant_id,
                ) && final(log).shards() == merge_prepared(s, shard_a, shard_b, tenant_id, merged)
                &&& r is Err ==> final(log).shards() == s || final(log).shards() == maintained_in(
                    s,
                    shard_a,
                )
            },
        },
{
    let ghost s0 = log.shards();
    let info_a = match log.shard_health(shard_a) {
        Ok(i) => i,
        Err(e) => {
            return Err(e);
        },
    };
    let info_b = match log.shard_health(shard_b) {
        Ok(i) => i,
        Err(e) => {
            return Err(e);
        },
    };
    let ea = info_a.range_end.as_slice();
    let sb = info_b.range_start.as_slice();
    proof {
        assert(ea@ == info_a.range_end@ && sb@ == info_b.range_start@);
        if ea@ == sb@ {
            lemma_array32_equal(info_a.range_end, info_b.range_start);
        }
    }
    if !same_bytes(ea, sb) {
        return Err(LogError::ShardBusy { shard_id: shard_a, reason: "shards are not adjacent" });
    }
    if info_a.state.is_busy() {
        return Err(busy_error(shard_a, info_a.state));
    }
    if info_b.state.is_busy() {
        return Err(busy_error(shard_b, info_b.state));
    }
    match log.set_maintenance(shard_a, true) {
        Ok(()) => {},
        Err(e) => {
            return Err(e);
        },
    }
    match log.set_maintenance(shard_b, true) {
        Ok(()) => {},
        Err(e) => {
            return Err(e);
        },
    }
    log.set_shard_state(shard_a, ShardState::Merging);
    log.set_shard_state(shard_b, ShardState::Merging);
    let node = match info_a.leader {
        Some(n) => n,
        None => NodeId(1),
    };
    log.create_shard(merged, tenant_id, node, ShardConfig::default());
    log.update_shard_range(merged, info_a.range_start, info_b.range_end);
    Ok(
        MergeState {
            shard_a,
            shard_b,
            tenant_id,
            merged_shard: merged,
            range_start: info_a.range_start,
            range_end: info_b.range_end,
            hwm_a: info_a.tip,
            hwm_b: info_b.tip,
            cutover_budget_deltas: 200,
            convergence_timeout_secs: 60,
        },
    )
}

/// Prepares the merge of two shards into a third with a random identifier.
pub fn prepare_merge<L: LogOps>(
    log: &mut L,
    shard_a: ShardId,
    shard_b: ShardId,
    tenant_id: OrgId,
) -> (r: Result<MergeState, LogError>)
    requires
        old(log).ready(),
        old(log).shards().contains_key(shard_a) ==> shard_has_room(
            old(log).shards()[shard_a],
            1,
            0,
        ),
        old(log).shards().contains_key(shard_b) ==> shard_has_room(
            old(log).shards()[shard_b],
            1,
            0,
        ),
    ensures
        final(log).ready(),
        final(log).reliable() == old(log).reliable(),
        match merge_refusal(old(log).shards(), shard_a, shard_b) {
            Some(e) => {
                &&& r is Err
                &&& old(log).reliable() ==> r == Err::<MergeState, LogError>(e)
                &&& final(log).shards() == old(log).shards()
            },
            None => {
                let s = old(log).shards();
                &&& old(log).reliable() ==> r is Ok
                &&& r matches Ok(st) ==> merges(
                    st,
                    s[shard_a].info,
                    s[shard_b].info,
                    shard_a,
                    shard_b,
                    tenant_id,
                ) && final(log).shards() == merge_prepared(
                    s,
                    shard_a,
                    shard_b,
                    tenant_id,
                    st.merged_shard,
                )
                &&& r is Err ==> final(log).shards() == s || final(log).shards() == maintained_in(
                    s,
                    shard_a,
                )
            },
        },
{
    prepare_merge_into(log, shard_a, shard_b, tenant_id, ShardId(uuid_new_v4()))
}

/// Where a delta stands in the order of a merge: its key decides, then its clock
/// reading, then its shard.
#[derive(Clone, Copy, Debug, PartialEq, Eq)]
pub struct MergeKey {
    pub hashed_key: [u8; 32],
    pub hlc: HybridLogicalClock,
    pub shard: ShardId,
}

/// Position of a delta in the order of a merge.
pub open spec fn merge_rank(hashed_key: [u8; 32], hlc: HybridLogicalClock, shard: ShardId) -> int {
    (be_value(hashed_key@) as int * 0x1_00000000_00000000_00000000_00000000_00000000int + hlc_rank(
        hlc,
    )) * 0x1_00000000_00000000_00000000_00000000int + shard.0 as int
}

/// A clock reading has a place below `2^160`.
proof fn lemma_hlc_bound(c: HybridLogicalClock)
    ensures
        0 <= hlc_rank(c) < 0x1_00000000_00000000_00000000_00000000_00000000int,
{
}

/// The order of a merge, part by part.
pub proof fn lemma_merge_order(a: MergeKey, b: MergeKey)
    ensures
        be_value(a.hashed_key@) < be_value(b.hashed_key@) ==> a.rank() < b.rank(),
        be_value(a.hashed_key@) == be_value(b.hashed_key@) && hlc_rank(a.hlc) < hlc_rank(b.hlc)
            ==> a.rank() < b.rank(),
        be_value(a.hashed_key@) == be_value(b.hashed_key@) && hlc_rank(a.hlc) == hlc_rank(b.hlc)
            ==> (a.rank() < b.rank() <==> a.shard.0 < b.shard.0),
{
    assert(a.rank() == merge_rank(a.hashed_key, a.hlc, a.shard));
    assert(b.rank() == merge_rank(b.hashed_key, b.hlc, b.shard));
    lemma_hlc_bound(a.hlc);
    lemma_hlc_bound(b.hlc);
    let h: int = 0x1_00000000_00000000_00000000_00000000_00000000int;
    let s: int = 0x1_00000000_00000000_00000000_00000000int;
    let ka = be_value(a.hashed_key@) as int;
    let kb = be_value(b.hashed_key@) as int;
    lemma_split_order(ka, hlc_rank(a.hlc), kb, hlc_rank(b.hlc), h);
    lemma_split_order(
        ka * h + hlc_rank(a.hlc),
        a.shard.0 as int,
        kb * h + hlc_rank(b.hlc),
        b.shard.0 as int,
        s,
    );
}

impl OrderedKey for MergeKey {
    open spec fn rank(self) -> int {
        merge_rank(self.hashed_key, self.hlc, self.shard)
    }

    proof fn rank_injective(a: Self, b: Self) {
        assert(a.rank() == merge_rank(a.hashed_key, a.hlc, a.shard));
        assert(b.rank() == merge_rank(b.hashed_key, b.hlc, b.shard));
        lemma_hlc_bound(a.hlc);
        lemma_hlc_bound(b.hlc);
        let h: int = 0x1_00000000_00000000_00000000_00000000_00000000int;
        let s: int = 0x1_00000000_00000000_00000000_00000000int;
        let ka = be_value(a.hashed_key@) as int;
        let kb = be_value(b.hashed_key@) as int;
        lemma_split_unique(
            ka * h + hlc_rank(a.hlc),
            a.shard.0 as int,
            kb * h + hlc_rank(b.hlc),
            b.shard.0 as int,
            s,
        );
        lemma_split_unique(ka, hlc_rank(a.hlc), kb, hlc_rank(b.hlc), h);
        lemma_be_value_injective(a.hashed_key@, b.hashed_key@);
        lemma_array32_equal(a.hashed_key, b.hashed_key);
        HybridLogicalClock::rank_injective(a.hlc, b.hlc);
    }

    fn before(&self, other: &Self) -> (r: bool) {
        proof {
            lemma_merge_order(*self, *other);
            lemma_merge_order(*other, *self);
        }
        let a = self.hashed_key.as_slice();
        let b = other.hashed_key.as_slice();
        assert(a@ == self.hashed_key@ && b@ == other.hashed_key@);
        match order_bytes(a, b) {
            KeyOrder::Less => true,
            KeyOrder::Greater => false,
            KeyOrder::Same => {
                match merge_ordering_tiebreak(&self.hlc, &other.hlc, self.shard, other.shard) {
                    Ordering::Less => true,
                    _ => false,
                }
            },
        }
    }
}

/// Whether one delta of a key goes before another: its clock reading is earlier,
/// or the same and its shard the lower.
pub open spec fn goes_before(
    hlc_a: HybridLogicalClock,
    shard_a: ShardId,
    hlc_b: HybridLogicalClock,
    shard_b: ShardId,
) -> bool {
    hlc_rank(hlc_a) < hlc_rank(hlc_b) || (hlc_rank(hlc_a) == hlc_rank(hlc_b) && shard_a.0
        < shard_b.0)
}

/// The order of two deltas of one key from different shards.
pub fn merge_ordering_tiebreak(
    hlc_a: &HybridLogicalClock,
    hlc_b: &HybridLogicalClock,
    shard_a: ShardId,
    shard_b: ShardId,
) -> (r: Ordering)
    ensures
        (r == Ordering::Less) == goes_before(*hlc_a, shard_a, *hlc_b, shard_b),
        (r == Ordering::Greater) == goes_before(*hlc_b, shard_b, *hlc_a, shard_a),
        (r == Ordering::Equal) == (*hlc_a == *hlc_b && shard_a == shard_b),
{
    proof {
        assert(hlc_a.rank() == hlc_rank(*hlc_a));
        assert(hlc_b.rank() == hlc_rank(*hlc_b));
        if hlc_rank(*hlc_a) == hlc_rank(*hlc_b) {
            HybridLogicalClock::rank_injective(*hlc_a, *hlc_b);
        }
    }
    if hlc_a.before(hlc_b) {
        Ordering::Less
    } else if hlc_b.before(hlc_a) {
        Ordering::Greater
    } else if shard_a.0 < shard_b.0 {
        Ordering::Less
    } else if shard_b.0 < shard_a.0 {
        Ordering::Greater
    } else {
        Ordering::Equal
    }
}

/// The deltas of an input that the copy reads: those up to the tip.
pub open spec fn copied_from(m: ShardModel, hwm: u64) -> Seq<DeltaView> {
    if hwm > 0 {
        numbered(m.deltas, 1, hwm)
    } else {
        Seq::empty()
    }
}

/// All deltas that the copy reads: those of the lower shard, then those of the
/// upper.
pub open spec fn merge_input(shards: Map<ShardId, ShardModel>, st: MergeState) -> Seq<DeltaView> {
    copied_from(shards[st.shard_a], st.hwm_a.0) + copied_from(shards[st.shard_b], st.hwm_b.0)
}

/// Positions of these deltas in the order of the merge.
pub open spec fn merge_ranks(shards: Map<ShardId, ShardModel>, st: MergeState) -> Seq<int> {
    let n = copied_from(shards[st.shard_a], st.hwm_a.0).len();
    let d = merge_input(shards, st);
    Seq::new(
        d.len(),
        |i: int|
            merge_rank(
                d[i].header.hashed_key,
                d[i].header.timestamp.hlc,
                if i < n {
                    st.shard_a
                } else {
                    st.shard_b
                },
            ),
    )
}

/// Every position.
pub open spec fn everything() -> spec_fn(int) -> bool {
    |i: int| true
}

/// Whether `out` is the input of a merge in the order of the merge.
pub open spec fn interleaved(
    shards: Map<ShardId, ShardModel>,
    st: MergeState,
    out: Seq<DeltaView>,
) -> bool {
    exists|picked: Seq<usize>| #[trigger]
        selection(merge_ranks(shards, st), everything(), picked) && picked_deltas(
            merge_input(shards, st),
            picked,
            out,
        )
}

/// Why the copy cannot read its input, where it cannot.
pub open spec fn copy_refusal(shards: Map<ShardId, ShardModel>, st: MergeState) -> Option<LogError> {
    if pruned(shards, st.shard_a) {
        Some(pruned_refusal(shards, st.shard_a))
    } else if st.hwm_a.0 > 0 && !shards.contains_key(st.shard_a) {
        Some(LogError::ShardNotFound(st.shard_a))
    } else if pruned(shards, st.shard_b) {
        Some(pruned_refusal(shards, st.shard_b))
    } else if st.hwm_b.0 > 0 && !shards.contains_key(st.shard_b) {
        Some(LogError::ShardNotFound(st.shard_b))
    } else {
        None
    }
}

/// Reads the deltas of an input up to the tip. One whose log was pruned is refused.
fn read_input<L: LogOps>(log: &L, shard_id: ShardId, hwm: SequenceNumber) -> (r: Result<
    Vec<Delta>,
    LogError,
>)
    requires
        log.ready(),
    ensures
        if pruned(log.shards(), shard_id) {
            &&& r is Err
            &&& log.reliable() ==> r == Err::<Vec<Delta>, LogError>(
                pruned_refusal(log.shards(), shard_id),
            )
        } else if hwm.0 > 0 && !log.shards().contains_key(shard_id) {
            r == Err::<Vec<Delta>, LogError>(LogError::ShardNotFound(shard_id))
        } else {
            &&& log.reliable() ==> r is Ok
            &&& r matches Ok(v) ==> delta_views(v@) == copied_from(log.shards()[shard_id], hwm.0)
        },
{
    match check_history(log, shard_id) {
        Ok(()) => {},
        Err(e) => {
            return Err(e);
        },
    }
    if hwm.0 > 0 {
        log.read_deltas(ReadDeltasRequest { shard_id, from: SequenceNumber(1), to: hwm })
    } else {
        let v: Vec<Delta> = Vec::new();
        assert(delta_views(v@) =~= Seq::<DeltaView>::empty());
        Ok(v)
    }
}

/// Interleaves the deltas of two inputs in the order of a merge.
fn interleave(
    st: &MergeState,
    a: &Vec<Delta>,
    b: &Vec<Delta>,
    Ghost(shards): Ghost<Map<ShardId, ShardModel>>,
) -> (r: Vec<Delta>)
    requires
        delta_views(a@) == copied_from(shards[st.shard_a], st.hwm_a.0),
        delta_views(b@) == copied_from(shards[st.shard_b], st.hwm_b.0),
    ensures
        interleaved(shards, *st, delta_views(r@)),
        r@.len() == a@.len() + b@.len(),
{
    let ghost d = merge_input(shards, *st);
    let ghost ranks = merge_ranks(shards, *st);
    let mut all: Vec<Delta> = Vec::new();
    let mut keys: Vec<MergeKey> = Vec::new();
    let mut i: usize = 0;
    while i < a.len()
        invariant
            i <= a@.len(),
            all@.len() == i,
            keys@.len() == i,
            d == delta_views(a@) + delta_views(b@),
            forall|j: int| 0 <= j < i ==> (#[trigger] all@[j])@ == d[j],
            forall|j: int|
                0 <= j < i ==> (#[trigger] keys@[j]) == (MergeKey {
                    hashed_key: d[j].header.hashed_key,
                    hlc: d[j].header.timestamp.hlc,
                    shard: st.shard_a,
                }),
        decreases a@.len() - i,
    {
        assert(d[i as int] == a@[i as int]@);
        keys.push(
            MergeKey {
                hashed_key: a[i].header.hashed_key,
                hlc: a[i].header.timestamp.hlc,
                shard: st.shard_a,
            },
        );
        all.push(a[i].clone());
        i = i + 1;
    }
    let mut k: usize = 0;
    while k < b.len()
        invariant
            k <= b@.len(),
            all@.len() == a@.len() + k,
            keys@.len() == a@.len() + k,
            d == delta_views(a@) + delta_views(b@),
            forall|j: int| 0 <= j < a@.len() + k ==> (#[trigger] all@[j])@ == d[j],
            forall|j: int|
                0 <= j < a@.len() + k ==> (#[trigger] keys@[j]) == (MergeKey {
                    hashed_key: d[j].header.hashed_key,
                    hlc: d[j].header.timestamp.hlc,
                    shard: if j < a@.len() {
                        st.shard_a
                    } else {
                        st.shard_b
                    },
                }),
        decreases b@.len() - k,
    {
        assert(d[a@.len() + k] == b@[k as int]@);
        keys.push(
            MergeKey {
                hashed_key: b[k].header.hashed_key,
                hlc: b[k].header.timestamp.hlc,
                shard: st.shard_b,
            },
        );
        all.push(b[k].clone());
        k = k + 1;
    }
    let order = sorted_order(&keys);
    let mut out: Vec<Delta> = Vec::new();
    let mut m: usize = 0;
    while m < order.len()
        invariant
            m <= order@.len(),
            all@.len() == d.len(),
            keys@.len() == d.len(),
            positions_of(order@, 0, keys@.len() as int),
            forall|j: int| 0 <= j < d.len() ==> (#[trigger] all@[j])@ == d[j],
            out@.len() == m,
            forall|j: int| 0 <= j < m ==> (#[trigger] out@[j])@ == d[order@[j] as int],
        decreases order@.len() - m,
    {
        assert(order@[m as int] < keys@.len());
        out.push(all[order[m]].clone());
        m = m + 1;
    }
    proof {
        assert forall|j: int| 0 <= j < keys@.len() implies (#[trigger] keys@[j]).rank()
            == ranks[j] by {}
        assert(ranks_of(keys@) =~= ranks);
        assert forall|x: int, y: int| 0 <= x < y < order@.len() implies ranks[(
        #[trigger] order@[x]) as int] < ranks[(#[trigger] order@[y]) as int] || (
        ranks[order@[x] as int] == ranks[order@[y] as int] && order@[x] < order@[y]) by {
            assert(position_less(keys@, order@[x] as int, order@[y] as int));
        }
        assert(selection(ranks, everything(), order@));
        assert(picked_deltas(d, order@, delta_views(out@)));
    }
    out
}

/// Appends in an order of their own add no more than the list they are from.
proof fn lemma_reordered_cost(a: Seq<AppendView>, p: Seq<usize>, b: Seq<AppendView>)
    requires
        p.no_duplicates(),
        b.len() == p.len(),
        forall|k: int| 0 <= k < p.len() ==> (#[trigger] p[k]) < a.len() && b[k] == a[p[k] as int],
    ensures
        total_cost(b) <= total_cost(a),
    decreases a.len(),
{
    if a.len() == 0 {
        if p.len() > 0 {
            assert(p[0] < a.len());
        }
    } else {
        let front = a.drop_last();
        if exists|k: int| 0 <= k < p.len() && p[k] == a.len() - 1 {
            let k = choose|k: int| 0 <= k < p.len() && p[k] == a.len() - 1;
            let q = p.remove(k);
            let c = b.remove(k);
            assert forall|i: int| 0 <= i < q.len() implies (#[trigger] q[i]) < front.len() && c[i]
                == front[q[i] as int] by {
                let j = if i < k {
                    i
                } else {
                    i + 1
                };
                assert(q[i] == p[j] && c[i] == b[j]);
                assert(p[j] != p[k]);
            }
            assert(q.no_duplicates());
            lemma_reordered_cost(front, q, c);
            lemma_total_cost_concat(b.take(k), seq![b[k]]);
            lemma_total_cost_concat(b.take(k) + seq![b[k]], b.skip(k + 1));
            lemma_total_cost_concat(b.take(k), b.skip(k + 1));
            assert(b =~= b.take(k) + seq![b[k]] + b.skip(k + 1));
            assert(c =~= b.take(k) + b.skip(k + 1));
            assert(seq![b[k]].drop_last() =~= Seq::<AppendView>::empty());
            reveal_with_fuel(total_cost, 2);
            assert(seq![b[k]].last() == b[k]);
            assert(total_cost(seq![b[k]]) == payload_cost(b[k].payload.len()));
            assert(b[k] == a.last());
        } else {
            assert forall|i: int| 0 <= i < p.len() implies (#[trigger] p[i]) < front.len() && b[i]
                == front[p[i] as int] by {
                assert(p[i] != a.len() - 1);
            }
            lemma_reordered_cost(front, p, b);
        }
    }
}

/// The outcome of copying `merged` into the merged shard: it is taken whole where
/// no append is refused, and otherwise up to the first that is; a backend that can
/// fail may stop at any. One that keeps timestamps gives each copy that of its delta.
pub open spec fn copied(
    before: Map<ShardId, ShardModel>,
    st: MergeState,
    merged: Seq<DeltaView>,
    keeps: bool,
    sound: bool,
    r: Result<u64, LogError>,
    after: Map<ShardId, ShardModel>,
) -> bool {
    let reqs = reissues(merged, st.merged_shard, Some(st.tenant_id), false);
    exists|stamps: Seq<TimestampView>|
        {
            &&& #[trigger] refilled_to(before, reqs, stamps, after)
            &&& keeps ==> stamped_as_asked(reqs, stamps)
            &&& r matches Ok(n) ==> n == merged.len() && stamps.len() == merged.len()
                && all_accepted(before, reqs)
            &&& r is Err ==> stamps.len() < merged.len()
            &&& all_accepted(before, reqs.take(stamps.len() as int))
            &&& r matches Err(e) ==> sound ==> append_refusal(
                before,
                reqs[stamps.len() as int],
            ) == Some(e)
        }
}

/// Copies the deltas of both inputs into the merged shard, in the order of the
/// merge; returns how many. An input whose log was pruned is refused.
pub fn copy_phase<L: LogOps>(log: &mut L, state: &MergeState) -> (r: Result<u64, LogError>)
    requires
        old(log).ready(),
        ({
            let input = merge_input(old(log).shards(), *state);
            &&& input.len() < u64::MAX
            &&& old(log).shards().contains_key(state.merged_shard) ==> shard_has_room_for(
                old(log).shards()[state.merged_shard],
                reissues(input, state.merged_shard, Some(state.tenant_id), false),
            )
        }),
    ensures
        final(log).ready(),
        final(log).reliable() == old(log).reliable(),
        match copy_refusal(old(log).shards(), *state) {
            Some(e) => {
                &&& r is Err
                &&& old(log).reliable() ==> r == Err::<u64, LogError>(e)
                &&& final(log).shards() == old(log).shards()
            },
            None => {
                ||| !old(log).reliable() && r is Err && final(log).shards() == old(log).shards()
                ||| exists|merged: Seq<DeltaView>| #[trigger]
                    interleaved(old(log).shards(), *state, merged) && copied(
                        old(log).shards(),
                        *state,
                        merged,
                        L::keeps_timestamps(),
                        old(log).reliable(),
                        r,
                        final(log).shards(),
                    )
            },
        },
{
    let ghost s0 = log.shards();
    let a = match read_input(log, state.shard_a, state.hwm_a) {
        Ok(v) => v,
        Err(e) => {
            return Err(e);
        },
    };
    let b = match read_input(log, state.shard_b, state.hwm_b) {
        Ok(v) => v,
        Err(e) => {
            return Err(e);
        },
    };
    assert(delta_views(a@).len() == a@.len());
    assert(delta_views(b@).len() == b@.len());
    let all = interleave(state, &a, &b, Ghost(s0));
    proof {
        let out = delta_views(all@);
        let d = merge_input(s0, *state);
        assert(out.len() == all@.len());
        assert(d.len() == all.len());
        merge_keeps_every_delta(s0, *state, out);
        let p = choose|p: Seq<usize>| #[trigger]
            permutation(p, d.len()) && picked_deltas(d, p, out);
        lemma_reordered_cost(
            reissues(d, state.merged_shard, Some(state.tenant_id), false),
            p,
            reissues(out, state.merged_shard, Some(state.tenant_id), false),
        );
    }
    append_all(log, state.merged_shard, Some(state.tenant_id), &all, false, false)
}

/// Gives up a merge.
pub fn abort_merge(state: &MergeState, reason: MergeAbortReason) -> (r: MergeAbortedEvent)
    ensures
        r.input_shards@ == seq![state.shard_a, state.shard_b],
        r.reason == reason,
{
    let r = MergeAbortedEvent { input_shards: [state.shard_a, state.shard_b], reason };
    assert(r.input_shards@ =~= seq![state.shard_a, state.shard_b]);
    r
}

/// The shards with the inputs of a merge healthy again.
pub open spec fn inputs_restored(shards: Map<ShardId, ShardModel>, st: MergeState) -> Map<
    ShardId,
    ShardModel,
> {
    state_set_in(
        state_set_in(shards, st.shard_a, ShardState::Healthy),
        st.shard_b,
        ShardState::Healthy,
    )
}

/// Takes the inputs of a merge that was given up back to healthy.
pub fn restore_inputs<L: LogOps>(log: &mut L, state: &MergeState)
    requires
        old(log).ready(),
    ensures
        final(log).ready(),
        final(log).reliable() == old(log).reliable(),
        final(log).shards() == inputs_restored(old(log).shards(), *state),
{
    log.set_shard_state(state.shard_a, ShardState::Healthy);
    log.set_shard_state(state.shard_b, ShardState::Healthy);
}

/// Completes a merge.
pub fn complete_merge(state: &MergeState) -> (r: ShardMergedEvent)
    ensures
        r.input_shards@ == seq![state.shard_a, state.shard_b],
        r.merged_shard == state.merged_shard,
        r.range_start == state.range_start,
        r.range_end == state.range_end,
{
    let r = ShardMergedEvent {
        input_shards: [state.shard_a, state.shard_b],
        merged_shard: state.merged_shard,
        range_start: state.range_start,
        range_end: state.range_end,
    };
    assert(r.input_shards@ =~= seq![state.shard_a, state.shard_b]);
    r
}

/// The order of deltas of one key is total: of two, one goes before the other,
/// unless both have one clock reading and one shard.
pub proof fn tie_break_is_total(
    hlc_a: HybridLogicalClock,
    shard_a: ShardId,
    hlc_b: HybridLogicalClock,
    shard_b: ShardId,
)
    ensures
        !(goes_before(hlc_a, shard_a, hlc_b, shard_b) && goes_before(
            hlc_b,
            shard_b,
            hlc_a,
            shard_a,
        )),
        goes_before(hlc_a, shard_a, hlc_b, shard_b) || goes_before(hlc_b, shard_b, hlc_a, shard_a)
            || (hlc_a == hlc_b && shard_a == shard_b),
{
    assert(hlc_a.rank() == hlc_rank(hlc_a));
    assert(hlc_b.rank() == hlc_rank(hlc_b));
    if hlc_rank(hlc_a) == hlc_rank(hlc_b) {
        HybridLogicalClock::rank_injective(hlc_a, hlc_b);
    }
}

/// The order of a merge is determined by its input.
pub proof fn merge_order_is_determined(
    shards: Map<ShardId, ShardModel>,
    st: MergeState,
    x: Seq<DeltaView>,
    y: Seq<DeltaView>,
)
    requires
        merge_input(shards, st).len() <= usize::MAX,
        interleaved(shards, st, x),
        interleaved(shards, st, y),
    ensures
        x == y,
{
    let ranks = merge_ranks(shards, st);
    let d = merge_input(shards, st);
    let p = choose|p: Seq<usize>| #[trigger]
        selection(ranks, everything(), p) && picked_deltas(d, p, x);
    let q = choose|q: Seq<usize>| #[trigger]
        selection(ranks, everything(), q) && picked_deltas(d, q, y);
    selection_is_unique(ranks, everything(), p, q);
    assert(x =~= y);
}

/// Whether `p` lists the numbers below `n`, each once.
pub open spec fn permutation(p: Seq<usize>, n: nat) -> bool {
    &&& p.len() == n
    &&& p.no_duplicates()
    &&& forall|k: int| 0 <= k < p.len() ==> (#[trigger] p[k]) < n
}

/// Law: a merge loses and doubles nothing. Its output is its input in another
/// order: the deltas of both shards, each once.
pub proof fn merge_keeps_every_delta(
    shards: Map<ShardId, ShardModel>,
    st: MergeState,
    out: Seq<DeltaView>,
)
    requires
        merge_input(shards, st).len() <= usize::MAX,
        interleaved(shards, st, out),
    ensures
        exists|p: Seq<usize>| #[trigger]
            permutation(p, merge_input(shards, st).len()) && picked_deltas(
                merge_input(shards, st),
                p,
                out,
            ),
{
    let ranks = merge_ranks(shards, st);
    let d = merge_input(shards, st);
    let p = choose|p: Seq<usize>| #[trigger]
        selection(ranks, everything(), p) && picked_deltas(d, p, out);
    lemma_selection_len(ranks, everything(), p);
    assert forall|i: int, j: int| 0 <= i < p.len() && 0 <= j < p.len() && i != j implies p[i]
        != p[j] by {
        if i < j {
            assert(ranks[p[i] as int] < ranks[p[j] as int] || p[i] < p[j]);
        } else {
            assert(ranks[p[j] as int] < ranks[p[i] as int] || p[j] < p[i]);
        }
    }
    let wide = p.map_values(|x: usize| x as int);
    let all = vstd::set_lib::set_int_range(0, ranks.len() as int);
    vstd::set_lib::lemma_int_range(0, ranks.len() as int);
    assert(all.subset_of(wide.to_set())) by {
        assert forall|x: int| all.contains(x) implies wide.to_set().contains(x) by {
            assert(everything()(x));
            let k = choose|k: int| 0 <= k < p.len() && p[k] == x as usize;
            assert(wide[k] == x);
        }
    }
    wide.lemma_cardinality_of_set();
    vstd::set_lib::lemma_len_subset(all, wide.to_set());
    assert(permutation(p, d.len()));
}

/// The output of a merge is in the order of the keys.
pub proof fn merge_output_is_in_key_order(
    shards: Map<ShardId, ShardModel>,
    st: MergeState,
    out: Seq<DeltaView>,
    i: int,
    j: int,
)
    requires
        interleaved(shards, st, out),
        0 <= i < j < out.len(),
    ensures
        be_value(out[i].header.hashed_key@) <= be_value(out[j].header.hashed_key@),
{
    let ranks = merge_ranks(shards, st);
    let d = merge_input(shards, st);
    let n = copied_from(shards[st.shard_a], st.hwm_a.0).len();
    let p = choose|p: Seq<usize>| #[trigger]
        selection(ranks, everything(), p) && picked_deltas(d, p, out);
    let x = p[i] as int;
    let y = p[j] as int;
    let kx = MergeKey {
        hashed_key: d[x].header.hashed_key,
        hlc: d[x].header.timestamp.hlc,
        shard: if x < n {
            st.shard_a
        } else {
            st.shard_b
        },
    };
    let ky = MergeKey {
        hashed_key: d[y].header.hashed_key,
        hlc: d[y].header.timestamp.hlc,
        shard: if y < n {
            st.shard_a
        } else {
            st.shard_b
        },
    };
    assert(out[i] == d[x] && out[j] == d[y]);
    assert(kx.rank() == ranks[x] && ky.rank() == ranks[y]);
    lemma_merge_order(ky, kx);
}

/// A merged range holds the keys of both inputs and no others.
pub proof fn merged_range_is_the_union(a: ShardInfoView, b: ShardInfoView, key: [u8; 32])
    requires
        a.range_end == b.range_start,
        be_value(a.range_start@) <= be_value(a.range_end@) <= be_value(b.range_end@),
    ensures
        in_range(ShardInfoView { range_end: b.range_end, ..a }, key) <==> in_range(a, key)
            || in_range(b, key),
{
}

} // verus!
