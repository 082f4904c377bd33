//! Automatic shard splits.
//!
//! A shard that reaches one of its ceilings is split at the midpoint of its key
//! range: a new shard takes the upper half, and the deltas of that half.

use vstd::prelude::*;

use crate::bytes::{be_value, lemma_be_value_concat, lemma_be_value_injective, radix};
use crate::bytes::{order_bytes, same_bytes, KeyOrder};
use crate::delta::{delta_views, DeltaView};
use crate::delta::Delta;
use crate::error::LogError;
use crate::ids::{uuid_new_v4, NodeId, OrgId, SequenceNumber, ShardId};
use crate::reissue::{append_all, check_split_source};
use crate::reissue::{
    all_accepted, lemma_refilled_frame, refilled, refilled_to, reissues, split_refusal,
    stamped_as_asked,
};
use crate::shard::default_config;
use crate::shard::{ShardConfig, ShardInfo, ShardState};
use crate::shard::ShardInfoView;
use crate::time::TimestampView;
use crate::traits::{
    append_refusal, fresh_shard, in_range, lemma_total_cost_least, numbered, ranged_in,
    requested_delta, shard_has_room_for, state_set_in, total_cost, AppendView, ShardModel,
};
use crate::traits::{LogOps, ReadDeltasRequest};

verus! {

/// Whether a shard should be split.
#[derive(Clone, Copy, Debug, PartialEq, Eq, Structural)]
pub enum SplitCheck {
    /// The shard is below its ceilings.
    Within,
    /// Too many deltas.
    DeltaCountExceeded { current: u64, threshold: u64 },
    /// Too many bytes.
    ByteSizeExceeded { current: u64, threshold: u64 },
}

/// Which ceiling a shard has reached: the number of deltas is looked at first.
pub open spec fn split_needed(info: ShardInfoView) -> SplitCheck {
    if info.delta_count >= info.config.max_delta_count {
        SplitCheck::DeltaCountExceeded {
            current: info.delta_count,
            threshold: info.config.max_delta_count,
        }
    } else if info.byte_size >= info.config.max_byte_size {
        SplitCheck::ByteSizeExceeded {
            current: info.byte_size,
            threshold: info.config.max_byte_size,
        }
    } else {
        SplitCheck::Within
    }
}

/// Checks a shard against its ceilings.
pub fn check_split(info: &ShardInfo) -> (r: SplitCheck)
    ensures
        r == split_needed(info@),
{
    if info.delta_count >= info.config.max_delta_count {
        return SplitCheck::DeltaCountExceeded {
            current: info.delta_count,
            threshold: info.config.max_delta_count,
        };
    }
    if info.byte_size >= info.config.max_byte_size {
        return SplitCheck::ByteSizeExceeded {
            current: info.byte_size,
            threshold: info.config.max_byte_size,
        };
    }
    SplitCheck::Within
}

/// The number halfway between two keys, rounded down.
pub open spec fn halfway(start: [u8; 32], end: [u8; 32]) -> nat {
    (be_value(start@) + be_value(end@)) / 2
}

/// Whether a key range has a key between its ends at which to split it.
pub open spec fn splittable(start: [u8; 32], end: [u8; 32]) -> bool {
    halfway(start, end) != be_value(start@) && halfway(start, end) != be_value(end@)
}

/// Sum of two keys: thirty-two digits and a carry.
fn key_sum(a: &[u8; 32], b: &[u8; 32]) -> (r: ([u8; 32], u16))
    ensures
        r.1 <= 1,
        r.1 * radix(32) + be_value(r.0@) == be_value(a@) + be_value(b@),
{
    let mut sum: [u8; 32] = [0; 32];
    let mut carry: u16 = 0;
    let mut i: usize = 32;
    assert(sum@.skip(32) =~= Seq::<u8>::empty());
    assert(a@.skip(32) =~= Seq::<u8>::empty());
    assert(b@.skip(32) =~= Seq::<u8>::empty());
    while i > 0
        invariant
            i <= 32,
            carry <= 1,
            carry * radix((32 - i) as nat) + be_value(sum@.skip(i as int)) == be_value(
                a@.skip(i as int),
            ) + be_value(b@.skip(i as int)),
        decreases i,
    {
        let ghost before = sum@;
        let ghost c0 = carry;
        i = i - 1;
        let s: u16 = a[i] as u16 + b[i] as u16 + carry;
        sum[i] = (s % 256) as u8;
        carry = s / 256;
        proof {
            let n = (31 - i) as nat;
            let k = i as int;
            assert(sum@.skip(k) =~= seq![(s % 256) as u8] + before.skip(k + 1));
            assert(a@.skip(k) =~= seq![a@[k]] + a@.skip(k + 1));
            assert(b@.skip(k) =~= seq![b@[k]] + b@.skip(k + 1));
            lemma_digit((s % 256) as u8, before.skip(k + 1));
            lemma_digit(a@[k], a@.skip(k + 1));
            lemma_digit(b@[k], b@.skip(k + 1));
            let x = radix(n) as int;
            let s1 = be_value(before.skip(k + 1)) as int;
            let a1 = be_value(a@.skip(k + 1)) as int;
            let b1 = be_value(b@.skip(k + 1)) as int;
            assert(radix((n + 1) as nat) == x * 256);
            let q = (s / 256) as int;
            let d = (s % 256) as int;
            let da = a@[k] as int;
            let db = b@[k] as int;
            assert(q * (x * 256) + (d * x + s1) == (da * x + a1) + (db * x + b1))
                by (nonlinear_arith)
                requires
                    q * 256 + d == da + db + c0,
                    c0 * x + s1 == a1 + b1,
            ;
        }
    }
    assert(sum@.skip(0) =~= sum@);
    assert(a@.skip(0) =~= a@);
    assert(b@.skip(0) =~= b@);
    (sum, carry)
}

/// A digit in front of a byte string counts for as many as there are strings of
/// that length.
proof fn lemma_digit(d: u8, rest: Seq<u8>)
    ensures
        be_value(seq![d] + rest) == d as nat * radix(rest.len()) + be_value(rest),
{
    let one = seq![d];
    lemma_be_value_concat(one, rest);
    assert(one.drop_last() =~= Seq::<u8>::empty());
    assert(be_value(one) == d) by {
        reveal_with_fuel(be_value, 2);
    }
}

/// Half of a number of thirty-two digits and a carry, rounded down.
fn half_of(sum: &[u8; 32], carry: u16) -> (r: [u8; 32])
    requires
        carry <= 1,
    ensures
        be_value(r@) == (carry * radix(32) + be_value(sum@)) / 2,
{
    let mut mid: [u8; 32] = [0; 32];
    let mut rest: u16 = carry;
    let mut i: usize = 0;
    assert(sum@.take(0) =~= Seq::<u8>::empty());
    assert(mid@.take(0) =~= Seq::<u8>::empty());
    assert(carry * radix(0) == carry) by (nonlinear_arith)
        requires
            radix(0) == 1,
    ;
    while i < 32
        invariant
            i <= 32,
            carry <= 1,
            rest <= 1,
            be_value(mid@.take(i as int)) * 2 + rest == carry * radix(i as nat) + be_value(
                sum@.take(i as int),
            ),
        decreases 32 - i,
    {
        let ghost before = mid@;
        let ghost r0 = rest;
        let val: u16 = rest * 256 + sum[i] as u16;
        mid[i] = (val / 2) as u8;
        rest = val % 2;
        proof {
            let k = i as int;
            assert(mid@.take(k + 1).drop_last() =~= before.take(k));
            assert(sum@.take(k + 1).drop_last() =~= sum@.take(k));
            let m0 = be_value(before.take(k)) as int;
            let s0 = be_value(sum@.take(k)) as int;
            let x = radix(i as nat) as int;
            assert(radix((i + 1) as nat) == x * 256);
            assert(carry * (x * 256) == 256 * (carry * x)) by (nonlinear_arith);
        }
        i = i + 1;
    }
    assert(mid@.take(32) =~= mid@);
    assert(sum@.take(32) =~= sum@);
    mid
}

/// The average of two keys, as numbers of 256 bits, rounded down.
pub(crate) fn key_average(a: &[u8; 32], b: &[u8; 32]) -> (r: [u8; 32])
    ensures
        be_value(r@) == halfway(*a, *b),
{
    let (sum, carry) = key_sum(a, b);
    half_of(&sum, carry)
}

/// The midpoint of a key range. `None` where it is one of the ends, so that the
/// range cannot be split.
pub fn compute_midpoint(range_start: &[u8; 32], range_end: &[u8; 32]) -> (r: Option<[u8; 32]>)
    ensures
        r is Some <==> splittable(*range_start, *range_end),
        r matches Some(mid) ==> be_value(mid@) == halfway(*range_start, *range_end),
{
    let mid = key_average(range_start, range_end);
    let m = mid.as_slice();
    let s = range_start.as_slice();
    let e = range_end.as_slice();
    proof {
        assert(m@ == mid@ && s@ == range_start@ && e@ == range_end@);
        if be_value(m@) == be_value(s@) {
            lemma_be_value_injective(m@, s@);
        }
        if be_value(m@) == be_value(e@) {
            lemma_be_value_injective(m@, e@);
        }
    }
    if same_bytes(m, s) || same_bytes(m, e) {
        return None;
    }
    Some(mid)
}

/// A split operation.
#[derive(Clone, Copy, Debug)]
pub struct SplitPlan {
    /// The shard to split.
    pub original_shard: ShardId,
    /// The shard for the upper half of the range.
    pub new_shard: ShardId,
    /// The tenant of both.
    pub tenant_id: OrgId,
    /// The shard keeps `[range_start, midpoint)`, the new shard gets
    /// `[midpoint, range_end)`.
    pub midpoint: [u8; 32],
    /// Start of the range.
    pub range_start: [u8; 32],
    /// End of the range.
    pub range_end: [u8; 32],
    /// First member of the new shard's group.
    pub initial_node: NodeId,
}

/// Whether a shard is split: it has reached a ceiling, and its range has a key
/// between its ends.
pub open spec fn split_due(info: ShardInfoView) -> bool {
    split_needed(info) != SplitCheck::Within && splittable(info.range_start, info.range_end)
}

/// Whether a plan splits a shard at its midpoint.
pub open spec fn splits(plan: SplitPlan, info: ShardInfoView) -> bool {
    &&& plan.original_shard == info.shard_id
    &&& plan.tenant_id == info.tenant_id
    &&& be_value(plan.midpoint@) == halfway(info.range_start, info.range_end)
    &&& plan.range_start == info.range_start
    &&& plan.range_end == info.range_end
    &&& plan.initial_node == (match info.leader {
        Some(n) => n,
        None => NodeId(1),
    })
}

/// Plans the split of a shard into itself and a given new one.
pub fn plan_split_into(info: &ShardInfo, new_shard: ShardId) -> (r: Option<SplitPlan>)
    ensures
        r is Some <==> split_due(info@),
        r matches Some(plan) ==> splits(plan, info@) && plan.new_shard == new_shard,
{
    match check_split(info) {
        SplitCheck::Within => {
            return None;
        },
        _ => {},
    }
    let midpoint = match compute_midpoint(&info.range_start, &info.range_end) {
        Some(m) => m,
        None => {
            return None;
        },
    };
    let leader = match info.leader {
        Some(n) => n,
        None => NodeId(1),
    };
    Some(
        SplitPlan {
            original_shard: info.shard_id,
            new_shard,
            tenant_id: info.tenant_id,
            midpoint,
            range_start: info.range_start,
            range_end: info.range_end,
            initial_node: leader,
        },
    )
}

/// Plans the split of a shard into itself and a new one with a random identifier.
pub fn plan_split(info: &ShardInfo) -> (r: Option<SplitPlan>)
    ensures
        r is Some <==> split_due(info@),
        r matches Some(plan) ==> splits(plan, info@),
{
    plan_split_into(info, ShardId(uuid_new_v4()))
}

/// The deltas with a key at or past the midpoint, in order.
pub open spec fn upper_half(d: Seq<DeltaView>, midpoint: [u8; 32]) -> Seq<DeltaView>
    decreases d.len(),
{
    if d.len() == 0 {
        d
    } else {
        let front = upper_half(d.drop_last(), midpoint);
        if be_value(d.last().header.hashed_key@) >= be_value(midpoint@) {
            front.push(d.last())
        } else {
            front
        }
    }
}

/// Picks the deltas with a key at or past the midpoint.
fn pick_upper(deltas: &Vec<Delta>, midpoint: &[u8; 32]) -> (r: Vec<Delta>)
    ensures
        delta_views(r@) == upper_half(delta_views(deltas@), *midpoint),
        r@.len() <= deltas@.len(),
{
    let ghost d = delta_views(deltas@);
    let mut out: Vec<Delta> = Vec::new();
    let mut i: usize = 0;
    assert(d.take(0) =~= Seq::<DeltaView>::empty());
    assert(delta_views(out@) =~= Seq::<DeltaView>::empty());
    while i < deltas.len()
        invariant
            i <= deltas@.len(),
            d == delta_views(deltas@),
            out@.len() <= i,
            delta_views(out@) == upper_half(d.take(i as int), *midpoint),
        decreases deltas@.len() - i,
    {
        proof {
            let t = d.take(i + 1);
            assert(t.drop_last() =~= d.take(i as int));
            assert(t.last() == deltas@[i as int]@);
        }
        let k = deltas[i].header.hashed_key.as_slice();
        let m = midpoint.as_slice();
        assert(k@ == deltas@[i as int].header.hashed_key@ && m@ == midpoint@);
        let below: bool = match order_bytes(k, m) {
            KeyOrder::Less => true,
            _ => false,
        };
        if !below {
            let ghost o0 = out@;
            out.push(deltas[i].clone());
            assert(delta_views(out@) =~= delta_views(o0).push(deltas@[i as int]@));
        }
        i = i + 1;
    }
    assert(d.take(i as int) =~= d);
    out
}

/// Every delta has a number in the whole range of numbers.
pub proof fn lemma_numbered_all(d: Seq<DeltaView>)
    ensures
        numbered(d, 0, u64::MAX) == d,
    decreases d.len(),
{
    if d.len() > 0 {
        lemma_numbered_all(d.drop_last());
        assert(d.drop_last().push(d.last()) =~= d);
    }
}

/// The shards with the new shard of a plan created.
pub open spec fn split_created(
    shards: Map<ShardId, ShardModel>,
    plan: SplitPlan,
) -> Map<ShardId, ShardModel> {
    shards.insert(
        plan.new_shard,
        fresh_shard(plan.new_shard, plan.tenant_id, plan.initial_node, default_config()),
    )
}

/// The appends that a plan makes to the new shard.
pub open spec fn split_requests(
    shards: Map<ShardId, ShardModel>,
    plan: SplitPlan,
) -> Seq<AppendView> {
    reissues(
        upper_half(split_created(shards, plan)[plan.original_shard].deltas, plan.midpoint),
        plan.new_shard,
        Some(plan.tenant_id),
        true,
    )
}

/// The shards once a split is complete: a shard that was splitting is healthy.
pub open spec fn split_completed(
    shards: Map<ShardId, ShardModel>,
    shard_id: ShardId,
) -> Map<ShardId, ShardModel> {
    if shards.contains_key(shard_id) && shards[shard_id].info.state == ShardState::Splitting {
        state_set_in(shards, shard_id, ShardState::Healthy)
    } else {
        shards
    }
}

/// The shards after a split whose appends got these timestamps.
pub open spec fn split_done(
    shards: Map<ShardId, ShardModel>,
    plan: SplitPlan,
    stamps: Seq<TimestampView>,
) -> Map<ShardId, ShardModel> {
    split_completed(
        ranged_in(
            ranged_in(
                refilled(split_created(shards, plan), split_requests(shards, plan), stamps),
                plan.original_shard,
                plan.range_start,
                plan.midpoint,
            ),
            plan.new_shard,
            plan.midpoint,
            plan.range_end,
        ),
        plan.original_shard,
    )
}

/// Splits a shard: creates the new shard, appends to it the deltas of the upper
/// half, and sets both ranges; a shard that was marked as splitting is healthy then.
/// The new shard is created over the whole key space, which leaves out the highest
/// key: a delta of that key cannot be moved. A shard that is merging, or whose log
/// was pruned, is not split.
pub fn execute_split<L: LogOps>(log: &mut L, plan: &SplitPlan) -> (r: Result<(), LogError>)
    requires
        old(log).ready(),
        ({
            let s = old(log).shards();
            split_created(s, *plan).contains_key(plan.original_shard) ==> total_cost(
                split_requests(s, *plan),
            ) <= u64::MAX
        }),
    ensures
        final(log).ready(),
        final(log).reliable() == old(log).reliable(),
        ({
            let s0 = old(log).shards();
            let created = split_created(s0, *plan);
            let reqs = split_requests(s0, *plan);
            if split_refusal(s0, plan.original_shard) is Some {
                &&& r is Err
                &&& old(log).reliable() ==> r == Err::<(), LogError>(
                    split_refusal(s0, plan.original_shard)->0,
                )
                &&& final(log).shards() == s0
            } else if !created.contains_key(plan.original_shard) {
                &&& r == Err::<(), LogError>(LogError::ShardNotFound(plan.original_shard))
                &&& final(log).shards() == created
            } else {
                &&& r is Ok ==> all_accepted(created, reqs)
                &&& r is Ok ==> exists|stamps: Seq<TimestampView>|
                    {
                        &&& stamps.len() == reqs.len()
                        &&& L::keeps_timestamps() ==> stamped_as_asked(reqs, stamps)
                        &&& final(log).shards() == #[trigger] split_done(s0, *plan, stamps)
                    }
                &&& old(log).reliable() && all_accepted(created, reqs) ==> r is Ok
                &&& old(log).reliable() && r is Err ==> r == Err::<(), LogError>(
                    LogError::KeyOutOfRange(plan.new_shard),
                )
                &&& r is Err ==> (!old(log).reliable() && final(log).shards() == s0) || exists|
                    stamps: Seq<TimestampView>,
                |
                    {
                        &&& #[trigger] refilled_to(created, reqs, stamps, final(log).shards())
                        &&& L::keeps_timestamps() ==> stamped_as_asked(reqs, stamps)
                        &&& all_accepted(created, reqs.take(stamps.len() as int))
                        &&& old(log).reliable() ==> stamps.len() < reqs.len() && append_refusal(
                            created,
                            reqs[stamps.len() as int],
                        ) == Some(r->Err_0)
                    }
            }
        }),
{
    let ghost s0 = log.shards();
    let splitting: bool = match check_split_source(log, plan.original_shard) {
        Ok(b) => b,
        Err(e) => {
            return Err(e);
        },
    };
    log.create_shard(plan.new_shard, plan.tenant_id, plan.initial_node, ShardConfig::default());
    let ghost created = split_created(s0, *plan);
    assert(log.shards() == created);
    let read = log.read_deltas(
        ReadDeltasRequest {
            shard_id: plan.original_shard,
            from: SequenceNumber(0),
            to: SequenceNumber(u64::MAX),
        },
    );
    let deltas = match read {
        Ok(v) => v,
        Err(e) => {
            proof {
                let reqs = split_requests(s0, *plan);
                assert(reqs.take(0) =~= Seq::<AppendView>::empty());
                assert(refilled_to(created, reqs, Seq::<TimestampView>::empty(), log.shards()));
                assert(stamped_as_asked(reqs, Seq::<TimestampView>::empty()));
            }
            return Err(e);
        },
    };
    proof {
        lemma_numbered_all(created[plan.original_shard].deltas);
        assert(delta_views(deltas@).len() == deltas@.len());
    }
    let upper = pick_upper(&deltas, &plan.midpoint);
    let ghost reqs = split_requests(s0, *plan);
    proof {
        lemma_total_cost_least(reqs);
        assert(delta_views(upper@).len() == upper@.len());
    }
    assert(reqs == reissues(delta_views(upper@), plan.new_shard, Some(plan.tenant_id), true));
    match append_all(log, plan.new_shard, Some(plan.tenant_id), &upper, true, false) {
        Ok(_) => {},
        Err(e) => {
            proof {
                let stamps = choose|stamps: Seq<TimestampView>|
                    {
                        &&& #[trigger] refilled_to(created, reqs, stamps, log.shards())
                        &&& stamps.len() < upper@.len()
                        &&& L::keeps_timestamps() ==> stamped_as_asked(reqs, stamps)
                        &&& log.reliable() ==> append_refusal(created, reqs[stamps.len() as int])
                            == Some(e)
                        &&& all_accepted(created, reqs.take(stamps.len() as int))
                    };
                assert(reqs[stamps.len() as int].shard_id == plan.new_shard);
            }
            return Err(e);
        },
    }
    let ghost stamps = choose|stamps: Seq<TimestampView>|
        {
            &&& #[trigger] refilled_to(created, reqs, stamps, log.shards())
            &&& stamps.len() == upper@.len()
            &&& L::keeps_timestamps() ==> stamped_as_asked(reqs, stamps)
        };
    assert(reqs.take(stamps.len() as int) =~= reqs);
    log.update_shard_range(plan.original_shard, plan.range_start, plan.midpoint);
    log.update_shard_range(plan.new_shard, plan.midpoint, plan.range_end);
    let ghost ranged = log.shards();
    proof {
        lemma_total_cost_least(reqs);
        lemma_refilled_frame(created, reqs, stamps, plan.new_shard);
        assert(refilled(created, reqs, stamps).dom().contains(plan.original_shard));
    }
    if splitting {
        log.set_shard_state(plan.original_shard, ShardState::Healthy);
    }
    proof {
        if splitting && plan.original_shard == plan.new_shard {
            assert(log.shards() =~= ranged);
        }
        assert(log.shards() == split_done(s0, *plan, stamps));
    }
    Ok(())
}

/// A planned split parts the range in two: a key of the range is in the lower part
/// or in the upper part, and not in both; and neither part is empty.
pub proof fn split_parts_the_range(plan: SplitPlan, info: ShardInfoView, key: [u8; 32])
    requires
        split_due(info),
        splits(plan, info),
        be_value(info.range_start@) <= be_value(info.range_end@),
    ensures
        be_value(info.range_start@) < be_value(plan.midpoint@) < be_value(info.range_end@),
        in_range(info, key) <==> (in_range(
            ShardInfoView { range_end: plan.midpoint, ..info },
            key,
        ) || in_range(ShardInfoView { range_start: plan.midpoint, ..info }, key)),
        !(in_range(ShardInfoView { range_end: plan.midpoint, ..info }, key) && in_range(
            ShardInfoView { range_start: plan.midpoint, ..info },
            key,
        )),
{
}

/// After a split, the new shard holds the deltas of the upper half, in order and
/// numbered from one, and the shard that was split holds what it held. Where the
/// backend keeps timestamps, each delta has that of the delta it was.
pub proof fn split_keeps_every_delta(
    shards: Map<ShardId, ShardModel>,
    plan: SplitPlan,
    stamps: Seq<TimestampView>,
    i: int,
)
    requires
        shards.contains_key(plan.original_shard),
        plan.new_shard != plan.original_shard,
        total_cost(split_requests(shards, plan)) <= u64::MAX,
        stamps.len() == split_requests(shards, plan).len(),
    ensures
        ({
            let done = split_done(shards, plan, stamps);
            let source = shards[plan.original_shard].deltas;
            let moved = upper_half(source, plan.midpoint);
            &&& done[plan.original_shard].deltas == source
            &&& done[plan.new_shard].deltas.len() == moved.len()
            &&& 0 <= i < moved.len() ==> ({
                let d = done[plan.new_shard].deltas[i];
                &&& d.header.sequence == i + 1
                &&& d.header.hashed_key == moved[i].header.hashed_key
                &&& d.header.operation == moved[i].header.operation
                &&& d.header.chunk_refs == moved[i].header.chunk_refs
                &&& d.payload.ciphertext == moved[i].payload.ciphertext
                &&& stamped_as_asked(split_requests(shards, plan), stamps)
                    ==> d.header.timestamp == moved[i].header.timestamp
            })
        }),
{
    let created = split_created(shards, plan);
    let reqs = split_requests(shards, plan);
    let n = reqs.len();
    lemma_total_cost_least(reqs);
    lemma_refilled_frame(created, reqs, stamps, plan.new_shard);
    if 0 <= i < n {
        lemma_refilled_delta(created, reqs, stamps, plan.new_shard, i);
    }
}

/// The `i`-th append to an empty shard is its `i`-th delta.
pub proof fn lemma_refilled_delta(
    shards: Map<ShardId, ShardModel>,
    reqs: Seq<AppendView>,
    stamps: Seq<TimestampView>,
    target: ShardId,
    i: int,
)
    requires
        shards.contains_key(target),
        shards[target].deltas.len() == 0,
        shards[target].info.tip == 0,
        stamps.len() == reqs.len(),
        shard_has_room_for(shards[target], reqs),
        forall|j: int| 0 <= j < reqs.len() ==> (#[trigger] reqs[j]).shard_id == target,
        0 <= i < reqs.len(),
    ensures
        refilled(shards, reqs, stamps)[target].deltas[i] == requested_delta(
            reqs[i],
            (i + 1) as u64,
            stamps[i],
        ),
    decreases reqs.len(),
{
    let r = reqs.drop_last();
    let t = stamps.drop_last();
    lemma_refilled_frame(shards, r, t, target);
    assert(reqs.last().shard_id == target);
    assert(forall|j: int| 0 <= j < r.len() ==> (#[trigger] r[j]) == reqs[j]);
    if i < reqs.len() - 1 {
        lemma_refilled_delta(shards, r, t, target, i);
    }
}

} // verus!
