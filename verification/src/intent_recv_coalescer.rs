//! Recording intents that arrive from other nodes, several requests at once.

use vstd::prelude::*;

use crate::intent::{
    intent_error_text, intent_views, put_all_table, put_in_part, store_fault, IntentTable,
    IntentView,
};
use crate::intent::{copy_intents, put_batch, IntentError, IntentStore, PutOutcome, WriteIntent};
use crate::intent_committer::joined;
use crate::settings::{positive_or, text_of};
use crate::settings::{positive_u64_or, positive_usize_or};

verus! {

/// Most intents of one flush: the value of the variable, or 128.
pub fn recv_batch_max_from_env(value: Option<&str>) -> (r: usize)
    ensures
        r == positive_or(text_of(value), usize::MAX as nat, 128),
        r >= 1,
{
    positive_usize_or(value, 128)
}

/// Microseconds to wait for a flush to fill: the value of the variable, or a
/// hundred.
pub fn recv_batch_timeout_from_env(value: Option<&str>) -> (r: u64)
    ensures
        r == positive_or(text_of(value), u64::MAX as nat, 100),
        r >= 1,
{
    positive_u64_or(value, 100)
}

/// How many requests may wait in the channel.
pub open spec fn capacity_for(cap_max: usize) -> int {
    if 4 * cap_max > usize::MAX {
        usize::MAX as int
    } else if 4 * cap_max < 64 {
        64
    } else {
        4 * cap_max
    }
}

/// How many requests may wait in the channel: four flushes, and at least 64.
pub fn channel_capacity(cap_max: usize) -> (r: usize)
    ensures
        r == capacity_for(cap_max),
{
    if cap_max > usize::MAX / 4 {
        usize::MAX
    } else if cap_max * 4 < 64 {
        64
    } else {
        cap_max * 4
    }
}

/// Whether a flush may still grow.
pub open spec fn may_collect(
    total_intents: usize,
    cap_max: usize,
    elapsed_us: u64,
    cap_timeout_us: u64,
) -> bool {
    total_intents < cap_max && elapsed_us < cap_timeout_us
}

/// Whether to wait for another request: there is room for more intents, and the
/// time since the first request is not up. A request is never split, so a flush
/// may end up with more intents than `cap_max`.
pub fn keep_collecting(
    total_intents: usize,
    cap_max: usize,
    elapsed_us: u64,
    cap_timeout_us: u64,
) -> (r: bool)
    ensures
        r == may_collect(total_intents, cap_max, elapsed_us, cap_timeout_us),
{
    total_intents < cap_max && elapsed_us < cap_timeout_us
}

/// What requests hold.
pub open spec fn request_views(s: Seq<Vec<WriteIntent>>) -> Seq<Seq<IntentView>> {
    Seq::new(s.len(), |i: int| intent_views(s[i]@))
}

/// All intents of a list of requests, in order.
fn flatten(requests: &Vec<Vec<WriteIntent>>) -> (r: Vec<WriteIntent>)
    ensures
        intent_views(r@) == joined(request_views(requests@)),
{
    let ghost all = request_views(requests@);
    let mut out: Vec<WriteIntent> = Vec::new();
    let mut i: usize = 0;
    assert(all.take(0) =~= Seq::<Seq<IntentView>>::empty());
    assert(intent_views(out@) =~= Seq::<IntentView>::empty());
    while i < requests.len()
        invariant
            i <= requests@.len(),
            all == request_views(requests@),
            intent_views(out@) == joined(all.take(i as int)),
        decreases requests@.len() - i,
    {
        proof {
            let t = all.take(i + 1);
            assert(t.drop_last() =~= all.take(i as int));
            assert(t.last() == intent_views(requests@[i as int]@));
        }
        let ghost o0 = intent_views(out@);
        let mut copy = copy_intents(&requests[i]);
        let ghost c0 = intent_views(copy@);
        let ghost raw = out@;
        let ghost craw = copy@;
        out.append(&mut copy);
        proof {
            assert(out@ == raw + craw);
            assert(intent_views(out@) =~= o0 + c0);
        }
        i = i + 1;
    }
    assert(all.take(i as int) =~= all);
    out
}

/// A list of `n` acknowledgements.
pub open spec fn all_true(n: nat) -> Seq<bool> {
    Seq::new(n, |i: int| true)
}

/// Builds a list of `n` equal answers.
fn answers(n: usize, value: bool) -> (r: Vec<bool>)
    ensures
        r@ == Seq::new(n as nat, |i: int| value),
{
    let mut out: Vec<bool> = Vec::new();
    let mut i: usize = 0;
    while i < n
        invariant
            i <= n,
            out@ == Seq::new(i as nat, |j: int| value),
        decreases n - i,
    {
        out.push(value);
        i = i + 1;
        assert(out@ =~= Seq::new(i as nat, |j: int| value));
    }
    out
}

/// The answer to a request: one acknowledgement for each of its intents, or the
/// error of the flush.
pub open spec fn answered(
    reply: Result<Vec<bool>, IntentError>,
    request: Seq<IntentView>,
    failure: Option<IntentError>,
) -> bool {
    match failure {
        None => reply matches Ok(acks) && acks@ == all_true(request.len()),
        Some(e) => reply matches Err(IntentError::Fjall(m)) && m@ == intent_error_text(e),
    }
}

/// What a flush did, given its error: without one, all intents are recorded, in
/// order, and with one the first of them; and every request has its answer.
pub open spec fn flushed(
    before: IntentTable,
    after: IntentTable,
    requests: Seq<Seq<IntentView>>,
    replies: Seq<Result<Vec<bool>, IntentError>>,
    failure: Option<IntentError>,
) -> bool {
    &&& replies.len() == requests.len()
    &&& failure is None ==> after == put_all_table(before, joined(requests))
    &&& failure matches Some(e) ==> store_fault(e) && put_in_part(before, joined(requests), after)
    &&& forall|i: int|
        0 <= i < replies.len() ==> answered(#[trigger] replies[i], requests[i], failure)
}

/// The error of a flush.
spec fn failure_of(outcome: Result<Vec<PutOutcome>, IntentError>) -> Option<IntentError> {
    match outcome {
        Ok(_) => None,
        Err(e) => Some(e),
    }
}

/// Records the intents of all waiting requests at once, and answers each
/// request. A duplicate is durable too, so it is acknowledged. A failure is
/// reported to every request.
pub fn flush_pending<S: IntentStore>(store: &mut S, requests: &Vec<Vec<WriteIntent>>) -> (r: Vec<
    Result<Vec<bool>, IntentError>,
>)
    requires
        old(store).ready(),
    ensures
        final(store).ready(),
        r@.len() == requests@.len(),
        exists|failure: Option<IntentError>| #[trigger]
            flushed(
                old(store).table(),
                final(store).table(),
                request_views(requests@),
                r@,
                failure,
            ) && (old(store).reliable() ==> failure is None),
{
    let all = flatten(requests);
    let outcome = put_batch(store, all);
    let mut replies: Vec<Result<Vec<bool>, IntentError>> = Vec::new();
    let ghost failure = failure_of(outcome);
    let mut i: usize = 0;
    while i < requests.len()
        invariant
            i <= requests@.len(),
            replies@.len() == i,
            failure == failure_of(outcome),
            forall|j: int|
                0 <= j < i ==> answered(
                    #[trigger] replies@[j],
                    request_views(requests@)[j],
                    failure,
                ),
        decreases requests@.len() - i,
    {
        let reply: Result<Vec<bool>, IntentError> = match &outcome {
            Ok(_) => Ok(answers(requests[i].len(), true)),
            Err(e) => Err(IntentError::Fjall(e.message())),
        };
        assert(answered(reply, request_views(requests@)[i as int], failure));
        replies.push(reply);
        i = i + 1;
    }
    assert(flushed(
        old(store).table(),
        store.table(),
        request_views(requests@),
        replies@,
        failure,
    ));
    replies
}

/// What a sender is told where its request was dropped without an answer: that
/// none of its intents is durable.
pub fn dropped_answer(n: usize) -> (r: Vec<bool>)
    ensures
        r@.len() == n,
        forall|i: int| 0 <= i < n ==> !#[trigger] r@[i],
{
    answers(n, false)
}

/// Law: a flush waits for more until it is full or its time is up, and not longer.
pub proof fn flush_waits_until_full_or_late(
    total_intents: usize,
    cap_max: usize,
    elapsed_us: u64,
    cap_timeout_us: u64,
)
    ensures
        total_intents >= cap_max ==> !may_collect(
            total_intents,
            cap_max,
            elapsed_us,
            cap_timeout_us,
        ),
        elapsed_us >= cap_timeout_us ==> !may_collect(
            total_intents,
            cap_max,
            elapsed_us,
            cap_timeout_us,
        ),
        total_intents < cap_max && elapsed_us < cap_timeout_us ==> may_collect(
            total_intents,
            cap_max,
            elapsed_us,
            cap_timeout_us,
        ),
{
}

/// Law: four full flushes fit into the channel, as far as it can be that long, and never
/// fewer than 64 requests; it is no longer than that.
pub proof fn channel_holds_four_flushes(cap_max: usize)
    ensures
        capacity_for(cap_max) >= 64,
        4 * cap_max <= usize::MAX ==> capacity_for(cap_max) >= 4 * cap_max,
        4 * cap_max > usize::MAX ==> capacity_for(cap_max) == usize::MAX,
        capacity_for(cap_max) == 64 || capacity_for(cap_max) <= 4 * cap_max,
{
}

} // verus!
