//! The pipelined committer: several rounds of intents in flight at once.
//!
//! A round is one batch handed to the replicated log and not applied yet. The
//! driver asks for the next step, performs it and reports back; submitting and
//! awaiting rounds is its part, deciding is this module's.

use std::collections::VecDeque;

use vstd::prelude::*;

use crate::bytes::{be_bytes, lemma_be_bytes_value, radix};
use crate::bytes::copy_bytes;
use crate::command::{inline_views, item_views, tenant_of, DraftView, ItemView};
use crate::command::{
    copy_new_chunks, to_raw_keys, IncorporateItem, InlinePayload,
};
use crate::delta::op_code;
use crate::delta::op_to_u8;
use crate::error::log_error_text;
use crate::error::LogError;
use crate::ids::{uuid_to_bytes, OrgId};
use crate::intent::{ascending, intent_views, IntentView};
use crate::intent::{IntentError, PerspectiveSeq, WriteIntent};
use crate::intent_committer::pieces;
use crate::intent_committer::{joined, pieces_cover_the_list};
use crate::intent_committer::DRAIN_BATCH_CAP;
use crate::ordered_map::{OrderedKey, OrderedMap};
use crate::settings::{number_or, text_of};
use crate::settings::usize_or;

verus! {

/// Rounds in flight by default.
pub const DEFAULT_PIPELINE_DEPTH: usize = 2;

/// Most rounds in flight.
pub const MAX_PIPELINE_DEPTH: usize = 8;

/// Drains with a growing backlog before a warning.
pub const BACKLOG_TREND_WINDOW: usize = 10;

/// Milliseconds between two warnings.
pub const BACKLOG_WARN_INTERVAL_MS: u64 = 60_000;

/// The pipeline depth that a setting calls for.
pub open spec fn depth_of(v: Option<Seq<char>>) -> nat {
    let n = number_or(v, usize::MAX as nat, DEFAULT_PIPELINE_DEPTH as nat);
    if n < MAX_PIPELINE_DEPTH {
        n
    } else {
        MAX_PIPELINE_DEPTH as nat
    }
}

/// Reads the pipeline depth from the value of its variable: zero stands for the
/// serial drain, and no depth is past the largest one.
pub fn pipeline_depth_from_env(value: Option<&str>) -> (r: usize)
    ensures
        r == depth_of(text_of(value)),
        r <= MAX_PIPELINE_DEPTH,
        value is None ==> r == DEFAULT_PIPELINE_DEPTH,
{
    let n: usize = usize_or(value, DEFAULT_PIPELINE_DEPTH);
    if n < MAX_PIPELINE_DEPTH {
        n
    } else {
        MAX_PIPELINE_DEPTH
    }
}

/// The item that an intent is incorporated as.
pub open spec fn intent_item(i: IntentView) -> ItemView {
    ItemView {
        draft: DraftView {
            tenant: i.append.delta.tenant_id,
            operation: op_code(i.append.delta.operation),
            hashed_key: i.append.delta.hashed_key,
            chunk_refs: i.append.delta.chunk_refs,
            payload: i.append.delta.payload,
            has_inline_data: i.append.delta.has_inline_data,
            timestamp: None,
        },
        new_chunks: i.append.new_chunks,
        seq: i.seq.0,
        inline_payloads: i.append.inline_payloads,
    }
}

/// The bytes of a UUID stand for the UUID.
pub proof fn lemma_tenant_bytes(x: u128, b: [u8; 16])
    requires
        b@ == be_bytes(x as nat, 16),
    ensures
        tenant_of(b) == OrgId(x),
{
    assert(radix(16) == 0x1_0000_0000_0000_0000_0000_0000_0000_0000) by {
        reveal_with_fuel(radix, 17);
    }
    lemma_be_bytes_value(x as nat, 16);
}

/// Converts an intent into the item it is incorporated as.
pub fn intent_to_item(intent: &WriteIntent) -> (r: IncorporateItem)
    ensures
        r@ == intent_item(intent@),
{
    let mut inline: Vec<InlinePayload> = Vec::new();
    let mut i: usize = 0;
    while i < intent.append.inline_payloads.len()
        invariant
            i <= intent.append.inline_payloads@.len(),
            inline@.len() == i,
            forall|j: int|
                0 <= j < i ==> (#[trigger] inline@[j])@ == intent@.append.inline_payloads[j],
        decreases intent.append.inline_payloads@.len() - i,
    {
        let p = &intent.append.inline_payloads[i];
        inline.push(InlinePayload { chunk_id: p.0.0, payload: copy_bytes(&p.1) });
        assert(inline@[i as int]@ =~= intent@.append.inline_payloads[i as int]);
        i = i + 1;
    }
    assert(inline_views(inline@) =~= intent@.append.inline_payloads);
    let tenant = uuid_to_bytes(intent.append.delta.tenant_id.0);
    proof {
        lemma_tenant_bytes(intent.append.delta.tenant_id.0, tenant);
    }
    let item = IncorporateItem {
        tenant_id_bytes: tenant,
        operation: op_to_u8(intent.append.delta.operation),
        hashed_key: intent.append.delta.hashed_key,
        chunk_refs: to_raw_keys(&intent.append.delta.chunk_refs),
        payload: copy_bytes(&intent.append.delta.payload),
        has_inline_data: intent.append.delta.has_inline_data,
        new_chunks: copy_new_chunks(&intent.append.new_chunks),
        perspective_seq: intent.perspective_seq.0,
        inline_payloads: inline,
    };
    assert(item@ =~= intent_item(intent@));
    item
}

/// The items of a list of intents.
pub open spec fn intent_items(s: Seq<IntentView>) -> Seq<ItemView> {
    Seq::new(s.len(), |i: int| intent_item(s[i]))
}

/// Converts a batch of intents.
pub fn intents_to_items(intents: &[WriteIntent]) -> (r: Vec<IncorporateItem>)
    ensures
        item_views(r@) == intent_items(intent_views(intents@)),
{
    let mut out: Vec<IncorporateItem> = Vec::new();
    let mut i: usize = 0;
    while i < intents.len()
        invariant
            i <= intents@.len(),
            out@.len() == i,
            forall|j: int| 0 <= j < i ==> (#[trigger] out@[j])@ == intent_item(intents@[j]@),
        decreases intents@.len() - i,
    {
        out.push(intent_to_item(&intents[i]));
        i = i + 1;
    }
    assert(item_views(out@) =~= intent_items(intent_views(intents@)));
    out
}

/// Detector of a strictly growing backlog.
pub struct BacklogTrend {
    window: VecDeque<usize>,
    cap: usize,
}

/// Observations after one more: growth is kept, anything else starts over.
pub open spec fn trend_observed(w: Seq<usize>, backlog: usize) -> Seq<usize> {
    if w.len() > 0 && backlog <= w.last() {
        seq![backlog]
    } else {
        w.push(backlog)
    }
}

/// Observations that are strictly growing.
pub open spec fn growing(w: Seq<usize>) -> bool {
    forall|i: int, j: int| 0 <= i < j < w.len() ==> (#[trigger] w[i]) < (#[trigger] w[j])
}

impl BacklogTrend {
    /// Observations since the last one that did not grow, or the last signal.
    pub closed spec fn observations(&self) -> Seq<usize> {
        self.window@
    }

    /// Observations that a signal takes.
    pub closed spec fn cap(&self) -> usize {
        self.cap
    }

    /// A detector that signals after `cap` growing observations.
    pub fn new(cap: usize) -> (r: Self)
        ensures
            r.observations() == Seq::<usize>::empty(),
            r.cap() == cap,
    {
        BacklogTrend { window: VecDeque::new(), cap }
    }

    /// Records an observation; signals, and starts over, once the last `cap`
    /// observations are strictly growing.
    pub fn push(&mut self, backlog: usize) -> (r: bool)
        ensures
            final(self).cap() == old(self).cap(),
            ({
                let w = trend_observed(old(self).observations(), backlog);
                &&& r == (w.len() >= old(self).cap())
                &&& final(self).observations() == (if r {
                    Seq::<usize>::empty()
                } else {
                    w
                })
            }),
    {
        let n: usize = self.window.len();
        if n > 0 {
            let last: usize = self.window[n - 1];
            if backlog <= last {
                self.window.clear();
            }
        }
        self.window.push_back(backlog);
        assert(self.window@ =~= trend_observed(old(self).observations(), backlog));
        if self.window.len() >= self.cap {
            self.window.clear();
            return true;
        }
        false
    }
}

/// Law: what a detector has observed since it last started over is strictly
/// growing, so a signal means growth over its whole window.
pub proof fn observations_are_growing(w: Seq<usize>, backlog: usize)
    requires
        growing(w),
    ensures
        growing(trend_observed(w, backlog)),
        trend_observed(w, backlog).last() == backlog,
{
    let v = trend_observed(w, backlog);
    assert forall|i: int, j: int| 0 <= i < j < v.len() implies (#[trigger] v[i]) < (
    #[trigger] v[j]) by {
        if j == w.len() {
            assert(v[i] == w[i]);
            if i < w.len() - 1 {
                assert(w[i] < w[w.len() - 1]);
            }
        }
    }
}

/// What one look at the backlog calls for.
pub struct BacklogReading {
    /// Pending intents.
    pub backlog: i64,
    /// Age of the oldest pending intent in milliseconds, at most the largest
    /// 32-bit number.
    pub lag_ms: u32,
    /// Whether the backlog has been growing.
    pub growth: bool,
    /// Whether to warn now.
    pub warn: bool,
}

/// Whether a backlog completes a window of growth. One of at most one batch does not.
pub open spec fn backlog_grew(trend: Seq<usize>, backlog: usize) -> bool {
    backlog > DRAIN_BATCH_CAP && trend_observed(trend, backlog).len() >= BACKLOG_TREND_WINDOW
}

/// The observations after a backlog: a small one and a signal start over.
pub open spec fn backlog_trend(trend: Seq<usize>, backlog: usize) -> Seq<usize> {
    if backlog <= DRAIN_BATCH_CAP || backlog_grew(trend, backlog) {
        Seq::empty()
    } else {
        trend_observed(trend, backlog)
    }
}

/// The lowest physical time of a list of intents.
pub open spec fn oldest_ms(s: Seq<IntentView>) -> Option<u64>
    decreases s.len(),
{
    if s.len() == 0 {
        None
    } else {
        match oldest_ms(s.drop_last()) {
            Some(m) => if s.last().seq.0.physical_ms < m {
                Some(s.last().seq.0.physical_ms)
            } else {
                Some(m)
            },
            None => Some(s.last().seq.0.physical_ms),
        }
    }
}

/// Age of the oldest intent, in the range of the gauge.
pub open spec fn lag_of(s: Seq<IntentView>, now_ms: u64) -> u32 {
    match oldest_ms(s) {
        Some(m) => if now_ms <= m {
            0
        } else if now_ms - m > u32::MAX {
            u32::MAX
        } else {
            (now_ms - m) as u32
        },
        None => 0,
    }
}

/// A round in flight: the orders that ride on it.
pub struct Round {
    /// The orders.
    pub seqs: Vec<PerspectiveSeq>,
}

/// Orders of a list of intents.
pub open spec fn seqs_of(s: Seq<IntentView>) -> Seq<PerspectiveSeq> {
    Seq::new(s.len(), |i: int| s[i].seq)
}

/// State of the pipelined committer.
pub struct PipelinedCommitter {
    depth: usize,
    in_flight: VecDeque<Round>,
    in_flight_seqs: OrderedMap<PerspectiveSeq, ()>,
    trend: BacklogTrend,
}

/// What the pipelined committer holds.
#[verifier::ext_equal]
pub struct PipelineView {
    pub depth: usize,
    pub rounds: Seq<Seq<PerspectiveSeq>>,
    pub seqs: Set<PerspectiveSeq>,
    pub trend: Seq<usize>,
}

/// Orders taken out of a set.
pub open spec fn taken_out(s: Set<PerspectiveSeq>, gone: Seq<PerspectiveSeq>) -> Set<
    PerspectiveSeq,
> {
    s.difference(gone.to_set())
}

/// Orders put into a set.
pub open spec fn put_in(s: Set<PerspectiveSeq>, new: Seq<PerspectiveSeq>) -> Set<PerspectiveSeq> {
    s.union(new.to_set())
}

/// Intents that are not in flight, in order.
pub open spec fn eligible(s: Seq<IntentView>, in_flight: Set<PerspectiveSeq>) -> Seq<IntentView>
    decreases s.len(),
{
    if s.len() == 0 {
        s
    } else {
        let front = eligible(s.drop_last(), in_flight);
        if in_flight.contains(s.last().seq) {
            front
        } else {
            front.push(s.last())
        }
    }
}

/// The oldest round is done: it leaves, and its orders may be submitted again.
pub open spec fn round_finished(p: PipelineView) -> PipelineView {
    if p.rounds.len() == 0 {
        p
    } else {
        PipelineView {
            rounds: p.rounds.skip(1),
            seqs: taken_out(p.seqs, p.rounds[0]),
            ..p
        }
    }
}

/// A new round is in flight.
pub open spec fn round_started(p: PipelineView, seqs: Seq<PerspectiveSeq>) -> PipelineView {
    PipelineView { rounds: p.rounds.push(seqs), seqs: put_in(p.seqs, seqs), ..p }
}

/// One drain in progress: the batches to submit, and how far it got.
pub struct DrainTick {
    batches: Vec<Vec<WriteIntent>>,
    next: usize,
    submitted: usize,
}

/// What batches hold.
pub open spec fn batch_views(s: Seq<Vec<WriteIntent>>) -> Seq<Seq<IntentView>> {
    Seq::new(s.len(), |i: int| intent_views(s[i]@))
}

impl DrainTick {
    /// The batches of the drain.
    pub closed spec fn batches(&self) -> Seq<Seq<IntentView>> {
        batch_views(self.batches@)
    }

    /// How many batches were submitted.
    pub closed spec fn position(&self) -> int {
        self.next as int
    }

    /// The drain is in order: the count of submitted intents is that of the
    /// batches submitted.
    pub closed spec fn wf(&self) -> bool {
        &&& self.next <= self.batches@.len()
        &&& self.submitted == joined(batch_views(self.batches@).take(self.next as int)).len()
        &&& joined(batch_views(self.batches@)).len() <= usize::MAX
    }
}

/// What a drain does next.
pub enum DrainStep {
    /// Wait for the oldest round.
    AwaitOldest,
    /// Submit these items as one round.
    Submit(Vec<IncorporateItem>),
    /// Done; this many intents were submitted.
    Finished(usize),
}

/// Whether a drain that got so far with its batches takes this step next.
pub open spec fn steps(
    p: PipelineView,
    batches: Seq<Seq<IntentView>>,
    position: int,
    step: DrainStep,
) -> bool {
    match step {
        DrainStep::Finished(n) => position == batches.len() && n == joined(batches).len(),
        DrainStep::AwaitOldest => position < batches.len() && p.rounds.len() >= p.depth,
        DrainStep::Submit(items) => position < batches.len() && p.rounds.len() < p.depth
            && item_views(items@) == intent_items(batches[position]),
    }
}

/// Whether to warn of a growing backlog, so long after the last warning.
pub open spec fn warning_due(growth: bool, since_last_ms: Option<u64>) -> bool {
    growth && match since_last_ms {
        Some(t) => t >= BACKLOG_WARN_INTERVAL_MS,
        None => true,
    }
}

impl PipelinedCommitter {
    /// What the committer holds.
    pub closed spec fn view(&self) -> PipelineView {
        PipelineView {
            depth: self.depth,
            rounds: Seq::new(self.in_flight@.len(), |i: int| self.in_flight@[i].seqs@),
            seqs: self.in_flight_seqs@.dom(),
            trend: self.trend.observations(),
        }
    }

    /// The committer is in order.
    pub closed spec fn wf(&self) -> bool {
        self.in_flight_seqs.wf() && self.depth >= 1 && self.trend.cap() == BACKLOG_TREND_WINDOW
    }

    /// A committer with at most `depth` rounds in flight, and at least one.
    pub fn new(depth: usize) -> (r: Self)
        ensures
            r.wf(),
            r.view() == (PipelineView {
                depth: if depth < 1 {
                    1
                } else {
                    depth
                },
                rounds: Seq::empty(),
                seqs: Set::empty(),
                trend: Seq::empty(),
            }),
    {
        let r = PipelinedCommitter {
            depth: if depth < 1 {
                1
            } else {
                depth
            },
            in_flight: VecDeque::new(),
            in_flight_seqs: OrderedMap::new(),
            trend: BacklogTrend::new(BACKLOG_TREND_WINDOW),
        };
        assert(r.view().rounds =~= Seq::<Seq<PerspectiveSeq>>::empty());
        assert(r.view().seqs =~= Set::<PerspectiveSeq>::empty());
        r
    }

    /// Rounds in flight.
    pub fn in_flight_len(&self) -> (r: usize)
        ensures
            r == self.view().rounds.len(),
    {
        self.in_flight.len()
    }

    /// Forgets all rounds in flight.
    pub fn clear_in_flight(&mut self)
        requires
            old(self).wf(),
        ensures
            final(self).wf(),
            final(self).view() == (PipelineView {
                rounds: Seq::empty(),
                seqs: Set::empty(),
                ..old(self).view()
            }),
    {
        self.in_flight = VecDeque::new();
        self.in_flight_seqs = OrderedMap::new();
        assert(self.view().rounds =~= Seq::<Seq<PerspectiveSeq>>::empty());
        assert(self.view().seqs =~= Set::<PerspectiveSeq>::empty());
    }

    /// The oldest round is done, whether it succeeded or failed: its orders may
    /// be submitted again.
    pub fn finish_oldest(&mut self)
        requires
            old(self).wf(),
        ensures
            final(self).wf(),
            final(self).view() == round_finished(old(self).view()),
    {
        let ghost p = self.view();
        match self.in_flight.pop_front() {
            Some(round) => {
                assert(self.view().rounds =~= p.rounds.skip(1));
                let ghost s0 = self.in_flight_seqs@.dom();
                let ghost gone = round.seqs@;
                let mut i: usize = 0;
                assert(s0.difference(gone.take(0).to_set()) =~= s0);
                while i < round.seqs.len()
                    invariant
                        i <= round.seqs@.len(),
                        gone == round.seqs@,
                        self.in_flight_seqs.wf(),
                        self.depth == p.depth,
                        self.wf(),
                        self.trend.observations() == p.trend,
                        self.view().rounds == p.rounds.skip(1),
                        self.in_flight_seqs@.dom() == s0.difference(gone.take(i as int).to_set()),
                    decreases round.seqs@.len() - i,
                {
                    let ghost d0 = self.in_flight_seqs@.dom();
                    let _ = self.in_flight_seqs.remove(&round.seqs[i]);
                    proof {
                        let next = gone.take(i + 1);
                        assert(next =~= gone.take(i as int).push(gone[i as int]));
                        assert forall|q: PerspectiveSeq| next.to_set().contains(q)
                            <==> gone.take(i as int).to_set().contains(q) || q
                            == gone[i as int] by {
                            if next.contains(q) {
                                let j = choose|j: int| 0 <= j < next.len() && next[j] == q;
                                if j < i {
                                    assert(gone.take(i as int)[j] == q);
                                }
                            }
                            if gone.take(i as int).contains(q) {
                                let j = choose|j: int|
                                    0 <= j < gone.take(i as int).len() && gone.take(i as int)[j]
                                        == q;
                                assert(next[j] == q);
                            }
                            assert(next[i as int] == gone[i as int]);
                        }
                        assert(self.in_flight_seqs@.dom() =~= d0.remove(gone[i as int]));
                        assert(self.in_flight_seqs@.dom() =~= s0.difference(next.to_set()));
                    }
                    i = i + 1;
                }
                assert(gone.take(i as int) =~= gone);
                assert(self.view() =~= round_finished(p));
            },
            None => {
                assert(self.view() =~= p);
            },
        }
    }

    /// Starts a drain of the pending intents, given in ascending order: those in
    /// flight are left out, the others are cut into batches.
    pub fn begin_tick(&self, pending: Vec<WriteIntent>) -> (r: DrainTick)
        requires
            self.wf(),
        ensures
            r.wf(),
            r.position() == 0,
            r.batches() == pieces(
                eligible(intent_views(pending@), self.view().seqs),
                DRAIN_BATCH_CAP as int,
            ),
    {
        let ghost all = intent_views(pending@);
        let mut rest: Vec<WriteIntent> = Vec::new();
        let mut i: usize = 0;
        assert(all.take(0) =~= Seq::<IntentView>::empty());
        assert(intent_views(rest@) =~= Seq::<IntentView>::empty());
        while i < pending.len()
            invariant
                i <= pending@.len(),
                all == intent_views(pending@),
                self.wf(),
                intent_views(rest@) == eligible(all.take(i as int), self.view().seqs),
                rest@.len() <= i,
            decreases pending@.len() - i,
        {
            proof {
                let p = all.take(i + 1);
                assert(p.drop_last() =~= all.take(i as int));
                assert(p.last() == pending@[i as int]@);
            }
            if !self.in_flight_seqs.contains(&pending[i].perspective_seq) {
                let ghost r0 = rest@;
                rest.push(pending[i].clone());
                assert(intent_views(rest@) =~= intent_views(r0).push(pending@[i as int]@));
            }
            i = i + 1;
        }
        assert(all.take(i as int) =~= all);
        let ghost chosen = intent_views(rest@);
        let ghost cap = DRAIN_BATCH_CAP as int;
        let mut batches: Vec<Vec<WriteIntent>> = Vec::new();
        assert(chosen.len() <= usize::MAX) by {
            assert(chosen.len() == rest.len());
        }
        assert(batch_views(batches@) =~= Seq::<Seq<IntentView>>::empty());
        assert(Seq::<Seq<IntentView>>::empty() + pieces(chosen, cap) =~= pieces(chosen, cap));
        while rest.len() > 0
            invariant
                cap == DRAIN_BATCH_CAP,
                batch_views(batches@) + pieces(intent_views(rest@), cap) == pieces(chosen, cap),
            decreases rest@.len(),
        {
            let ghost cur = intent_views(rest@);
            let ghost done = batch_views(batches@);
            let n: usize = if rest.len() < DRAIN_BATCH_CAP {
                rest.len()
            } else {
                DRAIN_BATCH_CAP
            };
            let tail: Vec<WriteIntent> = rest.split_off(n);
            proof {
                assert(intent_views(rest@) =~= cur.take(n as int));
                assert(intent_views(tail@) =~= cur.skip(n as int));
                if cur.len() <= cap {
                    assert(cur.take(n as int) =~= cur);
                    assert(pieces(cur, cap) =~= seq![cur] + pieces(cur.skip(n as int), cap));
                }
            }
            let ghost b0 = batches@;
            batches.push(rest);
            proof {
                let head = cur.take(n as int);
                let more = pieces(cur.skip(n as int), cap);
                assert(batch_views(batches@) =~= done.push(head));
                assert(done + (seq![head] + more) =~= done.push(head) + more);
            }
            rest = tail;
        }
        proof {
            assert(batch_views(batches@) + Seq::<Seq<IntentView>>::empty() =~= batch_views(
                batches@,
            ));
            pieces_cover_the_list(chosen, cap);
            assert(batch_views(batches@).take(0) =~= Seq::<Seq<IntentView>>::empty());
        }
        DrainTick { batches, next: 0, submitted: 0 }
    }

    /// What the drain does next: wait while `depth` rounds are in flight, submit
    /// the next batch otherwise, until there is none left.
    pub fn next_step(&self, tick: &DrainTick) -> (r: DrainStep)
        requires
            self.wf(),
            tick.wf(),
        ensures
            steps(self.view(), tick.batches(), tick.position(), r),
    {
        if tick.next == tick.batches.len() {
            assert(batch_views(tick.batches@).take(tick.next as int) =~= batch_views(
                tick.batches@,
            ));
            return DrainStep::Finished(tick.submitted);
        }
        if self.in_flight.len() >= self.depth {
            return DrainStep::AwaitOldest;
        }
        DrainStep::Submit(intents_to_items(&tick.batches[tick.next]))
    }

    /// The batch that was to be submitted is in flight.
    pub fn round_submitted(&mut self, tick: &mut DrainTick)
        requires
            old(self).wf(),
            old(tick).wf(),
            old(tick).position() < old(tick).batches().len(),
        ensures
            final(self).wf(),
            final(tick).wf(),
            final(tick).batches() == old(tick).batches(),
            final(tick).position() == old(tick).position() + 1,
            final(self).view() == round_started(
                old(self).view(),
                seqs_of(old(tick).batches()[old(tick).position()]),
            ),
    {
        let ghost p = self.view();
        let ghost batch = tick.batches()[tick.position()];
        let ghost s0 = self.in_flight_seqs@.dom();
        let intents = &tick.batches[tick.next];
        assert(batch == intent_views(intents@));
        let mut seqs: Vec<PerspectiveSeq> = Vec::new();
        let mut i: usize = 0;
        assert(s0.union(seqs_of(batch).take(0).to_set()) =~= s0);
        while i < intents.len()
            invariant
                i <= intents@.len(),
                batch == intent_views(intents@),
                seqs@ == seqs_of(batch).take(i as int),
                self.wf(),
                self.view().depth == p.depth,
                self.view().rounds == p.rounds,
                self.view().trend == p.trend,
                self.in_flight_seqs@.dom() == s0.union(seqs_of(batch).take(i as int).to_set()),
            decreases intents@.len() - i,
        {
            let ghost d0 = self.in_flight_seqs@.dom();
            let s = intents[i].perspective_seq;
            seqs.push(s);
            self.in_flight_seqs.insert(s, ());
            proof {
                let before = seqs_of(batch).take(i as int);
                let next = seqs_of(batch).take(i + 1);
                assert(next =~= before.push(s));
                assert forall|q: PerspectiveSeq| next.to_set().contains(q)
                    <==> before.to_set().contains(q) || q == s by {
                    if next.contains(q) {
                        let j = choose|j: int| 0 <= j < next.len() && next[j] == q;
                        if j < i {
                            assert(before[j] == q);
                        }
                    }
                    if before.contains(q) {
                        let j = choose|j: int| 0 <= j < before.len() && before[j] == q;
                        assert(next[j] == q);
                    }
                    assert(next[i as int] == s);
                }
                assert(self.in_flight_seqs@.dom() =~= d0.insert(s));
                assert(self.in_flight_seqs@.dom() =~= s0.union(next.to_set()));
            }
            i = i + 1;
        }
        assert(seqs_of(batch).take(i as int) =~= seqs_of(batch));
        let n: usize = intents.len();
        self.in_flight.push_back(Round { seqs });
        assert(self.view().rounds =~= p.rounds.push(seqs_of(batch)));
        assert(self.view() =~= round_started(p, seqs_of(batch)));
        proof {
            let all = batch_views(tick.batches@);
            let k = tick.next as int;
            assert(all.take(k + 1).drop_last() =~= all.take(k));
            assert(all.take(k + 1).last() == batch);
            lemma_joined_prefix(all, k + 1);
        }
        assert(tick.next < tick.batches.len());
        tick.submitted = tick.submitted + n;
        tick.next = tick.next + 1;
    }

    /// Records the backlog of a drain, and says whether it has been growing and
    /// whether to warn. A backlog of at most one batch is no backlog.
    pub fn observe_backlog(
        &mut self,
        pending: &[WriteIntent],
        now_ms: u64,
        since_last_warning_ms: Option<u64>,
    ) -> (r: BacklogReading)
        requires
            old(self).wf(),
        ensures
            final(self).wf(),
            r.backlog == (if pending@.len() <= i64::MAX {
                pending@.len() as int
            } else {
                i64::MAX as int
            }),
            r.lag_ms == lag_of(intent_views(pending@), now_ms),
            r.growth == backlog_grew(old(self).view().trend, pending@.len() as usize),
            r.warn == warning_due(r.growth, since_last_warning_ms),
            final(self).view() == (PipelineView {
                trend: backlog_trend(old(self).view().trend, pending@.len() as usize),
                ..old(self).view()
            }),
    {
        let ghost p = self.view();
        let ghost all = intent_views(pending@);
        let mut oldest: Option<u64> = None;
        let mut i: usize = 0;
        assert(all.take(0) =~= Seq::<IntentView>::empty());
        while i < pending.len()
            invariant
                i <= pending@.len(),
                all == intent_views(pending@),
                oldest == oldest_ms(all.take(i as int)),
            decreases pending@.len() - i,
        {
            proof {
                let t = all.take(i + 1);
                assert(t.drop_last() =~= all.take(i as int));
                assert(t.last() == pending@[i as int]@);
            }
            let ms: u64 = pending[i].perspective_seq.0.physical_ms;
            oldest = match oldest {
                Some(m) => if ms < m {
                    Some(ms)
                } else {
                    Some(m)
                },
                None => Some(ms),
            };
            i = i + 1;
        }
        assert(all.take(i as int) =~= all);
        let lag_ms: u32 = match oldest {
            Some(m) => if now_ms <= m {
                0
            } else if now_ms - m > u32::MAX as u64 {
                u32::MAX
            } else {
                (now_ms - m) as u32
            },
            None => 0,
        };
        let backlog: usize = pending.len();
        let gauge: i64 = if backlog as u64 <= i64::MAX as u64 {
            backlog as i64
        } else {
            i64::MAX
        };
        let mut growth: bool = false;
        let mut warn: bool = false;
        if backlog > DRAIN_BATCH_CAP {
            growth = self.trend.push(backlog);
            if growth {
                warn = match since_last_warning_ms {
                    Some(t) => t >= BACKLOG_WARN_INTERVAL_MS,
                    None => true,
                };
            }
        } else {
            self.trend = BacklogTrend::new(BACKLOG_TREND_WINDOW);
        }
        assert(self.view().rounds =~= p.rounds);
        BacklogReading { backlog: gauge, lag_ms, growth, warn }
    }
}

/// The error of a drain whose submission failed.
pub fn submit_failed(e: &LogError) -> (r: IntentError)
    ensures
        r matches IntentError::Incorporate(m) && m@ == log_error_text(*e),
{
    IntentError::Incorporate(e.message())
}

/// A prefix of joined lists is no longer than all of them.
proof fn lemma_joined_prefix<T>(s: Seq<Seq<T>>, k: int)
    requires
        0 <= k <= s.len(),
    ensures
        joined(s.take(k)).len() <= joined(s).len(),
    decreases s.len(),
{
    if k == s.len() {
        assert(s.take(k) =~= s);
    } else {
        lemma_joined_prefix(s.drop_last(), k);
        assert(s.drop_last().take(k) =~= s.take(k));
    }
}

/// Law: nothing that is in flight is submitted again, and everything else is.
pub proof fn in_flight_is_not_resubmitted(
    s: Seq<IntentView>,
    in_flight: Set<PerspectiveSeq>,
    q: IntentView,
)
    ensures
        eligible(s, in_flight).contains(q) <==> s.contains(q) && !in_flight.contains(q.seq),
    decreases s.len(),
{
    if s.len() > 0 {
        let front = s.drop_last();
        let e = eligible(front, in_flight);
        let all = eligible(s, in_flight);
        in_flight_is_not_resubmitted(front, in_flight, q);
        if all.contains(q) {
            let i = choose|i: int| 0 <= i < all.len() && all[i] == q;
            if i < e.len() {
                assert(e[i] == q);
                let j = choose|j: int| 0 <= j < front.len() && front[j] == q;
                assert(s[j] == q);
            } else {
                assert(s[s.len() - 1] == q);
            }
        }
        if s.contains(q) && !in_flight.contains(q.seq) {
            let j = choose|j: int| 0 <= j < s.len() && s[j] == q;
            if j < front.len() {
                assert(front[j] == q);
                let i = choose|i: int| 0 <= i < e.len() && e[i] == q;
                assert(all[i] == q);
            } else {
                assert(all[all.len() - 1] == q);
            }
        }
    }
}

/// Law: a drain keeps the ascending order of what it submits.
pub proof fn eligible_stays_ascending(s: Seq<IntentView>, in_flight: Set<PerspectiveSeq>)
    requires
        ascending(s),
    ensures
        ascending(eligible(s, in_flight)),
        forall|i: int|
            0 <= i < eligible(s, in_flight).len() ==> s.contains(
                #[trigger] eligible(s, in_flight)[i],
            ),
    decreases s.len(),
{
    if s.len() > 0 {
        let front = s.drop_last();
        assert(ascending(front));
        eligible_stays_ascending(front, in_flight);
        let e = eligible(front, in_flight);
        let all = eligible(s, in_flight);
        assert forall|i: int| 0 <= i < all.len() implies s.contains(#[trigger] all[i]) by {
            if i < e.len() {
                assert(front.contains(e[i]));
                let j = choose|j: int| 0 <= j < front.len() && front[j] == e[i];
                assert(s[j] == all[i]);
            } else {
                assert(s[s.len() - 1] == all[i]);
            }
        }
        assert forall|i: int, j: int| 0 <= i < j < all.len() implies (
        #[trigger] all[i]).seq.rank() < (#[trigger] all[j]).seq.rank() by {
            if j == e.len() {
                assert(front.contains(e[i]));
                let k = choose|k: int| 0 <= k < front.len() && front[k] == e[i];
                assert(s[k] == all[i]);
                assert(s[k].seq.rank() < s[s.len() - 1].seq.rank());
            }
        }
    }
}

/// Law: once a round is done, its orders may be submitted again; the others stay
/// in flight.
pub proof fn finished_round_frees_its_orders(p: PipelineView, q: PerspectiveSeq)
    requires
        p.rounds.len() > 0,
    ensures
        round_finished(p).seqs.contains(q) <==> p.seqs.contains(q) && !p.rounds[0].contains(q),
        round_finished(p).rounds.len() == p.rounds.len() - 1,
{
}

/// Law: there are never more rounds in flight than the depth. A drain submits only
/// where there are fewer, and a round that is done leaves.
pub proof fn depth_is_never_exceeded(p: PipelineView, seqs: Seq<PerspectiveSeq>)
    requires
        p.rounds.len() <= p.depth,
    ensures
        p.rounds.len() < p.depth ==> round_started(p, seqs).rounds.len() <= p.depth,
        round_finished(p).rounds.len() <= p.depth,
        p.rounds.len() > 0 ==> round_finished(p).rounds.len() < p.depth,
{
}

} // verus!
