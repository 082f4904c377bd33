//! Write intents: the record that reaches a quorum before a writer is answered,
//! and the clock reading that fixes the order in which it is applied.

use vstd::prelude::*;
use vstd::string::*;

use crate::bytes::order_bytes;
use crate::bytes::{be_value, lemma_be_value_injective, KeyOrder};
use crate::ordered_map::{OrderedKey, OrderedMap};
use crate::text::{decimal, join2, join4};
use crate::text::decimal_text;
use crate::time::hlc_rank;
use crate::time::HybridLogicalClock;
use crate::traits::AppendChunkAndDeltaRequest;
use crate::traits::ChunkAppendView;

verus! {

/// Errors of an intent store.
#[derive(Debug, PartialEq, Eq)]
pub enum IntentError {
    /// The backing database failed; the cause as text.
    Fjall(String),
    /// A frame, key or format version could not be read.
    Codec(String),
    /// Recovery was handed too few replica views.
    InsufficientQuorum {
        /// Views gathered.
        have: usize,
        /// Views needed.
        need: usize,
    },
    /// Incorporating intents into the log failed; the cause as text.
    Incorporate(String),
}

/// The message of an intent error.
pub open spec fn intent_error_text(e: IntentError) -> Seq<char> {
    match e {
        IntentError::Fjall(m) => "intent fjall: "@ + m@,
        IntentError::Codec(m) => "intent codec: "@ + m@,
        IntentError::InsufficientQuorum { have, need } => "intent recovery gathered "@
            + decimal_text(have as nat) + " stores, needs a majority of "@ + decimal_text(
            need as nat,
        ),
        IntentError::Incorporate(m) => "intent incorporation into the log failed: "@ + m@,
    }
}

impl IntentError {
    /// The message of this error.
    pub fn message(&self) -> (r: String)
        ensures
            r@ == intent_error_text(*self),
    {
        match self {
            IntentError::Fjall(m) => join2("intent fjall: ", m.as_str()),
            IntentError::Codec(m) => join2("intent codec: ", m.as_str()),
            IntentError::InsufficientQuorum { have, need } => join4(
                "intent recovery gathered ",
                decimal(*have as u64).as_str(),
                " stores, needs a majority of ",
                decimal(*need as u64).as_str(),
            ),
            IntentError::Incorporate(m) => join2(
                "intent incorporation into the log failed: ",
                m.as_str(),
            ),
        }
    }
}

/// The order of a write, assigned where it enters the cluster.
#[derive(Clone, Copy, Debug, PartialEq, Eq, PartialOrd, Ord, Hash, Structural)]
pub struct PerspectiveSeq(pub HybridLogicalClock);

impl OrderedKey for PerspectiveSeq {
    open spec fn rank(self) -> int {
        hlc_rank(self.0)
    }

    proof fn rank_injective(a: Self, b: Self) {
        HybridLogicalClock::rank_injective(a.0, b.0);
    }

    fn before(&self, other: &Self) -> (r: bool) {
        self.0.before(&other.0)
    }
}

/// A key that a client keeps over retries.
pub type IdempotencyKey = [u8; 16];

impl OrderedKey for [u8; 16] {
    open spec fn rank(self) -> int {
        be_value(self@) as int
    }

    proof fn rank_injective(a: Self, b: Self) {
        lemma_be_value_injective(a@, b@);
        assert forall|i: int| 0 <= i < 16 implies a[i] == b[i] by {
            assert(a@[i] == b@[i]);
        }
        assert(a =~= b);
    }

    fn before(&self, other: &Self) -> (r: bool) {
        let a = self.as_slice();
        let b = other.as_slice();
        assert(self.rank() == be_value(a@) && other.rank() == be_value(b@));
        match order_bytes(a, b) {
            KeyOrder::Less => true,
            _ => false,
        }
    }
}

/// A write on its way into the log.
#[derive(Debug, PartialEq, Eq)]
pub struct WriteIntent {
    /// Its order.
    pub perspective_seq: PerspectiveSeq,
    /// The client's key; an intent without one is never taken for a duplicate.
    pub idempotency_key: Option<IdempotencyKey>,
    /// What to append.
    pub append: AppendChunkAndDeltaRequest,
}

/// What a [`WriteIntent`] holds.
#[verifier::ext_equal]
pub struct IntentView {
    pub seq: PerspectiveSeq,
    pub key: Option<[u8; 16]>,
    pub append: ChunkAppendView,
}

impl View for WriteIntent {
    type V = IntentView;

    open spec fn view(&self) -> IntentView {
        IntentView {
            seq: self.perspective_seq,
            key: self.idempotency_key,
            append: self.append@,
        }
    }
}

impl Clone for WriteIntent {
    fn clone(&self) -> (r: Self)
        ensures
            r@ == self@,
    {
        WriteIntent {
            perspective_seq: self.perspective_seq,
            idempotency_key: self.idempotency_key,
            append: self.append.clone(),
        }
    }
}

/// What a list of intents holds.
pub open spec fn intent_views(s: Seq<WriteIntent>) -> Seq<IntentView> {
    Seq::new(s.len(), |i: int| s[i]@)
}

/// A copy of a list of intents.
pub fn copy_intents(s: &[WriteIntent]) -> (r: Vec<WriteIntent>)
    ensures
        intent_views(r@) == intent_views(s@),
{
    let mut out: Vec<WriteIntent> = Vec::new();
    let mut i: usize = 0;
    while i < s.len()
        invariant
            i <= s@.len(),
            out@.len() == i,
            forall|j: int| 0 <= j < i ==> (#[trigger] out@[j])@ == s@[j]@,
        decreases s@.len() - i,
    {
        out.push(s[i].clone());
        i = i + 1;
    }
    assert(intent_views(out@) =~= intent_views(s@));
    out
}

/// Outcome of recording an intent.
#[derive(Clone, Copy, Debug, PartialEq, Eq, Structural)]
pub enum PutOutcome {
    /// Recorded at its own order.
    Recorded,
    /// The key was recorded before, at the order given.
    Duplicate(PerspectiveSeq),
}

/// What an intent store holds: intents by order, and the order that each client
/// key was first recorded at.
#[verifier::ext_equal]
pub struct IntentTable {
    pub by_seq: Map<PerspectiveSeq, IntentView>,
    pub by_key: Map<[u8; 16], PerspectiveSeq>,
}

/// A table without intents.
pub open spec fn empty_table() -> IntentTable {
    IntentTable { by_seq: Map::empty(), by_key: Map::empty() }
}

/// Every intent stands under its own order.
pub open spec fn table_wf(t: IntentTable) -> bool {
    &&& t.by_seq.dom().finite()
    &&& forall|s: PerspectiveSeq| #[trigger] t.by_seq.contains_key(s) ==> t.by_seq[s].seq == s
}

/// Whether an intent is a duplicate: its client key was recorded before.
pub open spec fn is_duplicate(t: IntentTable, i: IntentView) -> bool {
    i.key matches Some(k) && t.by_key.contains_key(k)
}

/// The table after recording an intent; a duplicate adds nothing.
pub open spec fn put_table(t: IntentTable, i: IntentView) -> IntentTable {
    if is_duplicate(t, i) {
        t
    } else {
        IntentTable {
            by_seq: t.by_seq.insert(i.seq, i),
            by_key: match i.key {
                Some(k) => t.by_key.insert(k, i.seq),
                None => t.by_key,
            },
        }
    }
}

/// The outcome of recording an intent.
pub open spec fn put_outcome(t: IntentTable, i: IntentView) -> PutOutcome {
    if is_duplicate(t, i) {
        PutOutcome::Duplicate(t.by_key[i.key->0])
    } else {
        PutOutcome::Recorded
    }
}

/// The table after recording a list of intents, in order.
pub open spec fn put_all_table(t: IntentTable, s: Seq<IntentView>) -> IntentTable
    decreases s.len(),
{
    if s.len() == 0 {
        t
    } else {
        put_table(put_all_table(t, s.drop_last()), s.last())
    }
}

/// The table with the intents that are to go taken out, and with them the client
/// keys that were recorded at an order that no intent has any more.
pub open spec fn without(t: IntentTable, gone: spec_fn(PerspectiveSeq) -> bool) -> IntentTable {
    let live = Map::new(
        |s: PerspectiveSeq| t.by_seq.contains_key(s) && !gone(s),
        |s: PerspectiveSeq| t.by_seq[s],
    );
    IntentTable {
        by_seq: live,
        by_key: Map::new(
            |k: [u8; 16]| t.by_key.contains_key(k) && live.contains_key(t.by_key[k]),
            |k: [u8; 16]| t.by_key[k],
        ),
    }
}

/// The table with every intent up to and including `up_to` taken out.
pub open spec fn pruned_table(t: IntentTable, up_to: PerspectiveSeq) -> IntentTable {
    without(t, |s: PerspectiveSeq| s.rank() <= up_to.rank())
}

/// The table with the intents of the given orders taken out.
pub open spec fn removed_table(t: IntentTable, seqs: Seq<PerspectiveSeq>) -> IntentTable {
    without(t, |s: PerspectiveSeq| seqs.contains(s))
}

/// A list of intents in strictly ascending order.
pub open spec fn ascending(s: Seq<IntentView>) -> bool {
    forall|i: int, j: int|
        0 <= i < j < s.len() ==> (#[trigger] s[i]).seq.rank() < (#[trigger] s[j]).seq.rank()
}

/// A list is what a table holds: ascending, and exactly the table's intents.
pub open spec fn lists(s: Seq<IntentView>, t: IntentTable) -> bool {
    &&& ascending(s)
    &&& forall|i: int|
        0 <= i < s.len() ==> t.by_seq.contains_key((#[trigger] s[i]).seq) && t.by_seq[s[i].seq]
            == s[i]
    &&& forall|q: PerspectiveSeq| #[trigger]
        t.by_seq.contains_key(q) ==> exists|i: int| 0 <= i < s.len() && (#[trigger] s[i]).seq == q
}

/// Law: a table has one list of its intents.
pub proof fn list_is_unique(a: Seq<IntentView>, b: Seq<IntentView>, t: IntentTable)
    requires
        lists(a, t),
        lists(b, t),
    ensures
        a == b,
    decreases a.len(),
{
    if a.len() == 0 {
        if b.len() > 0 {
            assert(t.by_seq.contains_key(b[0].seq));
        }
        assert(a =~= b);
    } else {
        let x = a.last();
        assert(t.by_seq.contains_key(a[a.len() - 1].seq));
        let j = choose|j: int| 0 <= j < b.len() && (#[trigger] b[j]).seq == x.seq;
        let y = b.last();
        assert(t.by_seq.contains_key(b[b.len() - 1].seq));
        let i = choose|i: int| 0 <= i < a.len() && (#[trigger] a[i]).seq == y.seq;
        assert(x.seq.rank() == y.seq.rank()) by {
            if i < a.len() - 1 {
                assert(a[i].seq.rank() < a[a.len() - 1].seq.rank());
            }
            if j < b.len() - 1 {
                assert(b[j].seq.rank() < b[b.len() - 1].seq.rank());
            }
        }
        PerspectiveSeq::rank_injective(x.seq, y.seq);
        let gone = |s: PerspectiveSeq| s == x.seq;
        let u = without(t, gone);
        lemma_list_drop_last(a, t);
        lemma_list_drop_last(b, t);
        list_is_unique(a.drop_last(), b.drop_last(), u);
        assert(a =~= a.drop_last().push(a.last()));
        assert(b =~= b.drop_last().push(b.last()));
    }
}

proof fn lemma_list_drop_last(a: Seq<IntentView>, t: IntentTable)
    requires
        lists(a, t),
        a.len() > 0,
    ensures
        lists(a.drop_last(), without(t, |s: PerspectiveSeq| s == a.last().seq)),
{
    let u = without(t, |s: PerspectiveSeq| s == a.last().seq);
    let b = a.drop_last();
    assert forall|i: int| 0 <= i < b.len() implies u.by_seq.contains_key((#[trigger] b[i]).seq)
        && u.by_seq[b[i].seq] == b[i] by {
        assert(b[i] == a[i]);
        assert(a[i].seq.rank() < a[a.len() - 1].seq.rank());
    }
    assert forall|q: PerspectiveSeq| #[trigger] u.by_seq.contains_key(q) implies exists|i: int|
        0 <= i < b.len() && (#[trigger] b[i]).seq == q by {
        assert(t.by_seq.contains_key(q));
        let i = choose|i: int| 0 <= i < a.len() && (#[trigger] a[i]).seq == q;
        assert(b[i].seq == q);
    }
}

/// Law: a client key is recorded once. After an intent with a new key, another one
/// with the same key adds nothing and is answered with the order of the first.
pub proof fn client_key_is_recorded_once(t: IntentTable, first: IntentView, again: IntentView)
    requires
        first.key is Some,
        !is_duplicate(t, first),
        again.key == first.key,
    ensures
        put_outcome(t, first) == PutOutcome::Recorded,
        put_outcome(put_table(t, first), again) == PutOutcome::Duplicate(first.seq),
        put_table(put_table(t, first), again) == put_table(t, first),
{
}

/// Law: an intent without a client key is recorded whatever the table holds.
pub proof fn keyless_intent_is_recorded(t: IntentTable, i: IntentView)
    requires
        i.key is None,
    ensures
        put_outcome(t, i) == PutOutcome::Recorded,
        put_table(t, i) == (IntentTable { by_seq: t.by_seq.insert(i.seq, i), by_key: t.by_key }),
{
}

/// Law: pruning frees client keys. Once the intent that a key was recorded with is
/// pruned, the key is recorded anew.
pub proof fn pruned_key_is_free(
    t: IntentTable,
    first: IntentView,
    again: IntentView,
    up_to: PerspectiveSeq,
)
    requires
        first.key is Some,
        !is_duplicate(t, first),
        again.key == first.key,
        first.seq.rank() <= up_to.rank(),
    ensures
        put_outcome(pruned_table(put_table(t, first), up_to), again) == PutOutcome::Recorded,
{
}

/// Whether an error is one of a store: of its medium or of the encoding.
pub open spec fn store_fault(e: IntentError) -> bool {
    e is Fjall || e is Codec
}

/// A store of intents of one shard.
pub trait IntentStore {
    /// What the store holds.
    spec fn table(&self) -> IntentTable;

    /// The store is in order.
    spec fn ready(&self) -> bool;

    /// The store never fails, as one in memory does not.
    spec fn reliable(&self) -> bool;

    /// Records an intent; a duplicate is answered with the order that its key
    /// was first recorded at, and adds nothing. A failure leaves the intent
    /// recorded or not, and nothing else changed. Failures are those of the medium or
    /// of the encoding.
    fn put(&mut self, intent: WriteIntent) -> (r: Result<PutOutcome, IntentError>)
        requires
            old(self).ready(),
        ensures
            final(self).ready(),
            final(self).reliable() == old(self).reliable(),
            old(self).reliable() ==> r is Ok,
            r matches Ok(o) ==> o == put_outcome(old(self).table(), intent@) && final(self).table()
                == put_table(old(self).table(), intent@),
            r is Err ==> final(self).table() == old(self).table() || final(self).table()
                == put_table(old(self).table(), intent@),
            r matches Err(e) ==> store_fault(e),
    ;

    /// The intents, in ascending order.
    fn pending(&self) -> (r: Result<Vec<WriteIntent>, IntentError>)
        requires
            self.ready(),
        ensures
            self.reliable() ==> r is Ok,
            r matches Ok(v) ==> lists(intent_views(v@), self.table()),
            r matches Err(e) ==> store_fault(e),
    ;

    /// The lowest order of an intent.
    fn next_pending_seq(&self) -> (r: Result<Option<PerspectiveSeq>, IntentError>)
        requires
            self.ready(),
        ensures
            self.reliable() ==> r is Ok,
            r matches Ok(o) ==> lowest_seq(self.table(), o),
            r matches Err(e) ==> store_fault(e),
    ;

    /// Takes out the intents up to and including `up_to`. A failure takes out all of
    /// them or none.
    fn prune(&mut self, up_to: PerspectiveSeq) -> (r: Result<(), IntentError>)
        requires
            old(self).ready(),
        ensures
            final(self).ready(),
            final(self).reliable() == old(self).reliable(),
            old(self).reliable() ==> r is Ok,
            r is Ok ==> final(self).table() == pruned_table(old(self).table(), up_to),
            r matches Err(e) ==> store_fault(e) && (final(self).table() == old(self).table()
                || final(self).table() == pruned_table(old(self).table(), up_to)),
    ;

    /// Takes out the intents of the given orders. A failure takes out all of them or
    /// none.
    fn remove_seqs(&mut self, seqs: &[PerspectiveSeq]) -> (r: Result<(), IntentError>)
        requires
            old(self).ready(),
        ensures
            final(self).ready(),
            final(self).reliable() == old(self).reliable(),
            old(self).reliable() ==> r is Ok,
            r is Ok ==> final(self).table() == removed_table(old(self).table(), seqs@),
            r matches Err(e) ==> store_fault(e) && (final(self).table() == old(self).table()
                || final(self).table() == removed_table(old(self).table(), seqs@)),
    ;

    /// How many intents there are.
    fn pending_len(&self) -> (r: Result<usize, IntentError>)
        requires
            self.ready(),
        ensures
            self.reliable() ==> r is Ok,
            r matches Ok(n) ==> n == self.table().by_seq.dom().len(),
            r matches Err(e) ==> store_fault(e),
    ;
}

/// `o` is the lowest order of a table; none where the table is empty.
pub open spec fn lowest_seq(t: IntentTable, o: Option<PerspectiveSeq>) -> bool {
    match o {
        Some(s) => t.by_seq.contains_key(s) && (forall|q: PerspectiveSeq| #[trigger]
            t.by_seq.contains_key(q) ==> s.rank() <= q.rank()),
        None => forall|q: PerspectiveSeq| !#[trigger] t.by_seq.contains_key(q),
    }
}

/// Outcomes of recording a list of intents, in order.
pub open spec fn put_all_outcomes(t: IntentTable, s: Seq<IntentView>) -> Seq<PutOutcome>
    decreases s.len(),
{
    if s.len() == 0 {
        Seq::empty()
    } else {
        put_all_outcomes(t, s.drop_last()).push(
            put_outcome(put_all_table(t, s.drop_last()), s.last()),
        )
    }
}

/// Whether the first intents of a list were recorded, and no other.
pub open spec fn put_in_part(t: IntentTable, s: Seq<IntentView>, after: IntentTable) -> bool {
    exists|n: int| 0 <= n <= s.len() && after == put_all_table(t, #[trigger] s.take(n))
}

/// Records a list of intents, in order; stops at the first failure.
pub fn put_batch<S: IntentStore>(store: &mut S, intents: Vec<WriteIntent>) -> (r: Result<
    Vec<PutOutcome>,
    IntentError,
>)
    requires
        old(store).ready(),
    ensures
        final(store).ready(),
        final(store).reliable() == old(store).reliable(),
        old(store).reliable() ==> r is Ok,
        r matches Ok(v) ==> v@ == put_all_outcomes(old(store).table(), intent_views(intents@))
            && final(store).table() == put_all_table(old(store).table(), intent_views(intents@)),
        r is Err ==> put_in_part(
            old(store).table(),
            intent_views(intents@),
            final(store).table(),
        ),
        r matches Err(e) ==> store_fault(e),
{
    let ghost t = store.table();
    let ghost sound = store.reliable();
    let ghost views = intent_views(intents@);
    let mut out: Vec<PutOutcome> = Vec::new();
    let mut i: usize = 0;
    assert(views.take(0) =~= Seq::<IntentView>::empty());
    while i < intents.len()
        invariant
            store.ready(),
            store.reliable() == sound,
            sound == old(store).reliable(),
            t == old(store).table(),
            i <= intents@.len(),
            views == intent_views(intents@),
            out@ == put_all_outcomes(t, views.take(i as int)),
            store.table() == put_all_table(t, views.take(i as int)),
        decreases intents@.len() - i,
    {
        proof {
            let p = views.take(i + 1);
            assert(p.drop_last() =~= views.take(i as int));
            assert(p.last() == intents@[i as int]@);
        }
        match store.put(intents[i].clone()) {
            Ok(o) => {
                out.push(o);
            },
            Err(e) => {
                return Err(e);
            },
        }
        i = i + 1;
    }
    assert(views.take(i as int) =~= views);
    Ok(out)
}

/// An intent store in memory.
pub struct InMemIntentStore {
    by_seq: OrderedMap<PerspectiveSeq, WriteIntent>,
    by_key: OrderedMap<[u8; 16], PerspectiveSeq>,
}

/// What the intents of a map hold.
pub open spec fn intent_map(m: Map<PerspectiveSeq, WriteIntent>) -> Map<PerspectiveSeq, IntentView> {
    m.map_values(|i: WriteIntent| i@)
}

impl InMemIntentStore {
    /// An empty store.
    pub fn new() -> (r: Self)
        ensures
            r.ready(),
            r.table() == empty_table(),
    {
        let r = InMemIntentStore { by_seq: OrderedMap::new(), by_key: OrderedMap::new() };
        assert(r.table() =~= empty_table());
        r
    }

    /// Takes out the intents of the positions marked, and the client keys that
    /// were recorded at an order that no intent has any more.
    fn retain(&mut self, keep: &Vec<bool>, Ghost(gone): Ghost<spec_fn(PerspectiveSeq) -> bool>)
        requires
            old(self).ready(),
            keep@.len() == old(self).by_seq.entries().len(),
            forall|i: int|
                0 <= i < keep@.len() ==> keep@[i] == !gone(
                    (#[trigger] old(self).by_seq.entries()[i]).0,
                ),
        ensures
            final(self).ready(),
            final(self).table() == without(old(self).table(), gone),
    {
        let ghost t = self.table();
        let mut live: OrderedMap<PerspectiveSeq, WriteIntent> = OrderedMap::new();
        let mut i: usize = 0;
        proof {
            self.by_seq.lemma_entries();
            assert(intent_map(live@) =~= Map::<PerspectiveSeq, IntentView>::empty());
        }
        while i < self.by_seq.len()
            invariant
                self.ready(),
                self.table() == t,
                live.wf(),
                i <= self.by_seq.entries().len(),
                keep@.len() == self.by_seq.entries().len(),
                forall|j: int|
                    0 <= j < keep@.len() ==> keep@[j] == !gone(
                        (#[trigger] self.by_seq.entries()[j]).0,
                    ),
                forall|q: PerspectiveSeq| #[trigger]
                    live@.contains_key(q) ==> t.by_seq.contains_key(q) && !gone(q) && live@[q]@
                        == t.by_seq[q],
                forall|j: int|
                    0 <= j < i && !gone((#[trigger] self.by_seq.entries()[j]).0)
                        ==> live@.contains_key(self.by_seq.entries()[j].0),
            decreases self.by_seq.entries().len() - i,
        {
            proof {
                self.by_seq.lemma_entries();
            }
            if keep[i] {
                let e = self.by_seq.at(i);
                live.insert(e.0, e.1.clone());
            }
            i = i + 1;
        }
        proof {
            self.by_seq.lemma_entries();
            assert forall|q: PerspectiveSeq| #[trigger] intent_map(live@).contains_key(q)
                <==> without(t, gone).by_seq.contains_key(q) by {
                if t.by_seq.contains_key(q) && !gone(q) {
                    assert(self.by_seq@.contains_key(q));
                    let j = choose|j: int|
                        0 <= j < self.by_seq.entries().len() && (
                        #[trigger] self.by_seq.entries()[j]).0 == q;
                    assert(live@.contains_key(self.by_seq.entries()[j].0));
                }
            }
            assert(intent_map(live@) =~= without(t, gone).by_seq);
        }
        let mut keys: OrderedMap<[u8; 16], PerspectiveSeq> = OrderedMap::new();
        let mut k: usize = 0;
        proof {
            self.by_key.lemma_entries();
        }
        while k < self.by_key.len()
            invariant
                self.ready(),
                self.table() == t,
                live.wf(),
                keys.wf(),
                k <= self.by_key.entries().len(),
                forall|q: [u8; 16]| #[trigger]
                    keys@.contains_key(q) ==> t.by_key.contains_key(q) && live@.contains_key(
                        t.by_key[q],
                    ) && keys@[q] == t.by_key[q],
                forall|j: int|
                    0 <= j < k && live@.contains_key((#[trigger] self.by_key.entries()[j]).1)
                        ==> keys@.contains_key(self.by_key.entries()[j].0),
            decreases self.by_key.entries().len() - k,
        {
            proof {
                self.by_key.lemma_entries();
            }
            let e = self.by_key.at(k);
            if live.contains(&e.1) {
                keys.insert(e.0, e.1);
            }
            k = k + 1;
        }
        proof {
            self.by_key.lemma_entries();
            let goal = without(t, gone).by_key;
            assert forall|q: [u8; 16]| #[trigger] keys@.contains_key(q) <==> goal.contains_key(q) by {
                if goal.contains_key(q) {
                    assert(self.by_key@.contains_key(q));
                    let j = choose|j: int|
                        0 <= j < self.by_key.entries().len() && (
                        #[trigger] self.by_key.entries()[j]).0 == q;
                    assert(intent_map(live@).contains_key(t.by_key[q]));
                    assert(live@.contains_key(self.by_key.entries()[j].1));
                }
                if keys@.contains_key(q) {
                    assert(intent_map(live@).contains_key(t.by_key[q]));
                }
            }
            assert(keys@ =~= goal);
        }
        self.by_seq = live;
        self.by_key = keys;
        proof {
            assert(self.table() =~= without(t, gone));
            lemma_without_wf(t, gone);
        }
    }
}

/// Taking intents out keeps a table in order.
pub proof fn lemma_without_wf(t: IntentTable, gone: spec_fn(PerspectiveSeq) -> bool)
    requires
        table_wf(t),
    ensures
        table_wf(without(t, gone)),
{
    let u = without(t, gone);
    assert(u.by_seq.dom().subset_of(t.by_seq.dom()));
    vstd::set_lib::lemma_set_subset_finite(t.by_seq.dom(), u.by_seq.dom());
}

/// Recording an intent keeps a table in order.
pub proof fn lemma_put_wf(t: IntentTable, i: IntentView)
    requires
        table_wf(t),
    ensures
        table_wf(put_table(t, i)),
{
    assert(put_table(t, i).by_seq.dom() =~= t.by_seq.dom() || put_table(t, i).by_seq.dom()
        =~= t.by_seq.dom().insert(i.seq));
}

impl IntentStore for InMemIntentStore {
    closed spec fn table(&self) -> IntentTable {
        IntentTable { by_seq: intent_map(self.by_seq@), by_key: self.by_key@ }
    }

    closed spec fn ready(&self) -> bool {
        &&& self.by_seq.wf()
        &&& self.by_key.wf()
        &&& table_wf(IntentTable { by_seq: intent_map(self.by_seq@), by_key: self.by_key@ })
    }

    open spec fn reliable(&self) -> bool {
        true
    }

    fn put(&mut self, intent: WriteIntent) -> (r: Result<PutOutcome, IntentError>)
    {
        let ghost t = self.table();
        let ghost v = intent@;
        proof {
            lemma_put_wf(t, v);
        }
        match intent.idempotency_key {
            Some(key) => {
                match self.by_key.get(&key) {
                    Some(existing) => {
                        return Ok(PutOutcome::Duplicate(*existing));
                    },
                    None => {},
                }
                self.by_key.insert(key, intent.perspective_seq);
            },
            None => {},
        }
        let ghost rows = self.by_seq@;
        self.by_seq.insert(intent.perspective_seq, intent);
        assert(intent_map(self.by_seq@) =~= intent_map(rows).insert(v.seq, v));
        assert(self.table() =~= put_table(t, v));
        Ok(PutOutcome::Recorded)
    }

    fn pending(&self) -> (r: Result<Vec<WriteIntent>, IntentError>)
    {
        let ghost t = self.table();
        let mut out: Vec<WriteIntent> = Vec::new();
        let mut i: usize = 0;
        while i < self.by_seq.len()
            invariant
                self.ready(),
                i <= self.by_seq.entries().len(),
                out@.len() == i,
                forall|j: int|
                    0 <= j < i ==> (#[trigger] out@[j])@ == self.by_seq.entries()[j].1@,
            decreases self.by_seq.entries().len() - i,
        {
            out.push(self.by_seq.at(i).1.clone());
            i = i + 1;
        }
        proof {
            self.by_seq.lemma_entries();
            let s = intent_views(out@);
            let e = self.by_seq.entries();
            assert forall|j: int| 0 <= j < s.len() implies (#[trigger] s[j]).seq == e[j].0
                && t.by_seq.contains_key(s[j].seq) && t.by_seq[s[j].seq] == s[j] by {
                assert(self.by_seq@.contains_key(e[j].0));
                assert(s[j] == out@[j]@);
                assert(t.by_seq[e[j].0] == e[j].1@);
            }
            assert forall|i: int, j: int| 0 <= i < j < s.len() implies (
            #[trigger] s[i]).seq.rank() < (#[trigger] s[j]).seq.rank() by {
                assert(e[i].0.rank() < e[j].0.rank());
            }
            assert forall|q: PerspectiveSeq| #[trigger] t.by_seq.contains_key(q) implies exists|
                i: int,
            | 0 <= i < s.len() && (#[trigger] s[i]).seq == q by {
                assert(self.by_seq@.contains_key(q));
                let j = choose|j: int| 0 <= j < e.len() && (#[trigger] e[j]).0 == q;
                assert(s[j].seq == q);
            }
        }
        Ok(out)
    }

    fn next_pending_seq(&self) -> (r: Result<Option<PerspectiveSeq>, IntentError>)
    {
        proof {
            self.by_seq.lemma_entries();
        }
        let ghost t = self.table();
        if self.by_seq.len() == 0 {
            assert forall|q: PerspectiveSeq| !#[trigger] t.by_seq.contains_key(q) by {
                if t.by_seq.contains_key(q) {
                    assert(self.by_seq@.contains_key(q));
                }
            }
            Ok(None)
        } else {
            let s = self.by_seq.at(0).0;
            proof {
                assert(self.by_seq@.contains_key(self.by_seq.entries()[0].0));
                assert forall|q: PerspectiveSeq| #[trigger] t.by_seq.contains_key(q) implies s.rank()
                    <= q.rank() by {
                    assert(self.by_seq@.contains_key(q));
                    let j = choose|j: int|
                        0 <= j < self.by_seq.entries().len() && (
                        #[trigger] self.by_seq.entries()[j]).0 == q;
                    if j > 0 {
                        assert(self.by_seq.entries()[0].0.rank()
                            < self.by_seq.entries()[j].0.rank());
                    }
                }
            }
            Ok(Some(s))
        }
    }

    fn prune(&mut self, up_to: PerspectiveSeq) -> (r: Result<(), IntentError>)
    {
        let ghost gone = |s: PerspectiveSeq| s.rank() <= up_to.rank();
        let mut keep: Vec<bool> = Vec::new();
        let mut i: usize = 0;
        while i < self.by_seq.len()
            invariant
                self.ready(),
                i <= self.by_seq.entries().len(),
                keep@.len() == i,
                gone == (|s: PerspectiveSeq| s.rank() <= up_to.rank()),
                forall|j: int|
                    0 <= j < i ==> keep@[j] == !gone((#[trigger] self.by_seq.entries()[j]).0),
            decreases self.by_seq.entries().len() - i,
        {
            keep.push(up_to.before(&self.by_seq.at(i).0));
            i = i + 1;
        }
        self.retain(&keep, Ghost(gone));
        Ok(())
    }

    fn remove_seqs(&mut self, seqs: &[PerspectiveSeq]) -> (r: Result<(), IntentError>)
    {
        let ghost gone = |s: PerspectiveSeq| seqs@.contains(s);
        let mut doomed: OrderedMap<PerspectiveSeq, ()> = OrderedMap::new();
        let mut n: usize = 0;
        while n < seqs.len()
            invariant
                n <= seqs@.len(),
                doomed.wf(),
                forall|q: PerspectiveSeq| #[trigger]
                    doomed@.contains_key(q) <==> seqs@.take(n as int).contains(q),
            decreases seqs@.len() - n,
        {
            let ghost before = doomed@;
            doomed.insert(seqs[n], ());
            proof {
                assert forall|q: PerspectiveSeq| #[trigger] doomed@.contains_key(q)
                    <==> seqs@.take(n + 1).contains(q) by {
                    let longer = seqs@.take(n + 1);
                    if longer.contains(q) {
                        let j = choose|j: int| 0 <= j < longer.len() && longer[j] == q;
                        if j < n {
                            assert(seqs@.take(n as int)[j] == q);
                            assert(seqs@.take(n as int).contains(q));
                        }
                    }
                    if before.contains_key(q) {
                        let j = choose|j: int| 0 <= j < n && seqs@.take(n as int)[j] == q;
                        assert(seqs@.take(n + 1)[j] == q);
                    }
                    assert(seqs@.take(n + 1)[n as int] == seqs@[n as int]);
                }
            }
            n = n + 1;
        }
        assert(seqs@.take(n as int) =~= seqs@);
        let mut keep: Vec<bool> = Vec::new();
        let mut i: usize = 0;
        while i < self.by_seq.len()
            invariant
                self.ready(),
                doomed.wf(),
                i <= self.by_seq.entries().len(),
                keep@.len() == i,
                gone == (|s: PerspectiveSeq| seqs@.contains(s)),
                forall|q: PerspectiveSeq| #[trigger]
                    doomed@.contains_key(q) <==> seqs@.contains(q),
                forall|j: int|
                    0 <= j < i ==> keep@[j] == !gone((#[trigger] self.by_seq.entries()[j]).0),
            decreases self.by_seq.entries().len() - i,
        {
            keep.push(!doomed.contains(&self.by_seq.at(i).0));
            i = i + 1;
        }
        self.retain(&keep, Ghost(gone));
        Ok(())
    }

    fn pending_len(&self) -> (r: Result<usize, IntentError>)
    {
        assert(intent_map(self.by_seq@).dom() =~= self.by_seq@.dom());
        Ok(self.by_seq.len())
    }
}

} // verus!
