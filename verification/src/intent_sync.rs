//! What replicas say to each other about intents: the recovery gather and the
//! fan of a write.
//!
//! A replica answers two tags. To the gather it answers with everything that is
//! pending; a put it records and answers with one flag per intent. The append of
//! an intent crosses the wire as bytes, which the caller encodes and decodes.

use vstd::prelude::*;

use crate::bytes::copy_bytes;
use crate::codec::{
    acks_image, acks_parsed, intent_of_wire, intents_image, intents_of_wire, intents_parsed,
    WireView,
};
use crate::codec::{read_acks, read_intents, write_acks, write_intents, IntentWire};
use crate::ids::NodeId;
use crate::intent::{
    intent_views, put_all_table, put_in_part, IntentError, IntentStore, IntentView, PerspectiveSeq,
    WriteIntent,
};
use crate::intent::lists;
use crate::intent::put_batch;
use crate::time::HybridLogicalClock;
use crate::traits::AppendChunkAndDeltaRequest;
use crate::traits::ChunkAppendView;
use crate::watermark::same_text;

verus! {

/// Tag of the recovery gather.
pub const INTENT_GATHER_PENDING_TAG: &'static str = "intent_gather_pending";

/// Tag of the fan of a write.
pub const INTENT_PUT_TAG: &'static str = "intent_put";

/// An intent on the wire.
#[derive(Debug, PartialEq, Eq)]
pub struct WireIntent {
    /// Its order.
    pub seq: HybridLogicalClock,
    /// The client's key.
    pub idem: Option<[u8; 16]>,
    /// Bytes of its append.
    pub append_proto: Vec<u8>,
}

impl View for WireIntent {
    type V = WireView;

    open spec fn view(&self) -> WireView {
        WireView { seq: self.seq, idem: self.idem, append_proto: self.append_proto@ }
    }
}

/// What a list of intents on the wire holds.
pub open spec fn wire_views(s: Seq<WireIntent>) -> Seq<WireView> {
    Seq::new(s.len(), |i: int| s[i]@)
}

/// The wire form of an intent whose append has these bytes.
pub open spec fn on_wire(i: IntentView, bytes: Seq<u8>) -> WireView {
    WireView { seq: i.seq.0, idem: i.key, append_proto: bytes }
}

/// The intent that a wire form stands for, given its append.
pub open spec fn off_wire(w: WireView, append: ChunkAppendView) -> IntentView {
    IntentView { seq: PerspectiveSeq(w.seq), key: w.idem, append }
}

impl WireIntent {
    /// The wire form of an intent, given the bytes of its append.
    pub fn from_intent(intent: &WriteIntent, append_proto: Vec<u8>) -> (r: Self)
        ensures
            r@ == on_wire(intent@, append_proto@),
    {
        WireIntent {
            seq: intent.perspective_seq.0,
            idem: intent.idempotency_key,
            append_proto,
        }
    }

    /// The intent that this stands for, given what its bytes decode to.
    pub fn into_intent(self, append: Result<AppendChunkAndDeltaRequest, String>) -> (r: Result<
        WriteIntent,
        IntentError,
    >)
        ensures
            match append {
                Ok(a) => r is Ok && r->Ok_0@ == off_wire(self@, a@),
                Err(m) => r == Err::<WriteIntent, IntentError>(IntentError::Codec(m)),
            },
    {
        match append {
            Ok(a) => Ok(
                WriteIntent {
                    perspective_seq: PerspectiveSeq(self.seq),
                    idempotency_key: self.idem,
                    append: a,
                },
            ),
            Err(m) => Err(IntentError::Codec(m)),
        }
    }
}

/// What a replica answers.
#[derive(Debug, PartialEq, Eq)]
pub enum DispatchOutcome {
    /// The answer.
    Answer(Vec<u8>),
    /// The request could not be read or carried out.
    ParseError,
    /// The tag is not one of these two.
    UnknownTag,
}

/// What a replica is asked for.
#[derive(Clone, Copy, Debug, PartialEq, Eq, Structural)]
pub enum IntentTag {
    /// Everything that is pending.
    GatherPending,
    /// To record intents.
    Put,
    /// Something else.
    Unknown,
}

/// What a tag asks for.
pub open spec fn tag_meaning(tag: Seq<char>) -> IntentTag {
    if tag == INTENT_GATHER_PENDING_TAG@ {
        IntentTag::GatherPending
    } else if tag == INTENT_PUT_TAG@ {
        IntentTag::Put
    } else {
        IntentTag::Unknown
    }
}

/// Reads a tag.
pub fn route(tag: &str) -> (r: IntentTag)
    ensures
        r == tag_meaning(tag@),
{
    if same_text(tag, INTENT_GATHER_PENDING_TAG) {
        IntentTag::GatherPending
    } else if same_text(tag, INTENT_PUT_TAG) {
        IntentTag::Put
    } else {
        IntentTag::Unknown
    }
}

/// The tuples of a list of intents on the wire.
fn to_tuples(wires: &Vec<WireIntent>) -> (r: Vec<IntentWire>)
    ensures
        intents_of_wire(r@) == wire_views(wires@),
{
    let mut out: Vec<IntentWire> = Vec::new();
    let mut i: usize = 0;
    while i < wires.len()
        invariant
            i <= wires@.len(),
            out@.len() == i,
            forall|j: int| 0 <= j < i ==> intent_of_wire(#[trigger] out@[j]) == wires@[j]@,
        decreases wires@.len() - i,
    {
        let w = &wires[i];
        let t: IntentWire = (
            (w.seq.physical_ms, w.seq.logical, w.seq.node_id.0),
            w.idem,
            copy_bytes(&w.append_proto),
        );
        assert(intent_of_wire(t) =~= w@);
        out.push(t);
        i = i + 1;
    }
    assert(intents_of_wire(out@) =~= wire_views(wires@));
    out
}

/// Encodes intents for the wire.
pub fn encode_intents(wires: &Vec<WireIntent>) -> (r: Option<Vec<u8>>)
    ensures
        r is Some,
        r->Some_0@ == intents_image(wire_views(wires@)),
        intents_parsed(r->Some_0@) == Some(wire_views(wires@)),
{
    let tuples = to_tuples(wires);
    write_intents(&tuples)
}

/// Decodes intents from the wire; `None` where the bytes are none.
pub fn decode_intents(payload: &[u8]) -> (r: Option<Vec<WireIntent>>)
    ensures
        match r {
            Some(v) => intents_parsed(payload@) == Some(wire_views(v@)),
            None => intents_parsed(payload@) is None,
        },
{
    let tuples = match read_intents(payload) {
        Some(t) => t,
        None => {
            return None;
        },
    };
    let mut out: Vec<WireIntent> = Vec::new();
    let mut i: usize = 0;
    while i < tuples.len()
        invariant
            i <= tuples@.len(),
            out@.len() == i,
            forall|j: int| 0 <= j < i ==> (#[trigger] out@[j])@ == intent_of_wire(tuples@[j]),
        decreases tuples@.len() - i,
    {
        let t = &tuples[i];
        let w = WireIntent {
            seq: HybridLogicalClock {
                physical_ms: t.0.0,
                logical: t.0.1,
                node_id: NodeId(t.0.2),
            },
            idem: t.1,
            append_proto: copy_bytes(&t.2),
        };
        assert(w@ =~= intent_of_wire(tuples@[i as int]));
        out.push(w);
        i = i + 1;
    }
    assert(wire_views(out@) =~= intents_of_wire(tuples@));
    Some(out)
}

/// Decodes the answer to a put: one flag per intent.
pub fn decode_acks(payload: &[u8]) -> (r: Option<Vec<bool>>)
    ensures
        match r {
            Some(v) => acks_parsed(payload@) == Some(v@),
            None => acks_parsed(payload@) is None,
        },
{
    read_acks(payload)
}

/// The answer to the gather, given the wire forms of what is pending, or the error
/// of the store.
pub fn gather_answer(pending: Result<Vec<WireIntent>, IntentError>) -> (r: DispatchOutcome)
    ensures
        match pending {
            Ok(v) => r matches DispatchOutcome::Answer(b) && b@ == intents_image(wire_views(v@))
                && intents_parsed(b@) == Some(wire_views(v@)),
            Err(_) => r is ParseError,
        },
{
    match pending {
        Ok(v) => match encode_intents(&v) {
            Some(b) => DispatchOutcome::Answer(b),
            None => DispatchOutcome::ParseError,
        },
        Err(_) => DispatchOutcome::ParseError,
    }
}

/// `n` flags that are all set.
pub open spec fn all_set(n: nat) -> Seq<bool> {
    Seq::new(n, |i: int| true)
}

/// The intents that a list of outcomes of decoding holds, where none failed.
pub open spec fn all_decoded(s: Seq<Result<WriteIntent, IntentError>>) -> bool {
    forall|i: int| 0 <= i < s.len() ==> (#[trigger] s[i]) is Ok
}

/// What the decoded intents of a list hold.
pub open spec fn decoded_views(s: Seq<Result<WriteIntent, IntentError>>) -> Seq<IntentView> {
    Seq::new(s.len(), |i: int| s[i]->Ok_0@)
}

/// Whether the `j`-th intent taken is that of the `j`-th outcome.
spec fn took(
    all: Seq<Result<WriteIntent, IntentError>>,
    out: Seq<WriteIntent>,
    j: int,
) -> bool {
    all[j] is Ok && out[j]@ == all[j]->Ok_0@
}

/// Takes the intents out of a list of outcomes; the first failure where there is
/// one.
pub fn take_decoded(decoded: Vec<Result<WriteIntent, IntentError>>) -> (r: Result<
    Vec<WriteIntent>,
    IntentError,
>)
    ensures
        r is Ok <==> all_decoded(decoded@),
        r matches Ok(v) ==> intent_views(v@) == decoded_views(decoded@),
        r matches Err(e) ==> exists|i: int|
            {
                &&& 0 <= i < decoded@.len()
                &&& #[trigger] decoded@[i] == Err::<WriteIntent, IntentError>(e)
                &&& forall|j: int| 0 <= j < i ==> (#[trigger] decoded@[j]) is Ok
            },
{
    let ghost all = decoded@;
    let mut rest = decoded;
    let mut out: Vec<WriteIntent> = Vec::new();
    while rest.len() > 0
        invariant
            all == decoded@,
            out@.len() + rest@.len() == all.len(),
            forall|j: int|
                0 <= j < rest@.len() ==> #[trigger] rest@[j] == all[out@.len() + j],
            forall|j: int| 0 <= j < out@.len() ==> #[trigger] took(all, out@, j),
        decreases rest@.len(),
    {
        let ghost before = rest@;
        let ghost n = out@.len() as int;
        let first = rest.remove(0);
        assert(first == before[0]);
        assert(all[n] == before[0]);
        match first {
            Ok(i) => {
                let ghost o0 = out@;
                out.push(i);
                assert(all[n] == Ok::<WriteIntent, IntentError>(i));
                assert forall|j: int| 0 <= j < out@.len() implies #[trigger] took(all, out@, j) by {
                    if j < n {
                        assert(took(all, o0, j));
                    }
                }
                assert forall|j: int| 0 <= j < rest@.len() implies #[trigger] rest@[j]
                    == all[out@.len() + j] by {
                    assert(rest@[j] == before[j + 1]);
                }
            },
            Err(e) => {
                assert(all[n] == Err::<WriteIntent, IntentError>(e));
                assert forall|j: int| 0 <= j < n implies (#[trigger] all[j]) is Ok by {
                    assert(took(all, out@, j));
                }
                return Err(e);
            },
        }
    }
    proof {
        assert forall|i: int| 0 <= i < all.len() implies (#[trigger] all[i]) is Ok by {
            assert(took(all, out@, i));
        }
        assert forall|i: int| 0 <= i < all.len() implies (#[trigger] intent_views(out@)[i])
            == decoded_views(all)[i] by {
            assert(took(all, out@, i));
        }
        assert(intent_views(out@) =~= decoded_views(all));
    }
    Ok(out)
}

/// The answer to a put, given the decoded intents: where one could not be decoded
/// nothing is recorded; otherwise all are, and each is acknowledged.
pub fn put_answer<S: IntentStore>(
    store: &mut S,
    decoded: Vec<Result<WriteIntent, IntentError>>,
) -> (r: DispatchOutcome)
    requires
        old(store).ready(),
    ensures
        final(store).ready(),
        final(store).reliable() == old(store).reliable(),
        !all_decoded(decoded@) ==> r is ParseError && final(store).table() == old(store).table(),
        old(store).reliable() && all_decoded(decoded@) ==> r is Answer,
        r matches DispatchOutcome::Answer(b) ==> {
            &&& acks_parsed(b@) == Some(all_set(decoded@.len()))
            &&& final(store).table() == put_all_table(
                old(store).table(),
                decoded_views(decoded@),
            )
        },
        r is ParseError ==> put_in_part(
            old(store).table(),
            decoded_views(decoded@),
            final(store).table(),
        ),
        r !is UnknownTag,
{
    let n: usize = decoded.len();
    assert(decoded_views(decoded@).take(0) =~= Seq::<IntentView>::empty());
    let intents = match take_decoded(decoded) {
        Ok(v) => v,
        Err(_) => {
            return DispatchOutcome::ParseError;
        },
    };
    match put_batch(store, intents) {
        Ok(_) => put_acknowledged(n),
        Err(_) => DispatchOutcome::ParseError,
    }
}

/// The answer that carries acknowledgements, one per intent.
pub fn acknowledge(acks: &Vec<bool>) -> (r: DispatchOutcome)
    ensures
        r matches DispatchOutcome::Answer(b) && b@ == acks_image(acks@) && acks_parsed(b@) == Some(
            acks@,
        ),
{
    match write_acks(acks) {
        Some(b) => DispatchOutcome::Answer(b),
        None => DispatchOutcome::ParseError,
    }
}

/// The answer to a put of `n` intents that were all recorded.
pub fn put_acknowledged(n: usize) -> (r: DispatchOutcome)
    ensures
        r matches DispatchOutcome::Answer(b) && b@ == acks_image(all_set(n as nat)) && acks_parsed(
            b@,
        ) == Some(all_set(n as nat)),
{
    let mut acks: Vec<bool> = Vec::new();
    let mut i: usize = 0;
    while i < n
        invariant
            i <= n,
            acks@ == all_set(i as nat),
        decreases n - i,
    {
        acks.push(true);
        i = i + 1;
        assert(acks@ =~= all_set(i as nat));
    }
    acknowledge(&acks)
}

/// What a request calls for.
pub enum DispatchStep {
    /// Encode these intents, and answer with them.
    Encode(Vec<WriteIntent>),
    /// Decode the appends of these intents, and record them.
    Decode(Vec<WireIntent>),
    /// Answer this.
    Answer(DispatchOutcome),
}

/// Reads a request: the gather calls for what is pending in the store, the put for
/// the intents that it carries. A store that fails, and a payload that cannot be
/// read, are answered with a parse error; another tag is left to others.
pub fn dispatch<S: IntentStore>(store: &S, tag: &str, payload: &[u8]) -> (r: DispatchStep)
    requires
        store.ready(),
    ensures
        match tag_meaning(tag@) {
            IntentTag::GatherPending => {
                &&& store.reliable() ==> r is Encode
                &&& r is Encode || r == DispatchStep::Answer(DispatchOutcome::ParseError)
                &&& r matches DispatchStep::Encode(v) ==> lists(intent_views(v@), store.table())
            },
            IntentTag::Put => match intents_parsed(payload@) {
                Some(w) => r matches DispatchStep::Decode(v) && wire_views(v@) == w,
                None => r == DispatchStep::Answer(DispatchOutcome::ParseError),
            },
            IntentTag::Unknown => r == DispatchStep::Answer(DispatchOutcome::UnknownTag),
        },
{
    match route(tag) {
        IntentTag::GatherPending => match store.pending() {
            Ok(v) => DispatchStep::Encode(v),
            Err(_) => DispatchStep::Answer(DispatchOutcome::ParseError),
        },
        IntentTag::Put => match decode_intents(payload) {
            Some(v) => DispatchStep::Decode(v),
            None => DispatchStep::Answer(DispatchOutcome::ParseError),
        },
        IntentTag::Unknown => DispatchStep::Answer(DispatchOutcome::UnknownTag),
    }
}

/// What a peer answered to the gather.
pub enum PeerAnswer {
    /// Nothing: it could not be reached.
    Unreachable,
    /// Something that could not be decoded.
    Undecodable(IntentError),
    /// What is pending there.
    Pending(Vec<WriteIntent>),
}

/// What the gathered intents of peers hold.
pub open spec fn gathered_views(s: Seq<(NodeId, Vec<WriteIntent>)>) -> Seq<
    (NodeId, Seq<IntentView>),
> {
    Seq::new(s.len(), |i: int| (s[i].0, intent_views(s[i].1@)))
}

/// The peers that answered, in order, with what is pending there.
pub open spec fn answered(s: Seq<(NodeId, PeerAnswer)>) -> Seq<(NodeId, Seq<IntentView>)>
    decreases s.len(),
{
    if s.len() == 0 {
        Seq::empty()
    } else {
        let front = answered(s.drop_last());
        match s.last().1 {
            PeerAnswer::Pending(v) => front.push((s.last().0, intent_views(v@))),
            _ => front,
        }
    }
}

/// The result of a gather: peers that could not be reached are left out; the first
/// peer that answered something undecodable fails it.
pub fn gathered(answers: Vec<(NodeId, PeerAnswer)>) -> (r: Result<
    Vec<(NodeId, Vec<WriteIntent>)>,
    IntentError,
>)
    ensures
        r is Ok <==> forall|i: int|
            0 <= i < answers@.len() ==> !((#[trigger] answers@[i]).1 is Undecodable),
        r matches Ok(v) ==> gathered_views(v@) == answered(answers@),
        r matches Err(e) ==> exists|i: int|
            0 <= i < answers@.len() && (#[trigger] answers@[i]).1 == PeerAnswer::Undecodable(e) && (
            forall|j: int| 0 <= j < i ==> !((#[trigger] answers@[j]).1 is Undecodable)),
{
    let ghost all = answers@;
    let total: usize = answers.len();
    let mut rest = answers;
    let mut out: Vec<(NodeId, Vec<WriteIntent>)> = Vec::new();
    let mut done: usize = 0;
    assert(all.take(0) =~= Seq::<(NodeId, PeerAnswer)>::empty());
    assert(gathered_views(out@) =~= Seq::<(NodeId, Seq<IntentView>)>::empty());
    while rest.len() > 0
        invariant
            all == answers@,
            done + rest@.len() == total,
            total == all.len(),
            forall|j: int| 0 <= j < rest@.len() ==> #[trigger] rest@[j] == all[done + j],
            gathered_views(out@) == answered(all.take(done as int)),
            forall|j: int| 0 <= j < done ==> !((#[trigger] all[j]).1 is Undecodable),
        decreases rest@.len(),
    {
        let ghost before = rest@;
        let (node, answer) = rest.remove(0);
        proof {
            assert(before[0] == all[done as int]);
            let t = all.take(done + 1);
            assert(t.drop_last() =~= all.take(done as int));
            assert(t.last() == (node, answer));
        }
        match answer {
            PeerAnswer::Unreachable => {},
            PeerAnswer::Undecodable(e) => {
                assert(all[done as int].1 == PeerAnswer::Undecodable(e));
                return Err(e);
            },
            PeerAnswer::Pending(v) => {
                let ghost o0 = out@;
                out.push((node, v));
                assert(gathered_views(out@) =~= gathered_views(o0).push((node, intent_views(v@))));
            },
        }
        assert forall|j: int| 0 <= j < rest@.len() implies #[trigger] rest@[j] == all[done + 1
            + j] by {
            assert(rest@[j] == before[j + 1]);
        }
        done = done + 1;
    }
    assert(all.take(done as int) =~= all);
    Ok(out)
}

/// The tags do not collide with each other.
pub proof fn intent_tags_are_distinct()
    ensures
        INTENT_GATHER_PENDING_TAG@ != INTENT_PUT_TAG@,
        tag_meaning(INTENT_GATHER_PENDING_TAG@) == IntentTag::GatherPending,
        tag_meaning(INTENT_PUT_TAG@) == IntentTag::Put,
{
    reveal_strlit("intent_gather_pending");
    reveal_strlit("intent_put");
    assert(INTENT_GATHER_PENDING_TAG@.len() == 21);
    assert(INTENT_PUT_TAG@.len() == 10);
}

/// An intent comes off the wire as it went on, with what its bytes decode to.
pub proof fn wire_keeps_intents(i: IntentView, bytes: Seq<u8>, append: ChunkAppendView)
    ensures
        off_wire(on_wire(i, bytes), append) == (IntentView { append, ..i }),
{
}

} // verus!
