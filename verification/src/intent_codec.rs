//! Rows of the durable intent store: order-preserving keys and value frames.

use vstd::prelude::*;
use vstd::string::*;

use crate::bytes::{array16, copy_bytes, from_be_slice, to_be_vec};
use crate::bytes::{
    be_bytes, be_value, lemma_be_bytes_value, lemma_be_value_bound, lemma_be_value_bytes,
    lemma_be_value_concat, radix,
};
use crate::ids::NodeId;
use crate::intent::{IdempotencyKey, IntentError, PerspectiveSeq};
use crate::ordered_map::OrderedKey;
use crate::text::decimal_text;
use crate::text::{decimal, join2, join3, join4};
use crate::time::hlc_rank;
use crate::time::HybridLogicalClock;

verus! {

/// Version of the value frame.
pub const VALUE_VERSION: u8 = 1;

/// Version of the store's layout.
pub const FORMAT_VERSION: u32 = 1;

/// Bytes of a row key.
pub const SEQ_KEY_LEN: usize = 20;

/// The row key of an order: milliseconds, counter and node, each most
/// significant byte first.
pub open spec fn seq_key(s: PerspectiveSeq) -> Seq<u8> {
    be_bytes(s.0.physical_ms as nat, 8) + be_bytes(s.0.logical as nat, 4) + be_bytes(
        s.0.node_id.0 as nat,
        8,
    )
}

proof fn lemma_radices()
    ensures
        radix(4) == 0x1_0000_0000,
        radix(8) == 0x1_0000_0000_0000_0000,
{
    reveal_with_fuel(radix, 9);
}

/// A row key has twenty bytes, and spells the position of its order.
pub proof fn lemma_seq_key_value(s: PerspectiveSeq)
    ensures
        seq_key(s).len() == 20,
        be_value(seq_key(s)) == s.rank(),
{
    let p = be_bytes(s.0.physical_ms as nat, 8);
    let l = be_bytes(s.0.logical as nat, 4);
    let n = be_bytes(s.0.node_id.0 as nat, 8);
    lemma_radices();
    lemma_be_bytes_value(s.0.physical_ms as nat, 8);
    lemma_be_bytes_value(s.0.logical as nat, 4);
    lemma_be_bytes_value(s.0.node_id.0 as nat, 8);
    lemma_be_value_concat(p, l);
    lemma_be_value_concat(p + l, n);
    assert(be_value(p + l) == s.0.physical_ms as nat * 0x1_0000_0000 + s.0.logical as nat);
    assert(be_value(p + l + n) == be_value(p + l) * 0x1_0000_0000_0000_0000
        + s.0.node_id.0 as nat);
    assert(s.rank() == hlc_rank(s.0));
}

/// Law: row keys sort, byte by byte, as the orders they stand for.
pub proof fn seq_keys_preserve_order(a: PerspectiveSeq, b: PerspectiveSeq)
    ensures
        be_value(seq_key(a)) < be_value(seq_key(b)) <==> a.rank() < b.rank(),
        seq_key(a) == seq_key(b) <==> a == b,
{
    lemma_seq_key_value(a);
    lemma_seq_key_value(b);
    if seq_key(a) == seq_key(b) {
        PerspectiveSeq::rank_injective(a, b);
    }
}

/// Writes the row key of an order.
pub fn encode_seq_key(seq: PerspectiveSeq) -> (r: Vec<u8>)
    ensures
        r@ == seq_key(seq),
        r@.len() == SEQ_KEY_LEN,
{
    let mut out: Vec<u8> = to_be_vec(seq.0.physical_ms as u128, 8);
    let mut l: Vec<u8> = to_be_vec(seq.0.logical as u128, 4);
    let mut n: Vec<u8> = to_be_vec(seq.0.node_id.0 as u128, 8);
    out.append(&mut l);
    out.append(&mut n);
    proof {
        lemma_seq_key_value(seq);
    }
    out
}

/// What is said of a key of the wrong width.
pub open spec fn seq_key_width_text(len: nat) -> Seq<char> {
    "seq-key must be 20 bytes, got "@ + decimal_text(len)
}

/// Reads an order from its row key; a key of another width is refused.
pub fn decode_seq_key(bytes: &[u8]) -> (r: Result<PerspectiveSeq, IntentError>)
    ensures
        match r {
            Ok(s) => bytes@.len() == SEQ_KEY_LEN && seq_key(s) == bytes@,
            Err(IntentError::Codec(m)) => bytes@.len() != SEQ_KEY_LEN && m@ == seq_key_width_text(
                bytes@.len(),
            ),
            Err(_) => false,
        },
{
    if bytes.len() != SEQ_KEY_LEN {
        return Err(
            IntentError::Codec(
                join2("seq-key must be 20 bytes, got ", decimal(bytes.len() as u64).as_str()),
            ),
        );
    }
    let p = vstd::slice::slice_subrange(bytes, 0, 8);
    let l = vstd::slice::slice_subrange(bytes, 8, 12);
    let n = vstd::slice::slice_subrange(bytes, 12, 20);
    proof {
        lemma_radices();
        lemma_be_value_bound(p@);
        lemma_be_value_bound(l@);
        lemma_be_value_bound(n@);
        lemma_be_value_bytes(p@);
        lemma_be_value_bytes(l@);
        lemma_be_value_bytes(n@);
    }
    let s = PerspectiveSeq(
        HybridLogicalClock {
            physical_ms: from_be_slice(p) as u64,
            logical: from_be_slice(l) as u32,
            node_id: NodeId(from_be_slice(n) as u64),
        },
    );
    assert(seq_key(s) =~= p@ + l@ + n@);
    assert(p@ + l@ + n@ =~= bytes@);
    Ok(s)
}

/// Law: an order survives being written as a row key and read back, and a row
/// key of the right width survives being read and written back.
pub proof fn seq_key_round_trip(s: PerspectiveSeq, t: PerspectiveSeq)
    requires
        seq_key(s) == seq_key(t),
    ensures
        s == t,
        seq_key(s).len() == SEQ_KEY_LEN,
{
    seq_keys_preserve_order(s, t);
    lemma_seq_key_value(s);
}

/// A length as the frame states it.
pub open spec fn frame_len(n: nat) -> nat {
    if n <= u32::MAX {
        n
    } else {
        u32::MAX as nat
    }
}

/// The value frame of an intent: version, whether there is a client key, the
/// client key, the length of the encoded append, and the encoded append. The
/// order is not in it: it is the row key.
pub open spec fn frame(key: Option<[u8; 16]>, proto: Seq<u8>) -> Seq<u8> {
    (match key {
        Some(k) => seq![VALUE_VERSION, 1u8] + k@,
        None => seq![VALUE_VERSION, 0u8],
    }) + be_bytes(frame_len(proto.len()), 4) + proto
}

/// Writes the value frame of an intent whose append is encoded as `proto`.
pub fn encode_value(idempotency_key: Option<IdempotencyKey>, proto: &[u8]) -> (r: Vec<u8>)
    ensures
        r@ == frame(idempotency_key, proto@),
{
    let len: u64 = proto.len() as u64;
    let stated: u64 = if len <= u32::MAX as u64 {
        len
    } else {
        u32::MAX as u64
    };
    let mut out: Vec<u8> = Vec::new();
    out.push(VALUE_VERSION);
    match idempotency_key {
        Some(k) => {
            out.push(1);
            let mut key = copy_bytes(k.as_slice());
            out.append(&mut key);
            assert(out@ =~= seq![VALUE_VERSION, 1u8] + k@);
        },
        None => {
            out.push(0);
            assert(out@ =~= seq![VALUE_VERSION, 0u8]);
        },
    }
    let mut n: Vec<u8> = to_be_vec(stated as u128, 4);
    out.append(&mut n);
    let mut p: Vec<u8> = copy_bytes(proto);
    out.append(&mut p);
    out
}

/// What a frame says, or what is wrong with it.
pub open spec fn read_frame(b: Seq<u8>) -> Result<(Option<Seq<u8>>, Seq<u8>), Seq<char>> {
    if b.len() < 1 {
        Err("truncated value version"@)
    } else if b[0] != VALUE_VERSION {
        Err("unsupported intent value version "@ + decimal_text(b[0] as nat))
    } else if b.len() < 2 {
        Err("truncated value has_idem"@)
    } else if b[1] > 1 {
        Err("value has_idem must be 0 or 1, got "@ + decimal_text(b[1] as nat))
    } else if b[1] == 1 && b.len() < 18 {
        Err("truncated value idem key"@)
    } else {
        let off: int = if b[1] == 1 {
            18
        } else {
            2
        };
        if b.len() < off + 4 {
            Err("truncated value proto_len"@)
        } else {
            let stated = be_value(b.subrange(off, off + 4));
            let left = (b.len() - off - 4) as nat;
            if left != stated {
                Err(
                    "value proto_len "@ + decimal_text(stated) + " != remaining "@ + decimal_text(
                        left,
                    ),
                )
            } else {
                Ok(
                    (
                        if b[1] == 1 {
                            Some(b.subrange(2, 18))
                        } else {
                            None
                        },
                        b.skip(off + 4),
                    ),
                )
            }
        }
    }
}

/// A value frame taken apart.
pub struct FramedValue {
    /// The client key.
    pub idempotency_key: Option<IdempotencyKey>,
    /// The encoded append.
    pub proto: Vec<u8>,
}

/// The bytes of a client key.
pub open spec fn key_bytes(k: Option<[u8; 16]>) -> Option<Seq<u8>> {
    match k {
        Some(a) => Some(a@),
        None => None,
    }
}

/// Takes a value frame apart.
pub fn decode_value(b: &[u8]) -> (r: Result<FramedValue, IntentError>)
    ensures
        match read_frame(b@) {
            Ok(f) => r matches Ok(v) && key_bytes(v.idempotency_key) == f.0 && v.proto@ == f.1,
            Err(text) => r matches Err(IntentError::Codec(m)) && m@ == text,
        },
{
    if b.len() < 1 {
        return Err(IntentError::Codec("truncated value version".to_owned()));
    }
    if b[0] != VALUE_VERSION {
        return Err(
            IntentError::Codec(
                join2("unsupported intent value version ", decimal(b[0] as u64).as_str()),
            ),
        );
    }
    if b.len() < 2 {
        return Err(IntentError::Codec("truncated value has_idem".to_owned()));
    }
    if b[1] > 1 {
        return Err(
            IntentError::Codec(
                join2("value has_idem must be 0 or 1, got ", decimal(b[1] as u64).as_str()),
            ),
        );
    }
    let mut key: Option<IdempotencyKey> = None;
    let mut off: usize = 2;
    if b[1] == 1 {
        if b.len() < 18 {
            return Err(IntentError::Codec("truncated value idem key".to_owned()));
        }
        key = Some(array16(vstd::slice::slice_subrange(b, 2, 18)));
        off = 18;
    }
    if b.len() - off < 4 {
        return Err(IntentError::Codec("truncated value proto_len".to_owned()));
    }
    let len_bytes = vstd::slice::slice_subrange(b, off, off + 4);
    proof {
        lemma_radices();
        lemma_be_value_bound(len_bytes@);
    }
    let stated: u128 = from_be_slice(len_bytes);
    let left: usize = b.len() - off - 4;
    if left as u128 != stated {
        return Err(
            IntentError::Codec(
                join4(
                    "value proto_len ",
                    decimal(stated as u64).as_str(),
                    " != remaining ",
                    decimal(left as u64).as_str(),
                ),
            ),
        );
    }
    let rest = vstd::slice::slice_subrange(b, off + 4, b.len());
    assert(rest@ =~= b@.skip(off + 4));
    Ok(FramedValue { idempotency_key: key, proto: copy_bytes(rest) })
}

/// Law: a frame read back gives the client key and the encoded append that it
/// was written from.
pub proof fn frame_round_trip(key: Option<[u8; 16]>, proto: Seq<u8>)
    requires
        proto.len() <= u32::MAX,
    ensures
        read_frame(frame(key, proto)) == Ok::<(Option<Seq<u8>>, Seq<u8>), Seq<char>>(
            (key_bytes(key), proto),
        ),
{
    let b = frame(key, proto);
    let n = be_bytes(proto.len(), 4);
    lemma_radices();
    lemma_be_bytes_value(proto.len(), 4);
    match key {
        Some(k) => {
            assert(b.subrange(18, 22) =~= n);
            assert(b.subrange(2, 18) =~= k@);
            assert(b.skip(22) =~= proto);
        },
        None => {
            assert(b.subrange(2, 6) =~= n);
            assert(b.skip(6) =~= proto);
        },
    }
}

/// Law: a frame whose last bytes are missing is refused.
pub proof fn truncated_frame_is_refused(key: Option<[u8; 16]>, proto: Seq<u8>, keep: int)
    requires
        proto.len() <= u32::MAX,
        0 <= keep < frame(key, proto).len(),
    ensures
        read_frame(frame(key, proto).take(keep)) is Err,
{
    let b = frame(key, proto);
    let t = b.take(keep);
    let n = be_bytes(proto.len(), 4);
    lemma_radices();
    lemma_be_bytes_value(proto.len(), 4);
    match key {
        Some(k) => {
            if keep >= 22 {
                assert(t.subrange(18, 22) =~= n);
            }
        },
        None => {
            if keep >= 6 {
                assert(t.subrange(2, 6) =~= n);
            }
        },
    }
}

/// What opening a store makes of the stored format version: nothing to do,
/// where it is the supported one; a version to be written, where there is none;
/// or a refusal.
pub open spec fn version_check(stored: Option<Seq<u8>>) -> Result<Option<Seq<u8>>, Seq<char>> {
    match stored {
        None => Ok(Some(be_bytes(FORMAT_VERSION as nat, 4))),
        Some(v) => if v.len() != 4 {
            Err("format_version must be 4 bytes"@)
        } else if be_value(v) != FORMAT_VERSION {
            Err(
                "unsupported intent format v"@ + decimal_text(be_value(v))
                    + " (this binary speaks v1)"@,
            )
        } else {
            Ok(None)
        },
    }
}

/// Decides what to do about the stored format version.
pub fn check_format_version(stored: Option<&[u8]>) -> (r: Result<Option<Vec<u8>>, IntentError>)
    ensures
        match version_check(
            match stored {
                Some(v) => Some(v@),
                None => None,
            },
        ) {
            Ok(None) => r matches Ok(None),
            Ok(Some(seed)) => r matches Ok(Some(v)) && v@ == seed,
            Err(text) => r matches Err(IntentError::Codec(m)) && m@ == text,
        },
{
    match stored {
        None => Ok(Some(to_be_vec(FORMAT_VERSION as u128, 4))),
        Some(v) => {
            if v.len() != 4 {
                return Err(IntentError::Codec("format_version must be 4 bytes".to_owned()));
            }
            proof {
                lemma_radices();
                lemma_be_value_bound(v@);
            }
            let found: u128 = from_be_slice(v);
            if found != FORMAT_VERSION as u128 {
                return Err(
                    IntentError::Codec(
                        join3(
                            "unsupported intent format v",
                            decimal(found as u64).as_str(),
                            " (this binary speaks v1)",
                        ),
                    ),
                );
            }
            Ok(None)
        },
    }
}

/// Law: a store that was seeded on its first opening is accepted on the next.
pub proof fn seeded_version_is_accepted()
    ensures
        version_check(None) matches Ok(Some(seed)) && version_check(Some(seed)) matches Ok(None),
{
    lemma_radices();
    lemma_be_bytes_value(FORMAT_VERSION as nat, 4);
}

/// What recording an intent writes.
pub enum PutPlan {
    /// Nothing: the client key was recorded before, at this order.
    Duplicate(PerspectiveSeq),
    /// A row, and a pointer from the client key to the row where there is one;
    /// both in one batch.
    Write {
        /// Key of the row.
        row_key: Vec<u8>,
        /// Value of the row.
        value: Vec<u8>,
        /// Client key that points to the row.
        pointer: Option<IdempotencyKey>,
    },
}

/// Decides what recording an intent writes, given what the pointer of its client
/// key holds now.
pub fn plan_put(
    seq: PerspectiveSeq,
    idempotency_key: Option<IdempotencyKey>,
    proto: &[u8],
    pointer_row: Option<&[u8]>,
) -> (r: Result<PutPlan, IntentError>)
    ensures
        match (idempotency_key, pointer_row) {
            (Some(_), Some(p)) => if p@.len() == SEQ_KEY_LEN {
                r matches Ok(PutPlan::Duplicate(s)) && seq_key(s) == p@
            } else {
                r matches Err(IntentError::Codec(m)) && m@ == seq_key_width_text(p@.len())
            },
            _ => r matches Ok(PutPlan::Write { row_key, value, pointer }) && row_key@ == seq_key(
                seq,
            ) && value@ == frame(idempotency_key, proto@) && pointer == idempotency_key,
        },
{
    match (idempotency_key, pointer_row) {
        (Some(_), Some(p)) => match decode_seq_key(p) {
            Ok(s) => Ok(PutPlan::Duplicate(s)),
            Err(e) => Err(e),
        },
        _ => Ok(
            PutPlan::Write {
                row_key: encode_seq_key(seq),
                value: encode_value(idempotency_key, proto),
                pointer: idempotency_key,
            },
        ),
    }
}

/// Rows as key and value bytes.
pub open spec fn row_views(rows: Seq<(Vec<u8>, Vec<u8>)>) -> Seq<(Seq<u8>, Seq<u8>)> {
    Seq::new(rows.len(), |i: int| (rows[i].0@, rows[i].1@))
}

/// Lexicographic order of byte strings of any length.
pub open spec fn lex_greater(a: Seq<u8>, b: Seq<u8>) -> bool
    decreases a.len(),
{
    if a.len() == 0 {
        false
    } else if b.len() == 0 {
        true
    } else if a[0] != b[0] {
        a[0] > b[0]
    } else {
        lex_greater(a.skip(1), b.skip(1))
    }
}

/// Whether one byte string comes after another.
fn slice_after(a: &[u8], b: &[u8]) -> (r: bool)
    ensures
        r == lex_greater(a@, b@),
{
    let mut i: usize = 0;
    assert(a@.skip(0) =~= a@);
    assert(b@.skip(0) =~= b@);
    while i < a.len() && i < b.len()
        invariant
            i <= a@.len(),
            i <= b@.len(),
            lex_greater(a@, b@) == lex_greater(a@.skip(i as int), b@.skip(i as int)),
        decreases a@.len() - i,
    {
        assert(a@.skip(i as int)[0] == a@[i as int]);
        assert(b@.skip(i as int)[0] == b@[i as int]);
        if a[i] != b[i] {
            return a[i] > b[i];
        }
        assert(a@.skip(i as int).skip(1) =~= a@.skip(i + 1));
        assert(b@.skip(i as int).skip(1) =~= b@.skip(i + 1));
        i = i + 1;
    }
    i < a.len()
}

/// For strings of one length the lexicographic order is the order of numbers.
pub proof fn lemma_lex_greater_value(a: Seq<u8>, b: Seq<u8>)
    requires
        a.len() == b.len(),
    ensures
        lex_greater(a, b) <==> be_value(a) > be_value(b),
    decreases a.len(),
{
    if a.len() > 0 {
        if a[0] < b[0] {
            crate::bytes::lemma_be_value_lexicographic(a, b, 0);
        } else if a[0] > b[0] {
            crate::bytes::lemma_be_value_lexicographic(b, a, 0);
        } else {
            lemma_lex_greater_value(a.skip(1), b.skip(1));
            let h = a.take(1);
            assert(h =~= b.take(1));
            assert(a =~= h + a.skip(1));
            assert(b =~= h + b.skip(1));
            lemma_be_value_concat(h, a.skip(1));
            lemma_be_value_concat(h, b.skip(1));
        }
    }
}

/// What pruning takes out: keys of rows, and client keys.
#[verifier::ext_equal]
pub struct PruneView {
    pub rows: Seq<Seq<u8>>,
    pub pointers: Seq<Seq<u8>>,
}

/// Rows, from the first on, whose keys do not come after the cutoff, with the
/// client keys that their values hold; a value that cannot be read stops it.
pub open spec fn prune_view(rows: Seq<(Seq<u8>, Seq<u8>)>, cutoff: Seq<u8>) -> Result<
    PruneView,
    Seq<char>,
>
    decreases rows.len(),
{
    if rows.len() == 0 || lex_greater(rows[0].0, cutoff) {
        Ok(PruneView { rows: Seq::empty(), pointers: Seq::empty() })
    } else {
        match read_frame(rows[0].1) {
            Err(text) => Err(text),
            Ok(f) => match prune_view(rows.skip(1), cutoff) {
                Err(text) => Err(text),
                Ok(v) => Ok(
                    PruneView {
                        rows: seq![rows[0].0] + v.rows,
                        pointers: (match f.0 {
                            Some(k) => seq![k],
                            None => Seq::empty(),
                        }) + v.pointers,
                    },
                ),
            },
        }
    }
}

/// What pruning takes out, in one batch.
pub struct PrunePlan {
    /// Keys of rows.
    pub rows: Vec<Vec<u8>>,
    /// Client keys.
    pub pointers: Vec<IdempotencyKey>,
}

/// Bytes of a list of byte strings.
pub open spec fn bytes_views(s: Seq<Vec<u8>>) -> Seq<Seq<u8>> {
    Seq::new(s.len(), |i: int| s[i]@)
}

/// Bytes of a list of client keys.
pub open spec fn pointer_views(s: Seq<[u8; 16]>) -> Seq<Seq<u8>> {
    Seq::new(s.len(), |i: int| s[i]@)
}

/// Decides what pruning up to and including `up_to` takes out of rows that are
/// given in ascending order of their keys.
pub fn plan_prune(rows: &Vec<(Vec<u8>, Vec<u8>)>, up_to: PerspectiveSeq) -> (r: Result<
    PrunePlan,
    IntentError,
>)
    ensures
        match prune_view(row_views(rows@), seq_key(up_to)) {
            Ok(v) => r matches Ok(p) && bytes_views(p.rows@) == v.rows && pointer_views(p.pointers@)
                == v.pointers,
            Err(text) => r matches Err(IntentError::Codec(m)) && m@ == text,
        },
{
    let cutoff: Vec<u8> = encode_seq_key(up_to);
    let ghost views = row_views(rows@);
    let mut keys: Vec<Vec<u8>> = Vec::new();
    let mut pointers: Vec<IdempotencyKey> = Vec::new();
    let mut i: usize = 0;
    assert(views.skip(0) =~= views);
    while i < rows.len()
        invariant
            i <= rows@.len(),
            views == row_views(rows@),
            cutoff@ == seq_key(up_to),
            match prune_view(views, cutoff@) {
                Ok(v) => prune_view(views.skip(i as int), cutoff@) matches Ok(w) && v.rows
                    == bytes_views(keys@) + w.rows && v.pointers == pointer_views(pointers@)
                    + w.pointers,
                Err(text) => prune_view(views.skip(i as int), cutoff@) == Err::<
                    PruneView,
                    Seq<char>,
                >(text),
            },
        decreases rows@.len() - i,
    {
        let ghost rest = views.skip(i as int);
        assert(rest[0] == (rows@[i as int].0@, rows@[i as int].1@));
        if slice_after(&rows[i].0, &cutoff) {
            assert(bytes_views(keys@) + Seq::<Seq<u8>>::empty() =~= bytes_views(keys@));
            assert(pointer_views(pointers@) + Seq::<Seq<u8>>::empty() =~= pointer_views(pointers@));
            return Ok(PrunePlan { rows: keys, pointers });
        }
        let decoded = match decode_value(&rows[i].1) {
            Ok(v) => v,
            Err(e) => {
                return Err(e);
            },
        };
        let ghost keys0 = bytes_views(keys@);
        let ghost pointers0 = pointer_views(pointers@);
        keys.push(copy_bytes(&rows[i].0));
        assert(bytes_views(keys@) =~= keys0.push(rest[0].0));
        match decoded.idempotency_key {
            Some(k) => {
                pointers.push(k);
                assert(pointer_views(pointers@) =~= pointers0.push(k@));
            },
            None => {},
        }
        proof {
            assert(rest.skip(1) =~= views.skip(i + 1));
            match prune_view(rest.skip(1), cutoff@) {
                Ok(w) => {
                    assert(keys0 + (seq![rest[0].0] + w.rows) =~= keys0.push(rest[0].0) + w.rows);
                    match decoded.idempotency_key {
                        Some(k) => {
                            assert(pointers0 + (seq![k@] + w.pointers) =~= pointers0.push(k@)
                                + w.pointers);
                        },
                        None => {
                            assert(Seq::<Seq<u8>>::empty() + w.pointers =~= w.pointers);
                        },
                    }
                },
                Err(_) => {},
            }
        }
        i = i + 1;
    }
    assert(bytes_views(keys@) + Seq::<Seq<u8>>::empty() =~= bytes_views(keys@));
    assert(pointer_views(pointers@) + Seq::<Seq<u8>>::empty() =~= pointer_views(pointers@));
    Ok(PrunePlan { rows: keys, pointers })
}

/// Law: pruning rows in ascending order takes out exactly the rows whose order
/// is not past `up_to`.
pub proof fn pruning_rows_is_inclusive(
    rows: Seq<(Seq<u8>, Seq<u8>)>,
    seqs: Seq<PerspectiveSeq>,
    up_to: PerspectiveSeq,
)
    requires
        rows.len() == seqs.len(),
        forall|i: int| 0 <= i < rows.len() ==> (#[trigger] rows[i]).0 == seq_key(seqs[i]),
        forall|i: int, j: int|
            0 <= i < j < seqs.len() ==> (#[trigger] seqs[i]).rank() < (#[trigger] seqs[j]).rank(),
        prune_view(rows, seq_key(up_to)) is Ok,
    ensures
        ({
            let out = prune_view(rows, seq_key(up_to))->Ok_0.rows;
            &&& out.len() <= rows.len()
            &&& forall|i: int| 0 <= i < out.len() ==> #[trigger] out[i] == rows[i].0
            &&& forall|i: int|
                0 <= i < rows.len() ==> ((#[trigger] seqs[i]).rank() <= up_to.rank() <==> i
                    < out.len())
        }),
    decreases rows.len(),
{
    if rows.len() > 0 {
        lemma_seq_key_value(seqs[0]);
        lemma_seq_key_value(up_to);
        assert(rows[0].0 == seq_key(seqs[0]));
        lemma_lex_greater_value(rows[0].0, seq_key(up_to));
        let out = prune_view(rows, seq_key(up_to))->Ok_0.rows;
        if lex_greater(rows[0].0, seq_key(up_to)) {
            assert forall|i: int| 0 <= i < rows.len() implies ((#[trigger] seqs[i]).rank()
                <= up_to.rank() <==> i < out.len()) by {
                if i > 0 {
                    assert(seqs[0].rank() < seqs[i].rank());
                }
            }
        } else {
            let rows1 = rows.skip(1);
            let seqs1 = seqs.skip(1);
            assert forall|i: int| 0 <= i < rows1.len() implies (#[trigger] rows1[i]).0 == seq_key(
                seqs1[i],
            ) by {
                assert(rows1[i] == rows[i + 1]);
            }
            pruning_rows_is_inclusive(rows1, seqs1, up_to);
            let out1 = prune_view(rows1, seq_key(up_to))->Ok_0.rows;
            assert(out =~= seq![rows[0].0] + out1);
            assert forall|i: int| 0 <= i < out.len() implies #[trigger] out[i] == rows[i].0 by {
                if i > 0 {
                    assert(out[i] == out1[i - 1]);
                    assert(rows1[i - 1] == rows[i]);
                }
            }
            assert forall|i: int| 0 <= i < rows.len() implies ((#[trigger] seqs[i]).rank()
                <= up_to.rank() <==> i < out.len()) by {
                if i > 0 {
                    assert(seqs1[i - 1] == seqs[i]);
                }
            }
        }
    }
}

/// All of the given rows, with the client keys that their values hold; a value
/// that cannot be read stops it.
pub open spec fn removal_view(rows: Seq<(Seq<u8>, Seq<u8>)>) -> Result<PruneView, Seq<char>>
    decreases rows.len(),
{
    if rows.len() == 0 {
        Ok(PruneView { rows: Seq::empty(), pointers: Seq::empty() })
    } else {
        match removal_view(rows.drop_last()) {
            Err(text) => Err(text),
            Ok(v) => match read_frame(rows.last().1) {
                Err(text) => Err(text),
                Ok(f) => Ok(
                    PruneView {
                        rows: v.rows.push(rows.last().0),
                        pointers: match f.0 {
                            Some(k) => v.pointers.push(k),
                            None => v.pointers,
                        },
                    },
                ),
            },
        }
    }
}

/// Decides what taking out the given rows takes out.
pub fn plan_remove(rows: &Vec<(Vec<u8>, Vec<u8>)>) -> (r: Result<PrunePlan, IntentError>)
    ensures
        match removal_view(row_views(rows@)) {
            Ok(v) => r matches Ok(p) && bytes_views(p.rows@) == v.rows && pointer_views(p.pointers@)
                == v.pointers,
            Err(text) => r matches Err(IntentError::Codec(m)) && m@ == text,
        },
{
    let ghost views = row_views(rows@);
    let mut keys: Vec<Vec<u8>> = Vec::new();
    let mut pointers: Vec<IdempotencyKey> = Vec::new();
    let mut i: usize = 0;
    assert(views.take(0) =~= Seq::<(Seq<u8>, Seq<u8>)>::empty());
    assert(bytes_views(keys@) =~= Seq::<Seq<u8>>::empty());
    assert(pointer_views(pointers@) =~= Seq::<Seq<u8>>::empty());
    while i < rows.len()
        invariant
            i <= rows@.len(),
            views == row_views(rows@),
            removal_view(views.take(i as int)) == Ok::<PruneView, Seq<char>>(
                PruneView { rows: bytes_views(keys@), pointers: pointer_views(pointers@) },
            ),
        decreases rows@.len() - i,
    {
        let ghost upto = views.take(i + 1);
        proof {
            assert(upto.drop_last() =~= views.take(i as int));
            assert(upto.last() == (rows@[i as int].0@, rows@[i as int].1@));
        }
        let decoded = match decode_value(&rows[i].1) {
            Ok(v) => v,
            Err(e) => {
                proof {
                    lemma_removal_fails(views, i + 1);
                }
                return Err(e);
            },
        };
        let ghost keys0 = bytes_views(keys@);
        let ghost pointers0 = pointer_views(pointers@);
        keys.push(copy_bytes(&rows[i].0));
        assert(bytes_views(keys@) =~= keys0.push(rows@[i as int].0@));
        match decoded.idempotency_key {
            Some(k) => {
                pointers.push(k);
                assert(pointer_views(pointers@) =~= pointers0.push(k@));
            },
            None => {},
        }
        i = i + 1;
    }
    assert(views.take(i as int) =~= views);
    Ok(PrunePlan { rows: keys, pointers })
}

/// Rows that follow one that cannot be read do not change what is wrong.
proof fn lemma_removal_fails(rows: Seq<(Seq<u8>, Seq<u8>)>, n: int)
    requires
        0 <= n <= rows.len(),
        removal_view(rows.take(n)) is Err,
    ensures
        removal_view(rows) == removal_view(rows.take(n)),
    decreases rows.len() - n,
{
    if n < rows.len() {
        assert(rows.take(n + 1).drop_last() =~= rows.take(n));
        lemma_removal_fails(rows, n + 1);
    } else {
        assert(rows.take(n) =~= rows);
    }
}

/// A row taken apart: the order from its key, the rest from its value.
pub struct StoredIntent {
    /// The order.
    pub seq: PerspectiveSeq,
    /// The client key.
    pub idempotency_key: Option<IdempotencyKey>,
    /// The encoded append.
    pub proto: Vec<u8>,
}

/// A row is what an intent was written as.
pub open spec fn row_reads_as(row: (Seq<u8>, Seq<u8>), i: StoredIntent) -> bool {
    &&& row.0 == seq_key(i.seq)
    &&& read_frame(row.1) matches Ok(f) && f.0 == key_bytes(i.idempotency_key) && f.1 == i.proto@
}

/// What is wrong with a row, if anything: its key first, then its value.
pub open spec fn row_error(row: (Seq<u8>, Seq<u8>)) -> Option<Seq<char>> {
    if row.0.len() != SEQ_KEY_LEN {
        Some(seq_key_width_text(row.0.len()))
    } else {
        match read_frame(row.1) {
            Ok(_) => None,
            Err(text) => Some(text),
        }
    }
}

/// Not every row can be read, and `text` says what is wrong with the first that
/// cannot.
pub open spec fn first_row_error(rows: Seq<(Seq<u8>, Seq<u8>)>, text: Seq<char>) -> bool {
    exists|i: int|
        0 <= i < rows.len() && row_error(#[trigger] rows[i]) == Some(text) && (forall|j: int|
            0 <= j < i ==> row_error(#[trigger] rows[j]) is None)
}

/// Takes rows apart, in order; the first that cannot be read stops it.
pub fn decode_rows(rows: &Vec<(Vec<u8>, Vec<u8>)>) -> (r: Result<Vec<StoredIntent>, IntentError>)
    ensures
        match r {
            Ok(v) => v@.len() == rows@.len() && (forall|i: int|
                0 <= i < v@.len() ==> row_reads_as(row_views(rows@)[i], #[trigger] v@[i])),
            Err(IntentError::Codec(m)) => first_row_error(row_views(rows@), m@),
            Err(_) => false,
        },
{
    let ghost views = row_views(rows@);
    let mut out: Vec<StoredIntent> = Vec::new();
    let mut i: usize = 0;
    while i < rows.len()
        invariant
            i <= rows@.len(),
            views == row_views(rows@),
            out@.len() == i,
            forall|j: int| 0 <= j < i ==> row_reads_as(views[j], #[trigger] out@[j]),
            forall|j: int| 0 <= j < i ==> row_error(#[trigger] views[j]) is None,
        decreases rows@.len() - i,
    {
        assert(views[i as int] == (rows@[i as int].0@, rows@[i as int].1@));
        let seq = match decode_seq_key(&rows[i].0) {
            Ok(s) => s,
            Err(e) => {
                assert(row_error(views[i as int]) is Some);
                return Err(e);
            },
        };
        let value = match decode_value(&rows[i].1) {
            Ok(v) => v,
            Err(e) => {
                assert(row_error(views[i as int]) is Some);
                return Err(e);
            },
        };
        out.push(
            StoredIntent { seq, idempotency_key: value.idempotency_key, proto: value.proto },
        );
        i = i + 1;
    }
    Ok(out)
}

} // verus!
