//! The intent store on disk, as bytes under keys: what its rows and pointers say of
//! an intent table, and that the plans of [`crate::intent_codec`] change them as the
//! table changes.

use vstd::prelude::*;

use crate::bytes::be_value;
use crate::intent::{
    is_duplicate, lists, pruned_table, put_outcome, put_table, removed_table, table_wf,
    without, IntentTable, IntentView, PerspectiveSeq, PutOutcome,
};
use crate::intent_codec::{
    frame, frame_round_trip, key_bytes, lemma_lex_greater_value, lemma_seq_key_value, lex_greater,
    prune_view, read_frame, removal_view, row_error, row_reads_as, seq_key,
    seq_keys_preserve_order, PruneView, StoredIntent, SEQ_KEY_LEN,
};
use crate::ordered_map::OrderedKey;
use crate::traits::ChunkAppendView;

verus! {

/// How appends are written.
pub type AppendEncoding = spec_fn(ChunkAppendView) -> Seq<u8>;

/// How appends are read.
pub type AppendDecoding = spec_fn(Seq<u8>) -> ChunkAppendView;

/// What is on disk: a row for each intent under its order, and a pointer from each
/// client key to the row that it was recorded with.
#[verifier::ext_equal]
pub struct DiskView {
    pub rows: Map<Seq<u8>, Seq<u8>>,
    pub pointers: Map<Seq<u8>, Seq<u8>>,
}

/// What is on disk says what the table holds, and nothing more.
pub open spec fn stores(d: DiskView, t: IntentTable, enc: AppendEncoding) -> bool {
    &&& forall|s: PerspectiveSeq| #[trigger]
        t.by_seq.contains_key(s) ==> d.rows.contains_key(seq_key(s)) && d.rows[seq_key(s)] == frame(
            t.by_seq[s].key,
            enc(t.by_seq[s].append),
        )
    &&& forall|k: Seq<u8>| #[trigger]
        d.rows.contains_key(k) ==> exists|s: PerspectiveSeq| #[trigger]
            t.by_seq.contains_key(s) && k == seq_key(s)
    &&& forall|c: [u8; 16]| #[trigger]
        t.by_key.contains_key(c) ==> d.pointers.contains_key(c@) && d.pointers[c@] == seq_key(
            t.by_key[c],
        )
    &&& forall|k: Seq<u8>| #[trigger]
        d.pointers.contains_key(k) ==> exists|c: [u8; 16]| #[trigger]
            t.by_key.contains_key(c) && k == c@
}

/// Client keys and intents belong together, one to one.
pub open spec fn linked(t: IntentTable) -> bool {
    &&& forall|c: [u8; 16]| #[trigger]
        t.by_key.contains_key(c) ==> t.by_seq.contains_key(t.by_key[c])
            && t.by_seq[t.by_key[c]].key == Some(c)
    &&& forall|s: PerspectiveSeq| #[trigger]
        t.by_seq.contains_key(s) ==> (t.by_seq[s].key matches Some(c) ==> t.by_key.contains_key(c)
            && t.by_key[c] == s)
}

/// Every append is short enough for its frame to state its length.
pub open spec fn appends_fit(t: IntentTable, enc: AppendEncoding) -> bool {
    forall|s: PerspectiveSeq| #[trigger]
        t.by_seq.contains_key(s) ==> enc(t.by_seq[s].append).len() <= u32::MAX
}

/// What is on disk after the plan to record an intent was carried out.
pub open spec fn disk_put(d: DiskView, i: IntentView, proto: Seq<u8>) -> DiskView {
    if i.key matches Some(c) && d.pointers.contains_key(c@) {
        d
    } else {
        DiskView {
            rows: d.rows.insert(seq_key(i.seq), frame(i.key, proto)),
            pointers: match i.key {
                Some(c) => d.pointers.insert(c@, seq_key(i.seq)),
                None => d.pointers,
            },
        }
    }
}

/// What is on disk after a plan to take rows out was carried out.
pub open spec fn disk_removed(d: DiskView, v: PruneView) -> DiskView {
    DiskView {
        rows: Map::new(
            |k: Seq<u8>| d.rows.contains_key(k) && !v.rows.contains(k),
            |k: Seq<u8>| d.rows[k],
        ),
        pointers: Map::new(
            |k: Seq<u8>| d.pointers.contains_key(k) && !v.pointers.contains(k),
            |k: Seq<u8>| d.pointers[k],
        ),
    }
}

/// The rows on disk, in ascending order of their keys.
pub open spec fn listed(rows: Seq<(Seq<u8>, Seq<u8>)>, d: DiskView) -> bool {
    &&& forall|i: int, j: int|
        0 <= i < j < rows.len() ==> lex_greater((#[trigger] rows[j]).0, (#[trigger] rows[i]).0)
    &&& forall|i: int|
        0 <= i < rows.len() ==> d.rows.contains_key((#[trigger] rows[i]).0) && d.rows[rows[i].0]
            == rows[i].1
    &&& forall|k: Seq<u8>| #[trigger]
        d.rows.contains_key(k) ==> exists|i: int| 0 <= i < rows.len() && (#[trigger] rows[i]).0 == k
}

/// Whether a key is that of one of the given orders.
pub open spec fn names(seqs: Seq<PerspectiveSeq>, k: Seq<u8>) -> bool {
    exists|s: PerspectiveSeq| #[trigger] seqs.contains(s) && k == seq_key(s)
}

/// Whether there is a row under a key.
pub open spec fn has_row(rows: Seq<(Seq<u8>, Seq<u8>)>, k: Seq<u8>) -> bool {
    exists|i: int| 0 <= i < rows.len() && (#[trigger] rows[i]).0 == k
}

/// The rows on disk that stand under one of the given orders.
pub open spec fn found(
    rows: Seq<(Seq<u8>, Seq<u8>)>,
    seqs: Seq<PerspectiveSeq>,
    d: DiskView,
) -> bool {
    &&& forall|i: int|
        0 <= i < rows.len() ==> d.rows.contains_key((#[trigger] rows[i]).0) && d.rows[rows[i].0]
            == rows[i].1 && names(seqs, rows[i].0)
    &&& forall|s: PerspectiveSeq| #[trigger]
        seqs.contains(s) && d.rows.contains_key(seq_key(s)) ==> has_row(rows, seq_key(s))
}

/// The intents that rows were read back as.
pub open spec fn read_back(v: Seq<StoredIntent>, dec: AppendDecoding) -> Seq<IntentView> {
    Seq::new(
        v.len(),
        |i: int|
            IntentView {
                seq: v[i].seq,
                key: v[i].idempotency_key,
                append: dec(v[i].proto@),
            },
    )
}

/// Client keys with the same bytes are the same.
proof fn lemma_same_key(a: [u8; 16], b: [u8; 16])
    requires
        a@ == b@,
    ensures
        a == b,
{
    <[u8; 16]>::rank_injective(a, b);
}

/// Law: recording an intent on disk is recording it in the table. It is found to be
/// a duplicate where it is one there, and the pointer then gives the same order.
pub proof fn disk_put_matches_the_table(
    d: DiskView,
    t: IntentTable,
    i: IntentView,
    enc: AppendEncoding,
)
    requires
        stores(d, t, enc),
    ensures
        stores(disk_put(d, i, enc(i.append)), put_table(t, i), enc),
        is_duplicate(t, i) <==> (i.key matches Some(c) && d.pointers.contains_key(c@)),
        forall|s: PerspectiveSeq|
            is_duplicate(t, i) && #[trigger] seq_key(s) == d.pointers[i.key->0@] ==> put_outcome(t, i)
                == PutOutcome::Duplicate(s),
{
    match i.key {
        Some(c) => {
            if d.pointers.contains_key(c@) {
                let c2 = choose|c2: [u8; 16]| #[trigger] t.by_key.contains_key(c2) && c@ == c2@;
                lemma_same_key(c, c2);
            }
        },
        None => {},
    }
    if is_duplicate(t, i) {
        assert forall|s: PerspectiveSeq| #[trigger]
            seq_key(s) == d.pointers[i.key->0@] implies put_outcome(t, i) == PutOutcome::Duplicate(
            s,
        ) by {
            seq_keys_preserve_order(s, t.by_key[i.key->0]);
        }
    } else {
        let d2 = disk_put(d, i, enc(i.append));
        let t2 = put_table(t, i);
        assert forall|s: PerspectiveSeq| #[trigger]
            t2.by_seq.contains_key(s) implies d2.rows.contains_key(seq_key(s))
            && d2.rows[seq_key(s)] == frame(t2.by_seq[s].key, enc(t2.by_seq[s].append)) by {
            if s != i.seq {
                assert(t.by_seq.contains_key(s));
                seq_keys_preserve_order(s, i.seq);
            }
        }
        assert forall|k: Seq<u8>| #[trigger] d2.rows.contains_key(k) implies exists|
            s: PerspectiveSeq,
        | #[trigger] t2.by_seq.contains_key(s) && k == seq_key(s) by {
            if k == seq_key(i.seq) {
                assert(t2.by_seq.contains_key(i.seq));
            } else {
                assert(d.rows.contains_key(k));
                let s = choose|s: PerspectiveSeq| #[trigger]
                    t.by_seq.contains_key(s) && k == seq_key(s);
                assert(t2.by_seq.contains_key(s));
            }
        }
        assert forall|c: [u8; 16]| #[trigger] t2.by_key.contains_key(c) implies d2.pointers.contains_key(
            c@,
        ) && d2.pointers[c@] == seq_key(t2.by_key[c]) by {
            if i.key != Some(c) {
                assert(t.by_key.contains_key(c));
                if i.key is Some && i.key->0@ == c@ {
                    lemma_same_key(i.key->0, c);
                }
            }
        }
        assert forall|k: Seq<u8>| #[trigger] d2.pointers.contains_key(k) implies exists|
            c: [u8; 16],
        | #[trigger] t2.by_key.contains_key(c) && k == c@ by {
            if i.key is Some && k == i.key->0@ {
                assert(t2.by_key.contains_key(i.key->0));
            } else {
                assert(d.pointers.contains_key(k));
                let c = choose|c: [u8; 16]| #[trigger] t.by_key.contains_key(c) && k == c@;
                assert(t2.by_key.contains_key(c));
            }
        }
    }
}

/// Law: recording intents under fresh orders keeps client keys and intents
/// together.
pub proof fn fresh_orders_keep_the_link(t: IntentTable, i: IntentView)
    requires
        linked(t),
        !t.by_seq.contains_key(i.seq),
    ensures
        linked(put_table(t, i)),
{
    if !is_duplicate(t, i) {
        let t2 = put_table(t, i);
        assert forall|c: [u8; 16]| #[trigger] t2.by_key.contains_key(c) implies t2.by_seq.contains_key(
            t2.by_key[c],
        ) && t2.by_seq[t2.by_key[c]].key == Some(c) by {
            if i.key != Some(c) {
                assert(t.by_key.contains_key(c));
            }
        }
        assert forall|s: PerspectiveSeq| #[trigger] t2.by_seq.contains_key(s) implies (
        t2.by_seq[s].key matches Some(c) ==> t2.by_key.contains_key(c) && t2.by_key[c] == s) by {
            if s != i.seq {
                assert(t.by_seq.contains_key(s));
            }
        }
    }
}

/// What a row on disk is.
proof fn lemma_row(d: DiskView, t: IntentTable, enc: AppendEncoding, k: Seq<u8>) -> (s:
    PerspectiveSeq)
    requires
        stores(d, t, enc),
        appends_fit(t, enc),
        d.rows.contains_key(k),
    ensures
        t.by_seq.contains_key(s),
        k == seq_key(s),
        k.len() == SEQ_KEY_LEN,
        be_value(k) == s.rank(),
        read_frame(d.rows[k]) == Ok::<(Option<Seq<u8>>, Seq<u8>), Seq<char>>(
            (key_bytes(t.by_seq[s].key), enc(t.by_seq[s].append)),
        ),
{
    let s = choose|s: PerspectiveSeq| #[trigger] t.by_seq.contains_key(s) && k == seq_key(s);
    lemma_seq_key_value(s);
    frame_round_trip(t.by_seq[s].key, enc(t.by_seq[s].append));
    s
}

/// Law: reading the rows back gives the intents of the table, in order. Every row
/// can be read.
pub proof fn disk_rows_list_the_table(
    rows: Seq<(Seq<u8>, Seq<u8>)>,
    v: Seq<StoredIntent>,
    d: DiskView,
    t: IntentTable,
    enc: AppendEncoding,
    dec: AppendDecoding,
)
    requires
        stores(d, t, enc),
        table_wf(t),
        appends_fit(t, enc),
        forall|a: ChunkAppendView| #[trigger] dec(enc(a)) == a,
        listed(rows, d),
        v.len() == rows.len(),
        forall|i: int| 0 <= i < v.len() ==> row_reads_as(rows[i], #[trigger] v[i]),
    ensures
        lists(read_back(v, dec), t),
        forall|i: int| 0 <= i < rows.len() ==> row_error(#[trigger] rows[i]) is None,
{
    let l = read_back(v, dec);
    assert forall|i: int| 0 <= i < rows.len() implies row_error(#[trigger] rows[i]) is None by {
        lemma_row(d, t, enc, rows[i].0);
    }
    assert forall|i: int| 0 <= i < l.len() implies t.by_seq.contains_key((#[trigger] l[i]).seq)
        && t.by_seq[l[i].seq] == l[i] by {
        assert(row_reads_as(rows[i], v[i]));
        let s = lemma_row(d, t, enc, rows[i].0);
        seq_keys_preserve_order(s, v[i].seq);
        let w = t.by_seq[s];
        match (w.key, v[i].idempotency_key) {
            (Some(a), Some(b)) => {
                lemma_same_key(a, b);
            },
            _ => {},
        }
        assert(dec(enc(w.append)) == w.append);
    }
    assert forall|i: int, j: int| 0 <= i < j < l.len() implies (#[trigger] l[i]).seq.rank() < (
    #[trigger] l[j]).seq.rank() by {
        assert(row_reads_as(rows[i], v[i]));
        assert(row_reads_as(rows[j], v[j]));
        assert(lex_greater(rows[j].0, rows[i].0));
        lemma_seq_key_value(v[i].seq);
        lemma_seq_key_value(v[j].seq);
        lemma_lex_greater_value(rows[j].0, rows[i].0);
    }
    assert forall|q: PerspectiveSeq| #[trigger] t.by_seq.contains_key(q) implies exists|i: int|
        0 <= i < l.len() && (#[trigger] l[i]).seq == q by {
        assert(d.rows.contains_key(seq_key(q)));
        let i = choose|i: int| 0 <= i < rows.len() && (#[trigger] rows[i]).0 == seq_key(q);
        assert(row_reads_as(rows[i], v[i]));
        seq_keys_preserve_order(v[i].seq, q);
        assert(l[i].seq == q);
    }
}

/// The orders that a plan takes out, with the client keys of their intents, are
/// those that `gone` names.
spec fn takes_out(v: PruneView, t: IntentTable, gone: spec_fn(PerspectiveSeq) -> bool) -> bool {
    &&& forall|s: PerspectiveSeq| #[trigger]
        t.by_seq.contains_key(s) ==> (v.rows.contains(seq_key(s)) <==> gone(s))
    &&& forall|s: PerspectiveSeq| #[trigger]
        t.by_seq.contains_key(s) && gone(s) ==> (t.by_seq[s].key matches Some(c)
            ==> v.pointers.contains(c@))
    &&& forall|p: Seq<u8>| #[trigger]
        v.pointers.contains(p) ==> exists|s: PerspectiveSeq| #[trigger]
            t.by_seq.contains_key(s) && gone(s) && key_bytes(t.by_seq[s].key) == Some(p)
}

/// Taking rows out of the disk is taking their intents out of the table.
proof fn lemma_disk_removed(
    d: DiskView,
    t: IntentTable,
    enc: AppendEncoding,
    v: PruneView,
    gone: spec_fn(PerspectiveSeq) -> bool,
)
    requires
        stores(d, t, enc),
        linked(t),
        takes_out(v, t, gone),
    ensures
        stores(disk_removed(d, v), without(t, gone), enc),
        linked(without(t, gone)),
{
    let d2 = disk_removed(d, v);
    let t2 = without(t, gone);
    assert forall|s: PerspectiveSeq| #[trigger] t2.by_seq.contains_key(s) implies d2.rows.contains_key(
        seq_key(s),
    ) && d2.rows[seq_key(s)] == frame(t2.by_seq[s].key, enc(t2.by_seq[s].append)) by {
        assert(t.by_seq.contains_key(s));
    }
    assert forall|k: Seq<u8>| #[trigger] d2.rows.contains_key(k) implies exists|s: PerspectiveSeq|
        #[trigger] t2.by_seq.contains_key(s) && k == seq_key(s) by {
        assert(d.rows.contains_key(k));
        let s = choose|s: PerspectiveSeq| #[trigger] t.by_seq.contains_key(s) && k == seq_key(s);
        assert(t2.by_seq.contains_key(s));
    }
    assert forall|c: [u8; 16]| #[trigger] t2.by_key.contains_key(c) implies d2.pointers.contains_key(
        c@,
    ) && d2.pointers[c@] == seq_key(t2.by_key[c]) by {
        assert(t.by_key.contains_key(c));
        if v.pointers.contains(c@) {
            let s = choose|s: PerspectiveSeq| #[trigger]
                t.by_seq.contains_key(s) && gone(s) && key_bytes(t.by_seq[s].key) == Some(c@);
            lemma_same_key(t.by_seq[s].key->0, c);
            assert(t.by_key[c] == s);
            assert(!t2.by_seq.contains_key(s));
        }
    }
    assert forall|k: Seq<u8>| #[trigger] d2.pointers.contains_key(k) implies exists|c: [u8; 16]|
        #[trigger] t2.by_key.contains_key(c) && k == c@ by {
        assert(d.pointers.contains_key(k));
        let c = choose|c: [u8; 16]| #[trigger] t.by_key.contains_key(c) && k == c@;
        let s = t.by_key[c];
        assert(t.by_seq.contains_key(s) && t.by_seq[s].key == Some(c));
        assert(!gone(s));
        assert(t2.by_seq.contains_key(s));
        assert(t2.by_key.contains_key(c));
    }
    assert forall|c: [u8; 16]| #[trigger] t2.by_key.contains_key(c) implies t2.by_seq.contains_key(
        t2.by_key[c],
    ) && t2.by_seq[t2.by_key[c]].key == Some(c) by {
        assert(t.by_key.contains_key(c));
    }
    assert forall|s: PerspectiveSeq| #[trigger] t2.by_seq.contains_key(s) implies (
    t2.by_seq[s].key matches Some(c) ==> t2.by_key.contains_key(c) && t2.by_key[c] == s) by {
        assert(t.by_seq.contains_key(s));
    }
}

/// What pruning takes out of rows in ascending order: those that are not past the
/// cutoff.
proof fn lemma_prune_view(rows: Seq<(Seq<u8>, Seq<u8>)>, cutoff: Seq<u8>)
    requires
        cutoff.len() == SEQ_KEY_LEN,
        forall|i: int|
            0 <= i < rows.len() ==> (#[trigger] rows[i]).0.len() == SEQ_KEY_LEN && read_frame(
                rows[i].1,
            ) is Ok,
        forall|i: int, j: int|
            0 <= i < j < rows.len() ==> be_value((#[trigger] rows[i]).0) < be_value(
                (#[trigger] rows[j]).0,
            ),
    ensures
        prune_view(rows, cutoff) matches Ok(v) && {
            &&& forall|i: int|
                0 <= i < rows.len() && be_value((#[trigger] rows[i]).0) <= be_value(cutoff)
                    ==> v.rows.contains(rows[i].0) && (read_frame(rows[i].1)->Ok_0.0 matches Some(p)
                    ==> v.pointers.contains(p))
            &&& forall|k: Seq<u8>| #[trigger]
                v.rows.contains(k) ==> exists|i: int|
                    0 <= i < rows.len() && (#[trigger] rows[i]).0 == k && be_value(k) <= be_value(
                        cutoff,
                    )
            &&& forall|p: Seq<u8>| #[trigger]
                v.pointers.contains(p) ==> exists|i: int|
                    0 <= i < rows.len() && be_value((#[trigger] rows[i]).0) <= be_value(cutoff)
                        && read_frame(rows[i].1)->Ok_0.0 == Some(p)
        },
    decreases rows.len(),
{
    if rows.len() > 0 {
        lemma_lex_greater_value(rows[0].0, cutoff);
        if lex_greater(rows[0].0, cutoff) {
            assert forall|i: int| 0 <= i < rows.len() implies be_value((#[trigger] rows[i]).0)
                > be_value(cutoff) by {
                if i > 0 {
                    assert(be_value(rows[0].0) < be_value(rows[i].0));
                }
            }
        } else {
            let rest = rows.skip(1);
            assert forall|i: int| 0 <= i < rest.len() implies (#[trigger] rest[i]).0.len()
                == SEQ_KEY_LEN && read_frame(rest[i].1) is Ok by {
                assert(rest[i] == rows[i + 1]);
            }
            assert forall|i: int, j: int| 0 <= i < j < rest.len() implies be_value(
                (#[trigger] rest[i]).0,
            ) < be_value((#[trigger] rest[j]).0) by {
                assert(rest[i] == rows[i + 1]);
                assert(rest[j] == rows[j + 1]);
            }
            lemma_prune_view(rest, cutoff);
            let w = prune_view(rest, cutoff)->Ok_0;
            let v = prune_view(rows, cutoff)->Ok_0;
            let head: Seq<Seq<u8>> = match read_frame(rows[0].1)->Ok_0.0 {
                Some(p) => seq![p],
                None => Seq::empty(),
            };
            assert(v.rows == seq![rows[0].0] + w.rows);
            assert(v.pointers == head + w.pointers);
            assert forall|i: int|
                0 <= i < rows.len() && be_value((#[trigger] rows[i]).0) <= be_value(
                    cutoff,
                ) implies v.rows.contains(rows[i].0) && (read_frame(rows[i].1)->Ok_0.0 matches Some(p)
                ==> v.pointers.contains(p)) by {
                if i == 0 {
                    assert(v.rows[0] == rows[0].0);
                    if read_frame(rows[0].1)->Ok_0.0 is Some {
                        assert(v.pointers[0] == read_frame(rows[0].1)->Ok_0.0->0);
                    }
                } else {
                    assert(rest[i - 1] == rows[i]);
                    let n = choose|n: int| 0 <= n < w.rows.len() && w.rows[n] == rows[i].0;
                    assert(v.rows[n + 1] == w.rows[n]);
                    match read_frame(rows[i].1)->Ok_0.0 {
                        Some(p) => {
                            let m = choose|m: int| 0 <= m < w.pointers.len() && w.pointers[m] == p;
                            assert(v.pointers[head.len() + m] == w.pointers[m]);
                        },
                        None => {},
                    }
                }
            }
            assert forall|k: Seq<u8>| #[trigger] v.rows.contains(k) implies exists|i: int|
                0 <= i < rows.len() && (#[trigger] rows[i]).0 == k && be_value(k) <= be_value(
                    cutoff,
                ) by {
                let n = choose|n: int| 0 <= n < v.rows.len() && v.rows[n] == k;
                if n == 0 {
                    assert(rows[0].0 == k);
                } else {
                    assert(w.rows[n - 1] == k);
                    assert(w.rows.contains(k));
                    let i = choose|i: int|
                        0 <= i < rest.len() && (#[trigger] rest[i]).0 == k && be_value(k)
                            <= be_value(cutoff);
                    assert(rows[i + 1] == rest[i]);
                }
            }
            assert forall|p: Seq<u8>| #[trigger] v.pointers.contains(p) implies exists|i: int|
                0 <= i < rows.len() && be_value((#[trigger] rows[i]).0) <= be_value(cutoff)
                    && read_frame(rows[i].1)->Ok_0.0 == Some(p) by {
                let n = choose|n: int| 0 <= n < v.pointers.len() && v.pointers[n] == p;
                if n < head.len() {
                    assert(head[n] == p);
                    assert(read_frame(rows[0].1)->Ok_0.0 == Some(p));
                } else {
                    assert(w.pointers[n - head.len()] == p);
                    assert(w.pointers.contains(p));
                    let i = choose|i: int|
                        0 <= i < rest.len() && be_value((#[trigger] rest[i]).0) <= be_value(cutoff)
                            && read_frame(rest[i].1)->Ok_0.0 == Some(p);
                    assert(rows[i + 1] == rest[i]);
                }
            }
        }
    }
}

/// Law: pruning the disk is pruning the table.
pub proof fn disk_prune_matches_the_table(
    rows: Seq<(Seq<u8>, Seq<u8>)>,
    d: DiskView,
    t: IntentTable,
    enc: AppendEncoding,
    up_to: PerspectiveSeq,
)
    requires
        stores(d, t, enc),
        linked(t),
        appends_fit(t, enc),
        listed(rows, d),
    ensures
        prune_view(rows, seq_key(up_to)) matches Ok(v) && stores(
            disk_removed(d, v),
            pruned_table(t, up_to),
            enc,
        ),
        linked(pruned_table(t, up_to)),
{
    let cutoff = seq_key(up_to);
    let gone = |s: PerspectiveSeq| s.rank() <= up_to.rank();
    lemma_seq_key_value(up_to);
    assert forall|i: int| 0 <= i < rows.len() implies (#[trigger] rows[i]).0.len() == SEQ_KEY_LEN
        && read_frame(rows[i].1) is Ok by {
        lemma_row(d, t, enc, rows[i].0);
    }
    assert forall|i: int, j: int| 0 <= i < j < rows.len() implies be_value((#[trigger] rows[i]).0)
        < be_value((#[trigger] rows[j]).0) by {
        assert(lex_greater(rows[j].0, rows[i].0));
        lemma_lex_greater_value(rows[j].0, rows[i].0);
    }
    lemma_prune_view(rows, cutoff);
    let v = prune_view(rows, cutoff)->Ok_0;
    assert forall|s: PerspectiveSeq| #[trigger] t.by_seq.contains_key(s) implies (v.rows.contains(
        seq_key(s),
    ) <==> gone(s)) by {
        lemma_seq_key_value(s);
        assert(d.rows.contains_key(seq_key(s)));
        let i = choose|i: int| 0 <= i < rows.len() && (#[trigger] rows[i]).0 == seq_key(s);
        assert(be_value(rows[i].0) == s.rank());
    }
    assert forall|s: PerspectiveSeq| #[trigger] t.by_seq.contains_key(s) && gone(s) implies (
    t.by_seq[s].key matches Some(c) ==> v.pointers.contains(c@)) by {
        lemma_seq_key_value(s);
        assert(d.rows.contains_key(seq_key(s)));
        let i = choose|i: int| 0 <= i < rows.len() && (#[trigger] rows[i]).0 == seq_key(s);
        let s2 = lemma_row(d, t, enc, rows[i].0);
        seq_keys_preserve_order(s, s2);
        assert(be_value(rows[i].0) <= be_value(cutoff));
    }
    assert forall|p: Seq<u8>| #[trigger] v.pointers.contains(p) implies exists|s: PerspectiveSeq|
        #[trigger] t.by_seq.contains_key(s) && gone(s) && key_bytes(t.by_seq[s].key) == Some(p) by {
        let i = choose|i: int|
            0 <= i < rows.len() && be_value((#[trigger] rows[i]).0) <= be_value(cutoff)
                && read_frame(rows[i].1)->Ok_0.0 == Some(p);
        let s = lemma_row(d, t, enc, rows[i].0);
        assert(t.by_seq.contains_key(s) && gone(s));
    }
    lemma_disk_removed(d, t, enc, v, gone);
}

/// What taking out the given rows takes out.
proof fn lemma_removal_view(rows: Seq<(Seq<u8>, Seq<u8>)>)
    requires
        forall|i: int| 0 <= i < rows.len() ==> read_frame((#[trigger] rows[i]).1) is Ok,
    ensures
        removal_view(rows) matches Ok(v) && {
            &&& forall|i: int|
                0 <= i < rows.len() ==> v.rows.contains((#[trigger] rows[i]).0) && (read_frame(
                    rows[i].1,
                )->Ok_0.0 matches Some(p) ==> v.pointers.contains(p))
            &&& forall|k: Seq<u8>| #[trigger]
                v.rows.contains(k) ==> exists|i: int|
                    0 <= i < rows.len() && (#[trigger] rows[i]).0 == k
            &&& forall|p: Seq<u8>| #[trigger]
                v.pointers.contains(p) ==> exists|i: int|
                    0 <= i < rows.len() && read_frame((#[trigger] rows[i]).1)->Ok_0.0 == Some(p)
        },
    decreases rows.len(),
{
    if rows.len() > 0 {
        let front = rows.drop_last();
        assert forall|i: int| 0 <= i < front.len() implies read_frame((#[trigger] front[i]).1) is Ok by {
            assert(front[i] == rows[i]);
        }
        lemma_removal_view(front);
        let w = removal_view(front)->Ok_0;
        let v = removal_view(rows)->Ok_0;
        let last = rows.last();
        assert(read_frame(rows[rows.len() - 1].1) is Ok);
        assert forall|i: int| 0 <= i < rows.len() implies v.rows.contains((#[trigger] rows[i]).0) && (
        read_frame(rows[i].1)->Ok_0.0 matches Some(p) ==> v.pointers.contains(p)) by {
            if i == rows.len() - 1 {
                assert(v.rows[w.rows.len() as int] == last.0);
                if read_frame(last.1)->Ok_0.0 is Some {
                    assert(v.pointers[w.pointers.len() as int] == read_frame(last.1)->Ok_0.0->0);
                }
            } else {
                assert(front[i] == rows[i]);
                let n = choose|n: int| 0 <= n < w.rows.len() && w.rows[n] == rows[i].0;
                assert(v.rows[n] == rows[i].0);
                match read_frame(rows[i].1)->Ok_0.0 {
                    Some(p) => {
                        let m = choose|m: int| 0 <= m < w.pointers.len() && w.pointers[m] == p;
                        assert(v.pointers[m] == p);
                    },
                    None => {},
                }
            }
        }
        assert forall|k: Seq<u8>| #[trigger] v.rows.contains(k) implies exists|i: int|
            0 <= i < rows.len() && (#[trigger] rows[i]).0 == k by {
            let n = choose|n: int| 0 <= n < v.rows.len() && v.rows[n] == k;
            if n == w.rows.len() {
                assert(rows[rows.len() - 1].0 == k);
            } else {
                assert(w.rows[n] == k);
                assert(w.rows.contains(k));
                let i = choose|i: int| 0 <= i < front.len() && (#[trigger] front[i]).0 == k;
                assert(rows[i] == front[i]);
            }
        }
        assert forall|p: Seq<u8>| #[trigger] v.pointers.contains(p) implies exists|i: int|
            0 <= i < rows.len() && read_frame((#[trigger] rows[i]).1)->Ok_0.0 == Some(p) by {
            let n = choose|n: int| 0 <= n < v.pointers.len() && v.pointers[n] == p;
            if n == w.pointers.len() {
                assert(read_frame(rows[rows.len() - 1].1)->Ok_0.0 == Some(p));
            } else {
                assert(w.pointers[n] == p);
                assert(w.pointers.contains(p));
                let i = choose|i: int|
                    0 <= i < front.len() && read_frame((#[trigger] front[i]).1)->Ok_0.0 == Some(p);
                assert(rows[i] == front[i]);
            }
        }
    }
}

/// Law: taking orders off the disk is taking them out of the table.
pub proof fn disk_remove_matches_the_table(
    rows: Seq<(Seq<u8>, Seq<u8>)>,
    seqs: Seq<PerspectiveSeq>,
    d: DiskView,
    t: IntentTable,
    enc: AppendEncoding,
)
    requires
        stores(d, t, enc),
        linked(t),
        appends_fit(t, enc),
        found(rows, seqs, d),
    ensures
        removal_view(rows) matches Ok(v) && stores(disk_removed(d, v), removed_table(t, seqs), enc),
        linked(removed_table(t, seqs)),
{
    let gone = |s: PerspectiveSeq| seqs.contains(s);
    assert forall|i: int| 0 <= i < rows.len() implies read_frame((#[trigger] rows[i]).1) is Ok by {
        lemma_row(d, t, enc, rows[i].0);
    }
    lemma_removal_view(rows);
    let v = removal_view(rows)->Ok_0;
    assert forall|s: PerspectiveSeq| #[trigger] t.by_seq.contains_key(s) implies (v.rows.contains(
        seq_key(s),
    ) <==> gone(s)) by {
        assert(d.rows.contains_key(seq_key(s)));
        if v.rows.contains(seq_key(s)) {
            let i = choose|i: int| 0 <= i < rows.len() && (#[trigger] rows[i]).0 == seq_key(s);
            assert(names(seqs, rows[i].0));
            let s2 = choose|s2: PerspectiveSeq| #[trigger]
                seqs.contains(s2) && rows[i].0 == seq_key(s2);
            seq_keys_preserve_order(s, s2);
        }
        if gone(s) {
            assert(has_row(rows, seq_key(s)));
            let i = choose|i: int| 0 <= i < rows.len() && (#[trigger] rows[i]).0 == seq_key(s);
            assert(v.rows.contains(rows[i].0));
        }
    }
    assert forall|s: PerspectiveSeq| #[trigger] t.by_seq.contains_key(s) && gone(s) implies (
    t.by_seq[s].key matches Some(c) ==> v.pointers.contains(c@)) by {
        assert(d.rows.contains_key(seq_key(s)));
        assert(has_row(rows, seq_key(s)));
        let i = choose|i: int| 0 <= i < rows.len() && (#[trigger] rows[i]).0 == seq_key(s);
        let s2 = lemma_row(d, t, enc, rows[i].0);
        seq_keys_preserve_order(s, s2);
    }
    assert forall|p: Seq<u8>| #[trigger] v.pointers.contains(p) implies exists|s: PerspectiveSeq|
        #[trigger] t.by_seq.contains_key(s) && gone(s) && key_bytes(t.by_seq[s].key) == Some(p) by {
        let i = choose|i: int|
            0 <= i < rows.len() && read_frame((#[trigger] rows[i]).1)->Ok_0.0 == Some(p);
        let s = lemma_row(d, t, enc, rows[i].0);
        assert(names(seqs, rows[i].0));
        let s2 = choose|s2: PerspectiveSeq| #[trigger]
            seqs.contains(s2) && rows[i].0 == seq_key(s2);
        seq_keys_preserve_order(s, s2);
        assert(t.by_seq.contains_key(s) && gone(s));
    }
    lemma_disk_removed(d, t, enc, v, gone);
}

} // verus!
