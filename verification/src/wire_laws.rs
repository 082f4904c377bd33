//! What is promised of the written forms: numbers and settings, the rows and frames in
//! which intents are kept, the messages of the service, and the records of a shard.

use vstd::arithmetic::power::pow;
use vstd::prelude::*;

use crate::bytes::{be_bytes, be_value, lemma_be_bytes_len, lemma_be_bytes_value};
use crate::bytes::{lemma_be_value_bound, lemma_be_value_bytes, radix};
use crate::delta::{op_code, DeltaView, OperationType};
use crate::error::{log_error_text, seen_as, KisekiErrorView, LogError, RetriableError};
use crate::grpc::{
    append_fault, asks_for, identifier, quality_code, quality_of, shows, shows_capped, shows_shard,
    status_code, timestamp_read, timestamp_written, wire_op, wire_op_code, wire_state_code,
    AppendMessageView, DeltaMessage, ShardInfoMessage, StatusCode, StatusView, TimestampMessageView,
};
use crate::ids::{uuid_parsed, NodeId, ShardId};
use crate::intent::{intent_error_text, intent_views, IntentError, IntentView, PerspectiveSeq};
use crate::intent_codec::{
    lex_greater, prune_view, read_frame, removal_view, seq_key, version_check, PruneView,
};
use crate::intent_metrics::size_sample;
use crate::intent_sync::{tag_meaning, IntentTag, PeerAnswer};
use crate::persistent_store::{
    quality_of_stored, record_shard, requested_of, shard_seen, shards_created, stored_quality,
    PersistedView,
};
use crate::metrics::label_of;
use crate::raft_shard_store::{
    addresses, default_threads, fan_admission, routine, voter_peers, voters_counted,
};
use crate::raft::replica_laws::{digit, numbers_are_written_in_base_256};
use crate::settings::{decimal_number, digits_value, is_digit, number_or, positive_or};
use crate::shard::{state_code, writable, ShardInfoView, ShardState};
use crate::shard_laws::answers;
use crate::text::{decimal_digit, decimal_text, shard_text, text_contains, stands_at};
use crate::time::{ClockQuality, TimestampView};
use crate::traits::{AppendView, ShardModel};

verus! {

// ---------------------------------------------------------------------------
// Numbers and settings
// ---------------------------------------------------------------------------

/// Law: digits count by their place: what stands before counts ten times as much for every
/// digit that follows, and a single digit counts from zero to nine.
pub proof fn digits_count_by_their_place(a: Seq<char>, b: Seq<char>, c: char)
    requires
        is_digit(c),
    ensures
        digits_value(a + b) == digits_value(a) * pow(10, b.len()) + digits_value(b),
        digits_value(seq![c]) == c as int - '0' as int,
        digits_value(Seq::empty()) == 0,
    decreases b.len(),
{
    reveal(pow);
    assert(seq![c].drop_last() =~= Seq::<char>::empty());
    assert(digits_value(seq![c].drop_last()) == 0);
    if b.len() == 0 {
        assert(a + b =~= a);
        assert(digits_value(a) * 1 == digits_value(a));
    } else {
        let f = b.drop_last();
        digits_count_by_their_place(a, f, c);
        assert((a + b).drop_last() =~= a + f);
        let x = digits_value(a) as int;
        let p = pow(10, f.len());
        assert(pow(10, b.len()) == 10 * p);
        assert((x * p) * 10 == x * (10 * p)) by (nonlinear_arith);
    }
}

/// A number is written in digits.
proof fn lemma_decimal_text(n: nat)
    ensures
        decimal_text(n).len() > 0,
        forall|i: int| 0 <= i < decimal_text(n).len() ==> is_digit(#[trigger] decimal_text(n)[i]),
        digits_value(decimal_text(n)) == n,
    decreases n,
{
    let d = n % 10;
    assert(decimal_digit(d) as nat == 48 + d);
    if n < 10 {
        assert(decimal_text(n) == seq![decimal_digit(n)]);
        assert(decimal_text(n).drop_last() =~= Seq::<char>::empty());
        assert(digits_value(decimal_text(n).drop_last()) == 0);
        assert(decimal_text(n).last() == decimal_digit(n));
    } else {
        lemma_decimal_text(n / 10);
        assert(decimal_text(n).drop_last() =~= decimal_text(n / 10));
        assert(decimal_text(n).last() == decimal_digit(d));
    }
}

/// Law: a number is written in decimal digits, without a zero in front, and is read back as
/// it was.
pub proof fn written_number_is_read_back(n: nat)
    ensures
        decimal_number(decimal_text(n)) == Some(n),
        forall|i: int|
            0 <= i < decimal_text(n).len() ==> '0' <= #[trigger] decimal_text(n)[i] <= '9',
        decimal_text(n).len() > 1 ==> decimal_text(n)[0] != '0',
    decreases n,
{
    lemma_decimal_text(n);
    let t = decimal_text(n);
    assert(is_digit(t[0]));
    assert(t[0] != '+');
    if n >= 10 {
        written_number_is_read_back(n / 10);
        let f = decimal_text(n / 10);
        assert(t[0] == f[0]);
        if n / 10 >= 10 {
            lemma_decimal_text(n / 10 / 10);
        } else {
            assert(f == seq![decimal_digit(n / 10)]);
            assert(decimal_digit(n / 10) as nat == 48 + n / 10);
        }
    }
}

/// What of a setting is to be digits: all but a plus sign in front.
pub open spec fn unsigned(s: Seq<char>) -> Seq<char> {
    if s.len() > 0 && s[0] == '+' {
        s.skip(1)
    } else {
        s
    }
}

/// Law: a setting is read as a number exactly where it is one: digits, at least one, and
/// perhaps a plus sign in front. Its value is that of the digits.
pub proof fn setting_is_digits(s: Seq<char>)
    ensures
        decimal_number(s) is Some <==> unsigned(s).len() > 0 && (forall|i: int|
            0 <= i < unsigned(s).len() ==> '0' <= #[trigger] unsigned(s)[i] <= '9'),
        decimal_number(s) matches Some(n) ==> n == digits_value(unsigned(s)),
{
    let d = if s.len() > 0 && s[0] == '+' {
        s.skip(1)
    } else {
        s
    };
    assert(d == unsigned(s));
    if decimal_number(s) is Some {
        assert forall|i: int| 0 <= i < d.len() implies '0' <= #[trigger] unsigned(s)[i] <= '9' by {
            assert(is_digit(d[i]));
        }
    } else if d.len() > 0 && (forall|i: int|
        0 <= i < d.len() ==> '0' <= #[trigger] unsigned(s)[i] <= '9') {
        assert forall|i: int| 0 <= i < d.len() implies is_digit(#[trigger] d[i]) by {
            assert('0' <= unsigned(s)[i] <= '9');
        }
    }
}

/// Law: a setting holds where it is a number that fits, and otherwise the default does; a
/// setting that must be positive does not hold where it is zero.
pub proof fn setting_or_default(s: Seq<char>, n: nat, max: nat, default: nat)
    ensures
        number_or(None, max, default) == default,
        positive_or(None, max, default) == default,
        decimal_number(s) == Some(n) && n <= max ==> number_or(Some(s), max, default) == n,
        decimal_number(s) == Some(n) && 0 < n <= max ==> positive_or(Some(s), max, default) == n,
        decimal_number(s) == Some(n) && n > max ==> number_or(Some(s), max, default) == default
            && positive_or(Some(s), max, default) == default,
        decimal_number(s) == Some(0nat) ==> positive_or(Some(s), max, default) == default,
        decimal_number(s) is None ==> number_or(Some(s), max, default) == default && positive_or(
            Some(s),
            max,
            default,
        ) == default,
{
}

/// Law: half of the processors are used, rounded down, and never fewer than four; eight
/// where their number is not known.
pub proof fn half_the_processors_are_used(n: usize)
    ensures
        default_threads(Some(n)) >= 4,
        n >= 8 ==> 2 * default_threads(Some(n)) <= n < 2 * default_threads(Some(n)) + 2,
        n < 8 ==> default_threads(Some(n)) == 4,
        default_threads(None) == 8,
{
}

/// Law: a size is sampled as it is, as far as a sample can show it, and only where somebody
/// listens.
pub proof fn sample_is_the_size(n: nat)
    ensures
        size_sample(false, n) is None,
        n <= 0x10_0000_0000_0000 ==> size_sample(true, n) == Some(n as u64),
        n > 0x10_0000_0000_0000 ==> size_sample(true, n) == Some(0x10_0000_0000_0000u64),
{
}

// ---------------------------------------------------------------------------
// Peers
// ---------------------------------------------------------------------------

/// Law: the peers of a shard are its voters, in order, but for this node and those without
/// an address, each with its address.
pub proof fn peers_are_the_other_voters(
    voters: Seq<u64>,
    local: u64,
    peers: Map<NodeId, Seq<char>>,
)
    ensures
        voter_peers(voters, local, peers) == voters.filter(
            |v: u64| v != local && peers.contains_key(NodeId(v)),
        ).map_values(|v: u64| (NodeId(v), peers[NodeId(v)])),
    decreases voters.len(),
{
    reveal(Seq::filter);
    let f = |v: u64| v != local && peers.contains_key(NodeId(v));
    let g = |v: u64| (NodeId(v), peers[NodeId(v)]);
    if voters.len() > 0 {
        peers_are_the_other_voters(voters.drop_last(), local, peers);
        let front = voters.drop_last().filter(f);
        if f(voters.last()) {
            assert(front.push(voters.last()).map_values(g) =~= front.map_values(g).push(
                g(voters.last()),
            ));
        }
    } else {
        assert(voters.filter(f).map_values(g) =~= Seq::<(NodeId, Seq<char>)>::empty());
    }
}

/// Law: every configured node has an address, the last one given for it, and no other node
/// has one.
pub proof fn last_address_counts(s: Seq<(u64, Seq<char>)>, i: int)
    ensures
        forall|n: NodeId| #[trigger]
            addresses(s).contains_key(n) <==> exists|k: int|
                0 <= k < s.len() && (#[trigger] s[k]).0 == n.0,
        0 <= i < s.len() && (forall|k: int| i < k < s.len() ==> (#[trigger] s[k]).0 != s[i].0)
            ==> addresses(s)[NodeId(s[i].0)] == s[i].1,
    decreases s.len(),
{
    if s.len() > 0 {
        let f = s.drop_last();
        last_address_counts(f, i);
        assert forall|n: NodeId| #[trigger] addresses(s).contains_key(n) <==> exists|k: int|
            0 <= k < s.len() && (#[trigger] s[k]).0 == n.0 by {
            if addresses(f).contains_key(n) {
                let k = choose|k: int| 0 <= k < f.len() && (#[trigger] f[k]).0 == n.0;
                assert(s[k] == f[k]);
            }
            if n.0 == s.last().0 {
                assert(s[s.len() - 1].0 == n.0);
            }
            if exists|k: int| 0 <= k < s.len() && (#[trigger] s[k]).0 == n.0 {
                let k = choose|k: int| 0 <= k < s.len() && (#[trigger] s[k]).0 == n.0;
                if k < f.len() {
                    assert(f[k] == s[k]);
                }
            }
        }
        if 0 <= i < s.len() && (forall|k: int| i < k < s.len() ==> (#[trigger] s[k]).0 != s[i].0) {
            if i < f.len() {
                assert(s[s.len() - 1].0 != s[i].0);
                assert forall|k: int| i < k < f.len() implies (#[trigger] f[k]).0 != f[i].0 by {
                    assert(s[k].0 != s[i].0);
                }
            }
        }
    }
}

/// Law: of the peers that were asked, those that answered count, in order, each with what
/// it answered; a tag means what it says.
pub proof fn answers_are_gathered_in_order(s: Seq<(NodeId, PeerAnswer)>)
    ensures
        crate::intent_sync::answered(s) == s.filter(
            |p: (NodeId, PeerAnswer)| p.1 is Pending,
        ).map_values(|p: (NodeId, PeerAnswer)| (p.0, intent_views(p.1->Pending_0@))),
        tag_meaning("intent_gather_pending"@) == IntentTag::GatherPending,
    decreases s.len(),
{
    reveal(Seq::filter);
    let f = |p: (NodeId, PeerAnswer)| p.1 is Pending;
    let g = |p: (NodeId, PeerAnswer)| (p.0, intent_views(p.1->Pending_0@));
    if s.len() > 0 {
        answers_are_gathered_in_order(s.drop_last());
        let front = s.drop_last().filter(f);
        if f(s.last()) {
            assert(front.push(s.last()).map_values(g) =~= front.map_values(g).push(g(s.last())));
        }
    } else {
        assert(s.filter(f).map_values(g) =~= Seq::<(NodeId, Seq<IntentView>)>::empty());
    }
}

/// Law: a request whose flush succeeded is acknowledged for every one of its intents; one
/// whose flush failed for none.
pub proof fn request_is_acknowledged_as_a_whole(
    reply: Result<Vec<bool>, IntentError>,
    request: Seq<IntentView>,
    failure: Option<IntentError>,
)
    requires
        crate::intent_recv_coalescer::answered(reply, request, failure),
    ensures
        reply is Ok <==> failure is None,
        reply matches Ok(acks) ==> acks@.len() == request.len() && forall|i: int|
            0 <= i < acks@.len() ==> #[trigger] acks@[i],
{
}

// ---------------------------------------------------------------------------
// Rows and frames
// ---------------------------------------------------------------------------

/// Law: the key of a row holds the three parts of an order side by side: eight bytes of time,
/// four of the count within it, eight of the node.
pub proof fn row_key_holds_the_order(s: PerspectiveSeq)
    ensures
        seq_key(s).len() == 20,
        be_value(seq_key(s).subrange(0, 8)) == s.0.physical_ms,
        be_value(seq_key(s).subrange(8, 12)) == s.0.logical,
        be_value(seq_key(s).subrange(12, 20)) == s.0.node_id.0,
{
    lemma_widths();
    lemma_be_bytes_value(s.0.physical_ms as nat, 8);
    lemma_be_bytes_value(s.0.logical as nat, 4);
    lemma_be_bytes_value(s.0.node_id.0 as nat, 8);
    assert(seq_key(s).subrange(0, 8) =~= be_bytes(s.0.physical_ms as nat, 8));
    assert(seq_key(s).subrange(8, 12) =~= be_bytes(s.0.logical as nat, 4));
    assert(seq_key(s).subrange(12, 20) =~= be_bytes(s.0.node_id.0 as nat, 8));
}

proof fn lemma_widths()
    ensures
        radix(4) == 0x1_0000_0000,
        radix(8) == 0x1_0000_0000_0000_0000,
{
    reveal_with_fuel(radix, 9);
}

/// Whether bytes are the frame of a client key and an append: a version, a mark and the key
/// where there is one, then the length of the append in four bytes, then the append.
pub open spec fn frames(b: Seq<u8>, key: Option<Seq<u8>>, proto: Seq<u8>) -> bool {
    let head: int = if key is Some {
        18
    } else {
        2
    };
    &&& b.len() == head + 4 + proto.len()
    &&& b[0] == 1
    &&& b[1] == (if key is Some {
        1int
    } else {
        0
    })
    &&& key matches Some(k) ==> k.len() == 16 && b.subrange(2, 18) == k
    &&& b.subrange(head, head + 4) == Seq::new(4, |i: int| digit(proto.len(), (3 - i) as nat) as u8)
    &&& proto.len() <= 0xffff_ffff
    &&& b.skip(head + 4) == proto
}

/// Law: exactly the frames are read, each as the key and the append that it holds.
pub proof fn only_frames_are_read(b: Seq<u8>, key: Option<Seq<u8>>, proto: Seq<u8>)
    ensures
        read_frame(b) == Ok::<(Option<Seq<u8>>, Seq<u8>), Seq<char>>((key, proto)) <==> frames(
            b,
            key,
            proto,
        ),
{
    lemma_widths();
    let head: int = if b.len() >= 2 && b[1] == 1 {
        18
    } else {
        2
    };
    if b.len() >= head + 4 {
        let len = b.subrange(head, head + 4);
        lemma_be_value_bound(len);
        lemma_be_value_bytes(len);
        lemma_be_bytes_len(proto.len(), 4);
        assert forall|i: int| 0 <= i < 4 implies #[trigger] be_bytes(proto.len(), 4)[i] == digit(
            proto.len(),
            (3 - i) as nat,
        ) by {
            numbers_are_written_in_base_256(proto.len(), 4, i);
        }
        assert(be_bytes(proto.len(), 4) =~= Seq::new(
            4,
            |i: int| digit(proto.len(), (3 - i) as nat) as u8,
        ));
        if read_frame(b) == Ok::<(Option<Seq<u8>>, Seq<u8>), Seq<char>>((key, proto)) {
            assert(be_value(len) == proto.len());
            assert(frames(b, key, proto));
        }
        if frames(b, key, proto) {
            assert(len == be_bytes(proto.len(), 4));
            lemma_be_bytes_value(proto.len(), 4);
        }
    }
}

/// What the frame of a row holds.
pub open spec fn framed_key(row: (Seq<u8>, Seq<u8>)) -> Option<Seq<u8>> {
    read_frame(row.1)->Ok_0.0
}

/// Whether a plan takes out these rows, with the client keys that they hold.
pub open spec fn takes_rows(v: PruneView, rows: Seq<(Seq<u8>, Seq<u8>)>) -> bool {
    &&& forall|i: int| 0 <= i < rows.len() ==> read_frame((#[trigger] rows[i]).1) is Ok
    &&& v.rows == rows.map_values(|r: (Seq<u8>, Seq<u8>)| r.0)
    &&& v.pointers == rows.filter(
        |r: (Seq<u8>, Seq<u8>)| framed_key(r) is Some,
    ).map_values(|r: (Seq<u8>, Seq<u8>)| framed_key(r)->Some_0)
}

/// Whether a row is the first that cannot be read, and why.
pub open spec fn first_unreadable(rows: Seq<(Seq<u8>, Seq<u8>)>, i: int, text: Seq<char>) -> bool {
    &&& 0 <= i < rows.len()
    &&& read_frame(rows[i].1) == Err::<(Option<Seq<u8>>, Seq<u8>), Seq<char>>(text)
    &&& forall|j: int| 0 <= j < i ==> read_frame((#[trigger] rows[j]).1) is Ok
}

/// No rows are taken out by nothing.
proof fn lemma_takes_nothing(rows: Seq<(Seq<u8>, Seq<u8>)>)
    requires
        rows.len() == 0,
    ensures
        takes_rows(PruneView { rows: Seq::empty(), pointers: Seq::empty() }, rows),
{
    reveal(Seq::filter);
    let f = |r: (Seq<u8>, Seq<u8>)| framed_key(r) is Some;
    let g = |r: (Seq<u8>, Seq<u8>)| framed_key(r)->Some_0;
    let h = |r: (Seq<u8>, Seq<u8>)| r.0;
    assert(rows.map_values(h) =~= Seq::<Seq<u8>>::empty());
    assert(rows.filter(f).map_values(g) =~= Seq::<Seq<u8>>::empty());
}

/// Taking out one row more behind.
proof fn lemma_takes_row_behind(
    front: Seq<(Seq<u8>, Seq<u8>)>,
    row: (Seq<u8>, Seq<u8>),
    v: PruneView,
)
    requires
        read_frame(row.1) is Ok,
        takes_rows(v, front),
    ensures
        takes_rows(
            PruneView {
                rows: v.rows.push(row.0),
                pointers: match framed_key(row) {
                    Some(k) => v.pointers.push(k),
                    None => v.pointers,
                },
            },
            front.push(row),
        ),
{
    let f = |r: (Seq<u8>, Seq<u8>)| framed_key(r) is Some;
    let g = |r: (Seq<u8>, Seq<u8>)| framed_key(r)->Some_0;
    let h = |r: (Seq<u8>, Seq<u8>)| r.0;
    let all = front.push(row);
    assert forall|i: int| 0 <= i < all.len() implies read_frame((#[trigger] all[i]).1) is Ok by {
        if i < front.len() {
            assert(all[i] == front[i]);
        }
    }
    assert(all.map_values(h) =~= front.map_values(h).push(row.0));
    assert(all.filter(f) == (if f(row) {
        front.filter(f).push(row)
    } else {
        front.filter(f)
    })) by {
        reveal(Seq::filter);
        assert(all.drop_last() =~= front);
    }
    if f(row) {
        assert(front.filter(f).push(row).map_values(g) =~= front.filter(f).map_values(g).push(
            g(row),
        ));
    }
}

/// Taking out one row more in front.
proof fn lemma_takes_row_in_front(
    row: (Seq<u8>, Seq<u8>),
    rest: Seq<(Seq<u8>, Seq<u8>)>,
    v: PruneView,
)
    requires
        read_frame(row.1) is Ok,
        takes_rows(v, rest),
    ensures
        takes_rows(
            PruneView {
                rows: seq![row.0] + v.rows,
                pointers: (match framed_key(row) {
                    Some(k) => seq![k],
                    None => Seq::empty(),
                }) + v.pointers,
            },
            seq![row] + rest,
        ),
{
    let f = |r: (Seq<u8>, Seq<u8>)| framed_key(r) is Some;
    let g = |r: (Seq<u8>, Seq<u8>)| framed_key(r)->Some_0;
    let h = |r: (Seq<u8>, Seq<u8>)| r.0;
    let all = seq![row] + rest;
    assert forall|i: int| 0 <= i < all.len() implies read_frame((#[trigger] all[i]).1) is Ok by {
        if i > 0 {
            assert(all[i] == rest[i - 1]);
        }
    }
    assert(all.map_values(h) =~= seq![row.0] + rest.map_values(h));
    Seq::filter_distributes_over_add(seq![row], rest, f);
    assert(seq![row].filter(f) =~= (if f(row) {
        seq![row]
    } else {
        Seq::empty()
    })) by {
        reveal(Seq::filter);
        assert(seq![row].drop_last() =~= Seq::<(Seq<u8>, Seq<u8>)>::empty());
        assert(seq![row].drop_last().filter(f) =~= Seq::<(Seq<u8>, Seq<u8>)>::empty());
    }
    let head = seq![row].filter(f);
    assert((head + rest.filter(f)).map_values(g) =~= head.map_values(g) + rest.filter(f).map_values(
        g,
    ));
    if f(row) {
        assert(head.map_values(g) =~= seq![g(row)]);
    } else {
        assert(head.map_values(g) =~= Seq::<Seq<u8>>::empty());
    }
}

/// Law: a removal takes out all of the rows that it is given, with their client keys, where
/// each of them can be read; otherwise it fails as the first that cannot.
pub proof fn removal_takes_every_row(rows: Seq<(Seq<u8>, Seq<u8>)>)
    ensures
        removal_view(rows) matches Ok(v) ==> takes_rows(v, rows),
        removal_view(rows) is Err ==> exists|i: int| #[trigger]
            first_unreadable(rows, i, removal_view(rows)->Err_0),
    decreases rows.len(),
{
    if rows.len() == 0 {
        lemma_takes_nothing(rows);
    } else {
        let front = rows.drop_last();
        removal_takes_every_row(front);
        assert(front.push(rows.last()) =~= rows);
        match removal_view(front) {
            Err(text) => {
                let i = choose|i: int| #[trigger] first_unreadable(front, i, text);
                assert forall|j: int| 0 <= j < i implies read_frame((#[trigger] rows[j]).1) is Ok by {
                    assert(rows[j] == front[j]);
                }
                assert(rows[i] == front[i]);
                assert(first_unreadable(rows, i, removal_view(rows)->Err_0));
            },
            Ok(v) => {
                match read_frame(rows.last().1) {
                    Ok(_) => {
                        lemma_takes_row_behind(front, rows.last(), v);
                    },
                    Err(text) => {
                        assert forall|j: int| 0 <= j < front.len() implies read_frame(
                            (#[trigger] rows[j]).1,
                        ) is Ok by {
                            assert(rows[j] == front[j]);
                        }
                        assert(rows[rows.len() - 1] == rows.last());
                        assert(first_unreadable(
                            rows,
                            rows.len() - 1,
                            removal_view(rows)->Err_0,
                        ));
                    },
                }
            },
        }
    }
}

/// Law: a prune takes out the leading rows whose keys are not past the cutoff, all of them,
/// with their client keys, where each of them can be read.
pub proof fn prune_takes_the_leading_rows(rows: Seq<(Seq<u8>, Seq<u8>)>, cutoff: Seq<u8>)
    ensures
        prune_view(rows, cutoff) matches Ok(v) ==> ({
            let n = v.rows.len() as int;
            &&& n <= rows.len()
            &&& takes_rows(v, rows.take(n))
            &&& forall|i: int| 0 <= i < n ==> !lex_greater((#[trigger] rows[i]).0, cutoff)
            &&& n < rows.len() ==> lex_greater(rows[n].0, cutoff)
        }),
        prune_view(rows, cutoff) matches Err(text) ==> exists|i: int|
            0 <= i < rows.len() && read_frame((#[trigger] rows[i]).1) == Err::<
                (Option<Seq<u8>>, Seq<u8>),
                Seq<char>,
            >(text) && forall|j: int|
                0 <= j <= i ==> !lex_greater((#[trigger] rows[j]).0, cutoff),
    decreases rows.len(),
{
    if rows.len() == 0 || lex_greater(rows[0].0, cutoff) {
        lemma_takes_nothing(rows.take(0));
    } else {
        let rest = rows.skip(1);
        prune_takes_the_leading_rows(rest, cutoff);
        if read_frame(rows[0].1) is Ok {
            match prune_view(rest, cutoff) {
                Ok(v) => {
                    let n = v.rows.len() as int;
                    lemma_takes_row_in_front(rows[0], rest.take(n), v);
                    assert(seq![rows[0]] + rest.take(n) =~= rows.take(n + 1));
                    assert forall|i: int| 0 <= i < n + 1 implies !lex_greater(
                        (#[trigger] rows[i]).0,
                        cutoff,
                    ) by {
                        if i > 0 {
                            assert(rows[i] == rest[i - 1]);
                        }
                    }
                    if n < rest.len() {
                        assert(rest[n] == rows[n + 1]);
                    }
                },
                Err(text) => {
                    let i = choose|i: int|
                        0 <= i < rest.len() && read_frame((#[trigger] rest[i]).1) == Err::<
                            (Option<Seq<u8>>, Seq<u8>),
                            Seq<char>,
                        >(text) && forall|j: int|
                            0 <= j <= i ==> !lex_greater((#[trigger] rest[j]).0, cutoff);
                    assert(rows[i + 1] == rest[i]);
                    assert forall|j: int| 0 <= j <= i + 1 implies !lex_greater(
                        (#[trigger] rows[j]).0,
                        cutoff,
                    ) by {
                        if j > 0 {
                            assert(rows[j] == rest[j - 1]);
                        }
                    }
                },
            }
        }
    }
}

/// Law: a store is opened where it holds no version, which is then written, or the version
/// one in four bytes; any other version is refused.
pub proof fn only_version_one_is_opened(stored: Option<Seq<u8>>)
    ensures
        stored is None ==> (version_check(stored) matches Ok(Some(seed)) && seed.len() == 4
            && be_value(seed) == 1),
        stored matches Some(v) ==> (version_check(stored) is Ok <==> v.len() == 4 && be_value(v)
            == 1) && (version_check(stored) matches Ok(w) ==> w is None),
{
    lemma_widths();
    lemma_be_bytes_value(1, 4);
}

// ---------------------------------------------------------------------------
// Messages
// ---------------------------------------------------------------------------

/// Law: on the wire operations and states are numbered from one. Only the first six
/// operations can be asked for.
pub proof fn wire_numbers_start_at_one(op: OperationType, n: i32)
    ensures
        wire_op_code(op) == op_code(op) + 1,
        wire_op(n) == Some(op) <==> n == wire_op_code(op) && n <= 6,
        wire_op(n) is Some <==> 1 <= n <= 6,
{
}

/// Law: the clock quality is numbered from one on the wire and from nothing in a record, in
/// the same order, and read back from both; an unknown number is the first.
pub proof fn clock_quality_is_read_back(q: ClockQuality, n: i32, m: u8)
    ensures
        quality_of(quality_code(q)) == q,
        quality_of_stored(stored_quality(q)) == q,
        quality_code(q) == stored_quality(q) + 1,
        quality_code(q) == 1 <==> q == ClockQuality::Ntp,
        quality_code(q) == 2 <==> q == ClockQuality::Ptp,
        quality_code(q) == 3 <==> q == ClockQuality::Gps,
        quality_code(q) == 4 <==> q == ClockQuality::Unsync,
        !(1 <= n <= 4) ==> quality_of(n) == ClockQuality::Ntp,
        m > 3 ==> quality_of_stored(m) == ClockQuality::Ntp,
{
}

/// Law: a timestamp is shown whole, and taken exactly where both of its readings are there,
/// as they are.
pub proof fn timestamp_is_taken_whole(t: Option<TimestampMessageView>, shown: TimestampView)
    ensures
        timestamp_read(t) is Ok <==> t is Some && t->Some_0.hlc is Some && t->Some_0.wall is Some,
        timestamp_read(t) matches Ok(r) ==> ({
            let m = t->Some_0;
            &&& r.hlc.physical_ms == m.hlc->Some_0.physical_ms
            &&& r.hlc.logical == m.hlc->Some_0.logical
            &&& r.hlc.node_id.0 == m.hlc->Some_0.node_id
            &&& (r.millis, r.timezone) == m.wall->Some_0
            &&& r.quality == quality_of(m.quality)
        }),
        timestamp_read(t) matches Err(s) ==> s.code == StatusCode::InvalidArgument,
        timestamp_read(Some(timestamp_written(shown))) == Ok::<TimestampView, StatusView>(shown),
{
    assert(timestamp_read(Some(timestamp_written(shown)))->Ok_0 =~= shown);
}

/// Law: an append is taken exactly where its two identifiers can be read, its operation can
/// be asked for, its timestamp is whole, and its key and each of its chunks have 32 bytes;
/// otherwise the caller is told that the argument is invalid.
pub proof fn append_message_is_taken_where_it_is_whole(m: AppendMessageView)
    ensures
        append_fault(m) is None <==> {
            &&& m.shard_id matches Some(s) && uuid_parsed(s) is Ok
            &&& m.tenant_id matches Some(s) && uuid_parsed(s) is Ok
            &&& 1 <= m.operation <= 6
            &&& timestamp_read(m.timestamp) is Ok
            &&& m.hashed_key.len() == 32
            &&& forall|i: int|
                0 <= i < m.chunk_refs.len() ==> (#[trigger] m.chunk_refs[i]).len() == 32
        },
        append_fault(m) matches Some(s) ==> s.code == StatusCode::InvalidArgument,
{
    wire_numbers_start_at_one(OperationType::Create, m.operation);
    timestamp_is_taken_whole(m.timestamp, timestamp_read(m.timestamp)->Ok_0);
}

/// Law: the request of a message asks for what the message holds.
pub proof fn request_is_what_the_message_holds(m: AppendMessageView, req: AppendView)
    requires
        asks_for(m, req),
    ensures
        m.shard_id matches Some(s) && uuid_parsed(s) == Ok::<u128, Seq<char>>(req.shard_id.0),
        m.tenant_id matches Some(s) && uuid_parsed(s) == Ok::<u128, Seq<char>>(req.tenant_id.0),
        m.operation == op_code(req.operation) + 1,
        timestamp_read(m.timestamp) == Ok::<TimestampView, StatusView>(req.timestamp),
        m.hashed_key == req.hashed_key@,
        m.chunk_refs == req.chunk_refs.map_values(|c: crate::ids::ChunkId| c.0@),
        m.payload == req.payload,
        m.has_inline_data == req.has_inline_data,
{
    wire_numbers_start_at_one(req.operation, m.operation);
    assert(m.chunk_refs =~= req.chunk_refs.map_values(|c: crate::ids::ChunkId| c.0@)) by {
        assert forall|i: int| 0 <= i < m.chunk_refs.len() implies m.chunk_refs[i]
            == req.chunk_refs[i].0@ by {}
    }
}

/// Law: a missing identifier is named as missing, one that cannot be read as invalid, and
/// one that can be read is taken.
pub proof fn identifier_is_taken_or_named(v: Option<Seq<char>>, field: Seq<char>)
    ensures
        identifier(v, field) is Ok <==> v is Some && uuid_parsed(v->Some_0) is Ok,
        identifier(v, field) matches Ok(x) ==> uuid_parsed(v->Some_0) == Ok::<u128, Seq<char>>(x),
        identifier(v, field) matches Err(s) ==> s.code == StatusCode::InvalidArgument
            && text_contains(s.message, field),
{
    match v {
        None => {
            let text = field + " required"@;
            assert(stands_at(text, field, 0)) by {
                assert(text.subrange(0, field.len() as int) =~= field);
            }
        },
        Some(s) => {
            if uuid_parsed(s) is Err {
                let text = "invalid "@ + field + ": "@ + uuid_parsed(s)->Err_0;
                let at = "invalid "@.len() as int;
                assert(stands_at(text, field, at)) by {
                    assert(text.subrange(at, at + field.len()) =~= field);
                }
            }
        },
    }
}

/// Law: an answer shows the first thousand deltas, all of them where there are no more, each
/// with its number, key, operation, marks and payload.
pub proof fn answer_shows_the_first_thousand(m: Seq<DeltaMessage>, d: Seq<DeltaView>, i: int)
    requires
        shows_capped(m, d),
    ensures
        d.len() <= 1_000 ==> m.len() == d.len(),
        d.len() > 1_000 ==> m.len() == 1_000,
        0 <= i < m.len() ==> ({
            &&& m[i].sequence == d[i].header.sequence
            &&& m[i].shard_id@ == crate::ids::uuid_text(d[i].header.shard_id.0)
            &&& m[i].tenant_id@ == crate::ids::uuid_text(d[i].header.tenant_id.0)
            &&& m[i].operation == op_code(d[i].header.operation) + 1
            &&& timestamp_read(Some(m[i].timestamp@)) == Ok::<TimestampView, StatusView>(
                d[i].header.timestamp,
            )
            &&& m[i].hashed_key@ == d[i].header.hashed_key@
            &&& m[i].tombstone == d[i].header.tombstone
            &&& m[i].chunk_refs@.len() == d[i].header.chunk_refs.len()
            &&& forall|k: int|
                0 <= k < m[i].chunk_refs@.len() ==> (#[trigger] m[i].chunk_refs@[k])@
                    == d[i].header.chunk_refs[k].0@
            &&& m[i].payload_size == d[i].header.payload_size
            &&& m[i].has_inline_data == d[i].header.has_inline_data
            &&& m[i].ciphertext@ == d[i].payload.ciphertext
            &&& m[i].auth_tag@ == d[i].payload.auth_tag
            &&& m[i].nonce@ == d[i].payload.nonce
            &&& m[i].system_epoch == d[i].payload.system_epoch
            &&& m[i].tenant_epoch == d[i].payload.tenant_epoch
            &&& m[i].tenant_wrapped_material@ == d[i].payload.tenant_wrapped_material
        }),
{
    if 0 <= i < m.len() {
        assert(shows(m[i], d[i]));
        timestamp_is_taken_whole(None, d[i].header.timestamp);
        wire_numbers_start_at_one(d[i].header.operation, 0);
    }
}

/// The shard that an error is about, where it is about one.
pub open spec fn error_shard(e: LogError) -> Option<ShardId> {
    match e {
        LogError::ShardNotFound(id) => Some(id),
        LogError::MaintenanceMode(id) => Some(id),
        LogError::ShardSplitting(id) => Some(id),
        LogError::LeaderUnavailable(id) => Some(id),
        LogError::ForwardToLeader { shard_id, .. } => Some(shard_id),
        LogError::QuorumLost(id) => Some(id),
        LogError::KeyOutOfRange(id) => Some(id),
        LogError::InvalidRange(id) => Some(id),
        LogError::DeltaLogPruned { shard_id, .. } => Some(shard_id),
        _ => None,
    }
}

/// Law: an error about a shard names it.
pub proof fn error_names_its_shard(e: LogError)
    ensures
        error_shard(e) matches Some(id) ==> text_contains(log_error_text(e), shard_text(id)),
{
    match error_shard(e) {
        Some(id) => {
            let text = log_error_text(e);
            let name = shard_text(id);
            let before = match e {
                LogError::ShardNotFound(_) => "shard not found: "@,
                LogError::MaintenanceMode(_) => "shard in maintenance mode: "@,
                LogError::ShardSplitting(_) => "shard splitting: "@,
                LogError::LeaderUnavailable(_) => "leader unavailable: "@,
                LogError::ForwardToLeader { .. } => "forward to leader: shard="@,
                LogError::QuorumLost(_) => "quorum lost: "@,
                LogError::KeyOutOfRange(_) => "key out of range for shard "@,
                LogError::InvalidRange(_) => "invalid sequence range for shard "@,
                _ => "delta log pruned for shard "@,
            };
            let at = before.len() as int;
            assert(stands_at(text, name, at)) by {
                assert(text.subrange(at, at + name.len()) =~= name);
            }
        },
        None => {},
    }
}

/// Law: a caller is asked to try again exactly where the shard may come back: it is busy,
/// without a leader or a quorum, in maintenance, or elsewhere.
pub proof fn passing_errors_may_be_retried(e: LogError)
    ensures
        seen_as(e) is Retriable <==> e is MaintenanceMode || e is LeaderUnavailable
            || e is ShardSplitting || e is ForwardToLeader || e is ShardBusy || e is QuorumLost
            || e is Unavailable,
        status_code(e) == StatusCode::Unavailable <==> seen_as(e) is Retriable
            && !(e is MaintenanceMode),
        status_code(e) == StatusCode::NotFound <==> e is ShardNotFound,
        status_code(e) == StatusCode::FailedPrecondition <==> e is MaintenanceMode
            || e is DeltaLogPruned,
        status_code(e) == StatusCode::OutOfRange <==> e is KeyOutOfRange,
        status_code(e) == StatusCode::InvalidArgument <==> e is InvalidRange,
        status_code(e) == StatusCode::Internal <==> e is StoreConstruction || e is Io,
{
}

/// Law: no two states share a number, on the wire or in the log, and the numbers are those
/// from one on the wire, and from nothing in the log. Writes go to a healthy shard and to
/// one that splits or merges.
pub proof fn states_have_their_own_numbers(a: ShardState, b: ShardState)
    ensures
        wire_state_code(a) == wire_state_code(b) <==> a == b,
        state_code(a) == state_code(b) <==> a == b,
        1 <= wire_state_code(a) <= 7,
        state_code(a) <= 6,
        wire_state_code(a) <= 4 ==> wire_state_code(a) == state_code(a) + 1,
        writable(a) <==> a is Healthy || a is Splitting || a is Merging,
{
}

// ---------------------------------------------------------------------------
// Records
// ---------------------------------------------------------------------------

/// Law: what a shard holds after a restart are the requests to it, in order, each with its
/// timestamp, numbered from one.
pub proof fn records_become_the_requested_deltas(
    reqs: Seq<AppendView>,
    stamps: Seq<TimestampView>,
    id: ShardId,
)
    requires
        reqs.len() == stamps.len(),
        reqs.len() <= u64::MAX,
    ensures
        ({
            let mine = reqs.zip_with(stamps).filter(
                |p: (AppendView, TimestampView)| p.0.shard_id == id,
            );
            let out = requested_of(reqs, stamps, id);
            &&& out.len() == mine.len()
            &&& out.len() <= reqs.len()
            &&& forall|i: int|
                0 <= i < out.len() ==> answers(#[trigger] out[i], mine[i].0, i + 1)
                    && out[i].header.timestamp == mine[i].1
        }),
    decreases reqs.len(),
{
    reveal(Seq::filter);
    let f = |p: (AppendView, TimestampView)| p.0.shard_id == id;
    let pairs = reqs.zip_with(stamps);
    if reqs.len() > 0 {
        let r = reqs.drop_last();
        let t = stamps.drop_last();
        records_become_the_requested_deltas(r, t, id);
        assert(pairs.drop_last() =~= r.zip_with(t));
        assert(pairs.last() == (reqs.last(), stamps.last()));
        let front = r.zip_with(t).filter(f);
        let mine = pairs.filter(f);
        let out = requested_of(reqs, stamps, id);
        let o = requested_of(r, t, id);
        assert forall|i: int| 0 <= i < out.len() implies answers(
            #[trigger] out[i],
            mine[i].0,
            i + 1,
        ) && out[i].header.timestamp == mine[i].1 by {
            if i < o.len() {
                assert(out[i] == o[i]);
                assert(mine[i] == front[i]);
            }
        }
    }
}

/// Law: a decoupled write goes on exactly where the node hosts the shard and keeps its
/// intents; a shard that is hosted but does not keep them is unavailable. The voters are the
/// nodes with an address, and never fewer than one. Only two errors send a write on.
pub proof fn write_goes_on_where_intents_are_kept(
    hosted: Map<ShardId, bool>,
    id: ShardId,
    peers: Map<NodeId, Seq<char>>,
    e: LogError,
)
    ensures
        fan_admission(hosted, id) is Ok <==> hosted.contains_key(id) && hosted[id],
        !hosted.contains_key(id) ==> fan_admission(hosted, id) == Err::<(), LogError>(
            LogError::ShardNotFound(id),
        ),
        hosted.contains_key(id) && !hosted[id] ==> fan_admission(hosted, id) == Err::<(), LogError>(
            LogError::Unavailable,
        ),
        voters_counted(peers) >= 1,
        voters_counted(peers) > 1 ==> voters_counted(peers) == peers.dom().len(),
        peers.dom().len() > 1 ==> voters_counted(peers) == peers.dom().len(),
        routine(e) <==> e is ForwardToLeader || e is LeaderUnavailable,
        routine(e) ==> seen_as(e) is Retriable,
{
}

/// Law: an outcome is labelled as what it was: a missing shard, a write that was sent on, or
/// any other error.
pub proof fn outcome_is_labelled_as_what_it_was(e: LogError)
    ensures
        e is ShardNotFound ==> label_of(e)@ == "shard_not_found"@,
        e is ForwardToLeader ==> label_of(e)@ == "forward_to_leader"@,
        !(e is ShardNotFound) && !(e is ForwardToLeader) ==> label_of(e)@ == "error"@,
{
}

/// Law: an error of the intents says what caused it.
pub proof fn intent_error_says_its_cause(e: IntentError)
    ensures
        e matches IntentError::Fjall(m) ==> text_contains(intent_error_text(e), m@),
        e matches IntentError::Codec(m) ==> text_contains(intent_error_text(e), m@),
        e matches IntentError::Incorporate(m) ==> text_contains(intent_error_text(e), m@),
{
    let text = intent_error_text(e);
    match e {
        IntentError::Fjall(m) => {
            let at = "intent fjall: "@.len() as int;
            assert(text.subrange(at, at + m@.len()) =~= m@);
            assert(stands_at(text, m@, at));
        },
        IntentError::Codec(m) => {
            let at = "intent codec: "@.len() as int;
            assert(text.subrange(at, at + m@.len()) =~= m@);
            assert(stands_at(text, m@, at));
        },
        IntentError::Incorporate(m) => {
            let at = "intent incorporation into the log failed: "@.len() as int;
            assert(text.subrange(at, at + m@.len()) =~= m@);
            assert(stands_at(text, m@, at));
        },
        _ => {},
    }
}

/// Law: an error that may be retried keeps the shard that it is about, and a shard that is
/// missing is damage of that shard.
pub proof fn error_keeps_its_shard(e: LogError)
    ensures
        seen_as(e) matches KisekiErrorView::DataCorruption(id) ==> e == LogError::ShardNotFound(id),
        seen_as(e) matches KisekiErrorView::Retriable(RetriableError::MaintenanceMode(id)) ==> e
            == LogError::MaintenanceMode(id),
        seen_as(e) matches KisekiErrorView::Retriable(RetriableError::QuorumLost(id)) ==> e
            == LogError::QuorumLost(id),
        e is LeaderUnavailable || e is ShardSplitting || e is ForwardToLeader ==> seen_as(e)
            == KisekiErrorView::Retriable(RetriableError::ShardUnavailable(error_shard(e)->Some_0)),
        e matches LogError::ShardBusy { shard_id, .. } ==> seen_as(e) == KisekiErrorView::Retriable(
            RetriableError::ShardUnavailable(shard_id),
        ),
        e is ShardNotFound ==> seen_as(e) is DataCorruption,
        seen_as(e) is InvariantViolation <==> e is KeyOutOfRange || e is InvalidRange
            || e is DeltaLogPruned || e is StoreConstruction || e is Io,
{
}

/// Law: the message of a shard shows its identifiers, members, leader, tip and state.
pub proof fn shard_message_shows_the_shard(m: ShardInfoMessage, i: ShardInfoView)
    requires
        shows_shard(m, i),
    ensures
        m.shard_id@ == crate::ids::uuid_text(i.shard_id.0),
        m.tenant_id@ == crate::ids::uuid_text(i.tenant_id.0),
        m.raft_members@ == i.raft_members.map_values(|n: NodeId| n.0),
        i.leader is Some <==> m.leader is Some,
        i.leader matches Some(n) ==> m.leader == Some(n.0),
        m.tip == i.tip,
        m.state == wire_state_code(i.state),
{
    assert(m.raft_members@ =~= i.raft_members.map_values(|n: NodeId| n.0));
}

/// Law: a restart creates a shard once for all records of it: for the tenant of the first,
/// led by node one, with the default thresholds, healthy and empty. A shard without a record
/// stays as it was.
pub proof fn restart_creates_each_shard_once(
    shards: Map<ShardId, ShardModel>,
    s: Seq<PersistedView>,
    id: ShardId,
    i: int,
)
    requires
        0 <= i < s.len() ==> be_value(s[i].shard_id_bytes@) as u128 == id.0,
        forall|j: int|
            0 <= j < i && j < s.len() ==> be_value((#[trigger] s[j]).shard_id_bytes@) as u128
                != id.0,
    ensures
        0 <= i < s.len() ==> ({
            let m = shards_created(shards, s)[id];
            &&& shards_created(shards, s).contains_key(id)
            &&& m.info.shard_id == id
            &&& be_value(s[i].tenant_id_bytes@) as u128 == m.info.tenant_id.0
            &&& m.info.leader == Some(NodeId(1))
            &&& m.info.raft_members == seq![NodeId(1)]
            &&& m.info.tip == 0 && m.info.delta_count == 0 && m.info.byte_size == 0
            &&& m.info.state == ShardState::Healthy
            &&& m.info.config.max_delta_count == 10_000_000
            &&& m.info.config.max_byte_size == 10_737_418_240
            &&& m.info.config.inline_threshold_bytes == 4_096
            &&& m.deltas.len() == 0 && m.watermarks.len() == 0
        }),
        i >= s.len() ==> (shards_created(shards, s).contains_key(id) <==> shards.contains_key(id))
            && (shards.contains_key(id) ==> shards_created(shards, s)[id] == shards[id]),
    decreases s.len(),
{
    if s.len() > 0 {
        let f = s.drop_last();
        let last = s.len() - 1;
        assert forall|j: int|
            0 <= j < i && j < f.len() implies be_value((#[trigger] f[j]).shard_id_bytes@) as u128
            != id.0 by {
            assert(f[j] == s[j]);
        }
        if 0 <= i < f.len() {
            assert(f[i] == s[i]);
            assert(record_shard(f[i]) == id);
            assert(shard_seen(f, id));
        }
        restart_creates_each_shard_once(shards, f, id, i);
        if i == last {
            assert(!shard_seen(f, id)) by {
                if shard_seen(f, id) {
                    let j = choose|j: int| 0 <= j < f.len() && record_shard(#[trigger] f[j]) == id;
                    assert(s[j] == f[j]);
                    assert(be_value(s[j].shard_id_bytes@) as u128 != id.0);
                }
            }
        } else if i > last {
            assert(be_value(s[last].shard_id_bytes@) as u128 != id.0);
        }
    }
}

} // verus!
