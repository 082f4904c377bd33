//! Text of numbers and identifiers in messages.

use vstd::prelude::*;
use vstd::string::*;

use crate::ids::uuid_text;
use crate::ids::{uuid_to_string, NodeId, ShardId};

verus! {

/// The decimal digit of a number below ten.
pub open spec fn decimal_digit(d: nat) -> char {
    (48 + d) as char
}

/// A number in decimal notation, without leading zeros.
pub open spec fn decimal_text(n: nat) -> Seq<char>
    decreases n,
{
    if n < 10 {
        seq![decimal_digit(n)]
    } else {
        decimal_text(n / 10).push(decimal_digit(n % 10))
    }
}

/// Formats a number with its `Display` impl in std, which writes it in decimal
/// notation.
#[verifier::external_body]
pub(crate) fn decimal(n: u64) -> (r: String)
    ensures
        r@ == decimal_text(n as nat),
{
    n.to_string()
}

/// The text of a flag.
pub open spec fn flag_text(b: bool) -> Seq<char> {
    if b {
        "true"@
    } else {
        "false"@
    }
}

/// Writes a flag.
pub fn flag_string(b: bool) -> (r: String)
    ensures
        r@ == flag_text(b),
{
    if b {
        "true".to_owned()
    } else {
        "false".to_owned()
    }
}

/// The text of a shard identifier in messages.
pub open spec fn shard_text(id: ShardId) -> Seq<char> {
    "ShardId("@ + uuid_text(id.0) + ")"@
}

/// Writes a shard identifier.
pub fn shard_string(id: ShardId) -> (r: String)
    ensures
        r@ == shard_text(id),
{
    let mut s = "ShardId(".to_owned();
    s.append(uuid_to_string(id.0).as_str());
    s.append(")");
    s
}

/// The text of a node identifier in messages.
pub open spec fn node_text(id: NodeId) -> Seq<char> {
    "NodeId("@ + decimal_text(id.0 as nat) + ")"@
}

/// Writes a node identifier.
pub fn node_string(id: NodeId) -> (r: String)
    ensures
        r@ == node_text(id),
{
    let mut s = "NodeId(".to_owned();
    s.append(decimal(id.0).as_str());
    s.append(")");
    s
}

/// Joins two pieces of text.
pub fn join2(a: &str, b: &str) -> (r: String)
    ensures
        r@ == a@ + b@,
{
    let mut s = a.to_owned();
    s.append(b);
    s
}

/// Joins three pieces of text.
pub fn join3(a: &str, b: &str, c: &str) -> (r: String)
    ensures
        r@ == a@ + b@ + c@,
{
    let mut s = a.to_owned();
    s.append(b);
    s.append(c);
    s
}

/// Joins four pieces of text.
pub fn join4(a: &str, b: &str, c: &str, d: &str) -> (r: String)
    ensures
        r@ == a@ + b@ + c@ + d@,
{
    let mut s = a.to_owned();
    s.append(b);
    s.append(c);
    s.append(d);
    s
}

/// Whether `part` stands somewhere in `s`.
pub open spec fn text_contains(s: Seq<char>, part: Seq<char>) -> bool {
    exists|i: int| 0 <= i <= s.len() - part.len() && #[trigger] stands_at(s, part, i)
}

/// Whether `part` stands in `s` from position `i` on.
pub open spec fn stands_at(s: Seq<char>, part: Seq<char>, i: int) -> bool {
    s.subrange(i, i + part.len()) == part
}

/// Whether a text holds another.
pub fn contains_text(s: &str, part: &str) -> (r: bool)
    ensures
        r == text_contains(s@, part@),
{
    let n: usize = s.unicode_len();
    let m: usize = part.unicode_len();
    if m > n {
        return false;
    }
    let mut i: usize = 0;
    while i <= n - m
        invariant
            n == s@.len(),
            m == part@.len(),
            m <= n,
            i <= n - m + 1,
            forall|j: int| 0 <= j < i ==> !#[trigger] stands_at(s@, part@, j),
        decreases n - m + 1 - i,
    {
        let mut k: usize = 0;
        while k < m && s.get_char(i + k) == part.get_char(k)
            invariant
                n == s@.len(),
                m == part@.len(),
                m <= n,
                i <= n - m,
                k <= m,
                forall|j: int| 0 <= j < k ==> s@[i + j] == part@[j],
            decreases m - k,
        {
            k = k + 1;
        }
        if k == m {
            assert(s@.subrange(i as int, i + m) =~= part@);
            assert(stands_at(s@, part@, i as int));
            return true;
        }
        proof {
            if stands_at(s@, part@, i as int) {
                assert(s@.subrange(i as int, i + m)[k as int] == part@[k as int]);
            }
        }
        if i == n - m {
            return false;
        }
        i = i + 1;
    }
    false
}

} // verus!
