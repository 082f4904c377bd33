//! Identifiers of the log: shards, tenants, nodes, chunks, sequence numbers.

use vstd::prelude::*;

use crate::bytes::{order_bytes, KeyOrder};
use crate::bytes::{be_bytes, be_value, lemma_be_value_bound, lemma_be_value_injective, radix};
use crate::ordered_map::OrderedKey;

verus! {

/// A shard's UUID, as its 128-bit number.
#[derive(Clone, Copy, Debug, PartialEq, Eq, PartialOrd, Ord, Hash, Structural)]
pub struct ShardId(pub u128);

/// A tenant's UUID, as its 128-bit number.
#[derive(Clone, Copy, Debug, PartialEq, Eq, PartialOrd, Ord, Hash, Structural)]
pub struct OrgId(pub u128);

/// A node of the cluster.
#[derive(Clone, Copy, Debug, PartialEq, Eq, PartialOrd, Ord, Hash, Structural)]
pub struct NodeId(pub u64);

/// The position of a delta in its shard; positions start at 1.
#[derive(Clone, Copy, Debug, PartialEq, Eq, PartialOrd, Ord, Hash, Structural)]
pub struct SequenceNumber(pub u64);

/// The content address of a chunk.
#[derive(Clone, Copy, Debug, PartialEq, Eq, PartialOrd, Ord, Hash)]
pub struct ChunkId(pub [u8; 32]);

/// A chunk as one tenant sees it: refcounts are never shared across tenants.
#[derive(Clone, Copy, Debug, PartialEq, Eq, PartialOrd, Ord, Hash)]
pub struct ChunkKey {
    /// The tenant.
    pub tenant: OrgId,
    /// The chunk.
    pub chunk: ChunkId,
}



impl OrderedKey for ShardId {
    open spec fn rank(self) -> int {
        self.0 as int
    }

    proof fn rank_injective(a: Self, b: Self) {
    }

    fn before(&self, other: &Self) -> (r: bool) {
        self.0 < other.0
    }
}

impl OrderedKey for NodeId {
    open spec fn rank(self) -> int {
        self.0 as int
    }

    proof fn rank_injective(a: Self, b: Self) {
    }

    fn before(&self, other: &Self) -> (r: bool) {
        self.0 < other.0
    }
}

/// Two 32-byte keys with the same bytes are the same key.
pub proof fn lemma_array32_equal(a: [u8; 32], b: [u8; 32])
    requires
        a@ == b@,
    ensures
        a == b,
{
    assert forall|i: int| 0 <= i < 32 implies a[i] == b[i] by {
        assert(a@[i] == b@[i]);
    }
    assert(a =~= b);
}

impl OrderedKey for ChunkId {
    open spec fn rank(self) -> int {
        be_value(self.0@) as int
    }

    proof fn rank_injective(a: Self, b: Self) {
        lemma_be_value_injective(a.0@, b.0@);
        lemma_array32_equal(a.0, b.0);
    }

    fn before(&self, other: &Self) -> (r: bool) {
        let a = self.0.as_slice();
        let b = other.0.as_slice();
        assert(self.rank() == be_value(a@) && other.rank() == be_value(b@));
        match order_bytes(a, b) {
            KeyOrder::Less => true,
            _ => false,
        }
    }
}

/// A 32-byte routing key: the hash of a parent directory and a name.
#[derive(Clone, Copy, Debug, PartialEq, Eq, PartialOrd, Ord, Hash)]
pub struct HashedKey(pub [u8; 32]);

impl OrderedKey for HashedKey {
    open spec fn rank(self) -> int {
        be_value(self.0@) as int
    }

    proof fn rank_injective(a: Self, b: Self) {
        lemma_be_value_injective(a.0@, b.0@);
        lemma_array32_equal(a.0, b.0);
    }

    fn before(&self, other: &Self) -> (r: bool) {
        let a = self.0.as_slice();
        let b = other.0.as_slice();
        assert(self.rank() == be_value(a@) && other.rank() == be_value(b@));
        match order_bytes(a, b) {
            KeyOrder::Less => true,
            _ => false,
        }
    }
}

impl OrderedKey for ChunkKey {
    open spec fn rank(self) -> int {
        self.tenant.0 as int * radix(32) as int + be_value(self.chunk.0@) as int
    }

    proof fn rank_injective(a: Self, b: Self) {
        lemma_be_value_bound(a.chunk.0@);
        lemma_be_value_bound(b.chunk.0@);
        lemma_split_unique(
            a.tenant.0 as int,
            be_value(a.chunk.0@) as int,
            b.tenant.0 as int,
            be_value(b.chunk.0@) as int,
            radix(32) as int,
        );
        lemma_be_value_injective(a.chunk.0@, b.chunk.0@);
        lemma_array32_equal(a.chunk.0, b.chunk.0);
    }

    fn before(&self, other: &Self) -> (r: bool) {
        proof {
            lemma_be_value_bound(self.chunk.0@);
            lemma_be_value_bound(other.chunk.0@);
            lemma_split_order(
                self.tenant.0 as int,
                be_value(self.chunk.0@) as int,
                other.tenant.0 as int,
                be_value(other.chunk.0@) as int,
                radix(32) as int,
            );
            lemma_split_order(
                other.tenant.0 as int,
                be_value(other.chunk.0@) as int,
                self.tenant.0 as int,
                be_value(self.chunk.0@) as int,
                radix(32) as int,
            );
        }
        if self.tenant.0 != other.tenant.0 {
            self.tenant.0 < other.tenant.0
        } else {
            self.chunk.before(&other.chunk)
        }
    }
}

/// A number below `m` and a multiple of `m` determine each other's sum.
pub proof fn lemma_split_unique(a: int, x: int, b: int, y: int, m: int)
    requires
        0 <= x < m,
        0 <= y < m,
        a * m + x == b * m + y,
    ensures
        a == b,
        x == y,
{
    lemma_split_order(a, x, b, y, m);
    lemma_split_order(b, y, a, x, m);
    assert(a == b ==> a * m == b * m);
}

/// The high part decides the order.
pub proof fn lemma_split_order(a: int, x: int, b: int, y: int, m: int)
    requires
        0 <= x < m,
        0 <= y < m,
    ensures
        a < b ==> a * m + x < b * m + y,
        a == b ==> a * m == b * m,
{
    if a < b {
        assert(a * m + m <= b * m) by (nonlinear_arith)
            requires
                a + 1 <= b,
                m > 0,
        ;
    }
}

/// Reads the sixteen bytes of a UUID, most significant first, with
/// `uuid::Uuid::from_bytes` and `uuid::Uuid::as_u128`.
#[verifier::external_body]
pub(crate) fn uuid_from_bytes(b: [u8; 16]) -> (r: u128)
    ensures
        r == be_value(b@),
{
    uuid::Uuid::from_bytes(b).as_u128()
}

/// Writes a UUID as its sixteen bytes, most significant first, with
/// `uuid::Uuid::from_u128` and `uuid::Uuid::into_bytes`.
#[verifier::external_body]
pub(crate) fn uuid_to_bytes(x: u128) -> (r: [u8; 16])
    ensures
        r@ == be_bytes(x as nat, 16),
{
    uuid::Uuid::from_u128(x).into_bytes()
}

/// Draws a random version 4 UUID with `uuid::Uuid::new_v4`. Of the bits, only
/// the version and the variant are fixed; the rest is chance.
#[verifier::external_body]
pub(crate) fn uuid_new_v4() -> (r: u128)
    ensures
        r / 0x1000_0000_0000_0000_0000 % 16 == 4,
        r / 0x4000_0000_0000_0000 % 4 == 2,
{
    uuid::Uuid::new_v4().as_u128()
}

/// The nil UUID, `uuid::Uuid::nil`, is the number zero.
#[verifier::external_body]
pub(crate) fn uuid_nil() -> (r: u128)
    ensures
        r == 0,
{
    uuid::Uuid::nil().as_u128()
}

/// Sixteen to the power of `n`.
pub open spec fn pow16(n: nat) -> nat
    decreases n,
{
    if n == 0 {
        1
    } else {
        16 * pow16((n - 1) as nat)
    }
}

/// The lower-case hexadecimal digit of a number below sixteen.
pub open spec fn hex_digit(d: nat) -> char {
    if d < 10 {
        (48 + d) as char
    } else {
        (87 + d) as char
    }
}

/// The text of a UUID: thirty-two lower-case hexadecimal digits in groups of
/// 8, 4, 4, 4 and 12, joined by hyphens.
pub open spec fn uuid_text(x: u128) -> Seq<char> {
    Seq::new(
        36,
        |i: int|
            if i == 8 || i == 13 || i == 18 || i == 23 {
                '-'
            } else {
                let digit = if i < 8 {
                    i
                } else if i < 13 {
                    i - 1
                } else if i < 18 {
                    i - 2
                } else if i < 23 {
                    i - 3
                } else {
                    i - 4
                };
                hex_digit((x as nat / pow16((31 - digit) as nat)) % 16)
            },
    )
}

/// Formats a UUID with the `Display` impl of `uuid::Uuid`, which writes the
/// hyphenated lower-case form.
#[verifier::external_body]
pub(crate) fn uuid_to_string(x: u128) -> (r: String)
    ensures
        r@ == uuid_text(x),
{
    uuid::Uuid::from_u128(x).to_string()
}

/// What `uuid::Uuid::parse_str` makes of a string: the number of the UUID in
/// one of the accepted notations, or the text of the error.
pub uninterp spec fn uuid_parsed(s: Seq<char>) -> Result<u128, Seq<char>>;

/// What the outcome of parsing holds.
pub open spec fn parse_view(r: Result<u128, String>) -> Result<u128, Seq<char>> {
    match r {
        Ok(x) => Ok(x),
        Err(m) => Err(m@),
    }
}

/// Parses a UUID with `uuid::Uuid::parse_str`; an error is turned into its text.
/// The hyphenated form that [`uuid_to_string`] writes is one of the accepted
/// notations; the empty string is none. The other notations and the texts are
/// named, not spelled out.
#[verifier::external_body]
pub(crate) fn uuid_parse(s: &str) -> (r: Result<u128, String>)
    ensures
        parse_view(r) == uuid_parsed(s@),
        forall|x: u128| s@ == #[trigger] uuid_text(x) ==> r is Ok && r->Ok_0 == x,
        s@.len() == 0 ==> r is Err,
{
    uuid::Uuid::parse_str(s).map(|u| u.as_u128()).map_err(|e| e.to_string())
}

} // verus!
