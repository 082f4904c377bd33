//! Big-endian byte strings as numbers.
//!
//! Keys of the log are byte strings compared lexicographically. For strings of
//! one length that order is the order of the numbers they spell in base 256,
//! which is how the contracts of this crate speak of it.

use vstd::prelude::*;

verus! {

/// The number that a byte string spells in base 256, most significant first.
pub open spec fn be_value(s: Seq<u8>) -> nat
    decreases s.len(),
{
    if s.len() == 0 {
        0
    } else {
        be_value(s.drop_last()) * 256 + s.last() as nat
    }
}

/// `256` to the power of `n`: how many strings of `n` bytes there are.
pub open spec fn radix(n: nat) -> nat
    decreases n,
{
    if n == 0 {
        1
    } else {
        radix((n - 1) as nat) * 256
    }
}

/// The `n` bytes that spell `x` in base 256, most significant first.
pub open spec fn be_bytes(x: nat, n: nat) -> Seq<u8>
    decreases n,
{
    if n == 0 {
        Seq::empty()
    } else {
        be_bytes(x / 256, (n - 1) as nat).push((x % 256) as u8)
    }
}

/// The `n` bytes that spell `x` in base 256, least significant first.
pub open spec fn le_bytes(x: nat, n: nat) -> Seq<u8> {
    be_bytes(x, n).reverse()
}

pub proof fn lemma_radix_positive(n: nat)
    ensures
        radix(n) >= 1,
    decreases n,
{
    if n > 0 {
        lemma_radix_positive((n - 1) as nat);
    }
}

/// A string of `n` bytes spells a number below `256^n`.
pub proof fn lemma_be_value_bound(s: Seq<u8>)
    ensures
        be_value(s) < radix(s.len()),
    decreases s.len(),
{
    if s.len() > 0 {
        lemma_be_value_bound(s.drop_last());
    }
}

/// Of two strings of one length, the one that is smaller at the first
/// difference spells the smaller number.
pub proof fn lemma_be_value_lexicographic(a: Seq<u8>, b: Seq<u8>, i: int)
    requires
        a.len() == b.len(),
        0 <= i < a.len(),
        forall|j: int| 0 <= j < i ==> a[j] == b[j],
        a[i] < b[i],
    ensures
        be_value(a) < be_value(b),
    decreases a.len(),
{
    let a1 = a.drop_last();
    let b1 = b.drop_last();
    if i == a.len() - 1 {
        assert(a1 =~= b1);
    } else {
        lemma_be_value_lexicographic(a1, b1, i);
    }
}

/// Strings of one length that spell the same number are equal.
pub proof fn lemma_be_value_injective(a: Seq<u8>, b: Seq<u8>)
    requires
        a.len() == b.len(),
        be_value(a) == be_value(b),
    ensures
        a == b,
    decreases a.len(),
{
    if a.len() == 0 {
        assert(a =~= b);
    } else {
        let a1 = a.drop_last();
        let b1 = b.drop_last();
        assert(be_value(a1) == be_value(b1) && a.last() == b.last());
        lemma_be_value_injective(a1, b1);
        assert(a =~= a1.push(a.last()));
        assert(b =~= b1.push(b.last()));
    }
}

/// Writing a number and reading it back gives the number.
pub proof fn lemma_be_bytes_value(x: nat, n: nat)
    requires
        x < radix(n),
    ensures
        be_bytes(x, n).len() == n,
        be_value(be_bytes(x, n)) == x,
    decreases n,
{
    if n > 0 {
        let m = (n - 1) as nat;
        assert(x / 256 < radix(m));
        lemma_be_bytes_value(x / 256, m);
        let t = be_bytes(x, n);
        assert(t.drop_last() =~= be_bytes(x / 256, m));
    }
}

pub proof fn lemma_be_bytes_len(x: nat, n: nat)
    ensures
        be_bytes(x, n).len() == n,
    decreases n,
{
    if n > 0 {
        lemma_be_bytes_len(x / 256, (n - 1) as nat);
    }
}

/// Reading a string and writing its number back gives the string.
pub proof fn lemma_be_value_bytes(s: Seq<u8>)
    ensures
        be_bytes(be_value(s), s.len()) == s,
    decreases s.len(),
{
    if s.len() == 0 {
        assert(s =~= Seq::<u8>::empty());
    } else {
        let v = be_value(s);
        assert(v / 256 == be_value(s.drop_last()) && v % 256 == s.last() as nat);
        lemma_be_value_bytes(s.drop_last());
        assert(s =~= s.drop_last().push(s.last()));
    }
}

/// The number of a concatenation.
pub proof fn lemma_be_value_concat(a: Seq<u8>, b: Seq<u8>)
    ensures
        be_value(a + b) == be_value(a) * radix(b.len()) + be_value(b),
    decreases b.len(),
{
    if b.len() == 0 {
        assert(a + b =~= a);
        assert(be_value(a) * 1 == be_value(a));
        assert(radix(b.len()) == 1);
    } else {
        let b1 = b.drop_last();
        lemma_be_value_concat(a, b1);
        assert((a + b).drop_last() =~= a + b1);
        let va = be_value(a);
        let r = radix(b1.len());
        assert((va * r) * 256 == va * (r * 256)) by (nonlinear_arith);
        assert(radix(b.len()) == r * 256);
        assert(be_value(a + b) == (va * r + be_value(b1)) * 256 + b.last() as nat);
    }
}

/// How two byte strings of one length compare.
#[derive(Clone, Copy, Debug, PartialEq, Eq, Structural)]
pub enum KeyOrder {
    /// The first is smaller.
    Less,
    /// The two are equal.
    Same,
    /// The first is greater.
    Greater,
}

/// How two numbers compare.
pub open spec fn order_of(a: int, b: int) -> KeyOrder {
    if a < b {
        KeyOrder::Less
    } else if a == b {
        KeyOrder::Same
    } else {
        KeyOrder::Greater
    }
}

/// Compares two byte strings of one length lexicographically.
pub fn order_bytes(a: &[u8], b: &[u8]) -> (r: KeyOrder)
    requires
        a@.len() == b@.len(),
    ensures
        r == order_of(be_value(a@) as int, be_value(b@) as int),
        r == KeyOrder::Same <==> a@ == b@,
{
    let mut i: usize = 0;
    while i < a.len()
        invariant
            0 <= i <= a@.len(),
            a@.len() == b@.len(),
            forall|j: int| 0 <= j < i ==> a@[j] == b@[j],
        decreases a@.len() - i,
    {
        if a[i] < b[i] {
            proof {
                lemma_be_value_lexicographic(a@, b@, i as int);
            }
            return KeyOrder::Less;
        }
        if b[i] < a[i] {
            proof {
                lemma_be_value_lexicographic(b@, a@, i as int);
            }
            return KeyOrder::Greater;
        }
        i = i + 1;
    }
    assert(a@ =~= b@);
    KeyOrder::Same
}

/// Writes `x` as `n` bytes, most significant first.
pub fn to_be_vec(x: u128, n: usize) -> (r: Vec<u8>)
    requires
        n <= 16,
    ensures
        r@ == be_bytes(x as nat, n as nat),
{
    let mut out: Vec<u8> = Vec::new();
    let mut k: usize = 0;
    while k < n
        invariant
            k <= n,
            out@ == Seq::new(k as nat, |j: int| 0u8),
        decreases n - k,
    {
        out.push(0);
        k = k + 1;
        assert(out@ =~= Seq::new(k as nat, |j: int| 0u8));
    }
    let mut i: usize = n;
    let mut rest: u128 = x;
    proof {
        assert(be_bytes(x as nat, n as nat) + out@.subrange(n as int, n as int) =~= be_bytes(
            x as nat,
            n as nat,
        ));
    }
    while i > 0
        invariant
            i <= n,
            out@.len() == n,
            be_bytes(x as nat, n as nat) == be_bytes(rest as nat, i as nat) + out@.subrange(
                i as int,
                n as int,
            ),
        decreases i,
    {
        let ghost before = out@;
        i = i - 1;
        out[i] = (rest % 256) as u8;
        proof {
            let hi = be_bytes(rest as nat / 256, i as nat);
            assert(out@.subrange(i as int, n as int) =~= seq![(rest % 256) as u8]
                + before.subrange(i + 1, n as int));
            assert(hi.push((rest as nat % 256) as u8) + before.subrange(i + 1, n as int) =~= hi
                + out@.subrange(i as int, n as int));
        }
        rest = rest / 256;
    }
    proof {
        lemma_be_bytes_len(x as nat, n as nat);
        assert(be_bytes(rest as nat, 0) + out@.subrange(0, n as int) =~= out@);
    }
    out
}

/// Reads at most sixteen bytes as a number, most significant first.
pub fn from_be_slice(s: &[u8]) -> (r: u128)
    requires
        s@.len() <= 16,
    ensures
        r == be_value(s@),
{
    let mut v: u128 = 0;
    let mut i: usize = 0;
    proof {
        assert(s@.take(0) =~= Seq::<u8>::empty());
    }
    while i < s.len()
        invariant
            i <= s@.len(),
            s@.len() <= 16,
            v == be_value(s@.take(i as int)),
        decreases s@.len() - i,
    {
        proof {
            let t = s@.take(i + 1);
            assert(t.drop_last() =~= s@.take(i as int));
            lemma_be_value_bound(t);
            lemma_radix_monotone(t.len(), 16);
            assert(radix(16) == 0x1_0000_0000_0000_0000_0000_0000_0000_0000) by {
                reveal_with_fuel(radix, 17);
            }
        }
        v = v * 256 + s[i] as u128;
        i = i + 1;
    }
    proof {
        assert(s@.take(s@.len() as int) =~= s@);
    }
    v
}

pub proof fn lemma_radix_monotone(a: nat, b: nat)
    requires
        a <= b,
    ensures
        radix(a) <= radix(b),
    decreases b,
{
    if a < b {
        lemma_radix_monotone(a, (b - 1) as nat);
        lemma_radix_positive((b - 1) as nat);
    }
}

/// The first `16` bytes of a slice of that length, as an array.
pub fn array16(s: &[u8]) -> (r: [u8; 16])
    requires
        s@.len() == 16,
    ensures
        r@ == s@,
{
    let mut a: [u8; 16] = [0; 16];
    let mut i: usize = 0;
    while i < 16
        invariant
            i <= 16,
            s@.len() == 16,
            forall|j: int| 0 <= j < i ==> a@[j] == s@[j],
        decreases 16 - i,
    {
        a[i] = s[i];
        i = i + 1;
    }
    assert(a@ =~= s@);
    a
}

/// A copy of a byte slice.
pub fn copy_bytes(s: &[u8]) -> (r: Vec<u8>)
    ensures
        r@ == s@,
{
    let mut out: Vec<u8> = Vec::new();
    let mut i: usize = 0;
    while i < s.len()
        invariant
            i <= s@.len(),
            out@ == s@.take(i as int),
        decreases s@.len() - i,
    {
        out.push(s[i]);
        i = i + 1;
        assert(out@ =~= s@.take(i as int));
    }
    assert(out@ =~= s@);
    out
}

/// Two byte slices are equal.
pub fn same_bytes(a: &[u8], b: &[u8]) -> (r: bool)
    ensures
        r == (a@ == b@),
{
    if a.len() != b.len() {
        return false;
    }
    match order_bytes(a, b) {
        KeyOrder::Same => true,
        _ => false,
    }
}

} // verus!
