//! Keys under which offloaded payloads are stored.

use vstd::prelude::*;

use crate::bytes::{be_bytes, lemma_be_bytes_len, lemma_be_bytes_value, le_bytes, radix, to_be_vec};

verus! {

/// The key of an offloaded payload: the delta's hashed key with the delta's
/// sequence number, least significant byte first, mixed into the last eight
/// bytes.
pub open spec fn inline_key(hashed_key: Seq<u8>, sequence: u64) -> Seq<u8> {
    Seq::new(
        32,
        |i: int|
            if i < 24 {
                hashed_key[i]
            } else {
                hashed_key[i] ^ le_bytes(sequence as nat, 8)[i - 24]
            },
    )
}

/// Derives the key of an offloaded payload.
pub fn derive_inline_key(hashed_key: &[u8; 32], sequence: u64) -> (r: [u8; 32])
    ensures
        r@ == inline_key(hashed_key@, sequence),
{
    let be: Vec<u8> = to_be_vec(sequence as u128, 8);
    let mut key: [u8; 32] = *hashed_key;
    proof {
        lemma_be_bytes_len(sequence as nat, 8);
    }
    let mut i: usize = 0;
    while i < 8
        invariant
            i <= 8,
            be@ == be_bytes(sequence as nat, 8),
            be@.len() == 8,
            forall|j: int| 0 <= j < 24 + i ==> key@[j] == inline_key(hashed_key@, sequence)[j],
            forall|j: int| 24 + i <= j < 32 ==> key@[j] == hashed_key@[j],
        decreases 8 - i,
    {
        assert(le_bytes(sequence as nat, 8)[i as int] == be@[7 - i]);
        key[24 + i] = key[24 + i] ^ be[7 - i];
        i = i + 1;
    }
    assert(key@ =~= inline_key(hashed_key@, sequence));
    key
}

/// Law: two deltas of one hashed key with different sequence numbers never
/// share an inline key.
pub proof fn inline_key_injective(hashed_key: Seq<u8>, a: u64, b: u64)
    requires
        hashed_key.len() == 32,
        inline_key(hashed_key, a) == inline_key(hashed_key, b),
    ensures
        a == b,
{
    let la = le_bytes(a as nat, 8);
    let lb = le_bytes(b as nat, 8);
    lemma_be_bytes_len(a as nat, 8);
    lemma_be_bytes_len(b as nat, 8);
    assert forall|i: int| 0 <= i < 8 implies la[i] == lb[i] by {
        let h = hashed_key[24 + i];
        let x = la[i];
        let y = lb[i];
        assert(inline_key(hashed_key, a)[24 + i] == h ^ x);
        assert(inline_key(hashed_key, b)[24 + i] == h ^ y);
        assert(h ^ x == h ^ y ==> x == y) by (bit_vector);
    }
    assert forall|i: int| 0 <= i < 8 implies be_bytes(a as nat, 8)[i] == be_bytes(b as nat, 8)[i] by {
        assert(la[7 - i] == be_bytes(a as nat, 8)[i]);
        assert(lb[7 - i] == be_bytes(b as nat, 8)[i]);
    }
    assert(be_bytes(a as nat, 8) =~= be_bytes(b as nat, 8));
    assert(radix(8) == 0x1_0000_0000_0000_0000) by {
        reveal_with_fuel(radix, 9);
    }
    lemma_be_bytes_value(a as nat, 8);
    lemma_be_bytes_value(b as nat, 8);
}

} // verus!
