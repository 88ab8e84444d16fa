//! Big-endian views of multi-byte wire fields, and the byte-wise
//! lexicographic order used for canonical map keys.

use vstd::prelude::*;

verus! {

// ---------------------------------------------------------------------------
// Big-endian fields
// ---------------------------------------------------------------------------

/// The value of a 2-byte big-endian field.
pub open spec fn be16(b: Seq<u8>) -> u16
    recommends
        b.len() == 2,
{
    ((b[0] as u16) << 8) | (b[1] as u16)
}

/// The 2-byte big-endian encoding of a 16-bit value.
pub open spec fn be16_of(n: u16) -> Seq<u8> {
    seq![((n >> 8) & 0xff) as u8, (n & 0xff) as u8]
}

/// The value of a 4-byte big-endian field.
pub open spec fn be32(b: Seq<u8>) -> u32
    recommends
        b.len() == 4,
{
    ((b[0] as u32) << 24) | ((b[1] as u32) << 16) | ((b[2] as u32) << 8) | (b[3] as u32)
}

/// The 4-byte big-endian encoding of a 32-bit value.
pub open spec fn be32_of(n: u32) -> Seq<u8> {
    seq![
        ((n >> 24) & 0xff) as u8,
        ((n >> 16) & 0xff) as u8,
        ((n >> 8) & 0xff) as u8,
        (n & 0xff) as u8,
    ]
}

/// The value of an 8-byte big-endian field.
pub open spec fn be64(b: Seq<u8>) -> u64
    recommends
        b.len() == 8,
{
    ((b[0] as u64) << 56) | ((b[1] as u64) << 48) | ((b[2] as u64) << 40) | ((b[3] as u64) << 32)
        | ((b[4] as u64) << 24) | ((b[5] as u64) << 16) | ((b[6] as u64) << 8) | (b[7] as u64)
}

/// The 8-byte big-endian encoding of a 64-bit value.
pub open spec fn be64_of(n: u64) -> Seq<u8> {
    seq![
        ((n >> 56) & 0xff) as u8,
        ((n >> 48) & 0xff) as u8,
        ((n >> 40) & 0xff) as u8,
        ((n >> 32) & 0xff) as u8,
        ((n >> 24) & 0xff) as u8,
        ((n >> 16) & 0xff) as u8,
        ((n >> 8) & 0xff) as u8,
        (n & 0xff) as u8,
    ]
}

/// Reading back the 2-byte encoding of a value yields the value.
pub proof fn lemma_be16_roundtrip(n: u16)
    ensures
        be16(be16_of(n)) == n,
{
    let b0: u8 = ((n >> 8) & 0xff) as u8;
    let b1: u8 = (n & 0xff) as u8;
    assert(b0 == ((n >> 8) & 0xff) as u8 && b1 == (n & 0xff) as u8 ==> (((b0 as u16) << 8) | (
    b1 as u16)) == n) by (bit_vector);
}

/// Reading back the 4-byte encoding of a value yields the value.
pub proof fn lemma_be32_roundtrip(n: u32)
    ensures
        be32(be32_of(n)) == n,
{
    let b0: u8 = ((n >> 24) & 0xff) as u8;
    let b1: u8 = ((n >> 16) & 0xff) as u8;
    let b2: u8 = ((n >> 8) & 0xff) as u8;
    let b3: u8 = (n & 0xff) as u8;
    assert(b0 == ((n >> 24) & 0xff) as u8 && b1 == ((n >> 16) & 0xff) as u8 && b2 == ((n >> 8)
        & 0xff) as u8 && b3 == (n & 0xff) as u8 ==> (((b0 as u32) << 24) | ((b1 as u32) << 16) | ((
    b2 as u32) << 8) | (b3 as u32)) == n) by (bit_vector);
}

/// Reading back the 8-byte encoding of a value yields the value.
pub proof fn lemma_be64_roundtrip(n: u64)
    ensures
        be64(be64_of(n)) == n,
{
    let b0: u8 = ((n >> 56) & 0xff) as u8;
    let b1: u8 = ((n >> 48) & 0xff) as u8;
    let b2: u8 = ((n >> 40) & 0xff) as u8;
    let b3: u8 = ((n >> 32) & 0xff) as u8;
    let b4: u8 = ((n >> 24) & 0xff) as u8;
    let b5: u8 = ((n >> 16) & 0xff) as u8;
    let b6: u8 = ((n >> 8) & 0xff) as u8;
    let b7: u8 = (n & 0xff) as u8;
    assert(b0 == ((n >> 56) & 0xff) as u8 && b1 == ((n >> 48) & 0xff) as u8 && b2 == ((n >> 40)
        & 0xff) as u8 && b3 == ((n >> 32) & 0xff) as u8 && b4 == ((n >> 24) & 0xff) as u8 && b5 == ((
    n >> 16) & 0xff) as u8 && b6 == ((n >> 8) & 0xff) as u8 && b7 == (n & 0xff) as u8 ==> (((
    b0 as u64) << 56) | ((b1 as u64) << 48) | ((b2 as u64) << 40) | ((b3 as u64) << 32) | ((
    b4 as u64) << 24) | ((b5 as u64) << 16) | ((b6 as u64) << 8) | (b7 as u64)) == n)
        by (bit_vector);
}

// ---------------------------------------------------------------------------
// Byte-wise lexicographic order
// ---------------------------------------------------------------------------

/// Strict lexicographic order on byte sequences: a proper prefix is smaller,
/// and otherwise the first differing byte decides.
pub open spec fn lex_lt(a: Seq<u8>, b: Seq<u8>) -> bool
    decreases a.len(),
{
    if b.len() == 0 {
        false
    } else if a.len() == 0 {
        true
    } else if a[0] != b[0] {
        a[0] < b[0]
    } else {
        lex_lt(a.drop_first(), b.drop_first())
    }
}

/// The order is irreflexive.
pub proof fn lemma_lex_lt_irrefl(a: Seq<u8>)
    ensures
        !lex_lt(a, a),
    decreases a.len(),
{
    if a.len() > 0 {
        lemma_lex_lt_irrefl(a.drop_first());
    }
}

/// The order is transitive.
pub proof fn lemma_lex_lt_trans(a: Seq<u8>, b: Seq<u8>, c: Seq<u8>)
    requires
        lex_lt(a, b),
        lex_lt(b, c),
    ensures
        lex_lt(a, c),
    decreases a.len(),
{
    if a.len() > 0 && b.len() > 0 && c.len() > 0 && a[0] == b[0] && b[0] == c[0] {
        lemma_lex_lt_trans(a.drop_first(), b.drop_first(), c.drop_first());
    }
}

/// Two sequences are ordered one way or the other, or they are equal.
pub proof fn lemma_lex_lt_total(a: Seq<u8>, b: Seq<u8>)
    ensures
        lex_lt(a, b) || lex_lt(b, a) || a == b,
    decreases a.len(),
{
    if a.len() > 0 && b.len() > 0 && a[0] == b[0] {
        lemma_lex_lt_total(a.drop_first(), b.drop_first());
        if !lex_lt(a, b) && !lex_lt(b, a) {
            assert(a.drop_first() == b.drop_first());
            assert(a =~= b) by {
                assert(a.len() == b.len());
                assert forall|i: int| 0 <= i < a.len() implies a[i] == b[i] by {
                    if i >= 1 {
                        assert(a[i] == a.drop_first()[i - 1]);
                        assert(b[i] == b.drop_first()[i - 1]);
                    }
                }
            }
        }
    }
}

/// The order is asymmetric.
pub proof fn lemma_lex_lt_asym(a: Seq<u8>, b: Seq<u8>)
    requires
        lex_lt(a, b),
    ensures
        !lex_lt(b, a),
    decreases a.len(),
{
    if a.len() > 0 && b.len() > 0 && a[0] == b[0] {
        lemma_lex_lt_asym(a.drop_first(), b.drop_first());
    }
}

/// Compares two byte slices in the lexicographic order.
pub fn lex_byte_lt(a: &[u8], b: &[u8]) -> (r: bool)
    ensures
        r == lex_lt(a@, b@),
{
    let mut i: usize = 0;
    proof {
        assert(a@.skip(0) =~= a@);
        assert(b@.skip(0) =~= b@);
    }
    loop
        invariant
            i <= a@.len(),
            i <= b@.len(),
            lex_lt(a@, b@) == lex_lt(a@.skip(i as int), b@.skip(i as int)),
        decreases a@.len() - i,
    {
        if i >= b.len() {
            return false;
        }
        if i >= a.len() {
            return true;
        }
        let x: u8 = a[i];
        let y: u8 = b[i];
        if x != y {
            return x < y;
        }
        proof {
            assert(a@.skip(i as int).drop_first() =~= a@.skip(i + 1));
            assert(b@.skip(i as int).drop_first() =~= b@.skip(i + 1));
        }
        i = i + 1;
    }
}

} // verus!
