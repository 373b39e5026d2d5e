//! Little-endian integer encodings over byte sequences.
use vstd::prelude::*;

verus! {

/// The value of four bytes read as a little-endian `u32`.
pub open spec fn spec_u32_le(b0: u8, b1: u8, b2: u8, b3: u8) -> u32 {
    (b0 as int + b1 as int * 0x100 + b2 as int * 0x1_0000 + b3 as int * 0x100_0000) as u32
}

/// The value of two bytes read as a little-endian `u16`.
pub open spec fn spec_u16_le(b0: u8, b1: u8) -> u16 {
    (b0 as int + b1 as int * 0x100) as u16
}

/// Decodes four bytes as a little-endian `u32`.
pub fn u32_from_le(b0: u8, b1: u8, b2: u8, b3: u8) -> (v: u32)
    ensures
        v == spec_u32_le(b0, b1, b2, b3),
        v as int == b0 as int + b1 as int * 0x100 + b2 as int * 0x1_0000 + b3 as int * 0x100_0000,
{
    let v = (b0 as u32) | ((b1 as u32) << 8u32) | ((b2 as u32) << 16u32) | ((b3 as u32) << 24u32);
    assert(v as int == b0 as int + b1 as int * 0x100 + b2 as int * 0x1_0000 + b3 as int * 0x100_0000)
        by (bit_vector)
        requires
            v == (b0 as u32) | ((b1 as u32) << 8u32) | ((b2 as u32) << 16u32) | ((b3 as u32) << 24u32),
    ;
    v
}

/// Decodes two bytes as a little-endian `u16`.
pub fn u16_from_le(b0: u8, b1: u8) -> (v: u16)
    ensures
        v == spec_u16_le(b0, b1),
        v as int == b0 as int + b1 as int * 0x100,
{
    let v = (b0 as u16) | ((b1 as u16) << 8u16);
    assert(v as int == b0 as int + b1 as int * 0x100) by (bit_vector)
        requires
            v == (b0 as u16) | ((b1 as u16) << 8u16),
    ;
    v
}

/// The four little-endian bytes of a `u32`.
pub open spec fn spec_u32_le_bytes(v: u32) -> Seq<u8> {
    seq![
        (v & 0xFF) as u8,
        ((v >> 8u32) & 0xFF) as u8,
        ((v >> 16u32) & 0xFF) as u8,
        ((v >> 24u32) & 0xFF) as u8,
    ]
}

/// Reading the little-endian bytes of `v` gives `v` back.
pub proof fn lemma_u32_le_roundtrip(v: u32)
    ensures
        spec_u32_le(
            spec_u32_le_bytes(v)[0],
            spec_u32_le_bytes(v)[1],
            spec_u32_le_bytes(v)[2],
            spec_u32_le_bytes(v)[3],
        ) == v,
{
    let b0 = (v & 0xFF) as u8;
    let b1 = ((v >> 8u32) & 0xFF) as u8;
    let b2 = ((v >> 16u32) & 0xFF) as u8;
    let b3 = ((v >> 24u32) & 0xFF) as u8;
    assert(b0 as int + b1 as int * 0x100 + b2 as int * 0x1_0000 + b3 as int * 0x100_0000 == v as int)
        by (bit_vector)
        requires
            b0 == (v & 0xFF) as u8,
            b1 == ((v >> 8u32) & 0xFF) as u8,
            b2 == ((v >> 16u32) & 0xFF) as u8,
            b3 == ((v >> 24u32) & 0xFF) as u8,
    ;
}

/// Encodes a `u32` as four little-endian bytes.
pub fn u32_to_le(v: u32) -> (b: [u8; 4])
    ensures
        b@ == spec_u32_le_bytes(v),
        spec_u32_le(b@[0], b@[1], b@[2], b@[3]) == v,
{
    proof {
        lemma_u32_le_roundtrip(v);
    }
    let b = [
        (v & 0xFF) as u8,
        ((v >> 8u32) & 0xFF) as u8,
        ((v >> 16u32) & 0xFF) as u8,
        ((v >> 24u32) & 0xFF) as u8,
    ];
    assert(b@ =~= spec_u32_le_bytes(v));
    b
}

/// Number of set bits in a byte.
pub open spec fn spec_popcount(b: u8) -> nat {
    partial_popcount(b, 8)
}

/// Counts the set bits of a byte.
pub fn popcount(b: u8) -> (n: u8)
    ensures
        n as nat == spec_popcount(b),
        n <= 8,
{
    let mut n: u8 = 0;
    let mut i: u8 = 0;
    while i < 8
        invariant
            i <= 8,
            n <= i,
            n as nat == partial_popcount(b, i as nat),
        decreases 8 - i,
    {
        let bit = (b >> i) & 1;
        assert(bit <= 1) by (bit_vector)
            requires
                bit == (b >> i) & 1,
        ;
        n = n + bit;
        i = i + 1;
    }
    n
}

/// Number of set bits among the lowest `k` bits of a byte.
pub open spec fn partial_popcount(b: u8, k: nat) -> nat
    decreases k,
{
    if k == 0 {
        0
    } else {
        partial_popcount(b, (k - 1) as nat) + ((b >> ((k - 1) as u8)) & 1) as nat
    }
}

/// Counting the bits below `k` of `b` with bit `i` set as well: one more
/// when `i < k`.
proof fn lemma_partial_popcount_set_bit(b: u8, i: u8, k: nat)
    requires
        i < 8,
        k <= 8,
        b & (1u8 << i) == 0,
    ensures
        partial_popcount(b | (1u8 << i), k) == partial_popcount(b, k) + if (i as nat) < k {
            1nat
        } else {
            0nat
        },
    decreases k,
{
    if k > 0 {
        lemma_partial_popcount_set_bit(b, i, (k - 1) as nat);
        let j = (k - 1) as u8;
        assert(j < 8);
        assert((j == i ==> ((b | (1u8 << i)) >> j) & 1 == 1 && (b >> j) & 1 == 0) && (j != i
            ==> ((b | (1u8 << i)) >> j) & 1 == (b >> j) & 1)) by (bit_vector)
            requires
                i < 8,
                j < 8,
                b & (1u8 << i) == 0,
        ;
    }
}

/// No bit of 0 is set below `k`.
proof fn lemma_partial_popcount_zero(k: nat)
    requires
        k <= 8,
    ensures
        partial_popcount(0, k) == 0,
    decreases k,
{
    if k > 0 {
        lemma_partial_popcount_zero((k - 1) as nat);
        let j = (k - 1) as u8;
        assert((0u8 >> j) & 1 == 0) by (bit_vector);
    }
}

/// The badge count is the number of set bits: a byte without set bits
/// counts 0, and setting one more bit (any of the eight) counts exactly one
/// more, whatever else is set.
pub proof fn lemma_popcount_counts_bits(b: u8, i: u8)
    requires
        i < 8,
        b & (1u8 << i) == 0,
    ensures
        spec_popcount(0) == 0,
        spec_popcount(b | (1u8 << i)) == spec_popcount(b) + 1,
{
    lemma_partial_popcount_zero(8);
    lemma_partial_popcount_set_bit(b, i, 8);
}

} // verus!
