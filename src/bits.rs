//! Bit-level facts about the small masks that encode words.
use vstd::prelude::*;

verus! {

/// Bit `i` of an 8-bit mask.
pub open spec fn bit8(m: u8, i: u8) -> bool {
    (m >> i) & 1u8 == 1u8
}

/// Bit `i` of a 32-bit mask.
pub open spec fn bit32(m: u32, i: u32) -> bool {
    (m >> i) & 1u32 == 1u32
}

pub proof fn lemma_bit8_and(x: u8, y: u8, i: u8)
    requires
        i < 8,
    ensures
        bit8(x & y, i) == (bit8(x, i) && bit8(y, i)),
{
    assert(((x & y) >> i) & 1u8 == 1u8 <==> ((x >> i) & 1u8 == 1u8 && (y >> i) & 1u8 == 1u8))
        by (bit_vector)
        requires
            i < 8,
    ;
}

pub proof fn lemma_bit8_xor(x: u8, y: u8, i: u8)
    requires
        i < 8,
    ensures
        bit8(x ^ y, i) == (bit8(x, i) != bit8(y, i)),
{
    assert(((x ^ y) >> i) & 1u8 == 1u8 <==> (((x >> i) & 1u8 == 1u8) != ((y >> i) & 1u8 == 1u8)))
        by (bit_vector)
        requires
            i < 8,
    ;
}

pub proof fn lemma_bit8_set(x: u8, j: u8, i: u8)
    requires
        i < 8,
        j < 8,
    ensures
        bit8(x | (1u8 << j), i) == (bit8(x, i) || i == j),
{
    assert(((x | (1u8 << j)) >> i) & 1u8 == 1u8 <==> ((x >> i) & 1u8 == 1u8 || i == j))
        by (bit_vector)
        requires
            i < 8,
            j < 8,
    ;
}

pub proof fn lemma_bit8_zero(i: u8)
    requires
        i < 8,
    ensures
        !bit8(0u8, i),
{
    assert((0u8 >> i) & 1u8 != 1u8) by (bit_vector);
}

/// Two masks are equal exactly when they agree on all eight bits.
pub proof fn lemma_bit8_ext(x: u8, y: u8)
    requires
        forall|i: u8| i < 8 ==> #[trigger] bit8(x, i) == bit8(y, i),
    ensures
        x == y,
{
    assert(bit8(x, 0) == bit8(y, 0) && bit8(x, 1) == bit8(y, 1) && bit8(x, 2) == bit8(y, 2)
        && bit8(x, 3) == bit8(y, 3) && bit8(x, 4) == bit8(y, 4) && bit8(x, 5) == bit8(y, 5)
        && bit8(x, 6) == bit8(y, 6) && bit8(x, 7) == bit8(y, 7));
    assert(((x >> 0u8) & 1u8 == 1u8) == ((y >> 0u8) & 1u8 == 1u8) && ((x >> 1u8) & 1u8 == 1u8)
        == ((y >> 1u8) & 1u8 == 1u8) && ((x >> 2u8) & 1u8 == 1u8) == ((y >> 2u8) & 1u8 == 1u8)
        && ((x >> 3u8) & 1u8 == 1u8) == ((y >> 3u8) & 1u8 == 1u8) && ((x >> 4u8) & 1u8 == 1u8)
        == ((y >> 4u8) & 1u8 == 1u8) && ((x >> 5u8) & 1u8 == 1u8) == ((y >> 5u8) & 1u8 == 1u8)
        && ((x >> 6u8) & 1u8 == 1u8) == ((y >> 6u8) & 1u8 == 1u8) && ((x >> 7u8) & 1u8 == 1u8)
        == ((y >> 7u8) & 1u8 == 1u8) ==> x == y) by (bit_vector);
}

pub proof fn lemma_bit32_and(x: u32, y: u32, i: u32)
    requires
        i < 32,
    ensures
        bit32(x & y, i) == (bit32(x, i) && bit32(y, i)),
{
    assert(((x & y) >> i) & 1u32 == 1u32 <==> ((x >> i) & 1u32 == 1u32 && (y >> i) & 1u32
        == 1u32)) by (bit_vector)
        requires
            i < 32,
    ;
}

pub proof fn lemma_bit32_xor(x: u32, y: u32, i: u32)
    requires
        i < 32,
    ensures
        bit32(x ^ y, i) == (bit32(x, i) != bit32(y, i)),
{
    assert(((x ^ y) >> i) & 1u32 == 1u32 <==> (((x >> i) & 1u32 == 1u32) != ((y >> i) & 1u32
        == 1u32))) by (bit_vector)
        requires
            i < 32,
    ;
}

pub proof fn lemma_bit32_set(x: u32, j: u32, i: u32)
    requires
        i < 32,
        j < 32,
    ensures
        bit32(x | (1u32 << j), i) == (bit32(x, i) || i == j),
{
    assert(((x | (1u32 << j)) >> i) & 1u32 == 1u32 <==> ((x >> i) & 1u32 == 1u32 || i == j))
        by (bit_vector)
        requires
            i < 32,
            j < 32,
    ;
}

pub proof fn lemma_bit32_zero(i: u32)
    requires
        i < 32,
    ensures
        !bit32(0u32, i),
{
    assert((0u32 >> i) & 1u32 != 1u32) by (bit_vector);
}

} // verus!
