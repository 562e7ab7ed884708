//! Small facts about bitwise operations, proved once and shared.
use vstd::prelude::*;

verus! {

/// Facts about bytes: xor identities, or with zero, the unit shift.
pub proof fn lemma_byte_facts(x: u8, y: u8)
    by (bit_vector)
    ensures
        x ^ 0u8 == x,
        0u8 ^ x == x,
        x ^ x == 0u8,
        (x ^ y) ^ y == x,
        0u8 | x == x,
        1u8 << 0u8 == 1u8,
{
}

/// Facts about 32-bit words: shifting in a zero bit, the unit shift, the
/// bound of a 12-bit value.
pub proof fn lemma_word_facts(x: u32)
    by (bit_vector)
    ensures
        (x << 1u32) | 0u32 == x << 1u32,
        0u32 < (1u32 << 0u32),
        x < (1u32 << 12u32) ==> x < 4096,
{
}

} // verus!
