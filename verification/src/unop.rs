//! Unary bit tricks: the reflected binary code.

use vstd::prelude::*;

verus! {

/// The Gray code of a word.
pub open spec fn spec_gray(a: u32) -> u32 {
    a ^ (a >> 1u32)
}

/// Converts a word to its Gray code: each value differs from the next
/// in exactly one bit (see [`lemma_gray_code_adjacent`]).
pub fn gray_code(a: u32) -> (r: u32)
    ensures
        r == spec_gray(a),
{
    a ^ a >> 1u32
}

/// The defining property of the code: the Gray codes of consecutive
/// values differ in exactly one bit.
pub proof fn lemma_gray_code_adjacent(a: u32)
    requires
        a < 0xffff_ffffu32,
    ensures
        spec_gray(a) != spec_gray((a + 1) as u32),
        (spec_gray(a) ^ spec_gray((a + 1) as u32)) & (((spec_gray(a) ^ spec_gray(
            (a + 1) as u32,
        )) - 1) as u32) == 0,
{
    let b = (a + 1) as u32;
    let d = spec_gray(a) ^ spec_gray(b);
    assert(d != 0 && d & ((d - 1) as u32) == 0 && (a ^ (a >> 1u32)) != (b ^ (b >> 1u32))) by (bit_vector)
        requires
            a < 0xffff_ffffu32,
            b == (a + 1) as u32,
            d == (a ^ (a >> 1u32)) ^ (b ^ (b >> 1u32)),
    ;
}

} // verus!
