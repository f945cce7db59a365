//! Binary arithmetic built from bitwise operations alone: an adder that
//! propagates carries explicitly and a multiplier that counts additions.

use vstd::prelude::*;

verus! {

/// Adds two words without `+`: exclusive or takes the carry-less sum and
/// the carries are folded back in until none remain.  The result is the
/// sum modulo `2^32`, as for machine addition.
pub fn adder(a: u32, b: u32) -> (r: u32)
    ensures
        r as int == (a as int + b as int) % 0x1_0000_0000,
{
    let mut x = a;
    let mut y = b;
    let ghost mut k: u64 = 0;
    proof {
        assert((b as u64) & (((1u64 << 0u64) - 1) as u64) == 0) by (bit_vector);
    }
    loop
        invariant_except_break
            k <= 32,
            (x as u64 + y as u64) % 0x1_0000_0000 == (a as u64 + b as u64) % 0x1_0000_0000,
            (y as u64) & (((1u64 << k) - 1) as u64) == 0,
        ensures
            y == 0,
            (x as u64 + y as u64) % 0x1_0000_0000 == (a as u64 + b as u64) % 0x1_0000_0000,
        decreases 32u64 - k,
    {
        let x0 = x;
        let y0 = y;
        let carry = (x0 & y0) << 1u32;
        x = x0 ^ y0;
        y = x & carry;
        x = x | carry;
        proof {
            let x2 = x0 ^ y0;
            let y2 = x2 & carry;
            let x3 = x2 | carry;
            assert((x3 as u64 + y2 as u64) % 0x1_0000_0000 == (x0 as u64 + y0 as u64)
                % 0x1_0000_0000) by (bit_vector)
                requires
                    carry == (x0 & y0) << 1u32,
                    x2 == x0 ^ y0,
                    y2 == x2 & carry,
                    x3 == x2 | carry,
            ;
            assert((y2 as u64) & (((1u64 << ((k + 1) as u64)) - 1) as u64) == 0) by (bit_vector)
                requires
                    k <= 32,
                    carry == (x0 & y0) << 1u32,
                    y2 == (x0 ^ y0) & carry,
                    (y0 as u64) & (((1u64 << k) - 1) as u64) == 0,
            ;
            assert(carry != 0 ==> k <= 30) by (bit_vector)
                requires
                    k <= 32,
                    carry == (x0 & y0) << 1u32,
                    (y0 as u64) & (((1u64 << k) - 1) as u64) == 0,
            ;
            assert(carry == 0 ==> y2 == 0) by (bit_vector)
                requires
                    y2 == (x0 ^ y0) & carry,
            ;
        }
        if carry == 0 {
            break;
        }
        proof {
            k = (k + 1) as u64;
        }
    }
    proof {
        assert(x as u64 % 0x1_0000_0000 == x as u64) by (bit_vector);
    }
    x
}

/// Multiplies by repeated addition; the result is the product modulo
/// `2^32`.
pub fn multiplier(a: u32, b: u32) -> (r: u32)
    ensures
        r as int == (a as int * b as int) % 0x1_0000_0000,
{
    let mut result: u32 = 0;
    let mut y = b;
    while y != 0
        invariant
            y <= b,
            result as int == (a as int * (b - y)) % 0x1_0000_0000,
        decreases y,
    {
        let prev = result;
        result = adder(prev, a);
        proof {
            let m = 0x1_0000_0000int;
            let done = (b - y) as int;
            vstd::arithmetic::div_mod::lemma_add_mod_noop(a as int * done, a as int, m);
            vstd::arithmetic::div_mod::lemma_mod_twice(a as int * done, m);
            vstd::arithmetic::div_mod::lemma_small_mod(a as nat, m as nat);
            assert(a as int * done + a as int == a as int * (done + 1)) by (nonlinear_arith);
        }
        y = y - 1;
    }
    result
}

} // verus!
