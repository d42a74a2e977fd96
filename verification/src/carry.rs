//! Word-level addition and subtraction with a single-bit carry.
//!
//! These are the primitives from which arithmetic on several words is chained:
//! each takes the carry, or borrow, that the next less significant word
//! produced and hands on the one that it produces itself. They are written
//! with the overflow-detecting operations of the integer types, and so do the
//! same on every machine.

use vstd::prelude::*;

verus! {

/// The base in which words are digits, two to the power of the word width:
/// the weight of a carry out of a word.
pub open spec fn word_base() -> nat {
    0x1_0000_0000
}

/// Adds `a`, `b` and the carry `c_in`, stores the low word of the sum in `out`
/// and returns the carry out of the word. A carry is a single bit: `c_in` is
/// zero or one, and so is what is returned.
pub fn add_carry(c_in: u8, a: u32, b: u32, out: &mut u32) -> (c_out: u8)
    requires
        c_in <= 1,
    ensures
        c_out <= 1,
        *final(out) + c_out * word_base() == a + b + c_in,
{
    let carry = c_in as u32;
    match a.checked_add(b) {
        Some(partial) => match partial.checked_add(carry) {
            Some(sum) => {
                *out = sum;
                0
            },
            None => {
                *out = partial.wrapping_add(carry);
                1
            },
        },
        None => {
            *out = a.wrapping_add(b).wrapping_add(carry);
            1
        },
    }
}

/// Subtracts `b` and the borrow `c_in` from `a`, stores the low word of the
/// difference in `out` and returns the borrow out of the word. A borrow is a
/// single bit: `c_in` is zero or one, and so is what is returned.
pub fn sub_carry(c_in: u8, a: u32, b: u32, out: &mut u32) -> (c_out: u8)
    requires
        c_in <= 1,
    ensures
        c_out <= 1,
        *final(out) - c_out * word_base() == a - b - c_in,
{
    let borrow = c_in as u32;
    match a.checked_sub(b) {
        Some(partial) => match partial.checked_sub(borrow) {
            Some(difference) => {
                *out = difference;
                0
            },
            None => {
                *out = partial.wrapping_sub(borrow);
                1
            },
        },
        None => {
            *out = a.wrapping_sub(b).wrapping_sub(borrow);
            1
        },
    }
}

} // verus!
