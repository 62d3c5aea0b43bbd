//! Wrapping arithmetic that adds a signed offset to an unsigned base.

use vstd::prelude::*;

verus! {

/// Adds a signed offset to a byte, modulo 256.
pub open spec fn offset_u8_spec(base: u8, offset: i8) -> u8 {
    ((base + offset) % 256) as u8
}

/// Adds a signed offset to a machine word, modulo the size of the word's range.
pub open spec fn offset_usize_spec(base: usize, offset: isize) -> usize {
    let sum = base + offset;
    if sum < 0 {
        (sum + usize::MAX + 1) as usize
    } else if sum > usize::MAX {
        (sum - usize::MAX - 1) as usize
    } else {
        sum as usize
    }
}

/// Adds a signed offset to a byte; the sum wraps around at both ends.
pub fn offset_u8(base: u8, offset: i8) -> (r: u8)
    ensures
        r == offset_u8_spec(base, offset),
{
    base.wrapping_add_signed(offset)
}

/// Adds a signed offset to a machine word; the sum wraps around at both ends.
pub fn offset_usize(base: usize, offset: isize) -> (r: usize)
    ensures
        r == offset_usize_spec(base, offset),
{
    base.wrapping_add_signed(offset)
}

} // verus!
