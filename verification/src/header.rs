//! The length of a sequence and the fixed bits of its first byte.
//!
//! The values from 0 to [`MAX_VALUE`] fall into six ranges that follow one
//! another, one for each length from 1 to [`MAX_LENGTH`]:
//!
//! | values                  | length | header        |
//! |-------------------------|--------|---------------|
//! | `0x0000_0000..=0x0000_007F` | 1  | `0b0000_0000` |
//! | `0x0000_0080..=0x0000_07FF` | 2  | `0b1100_0000` |
//! | `0x0000_0800..=0x0000_FFFF` | 3  | `0b1110_0000` |
//! | `0x0001_0000..=0x001F_FFFF` | 4  | `0b1111_0000` |
//! | `0x0020_0000..=0x03FF_FFFF` | 5  | `0b1111_1000` |
//! | `0x0400_0000..=0x7FFF_FFFF` | 6  | `0b1111_1100` |

use vstd::prelude::*;

use crate::codepoint::MAX_LENGTH;

verus! {

/// The error for a value that has no encoding: one with its most significant
/// bit set.
#[derive(Copy, Clone, Debug, Eq, Hash, Ord, PartialEq, PartialOrd, Structural)]
pub struct OverflowError;

/// The largest value that has an encoding.
pub const MAX_VALUE: u32 = 0x7FFF_FFFF;

/// Whether the most significant bit of `value` is set.
pub open spec fn top_bit_set(value: u32) -> bool {
    value & 0x8000_0000 != 0
}

/// The largest value whose sequence has `length` bytes, for a `length` from 1
/// to [`MAX_LENGTH`]. A sequence of one byte carries 7 bits of the value, a
/// longer one 6 bits in each byte after the first and `7 - length` bits in the
/// first.
pub open spec fn last_of_length(length: nat) -> int {
    if length == 1 {
        0x7F
    } else if length == 2 {
        0x7FF
    } else if length == 3 {
        0xFFFF
    } else if length == 4 {
        0x1F_FFFF
    } else if length == 5 {
        0x3FF_FFFF
    } else {
        0x7FFF_FFFF
    }
}

/// The smallest value whose sequence has `length` bytes: the one after the
/// last value of the next shorter length.
pub open spec fn first_of_length(length: nat) -> int {
    if length <= 1 {
        0
    } else {
        last_of_length((length - 1) as nat) + 1
    }
}

/// The number of bytes in the sequence for `value`: the least length whose
/// range reaches `value`. It is meant for a `value` up to [`MAX_VALUE`].
pub open spec fn sequence_length(value: u32) -> nat {
    if value <= last_of_length(1) {
        1
    } else if value <= last_of_length(2) {
        2
    } else if value <= last_of_length(3) {
        3
    } else if value <= last_of_length(4) {
        4
    } else if value <= last_of_length(5) {
        5
    } else {
        6
    }
}

/// The first byte of a sequence of `length` bytes with the bits that carry the
/// value cleared: no bit for a single byte, else `length` leading one bits.
pub open spec fn header_pattern(length: nat) -> u8 {
    if length == 2 {
        0b1100_0000
    } else if length == 3 {
        0b1110_0000
    } else if length == 4 {
        0b1111_0000
    } else if length == 5 {
        0b1111_1000
    } else if length == 6 {
        0b1111_1100
    } else {
        0b0000_0000
    }
}

/// The bits of the first byte that tell the length of a sequence of `length`
/// bytes: the one bits of its header and the zero bit that ends them. The
/// bits outside the mask carry a part of the value.
pub open spec fn header_mask(length: nat) -> u8 {
    if length == 2 {
        0b1110_0000
    } else if length == 3 {
        0b1111_0000
    } else if length == 4 {
        0b1111_1000
    } else if length == 5 {
        0b1111_1100
    } else if length == 6 {
        0b1111_1110
    } else {
        0b1000_0000
    }
}

/// A value is above [`MAX_VALUE`] exactly when its most significant bit is
/// set.
pub proof fn lemma_overflow_is_top_bit(value: u32)
    ensures
        value > MAX_VALUE <==> top_bit_set(value),
{
    assert(value > 0x7FFF_FFFFu32 <==> value & 0x8000_0000 != 0) by (bit_vector);
}

/// The six ranges start at 0, end at [`MAX_VALUE`], and each starts right
/// after the one before it. A value that has an encoding lies in the range of
/// its length and in no other.
pub proof fn lemma_ranges_partition(value: u32, length: nat)
    requires
        value <= MAX_VALUE,
        1 <= length <= MAX_LENGTH,
    ensures
        first_of_length(1) == 0,
        last_of_length(MAX_LENGTH as nat) == MAX_VALUE,
        length > 1 ==> first_of_length(length) == last_of_length((length - 1) as nat) + 1,
        first_of_length(length) <= last_of_length(length),
        1 <= sequence_length(value) <= MAX_LENGTH,
        sequence_length(value) == length <==> first_of_length(length) <= value <= last_of_length(
            length,
        ),
{
}

/// Returns the length of the sequence for `input` and the header byte of that
/// sequence, or [`OverflowError`] where `input` is above [`MAX_VALUE`].
///
/// The bits of the header byte that will carry a part of the value are zero,
/// so that the part can be put in with a bitwise OR.
pub fn get_header(input: u32) -> (result: Result<(usize, u8), OverflowError>)
    ensures
        match result {
            Ok((length, header)) => {
                &&& input <= MAX_VALUE
                &&& 1 <= length <= MAX_LENGTH
                &&& length == sequence_length(input)
                &&& header == header_pattern(sequence_length(input))
            },
            Err(_) => input > MAX_VALUE,
        },
        result is Err <==> top_bit_set(input),
{
    proof {
        lemma_overflow_is_top_bit(input);
    }
    Ok(
        match input {
            0x00000000..=0x0000007F => (1, 0b00000000),
            0x00000080..=0x000007FF => (2, 0b11000000),
            0x00000800..=0x0000FFFF => (3, 0b11100000),
            0x00010000..=0x001FFFFF => (4, 0b11110000),
            0x00200000..=0x03FFFFFF => (5, 0b11111000),
            0x04000000..=0x7FFFFFFF => (6, 0b11111100),
            _ => return Err(OverflowError),
        },
    )
}

} // verus!
