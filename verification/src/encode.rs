//! The byte sequence for a value.
//!
//! A value of one byte is that byte. A longer sequence is cut from the value
//! in groups of six bits, from the least significant bit up: the last byte
//! carries the lowest group, each byte before it the next one, and the first
//! byte what is left, beside the header that tells the length.

use vstd::prelude::*;

use crate::codepoint::{
    codepoint_bytes, codepoint_spare, empty_codepoint, set_byte, set_length, zeros, Codepoint,
    MAX_LENGTH,
};
use crate::header::{
    get_header, header_mask, header_pattern, sequence_length, OverflowError, MAX_VALUE,
};

verus! {

/// What is left of `value` when its `groups` lowest groups of six bits are
/// taken away.
pub open spec fn above_groups(value: u32, groups: nat) -> u32 {
    value >> ((6 * groups) as u32)
}

/// The first byte of the sequence for `value`: the header for its length,
/// with the bits of `value` above those that the other bytes carry.
pub open spec fn leading_byte(value: u32) -> u8 {
    let length = sequence_length(value);
    header_pattern(length) | (above_groups(value, (length - 1) as nat) as u8)
}

/// The byte that carries the six bits of `value` above its `groups` lowest
/// groups of six bits: those six bits below the two bits `10`.
pub open spec fn continuation_byte(value: u32, groups: nat) -> u8 {
    0b1000_0000u8 | ((above_groups(value, groups) & 0b0011_1111) as u8)
}

/// The byte at `index` of the sequence for `value`.
pub open spec fn encoded_byte(value: u32, index: int) -> u8 {
    if index == 0 {
        leading_byte(value)
    } else {
        continuation_byte(value, (sequence_length(value) - 1 - index) as nat)
    }
}

/// The sequence for `value`, which is meant for a `value` up to [`MAX_VALUE`].
pub open spec fn encoding(value: u32) -> Seq<u8> {
    Seq::new(sequence_length(value), |index: int| encoded_byte(value, index))
}

/// The number that the first `count` bytes of `bytes` carry, where `bytes` is
/// the sequence of some value: what the first byte holds beside its header,
/// then six bits more for each byte that follows.
pub open spec fn carried_value(bytes: Seq<u8>, count: nat) -> int
    decreases count,
{
    if count == 0 {
        0
    } else if count == 1 {
        bytes[0] - header_pattern(bytes.len())
    } else {
        64 * carried_value(bytes, (count - 1) as nat) + (bytes[count - 1] - 0b1000_0000)
    }
}

/// Taking away no group leaves the value, and taking away one group more is
/// a shift by six bits.
proof fn lemma_above_groups_step(value: u32, groups: nat)
    requires
        groups < 5,
    ensures
        above_groups(value, 0) == value,
        above_groups(value, groups) >> 6 == above_groups(value, groups + 1),
        above_groups(value, groups) & 0b0011_1111 <= 0b0011_1111,
{
    let shift: u32 = (6 * groups) as u32;
    assert(value >> 0 == value) by (bit_vector);
    assert((value >> shift) >> 6 == value >> ((shift + 6) as u32)) by (bit_vector)
        requires
            shift <= 24,
    ;
    assert((value >> shift) & 0b0011_1111 <= 0b0011_1111) by (bit_vector);
}

/// What is left of a value for its first byte fits in the bits that the
/// header leaves free: it does not reach under the mask of the header.
pub proof fn lemma_leading_bits_fit(value: u32)
    requires
        value <= MAX_VALUE,
    ensures
        above_groups(value, (sequence_length(value) - 1) as nat) <= 0xFF - header_mask(
            sequence_length(value),
        ),
{
    assert(value >> 0 == value) by (bit_vector);
    assert(value <= 0x7FF ==> (value >> 6) <= 0b0001_1111) by (bit_vector);
    assert(value <= 0xFFFF ==> (value >> 12) <= 0b0000_1111) by (bit_vector);
    assert(value <= 0x1F_FFFF ==> (value >> 18) <= 0b0000_0111) by (bit_vector);
    assert(value <= 0x3FF_FFFF ==> (value >> 24) <= 0b0000_0011) by (bit_vector);
    assert(value <= 0x7FFF_FFFF ==> (value >> 30) <= 0b0000_0001) by (bit_vector);
}

/// Bits that fit beside the header of `length` and are put into it with a
/// bitwise OR leave the header as it is under its mask, and come out again
/// when the header is subtracted.
proof fn lemma_header_with_bits(length: nat, bits: u32)
    requires
        1 <= length <= MAX_LENGTH,
        bits <= 0xFF - header_mask(length),
    ensures
        (header_pattern(length) | (bits as u8)) & header_mask(length) == header_pattern(length),
        (header_pattern(length) | (bits as u8)) & header_pattern(length) == header_pattern(length),
        (header_pattern(length) | (bits as u8)) - header_pattern(length) == bits,
{
    assert(bits <= 0b0111_1111 ==> {
        &&& (0b0000_0000u8 | (bits as u8)) & 0b1000_0000 == 0b0000_0000
        &&& (0b0000_0000u8 | (bits as u8)) & 0b0000_0000 == 0b0000_0000
        &&& (0b0000_0000u8 | (bits as u8)) - 0b0000_0000 == bits
    }) by (bit_vector);
    assert(bits <= 0b0001_1111 ==> {
        &&& (0b1100_0000u8 | (bits as u8)) & 0b1110_0000 == 0b1100_0000
        &&& (0b1100_0000u8 | (bits as u8)) & 0b1100_0000 == 0b1100_0000
        &&& (0b1100_0000u8 | (bits as u8)) - 0b1100_0000 == bits
    }) by (bit_vector);
    assert(bits <= 0b0000_1111 ==> {
        &&& (0b1110_0000u8 | (bits as u8)) & 0b1111_0000 == 0b1110_0000
        &&& (0b1110_0000u8 | (bits as u8)) & 0b1110_0000 == 0b1110_0000
        &&& (0b1110_0000u8 | (bits as u8)) - 0b1110_0000 == bits
    }) by (bit_vector);
    assert(bits <= 0b0000_0111 ==> {
        &&& (0b1111_0000u8 | (bits as u8)) & 0b1111_1000 == 0b1111_0000
        &&& (0b1111_0000u8 | (bits as u8)) & 0b1111_0000 == 0b1111_0000
        &&& (0b1111_0000u8 | (bits as u8)) - 0b1111_0000 == bits
    }) by (bit_vector);
    assert(bits <= 0b0000_0011 ==> {
        &&& (0b1111_1000u8 | (bits as u8)) & 0b1111_1100 == 0b1111_1000
        &&& (0b1111_1000u8 | (bits as u8)) & 0b1111_1000 == 0b1111_1000
        &&& (0b1111_1000u8 | (bits as u8)) - 0b1111_1000 == bits
    }) by (bit_vector);
    assert(bits <= 0b0000_0001 ==> {
        &&& (0b1111_1100u8 | (bits as u8)) & 0b1111_1110 == 0b1111_1100
        &&& (0b1111_1100u8 | (bits as u8)) & 0b1111_1100 == 0b1111_1100
        &&& (0b1111_1100u8 | (bits as u8)) - 0b1111_1100 == bits
    }) by (bit_vector);
}

/// The sequence for a value has the length that [`get_header`] gives for it,
/// which is at least 1 and at most [`MAX_LENGTH`].
pub proof fn lemma_encoding_length(value: u32)
    ensures
        encoding(value).len() == sequence_length(value),
        1 <= encoding(value).len() <= MAX_LENGTH,
{
}

/// The first byte of the sequence for a value shows the header for its
/// length: under the mask of that header it is the header, so the one bits of
/// the header and the zero bit after them are as [`get_header`] gave them.
pub proof fn lemma_header_bits(value: u32)
    requires
        value <= MAX_VALUE,
    ensures
        encoding(value)[0] & header_mask(sequence_length(value)) == header_pattern(
            sequence_length(value),
        ),
        encoding(value)[0] & header_pattern(sequence_length(value)) == header_pattern(
            sequence_length(value),
        ),
{
    let length = sequence_length(value);
    lemma_leading_bits_fit(value);
    lemma_header_with_bits(length, above_groups(value, (length - 1) as nat));
}

/// Each byte after the first has its two highest bits `10`: the highest is
/// set and the one below it is clear.
pub proof fn lemma_continuation_bits(value: u32, index: int)
    requires
        value <= MAX_VALUE,
        1 <= index < sequence_length(value),
    ensures
        encoding(value)[index] & 0b1100_0000 == 0b1000_0000,
        encoding(value)[index] & 0b1000_0000 == 0b1000_0000,
{
    let rest: u32 = above_groups(value, (sequence_length(value) - 1 - index) as nat);
    assert({
        &&& (0b1000_0000u8 | ((rest & 0b0011_1111) as u8)) & 0b1100_0000 == 0b1000_0000
        &&& (0b1000_0000u8 | ((rest & 0b0011_1111) as u8)) & 0b1000_0000 == 0b1000_0000
    }) by (bit_vector);
}

/// A value up to `0x7F` is encoded as one byte, which is the value.
pub proof fn lemma_ascii_passthrough(value: u32)
    requires
        value <= 0x7F,
    ensures
        encoding(value) == seq![value as u8],
{
    assert(value <= 0x7F ==> 0b0000_0000u8 | ((value >> 0) as u8) == value as u8) by (bit_vector);
    assert(encoding(value) =~= seq![value as u8]);
}

/// The first `count` bytes of the sequence for a value carry the value
/// without the groups of six bits that the later bytes carry.
proof fn lemma_prefix_carries(value: u32, count: nat)
    requires
        value <= MAX_VALUE,
        1 <= count <= sequence_length(value),
    ensures
        carried_value(encoding(value), count) == above_groups(
            value,
            (sequence_length(value) - count) as nat,
        ),
    decreases count,
{
    let length = sequence_length(value);
    let rest: u32 = above_groups(value, (length - count) as nat);
    if count == 1 {
        lemma_leading_bits_fit(value);
        lemma_header_with_bits(length, rest);
    } else {
        lemma_prefix_carries(value, (count - 1) as nat);
        lemma_above_groups_step(value, (length - count) as nat);
        assert(64 * (rest >> 6) + ((0b1000_0000u8 | ((rest & 0b0011_1111) as u8)) - 0b1000_0000)
            == rest) by (bit_vector);
    }
}

/// The sequence for a value carries the value: nothing of it is lost.
pub proof fn lemma_encoding_carries_value(value: u32)
    requires
        value <= MAX_VALUE,
    ensures
        carried_value(encoding(value), encoding(value).len()) == value,
{
    lemma_prefix_carries(value, sequence_length(value));
    lemma_above_groups_step(value, 0);
}

/// Two values with the same sequence are the same value.
pub proof fn lemma_encoding_injective(first: u32, second: u32)
    requires
        first <= MAX_VALUE,
        second <= MAX_VALUE,
        encoding(first) == encoding(second),
    ensures
        first == second,
{
    lemma_encoding_carries_value(first);
    lemma_encoding_carries_value(second);
}

/// Encodes `input` as a sequence of one to six bytes, or returns
/// [`OverflowError`] where `input` is above [`MAX_VALUE`].
///
/// Nothing but the size of `input` is looked at. The sequence has the length
/// that [`get_header`] gives for `input`, its first byte shows the header
/// that [`get_header`] gives, and each later byte starts with the bits `10`.
/// The bytes of the array behind the sequence that are not in it are zero.
pub fn encode_u32(input: u32) -> (result: Result<Codepoint, OverflowError>)
    ensures
        match result {
            Ok(codepoint) => {
                let bytes = codepoint_bytes(codepoint);
                &&& input <= MAX_VALUE
                &&& bytes == encoding(input)
                &&& bytes.len() == sequence_length(input)
                &&& bytes[0] & header_mask(bytes.len()) == header_pattern(bytes.len())
                &&& forall|index: int|
                    1 <= index < bytes.len() ==> bytes[index] & 0b1100_0000 == 0b1000_0000
                &&& input <= 0x7F ==> bytes == seq![input as u8]
                &&& codepoint_spare(codepoint) == zeros((MAX_LENGTH - bytes.len()) as nat)
            },
            Err(_) => input > MAX_VALUE,
        },
{
    let (length, header) = get_header(input)?;

    let mut output = empty_codepoint();
    set_length(&mut output, length);
    assert(codepoint_spare(output) =~= zeros((MAX_LENGTH - length) as nat)) by {
        let array = codepoint_bytes(output) + codepoint_spare(output);
        assert forall|index: int| 0 <= index < MAX_LENGTH - length implies codepoint_spare(
            output,
        )[index] == 0u8 by {
            assert(codepoint_spare(output)[index] == array[length + index]);
        }
    }

    let mut rest: u32 = input;
    let mut index: usize = length - 1;
    proof {
        lemma_above_groups_step(input, 0);
    }
    while index > 0
        invariant
            index < length <= MAX_LENGTH,
            input <= MAX_VALUE,
            length == sequence_length(input),
            codepoint_bytes(output).len() == length,
            codepoint_spare(output) == zeros((MAX_LENGTH - length) as nat),
            rest == above_groups(input, (length - 1 - index) as nat),
            forall|later: int|
                index < later < length ==> codepoint_bytes(output)[later] == encoded_byte(
                    input,
                    later,
                ),
        decreases index,
    {
        proof {
            lemma_above_groups_step(input, (length - 1 - index) as nat);
        }
        set_byte(&mut output, index, 0b1000_0000 | (rest & 0b0011_1111) as u8);
        rest = rest >> 6;
        index -= 1;
    }
    proof {
        lemma_leading_bits_fit(input);
    }
    set_byte(&mut output, 0, header | rest as u8);

    proof {
        assert(codepoint_bytes(output) =~= encoding(input));
        lemma_header_bits(input);
        assert forall|index: int| 1 <= index < length implies encoding(input)[index] & 0b1100_0000
            == 0b1000_0000 by {
            lemma_continuation_bits(input, index);
        }
        if input <= 0x7F {
            lemma_ascii_passthrough(input);
        }
    }
    Ok(output)
}

} // verus!
