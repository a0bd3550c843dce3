//! The byte sequence that an encoding is returned in.
//!
//! The sequence is an [`ArrayVec`](tinyvec::ArrayVec) over an array of
//! [`MAX_LENGTH`] bytes: it lives where the caller puts it and needs no
//! allocation. The verifier does not look inside `tinyvec`. What this module
//! says of it is taken on trust from its source. An `ArrayVec` is an array and
//! a length: the bytes of the array below the length are the sequence and are
//! named by [`codepoint_bytes`], the bytes from the length on are spare and are
//! named by [`codepoint_spare`]. Each of the three operations that the encoder
//! uses has a contract over these two names.

use vstd::prelude::*;

verus! {

/// Makes `tinyvec::ArrayVec` known to the verifier, as a type whose fields it
/// does not see.
#[verifier::external_type_specification]
#[verifier::external_body]
#[verifier::reject_recursive_types(A)]
pub struct ExArrayVec<A>(tinyvec::ArrayVec<A>);

/// The number of bytes in the longest sequence, and so in the array behind a
/// [`Codepoint`].
pub const MAX_LENGTH: usize = 6;

/// A byte sequence of at most [`MAX_LENGTH`] bytes, held inline.
pub type Codepoint = tinyvec::ArrayVec<[u8; MAX_LENGTH]>;

/// The bytes of `codepoint`, in order: what `codepoint.as_slice()` gives,
/// which is the array behind `codepoint` up to `codepoint.len()`.
pub uninterp spec fn codepoint_bytes(codepoint: Codepoint) -> Seq<u8>;

/// The bytes of the array behind `codepoint` that are not in the sequence, in
/// order: the array from `codepoint.len()` on.
pub uninterp spec fn codepoint_spare(codepoint: Codepoint) -> Seq<u8>;

/// `count` bytes that are all zero.
pub open spec fn zeros(count: nat) -> Seq<u8> {
    Seq::new(count, |index: int| 0u8)
}

/// Calls `ArrayVec::new`, which gives length zero over an array of default
/// values: the sequence is empty and the spare bytes are as many zeros as the
/// array is long.
#[verifier::external_body]
pub(crate) fn empty_codepoint() -> (codepoint: Codepoint)
    ensures
        codepoint_bytes(codepoint) == Seq::<u8>::empty(),
        codepoint_spare(codepoint) == zeros(MAX_LENGTH as nat),
{
    Codepoint::new()
}

/// Calls `ArrayVec::set_len`, which sets the length to `length` and leaves
/// the array as it is: the sequence followed by the spare bytes is what it
/// was, and the sequence has `length` bytes of it. `set_len` panics where
/// `length` is above the length of the array.
#[verifier::external_body]
pub(crate) fn set_length(codepoint: &mut Codepoint, length: usize)
    requires
        length <= MAX_LENGTH,
    ensures
        codepoint_bytes(*final(codepoint)).len() == length,
        codepoint_bytes(*final(codepoint)) + codepoint_spare(*final(codepoint))
            == codepoint_bytes(*old(codepoint)) + codepoint_spare(*old(codepoint)),
{
    codepoint.set_len(length);
}

/// Assigns through `ArrayVec`'s `IndexMut`, which indexes the slice of the
/// bytes in the sequence: the byte at `index` becomes `byte`, the others and
/// the spare bytes stay. It panics where `index` is not below the length.
#[verifier::external_body]
pub(crate) fn set_byte(codepoint: &mut Codepoint, index: usize, byte: u8)
    requires
        index < codepoint_bytes(*old(codepoint)).len(),
    ensures
        codepoint_bytes(*final(codepoint)) == codepoint_bytes(*old(codepoint)).update(
            index as int,
            byte,
        ),
        codepoint_spare(*final(codepoint)) == codepoint_spare(*old(codepoint)),
{
    codepoint[index] = byte;
}

} // verus!
