//! Encoding of 31-bit values as UTF-8 byte sequences of one to six bytes, in
//! the scheme of RFC 2279.
//!
//! [`get_header`] gives the length of the sequence for a value and the fixed
//! bits of its first byte; [`encode_u32`] gives the whole sequence. Neither
//! looks at what the value means: surrogates, values above U+10FFFF and the
//! like are encoded as any other number.
//!
//! The contracts of the two functions are written over
//! [`sequence_length`](header::sequence_length),
//! [`header_pattern`](header::header_pattern) and
//! [`encoding`](encode::encoding). The proof functions beside these say what
//! holds of every sequence: which bits its bytes start with, and that it
//! carries its value whole.

pub mod codepoint;
pub mod encode;
pub mod header;

pub use codepoint::{Codepoint, MAX_LENGTH};
pub use encode::encode_u32;
pub use header::{get_header, OverflowError, MAX_VALUE};
