//! The failure kinds that a decode can surface. Every decode operation
//! returns a `Result` whose error is exactly one of these; no decode in
//! this crate panics on malformed input.

use vstd::prelude::*;

verus! {

/// Why a decode call failed.
#[derive(Clone, Copy, Debug, PartialEq, Eq, Structural)]
pub enum DecodeError {
    /// A compact binary decode ran out of bytes before the fixed-size
    /// target was filled.
    TruncatedInput,
    /// The RLP input is not a single well-formed byte-string item: it is
    /// absent, truncated, a list, or written in a non-canonical form.
    RlpNotAByteString,
    /// The RLP input is a well-formed byte-string item, but its payload
    /// does not fit the target's fixed width (or, for integers, is not
    /// the minimal big-endian form).
    RlpWrongLength,
    /// The hexadecimal text contains a non-hex character, or is longer
    /// than the target's digit count.
    InvalidHex,
}

} // verus!
