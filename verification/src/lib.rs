//! A byte-stream compressor built on frequency-based prefix codes: more
//! frequent byte values get shorter bit codes, and a compressed stream is
//! a serialized code table followed by the bit-packed body.
pub mod bits;
pub mod laws;
pub mod decoder;
pub mod encoder;
pub mod freq;
pub mod pack;
pub mod table;
pub mod tree;

use vstd::prelude::*;

verus! {

/// How the codec fails: a stream that is not a compressed stream, or an
/// input with nothing to encode.
#[derive(Clone, Copy, Debug, PartialEq, Eq, Structural)]
pub enum CodecError {
    /// The magic bytes do not match, the header is truncated, an entry
    /// declares an impossible shape, or the packed body does not decode.
    FormatError,
    /// The input holds no bytes, so there is nothing to build codes from.
    EmptyInputError,
}

} // verus!
