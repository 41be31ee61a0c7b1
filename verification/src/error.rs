use vstd::prelude::*;

verus! {

/// The failure taxonomy shared by the codec substrate and the
/// decompressing reader.
#[derive(Clone, Copy, Debug, PartialEq, Eq, Structural)]
pub enum Error {
    /// Fewer bytes were available than a fixed-width field, a declared
    /// length, a stream header, or a chunk-length prefix requires.
    UnexpectedEOF,
    /// A stream-header mismatch, a non-positive chunk length, or a
    /// failure of the underlying block decompression.
    InvalidInputSnappy,
    /// A value's natural length cannot be represented in its wire
    /// format's fixed-width length field.
    CodecError,
}

} // verus!
