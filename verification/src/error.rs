use vstd::prelude::*;

verus! {

/// Why a decode failed. Every error is unrecoverable for the current
/// stream: GIF's chunking gives no reliable resynchronization point, so
/// a single malformed unit fails the whole decode.
#[derive(Clone, Copy, Debug, PartialEq, Eq, Structural)]
pub enum DecodeError {
    /// The stream does not begin with the literal bytes "GIF".
    BadSignature,
    /// The three version bytes are neither "87a" nor "89a".
    UnsupportedVersion,
    /// The source ended before a required field or block completed —
    /// including a stream that simply ends where a trailer or block
    /// introducer was due. A byte that is present but introduces
    /// nothing is `MalformedBlock` instead.
    TruncatedInput,
    /// A structural violation in a block, descriptor or introducer.
    MalformedBlock,
    /// An LZW code referenced an entry beyond the current dictionary.
    InvalidLzwCode,
    /// The LZW output fell short of image width times height.
    PixelCountMismatch,
}

} // verus!
