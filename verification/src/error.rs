//! Errors reported by the codec.

use vstd::prelude::*;

verus! {

/// Which codec an error came from.
#[derive(Clone, Copy, PartialEq, Eq, Debug, Structural)]
pub enum Codec {
    /// The VP8 lossy codec.
    Lossy,
    /// The VP8L lossless codec.
    Lossless,
}

/// Everything that can go wrong while decoding or configuring.
#[derive(Clone, Copy, PartialEq, Eq, Debug, Structural)]
pub enum Error {
    /// The input ends before the data it announces.
    Truncated,
    /// The input is not a valid bitstream of `codec`.
    InvalidBitstream {
        /// The codec whose syntax is violated.
        codec: Codec,
    },
    /// A width or height is zero or too large.
    InvalidDimensions,
}

/// The result of a fallible codec operation.
pub type Result<T> = core::result::Result<T, Error>;

} // verus!
