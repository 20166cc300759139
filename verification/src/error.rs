//! The ways in which encoding and decoding fail.

use vstd::prelude::*;

verus! {

/// Why an image could not be encoded or a stream could not be decoded.
/// A failed call gives no partial output.
#[derive(Copy, Clone, Debug, PartialEq, Eq, Structural)]
pub enum Error {
    /// A dimension is zero, the channel count is neither 3 nor 4, the pixel
    /// buffer is shorter than the dimensions ask for, or the header of a
    /// stream is malformed.
    InvalidArgument,
    /// The stream ends in the middle of the chunks that the header announces.
    Truncated,
}

} // verus!
