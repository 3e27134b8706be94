//! The library's error type.
use vstd::prelude::*;

verus! {

/// Why an operation failed.
#[derive(Clone, Copy, Debug, PartialEq, Eq, Structural)]
pub enum Error {
    /// A record failed to decode: a short read, an unknown tag, a flag byte
    /// other than 0 or 1, text that is not UTF-8, or a count that the input
    /// cannot hold.
    Decode,
    /// A record was too large for its length field.
    Encode,
    /// The byte source or sink failed.
    Io,
    /// An HTTP request failed.
    Http,
    /// The index was promised a different number of leaves than it was given.
    FeatureCountMismatch { found: u64, expected: u64 },
}

} // verus!
