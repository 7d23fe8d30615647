use vstd::prelude::*;

verus! {

/// Error reported by the readers.
#[derive(Clone, Copy, Debug, PartialEq, Eq, Structural)]
pub enum DriverError {
    /// The data source itself reported a failure.
    Source,
    /// The data source ended before the requested data.
    Truncated,
    /// The data is too large for this machine.
    TooLarge,
    /// A value is not supported.
    Unsupported,
    /// A value is not valid.
    Invalid,
    /// A calculated value does not fit its type.
    Overflow,
    /// A value lies outside of the range it must be in.
    OutOfBounds,
    /// Two ranges overlap that must not.
    Overlap,
    /// A chain of references leads back to itself.
    Cycle,
    /// More items are present than are supported.
    LimitExceeded,
    /// A stored checksum differs from the calculated one.
    ChecksumMismatch,
    /// A required item is missing.
    Missing,
    /// Text could not be decoded.
    Encoding,
    /// Compressed data could not be decompressed.
    Compression,
}

} // verus!
