//! Error kinds reported by decoding, accessors and merging.

use vstd::prelude::*;

verus! {

/// The failure modes of the library.
///
/// Decode-time errors are always returned as values; no partial record
/// escapes. Merge errors are recoverable: the caller starts a new trace.
#[derive(Clone, Copy, Debug, PartialEq, Eq, Structural)]
pub enum MsError {
    /// Truncated or structurally invalid fixed header.
    MalformedHeader,
    /// Unknown or unimplemented sample encoding tag.
    UnsupportedEncoding,
    /// Non-positive or unrepresentable sample rate.
    InvalidSampleRate,
    /// The external decompressor reported a mismatch or corruption.
    DecompressionFailure,
    /// A typed accessor was invoked on data of another type.
    TypeMismatch,
    /// An attempt to extend a trace with an incompatible record.
    IncompatibleMerge,
    /// A statistic was requested of an empty collection.
    EmptyData,
}

} // verus!
