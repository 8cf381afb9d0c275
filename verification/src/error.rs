//! The error taxonomy of the log.

use vstd::prelude::*;

verus! {

/// Bytes were decoded under an incompatible schema: the build version
/// embedded in the payload differs from the reader's, or the payload is not
/// a payload of this codec at all. Non-retryable; surfaced to the caller
/// unchanged.
#[derive(Clone, Copy, Debug, PartialEq, Eq, Structural)]
pub struct CodecMismatch {
    /// The build version the reader expected to find embedded.
    pub expected_version: u64,
    /// The embedded build version, when the payload was readable enough to
    /// contain one.
    pub actual_version: Option<u64>,
}

} // verus!
