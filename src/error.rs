//! Failures of decoding an archive or computing its checksum.
use vstd::prelude::*;

verus! {

#[derive(Debug, Clone, Copy, PartialEq, Eq, Structural)]
pub enum PboError {
    /// A header record is cut short, or its text is not UTF-8.
    MalformedHeader,
    /// A header declares more payload bytes than the source holds.
    TruncatedPayload,
    /// The header list or the extension block runs into the end of the source.
    MissingSentinel,
    /// Fewer than 21 bytes (reserved byte and digest) follow the payloads.
    TruncatedChecksum,
    /// The digest primitive could not be used.
    DigestFailure,
}

} // verus!
