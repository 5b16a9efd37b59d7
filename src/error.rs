use vstd::prelude::*;

verus! {

/// The ways in which decoding, extraction or repacking can fail.
#[derive(Debug, Clone, Copy, PartialEq, Eq, Structural)]
pub enum ArchiveError {
    /// A truncated buffer, an offset or length table that points outside the
    /// buffer, or a PKAC name table shorter than its payload bucket.
    MalformedContainer,
    /// The compression collaborator reported the given nonzero status.
    CompressionFailure(i32),
    /// The metadata does not describe a packable tree (an unresolved node, a
    /// slot written twice, a value that does not fit its field).
    EncodingInconsistency,
}

} // verus!
