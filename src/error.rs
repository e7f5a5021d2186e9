use vstd::prelude::*;

verus! {

/// What can go wrong while reading or writing a city file.
#[derive(Debug, Clone, Copy, PartialEq, Eq, Structural)]
pub enum SC2KError {
    /// The header is cut short, or a chunk's declared length runs past the
    /// container's declared end or past the end of the bytes.
    TruncatedChunk,
    /// A run-length control byte promises more bytes than remain.
    TruncatedInput,
    /// A fixed-layout record is shorter than its layout.
    ShortRecord,
    /// The value cannot be written back as a container (a chunk tag that is
    /// not four ASCII characters, or sizes that do not fit a `u32`).
    Unsupported,
}

} // verus!
