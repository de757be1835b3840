use crate::types::Key;
use vstd::prelude::*;

verus! {

/// Declares `std::io::Error`, carried opaquely by `StoreError::IoError` when
/// reading or writing snapshot files fails.
#[verifier::external_type_specification]
#[verifier::external_body]
pub struct ExIoError(std::io::Error);

/// Why a byte sequence is not a well-formed record or key.
#[derive(Debug, PartialEq, Eq)]
pub enum DeserializationError {
    /// The buffer ends before the `expected` number of bytes.
    BufferTooShort { expected: usize, actual: usize },
    /// A text payload is not valid UTF-8.
    InvalidUtf8,
    /// The tag byte names no known variant.
    UnknownTag(u8),
    /// The checksum stored in the header differs from the one computed over the payload.
    ChecksumMismatch { expected: u32, actual: u32 },
    /// A fixed-width field could not be read.
    ByteConversionError,
}

/// Errors surfaced by the store.
#[derive(Debug)]
pub enum StoreError {
    /// The key has no live entry.
    KeyNotFound(Key),
    /// A record failed its checksum.
    DataCorruption { cause: DeserializationError },
    /// A record or a snapshot is malformed in any other way.
    InvalidData { cause: DeserializationError },
    /// Reading or writing a snapshot file failed.
    IoError(std::io::Error),
    /// A snapshot file does not match the checksum or entry count of its metadata.
    FileCorrupted,
    /// The snapshot metadata carries a format version this store cannot read.
    UnsupportedVersion(u32),
}

/// The store error that a failed record read is surfaced as: checksum failures
/// are corruption, everything else is invalid data.
pub open spec fn surfaced(cause: DeserializationError) -> StoreError {
    match cause {
        DeserializationError::ChecksumMismatch { .. } => StoreError::DataCorruption { cause },
        _ => StoreError::InvalidData { cause },
    }
}

/// Wraps a record decoding failure into the store error it is reported as.
pub fn surface(cause: DeserializationError) -> (r: StoreError)
    ensures
        r == surfaced(cause),
{
    match cause {
        DeserializationError::ChecksumMismatch { .. } => StoreError::DataCorruption { cause },
        _ => StoreError::InvalidData { cause },
    }
}

} // verus!
