use vstd::prelude::*;

verus! {

/// The error kinds of the blob engine and the steganography carriers.
///
/// `InvalidPassword` is deliberately a single, indivisible kind: every
/// failure of an unlock attempt (key derivation, authentication,
/// deserialization, either volume) surfaces as this one value, so that the
/// error cannot reveal which volume exists or which step failed.
#[derive(Debug, Clone, Copy, PartialEq, Eq, Structural)]
pub enum BlobError {
    /// Magic, version, or carrier signature mismatch.
    InvalidFormat,
    /// Generic unlock failure: wrong password or corrupt blob.
    InvalidPassword,
    /// A size field out of range, a failed deserialization, or a truncated read.
    Corruption,
    /// A failure of the surrounding system (exposed for callers doing I/O).
    Io,
    /// The payload exceeds what the carrier can hold.
    CarrierTooSmall,
    /// The two volume passwords are equal.
    ConflictingPasswords,
}

impl BlobError {
    /// A short description of the error, one fixed string per kind.
    pub fn message(&self) -> (r: &'static str)
        ensures
            self is InvalidPassword ==> r@ == "Invalid password or corrupted blob"@,
    {
        match self {
            BlobError::InvalidFormat => "Invalid blob format",
            BlobError::InvalidPassword => "Invalid password or corrupted blob",
            BlobError::Corruption => "Corrupted blob data",
            BlobError::Io => "I/O failure",
            BlobError::CarrierTooSmall => "Payload exceeds carrier capacity",
            BlobError::ConflictingPasswords => {
                "Standard and hidden passwords must be different"
            },
        }
    }
}

} // verus!
