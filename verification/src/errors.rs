//! The error kinds that the vault surfaces to its callers.

use vstd::prelude::*;

verus! {

/// Every failure the vault engine can report.
///
/// `StoreIO` is reserved for the caller that performs the actual file
/// operations; no function of this library returns it itself.
#[derive(Clone, Copy, Debug, PartialEq, Eq, Structural)]
pub enum VaultError {
    /// The passphrase offered to `unlock` does not match the master hash.
    AuthFailed,
    /// The stored master-hash string does not parse as a PHC string with a
    /// 16-byte salt, so neither verification nor key derivation can run.
    CorruptMasterHash,
    /// The operating-system random source failed, or the cipher refused to
    /// seal; nothing that needs fresh randomness can proceed.
    RngFailure,
    /// A filesystem operation failed in the calling layer.
    StoreIO,
    /// An encrypted record failed tag authentication: wrong key or tampering.
    AuthTag,
    /// An encrypted record is too short to hold a nonce and a tag.
    Malformed,
    /// The decrypted plaintext is not a well-formed serialized record.
    Decode,
    /// A record with this name is already in the index.
    DuplicateName,
    /// No record with this name is in the index.
    NotFound,
    /// A generated password must have a positive length.
    InvalidLength,
    /// A record name is empty, starts with a dot, or contains a path
    /// separator or a forbidden control character.
    InvalidName,
}

} // verus!
