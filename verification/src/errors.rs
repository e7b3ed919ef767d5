use vstd::prelude::*;

verus! {

/// Failures of the credential encryption engine.
#[derive(Clone, Copy, Debug, PartialEq, Eq, Structural)]
pub enum CryptoError {
    /// The configured symmetric key is shorter than the required length.
    InvalidKeyLength,
    /// The initialization vector is not exactly one block long.
    InvalidIVLength,
    /// The ciphertext is empty or not a whole number of blocks.
    InvalidCiphertextLength,
    /// The recovered padding is malformed.  One uniform error covers every
    /// padding check, so a caller cannot tell which check failed.
    PaddingValidationFailed,
    /// Hex or UTF-8 decoding of stored material failed.
    EncodingError,
}

/// Failures of the stateless authentication gate and the token service.
#[derive(Clone, Copy, Debug, PartialEq, Eq, Structural)]
pub enum AuthError {
    /// No credential was presented, or it was not a bearer credential.
    Unauthorized,
    /// The token is past its expiry instant.
    TokenExpired,
    /// The signature does not match the token's header and payload.
    SignatureInvalid,
    /// The token is not three dot-separated segments with the expected
    /// header and a well-formed claim set.
    Malformed,
}

/// Failures of token issuance.
#[derive(Clone, Copy, Debug, PartialEq, Eq, Structural)]
pub enum IssueError {
    /// The identity id holds bytes that cannot stand in a claim string.
    InvalidIdentity,
}

/// Failures of the vault entry lifecycle operations.
#[derive(Clone, Copy, Debug, PartialEq, Eq, Structural)]
pub enum VaultError {
    /// No entry with the requested id is owned by the requesting identity.
    /// An entry owned by someone else and a missing entry are deliberately
    /// indistinguishable.
    NotFound,
    /// Encryption or decryption of the stored secret failed.
    Crypto(CryptoError),
    /// An entry with the same id already exists.
    DuplicateId,
}

/// Failures of registration and login.
#[derive(Clone, Copy, Debug, PartialEq, Eq, Structural)]
pub enum AccountError {
    /// Another identity already registered this email.
    EmailTaken,
    /// Unknown email or wrong password; the two are deliberately
    /// indistinguishable.
    InvalidCredentials,
    /// The password hashing backend failed.
    HashingFailed,
    /// A token could not be issued for the identity.
    TokenIssue(IssueError),
    /// An identity with the same id already exists.
    DuplicateId,
}

} // verus!
