use vstd::prelude::*;

verus! {

/// The failures the library reports. Wrong password and corrupted data are
/// deliberately the one undifferentiated `AuthenticationFailure`; label
/// presence and absence are ordinary return values, not errors.
#[derive(Clone, Copy, Debug, PartialEq, Eq, Structural)]
pub enum VaultError {
    /// Key derivation failed; internal, not expected with valid inputs.
    KeyDerivationFailure,
    /// Encryption failed; internal, not expected for well-formed inputs.
    EncryptionFailure,
    /// Wrong password or corrupted/tampered record.
    AuthenticationFailure,
    /// Decrypted bytes are not valid text.
    DecodedTextInvalid,
    /// The serialized blob failed to parse.
    VaultCorrupt,
}

} // verus!
