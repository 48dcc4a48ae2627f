use vstd::prelude::*;

verus! {

/// The kinds of failure of the library's operations.
#[derive(Debug, Clone, Copy, PartialEq, Eq, Structural)]
pub enum EnCryptError {
    /// A chunk of data is larger than the block size, or larger than the
    /// cipher accepts.
    InputTooLarge,
    /// The identifier encoding rejected a hash value, or an identifier is
    /// too short to derive a nonce from.
    AddressingError,
    /// The authentication tag did not verify: wrong key or tampered data.
    AuthenticationFailure,
    /// Malformed encoded bytes.
    DecodeError,
    /// A key is not exactly the length the cipher requires.
    KeyLengthError,
    /// The value is in the wrong state for the operation (plaintext where
    /// ciphertext is needed, or the other way round).
    WrongState,
}

} // verus!
