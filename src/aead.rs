//! AES-256-GCM sealing and opening under identifier-derived nonces.
//!
//! The nonce of a value is the first bytes of its plaintext identifier's
//! text. Identical plaintexts under one key therefore give identical
//! ciphertexts (convergent encryption), while different plaintexts get
//! different nonces with overwhelming probability.
use vstd::prelude::*;
use vstd::utf8::encode_utf8;

use aes_gcm::aead::generic_array::GenericArray;
use aes_gcm::aead::{Aead, NewAead};
use aes_gcm::Aes256Gcm;

use crate::error::EnCryptError;

verus! {

/// Length of a nonce, in bytes.
pub const NONCE_SIZE_BYTES: usize = 12;

/// Length of a key, in bytes.
pub const KEY_SIZE_BYTES: usize = 32;

/// Length of the authentication tag appended to a ciphertext, in bytes.
pub const TAG_SIZE_BYTES: usize = 16;

/// Largest plaintext the cipher seals, in bytes: GCM's limit of 2^32 - 2
/// blocks of 16 bytes, within which the 32-bit block counter never wraps.
pub const MAX_PLAINTEXT_BYTES: u64 = 68719476704;

/// AES-256-GCM ciphertext with its tag, of `plaintext` under `key` and
/// `nonce`, with no associated data.
pub uninterp spec fn aes256gcm_seal(key: Seq<u8>, nonce: Seq<u8>, plaintext: Seq<u8>) -> Seq<u8>;

/// AES-256-GCM opening of `ciphertext` under `key` and `nonce`, with no
/// associated data: the plaintext, or `None` where the tag does not verify.
pub uninterp spec fn aes256gcm_open(key: Seq<u8>, nonce: Seq<u8>, ciphertext: Seq<u8>) -> Option<
    Seq<u8>,
>;

/// The opening of `ciphertext`, where it is no longer than a sealed
/// plaintext of the largest length; longer ciphertexts are refused.
pub open spec fn open_result(key: Seq<u8>, nonce: Seq<u8>, ciphertext: Seq<u8>) -> Option<Seq<u8>> {
    if ciphertext.len() <= MAX_PLAINTEXT_BYTES + TAG_SIZE_BYTES {
        aes256gcm_open(key, nonce, ciphertext)
    } else {
        None
    }
}

/// Whether the identifier text is long enough to give a nonce.
pub open spec fn has_nonce(identifier: Seq<char>) -> bool {
    encode_utf8(identifier).len() >= NONCE_SIZE_BYTES
}

/// The nonce of an identifier: the first bytes of its UTF-8 text.
pub open spec fn nonce_of(identifier: Seq<char>) -> Seq<u8> {
    encode_utf8(identifier).subrange(0, NONCE_SIZE_BYTES as int)
}

#[verifier::external_type_specification]
#[verifier::external_body]
pub struct ExAeadError(aes_gcm::aead::Error);

/// Relies on `Aes256Gcm::new` and `Aead::encrypt` of aes-gcm: the result is
/// the ciphertext, as long as the plaintext, followed by the 16-byte tag.
/// Within GCM's length limit the counter does not overflow and the length
/// check against `P_MAX` passes, so the call succeeds.
#[verifier::external_body]
fn seal(key: &[u8; 32], nonce: &[u8], plaintext: &[u8]) -> (r: Result<Vec<u8>, aes_gcm::aead::Error>)
    requires
        nonce@.len() == NONCE_SIZE_BYTES,
        plaintext@.len() <= MAX_PLAINTEXT_BYTES,
    ensures
        r is Ok,
        r is Ok ==> r->Ok_0@ == aes256gcm_seal(key@, nonce@, plaintext@),
        r is Ok ==> r->Ok_0@.len() == plaintext@.len() + TAG_SIZE_BYTES,
{
    let cipher = Aes256Gcm::new(GenericArray::from_slice(key));
    cipher.encrypt(GenericArray::from_slice(nonce), plaintext)
}

/// Relies on `Aes256Gcm::new` and `Aead::decrypt` of aes-gcm: the result
/// depends on the arguments alone, and opening what was sealed under the
/// same key and nonce gives back the plaintext. Ciphertexts are kept within
/// GCM's length limit plus the tag, where the counter does not overflow.
#[verifier::external_body]
fn open(key: &[u8; 32], nonce: &[u8], ciphertext: &[u8]) -> (r: Result<
    Vec<u8>,
    aes_gcm::aead::Error,
>)
    requires
        nonce@.len() == NONCE_SIZE_BYTES,
        ciphertext@.len() <= MAX_PLAINTEXT_BYTES + TAG_SIZE_BYTES,
    ensures
        match aes256gcm_open(key@, nonce@, ciphertext@) {
            Some(p) => r is Ok && r->Ok_0@ == p,
            None => r is Err,
        },
        forall|p: Seq<u8>|
            p.len() <= MAX_PLAINTEXT_BYTES && ciphertext@ == #[trigger] aes256gcm_seal(
                key@,
                nonce@,
                p,
            ) ==> r is Ok && r->Ok_0@ == p,
{
    let cipher = Aes256Gcm::new(GenericArray::from_slice(key));
    cipher.decrypt(GenericArray::from_slice(nonce), ciphertext)
}

/// The nonce of `identifier`, or `AddressingError` where its text is too
/// short.
pub fn derive_nonce(identifier: &str) -> (r: Result<Vec<u8>, EnCryptError>)
    ensures
        has_nonce(identifier@) ==> r is Ok && r->Ok_0@ == nonce_of(identifier@),
        !has_nonce(identifier@) ==> r == Err::<Vec<u8>, EnCryptError>(
            EnCryptError::AddressingError,
        ),
{
    let bytes = identifier.as_bytes();
    if bytes.len() < NONCE_SIZE_BYTES {
        return Err(EnCryptError::AddressingError);
    }
    let mut nonce: Vec<u8> = Vec::new();
    let mut i: usize = 0;
    while i < NONCE_SIZE_BYTES
        invariant
            i <= NONCE_SIZE_BYTES <= bytes@.len(),
            bytes@ == encode_utf8(identifier@),
            nonce@ == bytes@.subrange(0, i as int),
        decreases NONCE_SIZE_BYTES - i,
    {
        nonce.push(bytes[i]);
        i = i + 1;
        assert(nonce@ =~= bytes@.subrange(0, i as int));
    }
    Ok(nonce)
}

/// Seals `plaintext` under `key` with the nonce of `identifier`.
///
/// Fails with `AddressingError` where the identifier gives no nonce, and
/// with `InputTooLarge` where the plaintext is longer than the cipher's
/// limit.
pub fn seal_for(identifier: &str, key: &[u8; 32], plaintext: &[u8]) -> (r: Result<
    Vec<u8>,
    EnCryptError,
>)
    ensures
        !has_nonce(identifier@) ==> r == Err::<Vec<u8>, EnCryptError>(
            EnCryptError::AddressingError,
        ),
        has_nonce(identifier@) && plaintext@.len() > MAX_PLAINTEXT_BYTES ==> r == Err::<
            Vec<u8>,
            EnCryptError,
        >(EnCryptError::InputTooLarge),
        has_nonce(identifier@) && plaintext@.len() <= MAX_PLAINTEXT_BYTES ==> r is Ok
            && r->Ok_0@ == aes256gcm_seal(key@, nonce_of(identifier@), plaintext@)
            && r->Ok_0@.len() == plaintext@.len() + TAG_SIZE_BYTES,
{
    let nonce = derive_nonce(identifier)?;
    if plaintext.len() as u64 > MAX_PLAINTEXT_BYTES {
        return Err(EnCryptError::InputTooLarge);
    }
    match seal(key, nonce.as_slice(), plaintext) {
        Ok(c) => Ok(c),
        Err(_) => Err(EnCryptError::InputTooLarge),
    }
}

/// Opens `ciphertext` under `key` with the nonce of `identifier`.
///
/// Fails with `AddressingError` where the identifier gives no nonce, and
/// with `AuthenticationFailure` where the tag does not verify or the
/// ciphertext is longer than any sealed plaintext gives.
pub fn open_for(identifier: &str, key: &[u8; 32], ciphertext: &[u8]) -> (r: Result<
    Vec<u8>,
    EnCryptError,
>)
    ensures
        !has_nonce(identifier@) ==> r == Err::<Vec<u8>, EnCryptError>(
            EnCryptError::AddressingError,
        ),
        has_nonce(identifier@) ==> match open_result(key@, nonce_of(identifier@), ciphertext@) {
            Some(p) => r is Ok && r->Ok_0@ == p,
            None => r == Err::<Vec<u8>, EnCryptError>(EnCryptError::AuthenticationFailure),
        },
        forall|p: Seq<u8>|
            has_nonce(identifier@) && p.len() <= MAX_PLAINTEXT_BYTES && ciphertext@.len()
                == p.len() + TAG_SIZE_BYTES && ciphertext@ == #[trigger] aes256gcm_seal(
                key@,
                nonce_of(identifier@),
                p,
            ) ==> r is Ok
                && r->Ok_0@ == p,
{
    let nonce = derive_nonce(identifier)?;
    if ciphertext.len() as u64 > MAX_PLAINTEXT_BYTES + TAG_SIZE_BYTES as u64 {
        return Err(EnCryptError::AuthenticationFailure);
    }
    match open(key, nonce.as_slice(), ciphertext) {
        Ok(p) => Ok(p),
        Err(_) => Err(EnCryptError::AuthenticationFailure),
    }
}

/// Takes a key of exactly the cipher's length, or fails with
/// `KeyLengthError`; a key is never truncated or padded.
pub fn key_from_bytes(bytes: &[u8]) -> (r: Result<[u8; 32], EnCryptError>)
    ensures
        bytes@.len() == KEY_SIZE_BYTES ==> r is Ok && r->Ok_0@ == bytes@,
        bytes@.len() != KEY_SIZE_BYTES ==> r == Err::<[u8; 32], EnCryptError>(
            EnCryptError::KeyLengthError,
        ),
{
    if bytes.len() != KEY_SIZE_BYTES {
        return Err(EnCryptError::KeyLengthError);
    }
    let mut key: [u8; 32] = [0u8; 32];
    let mut i: usize = 0;
    while i < KEY_SIZE_BYTES
        invariant
            i <= KEY_SIZE_BYTES == bytes@.len(),
            key@.len() == KEY_SIZE_BYTES,
            forall|j: int| 0 <= j < i ==> key@[j] == bytes@[j],
        decreases KEY_SIZE_BYTES - i,
    {
        key[i] = bytes[i];
        i = i + 1;
    }
    assert(key@ =~= bytes@);
    Ok(key)
}

} // verus!
