//! Content identifiers: a CIDv1 over the SHA2-256 multihash of the bytes.
use vstd::prelude::*;
use vstd::utf8::{is_ascii_chars, is_ascii_chars_encode_utf8};

use multihash::MultihashDigest;

use crate::aead::has_nonce;
use crate::error::EnCryptError;

verus! {

/// The codec code written into every identifier.
pub const SHA256_CODE: u64 = 0x12;

/// The multihash (code, length and digest) of SHA2-256 over `data`.
pub uninterp spec fn sha2_256_multihash(data: Seq<u8>) -> Seq<u8>;

/// The textual CIDv1 (base32, lower case) with `codec` over `multihash`,
/// or `None` where the encoding rejects the multihash.
pub uninterp spec fn cid_v1_text(codec: u64, multihash: Seq<u8>) -> Option<Seq<char>>;

/// Whether every character is of the lower-case base32 alphabet
/// (`a` to `z`, `2` to `7`), as multibase's prefix `b` and its digits are.
pub open spec fn is_base32_lower(text: Seq<char>) -> bool {
    forall|i: int|
        0 <= i < text.len() ==> ('a' <= #[trigger] text[i] <= 'z' || '2' <= text[i] <= '7')
}

/// The identifier of `data`, or `None` where the encoding rejects its hash.
pub open spec fn identifier_of(data: Seq<u8>) -> Option<Seq<char>> {
    cid_v1_text(SHA256_CODE, sha2_256_multihash(data))
}

#[verifier::external_type_specification]
#[verifier::external_body]
pub struct ExCidError(cid::Error);

/// Relies on multihash's `Code::Sha2_256.digest` and `Multihash::to_bytes`:
/// the encoded multihash depends on the bytes alone, and is one varint byte
/// of code (0x12), one of size (32) and the 32 digest bytes.
#[verifier::external_body]
fn sha2_256_digest(data: &[u8]) -> (r: Vec<u8>)
    ensures
        r@ == sha2_256_multihash(data@),
        r@.len() == 34,
{
    multihash::Code::Sha2_256.digest(data).to_bytes()
}

/// Relies on `Multihash::from_bytes`, cid's `Cid::new` with version 1 and
/// its `Display`: the text depends on the codec and the multihash alone,
/// and is multibase base32 (lower case, no padding) after the prefix `b`,
/// so lower-case base32 characters, and longer than the encoded multihash. Parsing the multihash
/// back may fail.
#[verifier::external_body]
fn cid_v1_string(codec: u64, multihash: &[u8]) -> (r: Result<String, cid::Error>)
    ensures
        match cid_v1_text(codec, multihash@) {
            Some(t) => r is Ok && r->Ok_0@ == t,
            None => r is Err,
        },
        r is Ok ==> is_base32_lower(r->Ok_0@) && r->Ok_0@.len() > multihash@.len(),
{
    let hash = multihash::Multihash::from_bytes(multihash)?;
    let c = cid::Cid::new(cid::Version::V1, codec, hash)?;
    Ok(c.to_string())
}

/// What `identify` returns for `data`.
pub open spec fn identify_returns(data: Seq<u8>, r: Result<String, EnCryptError>) -> bool {
    match identifier_of(data) {
        Some(t) => r is Ok && r->Ok_0@ == t,
        None => r == Err::<String, EnCryptError>(EnCryptError::AddressingError),
    }
}

/// Computes the content identifier of `data`.
///
/// The result is a function of the bytes alone, so equal inputs give equal
/// identifiers. The only failure is the identifier encoding rejecting the
/// hash, reported as `AddressingError`.
pub fn identify(data: &[u8]) -> (r: Result<String, EnCryptError>)
    ensures
        identify_returns(data@, r),
        r is Ok ==> is_base32_lower(r->Ok_0@) && has_nonce(r->Ok_0@),
{
    let hash = sha2_256_digest(data);
    match cid_v1_string(SHA256_CODE, hash.as_slice()) {
        Ok(s) => {
            proof {
                assert(is_ascii_chars(s@));
                is_ascii_chars_encode_utf8(s@);
            }
            Ok(s)
        },
        Err(_) => Err(EnCryptError::AddressingError),
    }
}

/// Determinism: two identifications of the same bytes give the same
/// outcome, the same identifier text or both `AddressingError`.
pub proof fn lemma_identify_deterministic(
    data: Seq<u8>,
    first: Result<String, EnCryptError>,
    second: Result<String, EnCryptError>,
)
    requires
        identify_returns(data, first),
        identify_returns(data, second),
    ensures
        first is Ok <==> second is Ok,
        first is Ok ==> first->Ok_0@ == second->Ok_0@,
        first is Err ==> first == second,
{
}

} // verus!
