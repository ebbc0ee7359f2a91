//! The hash functions that the library takes from other crates. What they
//! compute is not proved here: each result has a name, and the contracts of
//! the library speak of these names.

use vstd::prelude::*;

verus! {

/// The SHA-256 digest of `data`: 32 bytes.
pub uninterp spec fn sha256_digest(data: Seq<u8>) -> Seq<u8>;

/// The BLAKE3 hash of `data`: 32 bytes.
pub uninterp spec fn blake3_digest(data: Seq<u8>) -> Seq<u8>;

/// The 64 bytes that PBKDF2 with HMAC-SHA-512 derives from a password and
/// a salt in `rounds` rounds.
pub uninterp spec fn pbkdf2_sha512_key(password: Seq<u8>, salt: Seq<u8>, rounds: u32) -> Seq<u8>;

/// Calls `sha2::Sha256::digest`. Believed, not proved: the 32 bytes that
/// come back are the digest of `data`, the same for the same bytes.
#[verifier::external_body]
pub(crate) fn sha256(data: &[u8]) -> (out: [u8; 32])
    ensures
        out@ == sha256_digest(data@),
{
    <sha2::Sha256 as sha2::Digest>::digest(data).into()
}

/// Calls `blake3::hash`. Believed, not proved: the 32 bytes that come back
/// are the hash of `data`, the same for the same bytes.
#[verifier::external_body]
pub(crate) fn blake3(data: &[u8]) -> (out: [u8; 32])
    ensures
        out@ == blake3_digest(data@),
{
    *blake3::hash(data).as_bytes()
}

/// Calls `pbkdf2::pbkdf2_hmac` with SHA-512 on a buffer of 64 bytes.
/// Believed, not proved: the buffer then holds the derived key, the same
/// for the same password, salt and number of rounds.
#[verifier::external_body]
pub(crate) fn pbkdf2_sha512(password: &[u8], salt: &[u8], rounds: u32) -> (out: [u8; 64])
    ensures
        out@ == pbkdf2_sha512_key(password@, salt@, rounds),
{
    let mut out = [0u8; 64];
    pbkdf2::pbkdf2_hmac::<sha2::Sha512>(password, salt, rounds, &mut out);
    out
}

} // verus!
