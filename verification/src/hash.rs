//! Keyed hashing: credentials are a keyed hash of the email, and export
//! blobs carry a keyed fingerprint.  Both are hex SHA-256 digests of
//! the payload with the server secret appended, so neither can be
//! forged without the secret.

use crypto::digest::Digest;

use vstd::prelude::*;
use vstd::utf8::encode_utf8;

verus! {

/// The hex digest SHA-256 yields for the given bytes.
pub uninterp spec fn sha256_hex_of(data: Seq<u8>) -> Seq<char>;

/// Relies on `crypto::sha2::Sha256` (through `crypto::digest::Digest`):
/// the hex digest is a function of the bytes fed in and of nothing else.
#[verifier::external_body]
fn sha256_hex(data: &[u8]) -> (r: String)
    ensures
        r@ == sha256_hex_of(data@),
{
    let mut h = crypto::sha2::Sha256::new();
    h.input(data);
    h.result_str()
}

/// The credential a principal receives: the digest of the email's bytes
/// followed by the secret's bytes.
pub open spec fn credential_of(email: Seq<char>, secret: Seq<char>) -> Seq<char> {
    sha256_hex_of(encode_utf8(email) + encode_utf8(secret))
}

/// The fingerprint stored for an export blob: the digest of the blob's
/// bytes followed by the secret's bytes.
pub open spec fn fingerprint_of(payload: Seq<u8>, secret: Seq<char>) -> Seq<char> {
    sha256_hex_of(payload + encode_utf8(secret))
}

/// Computes the keyed credential for an email.
pub fn credential_for(email: &String, secret: &String) -> (r: String)
    ensures
        r@ == credential_of(email@, secret@),
{
    let mut buf = email.as_str().as_bytes_vec();
    let mut sb = secret.as_str().as_bytes_vec();
    buf.append(&mut sb);
    sha256_hex(buf.as_slice())
}

/// Computes the keyed fingerprint of an export blob.
pub fn fingerprint_for(payload: &Vec<u8>, secret: &String) -> (r: String)
    ensures
        r@ == fingerprint_of(payload@, secret@),
{
    let mut buf = vstd::slice::slice_to_vec(payload.as_slice());
    let mut sb = secret.as_str().as_bytes_vec();
    buf.append(&mut sb);
    sha256_hex(buf.as_slice())
}

} // verus!
