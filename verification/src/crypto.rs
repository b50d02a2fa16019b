//! Digests and their comparison.
use crate::text;
use sha2::Digest;
use subtle::ConstantTimeEq;
use vstd::prelude::*;

verus! {

/// The SHA-256 digest of a byte string.
pub uninterp spec fn sha256_bytes(data: Seq<u8>) -> [u8; 32];

/// The bytes of the SHA-256 digest of a byte string.
pub open spec fn sha256(data: Seq<u8>) -> Seq<u8> {
    sha256_bytes(data)@
}

/// `sha2::Sha256::digest`: the SHA-256 digest of `data`, which is 32 bytes
/// long and depends on the bytes alone. What the digest is, is not stated.
#[verifier::external_body]
fn sha256_digest(data: &Vec<u8>) -> (r: Vec<u8>)
    ensures
        r@ == sha256_bytes(data@)@,
{
    sha2::Sha256::digest(data).to_vec()
}

/// `subtle::ConstantTimeEq::ct_eq` on byte slices: whether they are the same
/// bytes. That the time taken does not depend on them is not stated.
#[verifier::external_body]
fn constant_time_eq(a: &[u8], b: &[u8]) -> (r: bool)
    ensures
        r == (a@ == b@),
{
    a.ct_eq(b).into()
}

/// A digest is 32 bytes long.
pub proof fn digest_length(data: Seq<u8>)
    ensures
        sha256(data).len() == 32,
{
}

/// The hexadecimal text of a byte string's SHA-256 digest.
pub open spec fn sha256_hex(data: Seq<u8>) -> Seq<char> {
    text::hex_text(sha256(data))
}

/// The hexadecimal text of the SHA-256 digest of `data`.
pub fn hash_hex(data: &Vec<u8>) -> (r: String)
    ensures
        r@ == sha256_hex(data@),
        r@.len() == 64,
{
    let d = sha256_digest(data);
    proof {
        digest_length(data@);
        text::hex_tells_the_bytes(d@, d@);
    }
    text::show_hex(&d)
}

/// Whether two digests are the same, compared in constant time.
pub fn same_digest(a: &str, b: &str) -> (r: bool)
    ensures
        r == (a@ == b@),
{
    proof {
        vstd::utf8::encode_utf8_decode_utf8(a@);
        vstd::utf8::encode_utf8_decode_utf8(b@);
    }
    constant_time_eq(a.as_bytes(), b.as_bytes())
}

} // verus!
