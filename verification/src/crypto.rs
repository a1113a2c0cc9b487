//! Trusted wrappers around the cryptographic primitives the authenticator
//! composes.  Each digest is named by an uninterpreted spec function: the
//! result is a function of the arguments alone, and the verified code only
//! ever compares and combines these names.

use vstd::prelude::*;
use base64::Engine;
use hmac::Mac;
use md5::Digest;

verus! {

/// What HMAC-SHA1 returns for `key` and `data`.
pub uninterp spec fn hmac_sha1_of(key: Seq<u8>, data: Seq<u8>) -> Seq<u8>;

/// What HMAC-SHA256 returns for `key` and `data`.
pub uninterp spec fn hmac_sha256_of(key: Seq<u8>, data: Seq<u8>) -> Seq<u8>;

/// What the MD5 digest of `data` is.
pub uninterp spec fn md5_of(data: Seq<u8>) -> Seq<u8>;

/// What the standard base64 alphabet encoding of `data` is.
pub uninterp spec fn base64_of(data: Seq<u8>) -> Seq<u8>;

/// Relies on hmac::Hmac over sha1::Sha1: accepts keys of any length and
/// returns the 20-byte tag, a function of key and message alone.
#[verifier::external_body]
pub(crate) fn hmac_sha1(key: &[u8], data: &[u8]) -> (r: Vec<u8>)
    ensures
        r@ == hmac_sha1_of(key@, data@),
        r@.len() == 20,
{
    let mut mac = <hmac::Hmac<sha1::Sha1> as hmac::Mac>::new_from_slice(key)
        .expect("HMAC accepts keys of any length");
    mac.update(data);
    mac.finalize().into_bytes().to_vec()
}

/// Relies on hmac::Hmac over sha2::Sha256: accepts keys of any length and
/// returns the 32-byte tag, a function of key and message alone.
#[verifier::external_body]
pub(crate) fn hmac_sha256(key: &[u8], data: &[u8]) -> (r: Vec<u8>)
    ensures
        r@ == hmac_sha256_of(key@, data@),
        r@.len() == 32,
{
    let mut mac = <hmac::Hmac<sha2::Sha256> as hmac::Mac>::new_from_slice(key)
        .expect("HMAC accepts keys of any length");
    mac.update(data);
    mac.finalize().into_bytes().to_vec()
}

/// Relies on md5::Md5: returns the 16-byte digest of `data`.
#[verifier::external_body]
pub(crate) fn md5(data: &[u8]) -> (r: Vec<u8>)
    ensures
        r@ == md5_of(data@),
        r@.len() == 16,
{
    let mut hasher = md5::Md5::new();
    hasher.update(data);
    hasher.finalize().to_vec()
}

/// Relies on base64::engine::general_purpose::STANDARD.encode: returns the
/// padded standard-alphabet encoding of `data` as bytes.
#[verifier::external_body]
pub(crate) fn base64_encode(data: &[u8]) -> (r: Vec<u8>)
    ensures
        r@ == base64_of(data@),
{
    base64::engine::general_purpose::STANDARD.encode(data).into_bytes()
}

} // verus!
