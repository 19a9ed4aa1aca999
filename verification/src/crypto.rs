//! The keyed digest behind signed URLs, named but not restated: the token
//! scheme treats HMAC-SHA-256 as a fixed function of key and message.

use vstd::prelude::*;
use hmac::{Hmac, KeyInit, Mac};
use sha2::Sha256;

verus! {

/// The HMAC-SHA-256 of `msg` under `key`, as the `hmac` and `sha2` crates
/// compute it: a fixed function of its two arguments.
pub uninterp spec fn hmac_sha256(key: Seq<u8>, msg: Seq<u8>) -> Seq<u8>;

/// The digest as the token format embeds it. HMAC-SHA-256 output is 32
/// bytes, so on everything the wrapper can return this is the digest
/// itself; the padding arm only gives the spec a length of its own.
pub open spec fn hmac_sha256_32(key: Seq<u8>, msg: Seq<u8>) -> Seq<u8> {
    if hmac_sha256(key, msg).len() == 32 {
        hmac_sha256(key, msg)
    } else {
        Seq::new(32, |i: int| 0u8)
    }
}

/// Relies on hmac::Hmac<sha2::Sha256>: the keyed digest of the message,
/// always 32 bytes (the SHA-256 output size); keys of any length are
/// accepted, so the construction cannot fail.
#[verifier::external_body]
pub fn hmac_sha256_bytes(key: &[u8], msg: &[u8]) -> (r: Vec<u8>)
    ensures
        r@ == hmac_sha256(key@, msg@),
        r@.len() == 32,
{
    let mut mac = <Hmac<Sha256>>::new_from_slice(key).expect("HMAC accepts keys of any length");
    mac.update(msg);
    mac.finalize().into_bytes().to_vec()
}

} // verus!
