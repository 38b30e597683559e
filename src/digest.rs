//! The SHA-1 digest that closes an archive.
use vstd::prelude::*;

verus! {

/// What SHA-1 gives for a byte string.
pub uninterp spec fn sha1_of(data: Seq<u8>) -> Seq<u8>;

#[verifier::external_type_specification]
#[verifier::external_body]
pub struct ExErrorStack(openssl::error::ErrorStack);

/// Relies on `openssl::hash::hash` with `MessageDigest::sha1()`: on success
/// the 20-byte SHA-1 digest of `data`, else the error stack of OpenSSL.
#[verifier::external_body]
pub(crate) fn sha1(data: &[u8]) -> (r: Result<Vec<u8>, openssl::error::ErrorStack>)
    ensures
        r is Ok ==> r->Ok_0@ == sha1_of(data@) && r->Ok_0@.len() == 20,
{
    match openssl::hash::hash(openssl::hash::MessageDigest::sha1(), data) {
        Ok(d) => Ok(d.to_vec()),
        Err(e) => Err(e),
    }
}

} // verus!
