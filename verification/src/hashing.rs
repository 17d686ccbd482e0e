//! SHA-1 digests, as computed by the `sha1` crate.

use vstd::prelude::*;
use sha1::Digest;

verus! {

/// The SHA-1 digest of a byte sequence (20 bytes).
pub uninterp spec fn sha1_spec(data: Seq<u8>) -> Seq<u8>;

/// Calls `sha1::Sha1::digest` on `data` and returns the 20-byte digest.
/// Trusted: the result is the digest named `sha1_spec` of the input bytes.
#[verifier::external_body]
pub(crate) fn sha1_digest(data: &[u8]) -> (r: [u8; 20])
    ensures
        r@ == sha1_spec(data@),
{
    sha1::Sha1::digest(data).into()
}

} // verus!
