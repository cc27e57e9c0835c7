//! The digest that a deck's identifier is derived from.

use sha1::{Digest, Sha1};
use vstd::prelude::*;

verus! {

/// The SHA-1 digest of `data`: what `Sha1::digest` of the crate `sha1`
/// computes. Nothing is stated of it but that it depends on `data` alone.
pub uninterp spec fn sha1_digest(data: Seq<u8>) -> Seq<u8>;

/// Computes the SHA-1 digest of `data` with `Sha1::digest` of the crate
/// `sha1`. The contract is not proved: it names the twenty bytes that come
/// back `sha1_digest(data@)`.
#[verifier::external_body]
pub(crate) fn digest_of(data: &[u8]) -> (digest: [u8; 20])
    ensures
        digest@ == sha1_digest(data@),
{
    Sha1::digest(data).into()
}

} // verus!
