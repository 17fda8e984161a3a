//! SHA-1 digests, which name pieces and torrents.

use sha1::{Digest, Sha1};
use vstd::prelude::*;

verus! {

/// The SHA-1 digest of `data`.
pub uninterp spec fn sha1_digest(data: Seq<u8>) -> Seq<u8>;

/// `Sha1::digest`: the SHA-1 digest of `data`, twenty bytes.
#[verifier::external_body]
pub(crate) fn sha1(data: &[u8]) -> (r: [u8; 20])
    ensures
        r@ == sha1_digest(data@),
{
    Sha1::digest(data).into()
}

} // verus!
