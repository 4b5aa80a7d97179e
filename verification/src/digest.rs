use vstd::prelude::*;

use sha1::{Digest, Sha1};

verus! {

/// The SHA-1 digest of a byte sequence. The digest function itself is left
/// unspecified: contracts only carry the name, so equal inputs are known to
/// give equal digests, and nothing more is assumed of the algorithm.
pub uninterp spec fn sha1_of(data: Seq<u8>) -> Seq<u8>;

/// Relies on sha1::Sha1 through the Digest trait: the 20-byte SHA-1 digest of
/// the input, a function of the input bytes alone.
#[verifier::external_body]
pub(crate) fn sha1_digest(data: &Vec<u8>) -> (r: [u8; 20])
    ensures
        r@ == sha1_of(data@),
{
    let mut hasher = Sha1::new();
    hasher.update(data.as_slice());
    hasher.finalize().into()
}

} // verus!
