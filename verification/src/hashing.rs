//! BLAKE3, the commitment function of the format. Its output is named rather than restated:
//! it depends on the input bytes alone, and its definition takes pages.

use vstd::prelude::*;

verus! {

/// The BLAKE3 digest of a byte sequence.
pub uninterp spec fn blake3_digest(data: Seq<u8>) -> Seq<u8>;

/// `blake3::hash`: the 32-byte BLAKE3 digest of `data`. The contract claims that the digest
/// is a function of the bytes alone (the name above) and that it is 32 bytes long.
#[verifier::external_body]
pub(crate) fn blake3_hash(data: &[u8]) -> (h: [u8; 32])
    ensures
        h@ == blake3_digest(data@),
        h@.len() == 32,
{
    *blake3::hash(data).as_bytes()
}

} // verus!
