//! The integrity primitive: SHA-256.

use vstd::prelude::*;
use generic_array::GenericArray;
use sha2::{Digest, Sha256};
use typenum::U32;

verus! {

/// The SHA-256 digest of a byte sequence.
pub uninterp spec fn sha256_digest(data: Seq<u8>) -> Seq<u8>;

/// Calls `Sha256::digest` of the `sha2` crate and copies the 32 bytes out of
/// the `GenericArray` that it returns. The hash function is not modelled: the
/// contract names the result as a function of the input bytes.
#[verifier::external_body]
pub(crate) fn sha256(data: &[u8]) -> (out: [u8; 32])
    ensures
        out@ == sha256_digest(data@),
{
    let hash: GenericArray<u8, U32> = Sha256::digest(data);
    hash.into()
}

/// Whether two digests agree byte for byte.
pub fn digest_eq(a: &[u8; 32], b: &[u8; 32]) -> (same: bool)
    ensures
        same == (a@ == b@),
{
    let mut i: usize = 0;
    while i < 32
        invariant
            0 <= i <= 32,
            forall|j: int| 0 <= j < i ==> a@[j] == b@[j],
        decreases 32 - i,
    {
        if a[i] != b[i] {
            return false;
        }
        i += 1;
    }
    assert(a@ =~= b@);
    true
}

} // verus!
