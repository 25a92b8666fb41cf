//! Digests and the fixed-size byte strings that hold them.

use vstd::prelude::*;
use sha3::Digest;

verus! {

/// The SHA3-256 digest of `data`.
pub uninterp spec fn sha3_256(data: Seq<u8>) -> Seq<u8>;

/// Hashes `data` with `Sha3_256::digest` of the `sha3` crate. The digest
/// depends on the bytes alone.
#[verifier::external_body]
pub(crate) fn sha3_256_digest(data: &[u8]) -> (digest: [u8; 32])
    ensures
        digest@ == sha3_256(data@),
{
    sha3::Sha3_256::digest(data).into()
}

/// Whether two digests are the same.
pub fn same_digest(a: &[u8; 32], b: &[u8; 32]) -> (same: bool)
    ensures
        same == (a@ == b@),
{
    let mut i: usize = 0;
    while i < 32
        invariant
            i <= 32,
            forall|j: int| 0 <= j < i ==> a@[j] == b@[j],
        decreases 32 - i,
    {
        if a[i] != b[i] {
            return false;
        }
        i = i + 1;
    }
    proof {
        assert(a@ =~= b@);
    }
    true
}

/// The bytes of `a` followed by the bytes of `b`.
pub fn join_digests(a: &[u8; 32], b: &[u8; 32]) -> (joined: Vec<u8>)
    ensures
        joined@ == a@ + b@,
{
    let mut joined: Vec<u8> = Vec::new();
    let mut i: usize = 0;
    while i < 32
        invariant
            i <= 32,
            joined@ == a@.take(i as int),
        decreases 32 - i,
    {
        joined.push(a[i]);
        i = i + 1;
    }
    let mut k: usize = 0;
    while k < 32
        invariant
            k <= 32,
            joined@ == a@ + b@.take(k as int),
        decreases 32 - k,
    {
        joined.push(b[k]);
        k = k + 1;
    }
    joined
}

} // verus!
