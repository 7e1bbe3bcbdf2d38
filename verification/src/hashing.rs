//! The 64-bit hash the engine keys nodes and shards by: the first eight
//! bytes of the MD5 digest, read little-endian.

use vstd::prelude::*;
use vstd::bytes::spec_u64_from_le_bytes;

verus! {

/// The MD5 digest of a byte string. The digest is a pure function of its
/// input; what it is on given bytes is left to the outside implementation.
pub uninterp spec fn md5_of(data: Seq<u8>) -> Seq<u8>;

/// Relies on md5::compute: the digest depends on the input bytes alone
/// and is 16 bytes long.
#[verifier::external_body]
fn md5_digest(data: &Vec<u8>) -> (r: [u8; 16])
    ensures
        r@ == md5_of(data@),
        r@.len() == 16,
{
    md5::compute(data.as_slice()).0
}

/// The engine's 64-bit key hash: the first eight digest bytes as a
/// little-endian integer.
pub open spec fn spec_hash64(data: Seq<u8>) -> u64 {
    spec_u64_from_le_bytes(md5_of(data).take(8))
}

pub fn hash64(data: &Vec<u8>) -> (r: u64)
    ensures
        r == spec_hash64(data@),
{
    let d = md5_digest(data);
    let mut first: Vec<u8> = Vec::new();
    let mut i: usize = 0;
    while i < 8
        invariant
            i <= 8,
            d@.len() == 16,
            d@ == md5_of(data@),
            first@ == d@.take(i as int),
        decreases 8 - i,
    {
        first.push(d[i]);
        proof {
            assert(first@ =~= d@.take(i as int + 1));
        }
        i += 1;
    }
    proof {
        assert(first@ == md5_of(data@).take(8));
        assert(first@.len() == 8);
    }
    vstd::bytes::u64_from_le_bytes(first.as_slice())
}

} // verus!
