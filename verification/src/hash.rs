use core::hash::Hasher;
use twox_hash::XxHash64;
use vstd::prelude::*;

verus! {

/// The 64-bit xxHash digest, with seed 0, of a sequence of bytes.
pub uninterp spec fn xxhash64(bytes: Seq<u8>) -> u64;

/// Hashes `bytes` with `twox_hash::XxHash64`: a hasher from
/// `XxHash64::default` (seed 0) is fed the bytes with `Hasher::write` and
/// asked for its digest with `Hasher::finish`.  The hasher lives inside this
/// call only, so the digest depends on the bytes alone.
#[verifier::external_body]
pub(crate) fn xxhash64_of(bytes: &[u8]) -> (digest: u64)
    ensures
        digest == xxhash64(bytes@),
{
    let mut hasher = XxHash64::default();
    Hasher::write(&mut hasher, bytes);
    Hasher::finish(&hasher)
}

} // verus!
