//! The key hasher: a fixed, non-keyed 64-bit digest for arbitrary keys.
//!
//! The digest is the 64-bit FNV-1a hash of the key's UTF-8 encoding. It is
//! a pure function of the key, so equal keys give equal digests in every
//! run of every process, and record files written by one run stay
//! discoverable by the next. Distinct keys may still collide: with 64
//! digest bits, the chance that any two of n well-spread keys share a
//! digest is about n^2 / 2^65. The record format therefore resolves
//! collisions by storing the full key next to its value.

use vstd::prelude::*;
use vstd::string::StrSliceExecFns;

verus! {

/// Offset basis of the 64-bit FNV-1a hash.
pub const FNV_OFFSET_BASIS: u64 = 14695981039346656037;

/// Prime multiplier of the 64-bit FNV-1a hash.
pub const FNV_PRIME: u64 = 1099511628211;

/// One FNV-1a round: fold one byte into the running hash.
pub open spec fn fnv1a_step(h: u64, b: u8) -> u64 {
    (h ^ (b as u64)).wrapping_mul(FNV_PRIME)
}

/// The 64-bit FNV-1a hash of a byte sequence.
pub open spec fn fnv1a(bytes: Seq<u8>) -> u64
    decreases bytes.len(),
{
    if bytes.len() == 0 {
        FNV_OFFSET_BASIS
    } else {
        fnv1a_step(fnv1a(bytes.drop_last()), bytes.last())
    }
}

/// The digest of a key: FNV-1a over the key's UTF-8 encoding.
pub open spec fn digest_of(key: Seq<char>) -> u64 {
    fnv1a(vstd::utf8::encode_utf8(key))
}

/// Computes the digest that selects a key's record file.
pub fn calculate_hash(key: &str) -> (digest: u64)
    ensures
        digest == digest_of(key@),
{
    let bytes = key.as_bytes_vec();
    let mut h: u64 = FNV_OFFSET_BASIS;
    let mut i: usize = 0;
    while i < bytes.len()
        invariant
            i <= bytes.len(),
            bytes@ == vstd::utf8::encode_utf8(key@),
            h == fnv1a(bytes@.take(i as int)),
        decreases bytes.len() - i,
    {
        h = (h ^ (bytes[i] as u64)).wrapping_mul(FNV_PRIME);
        i = i + 1;
        proof {
            assert(bytes@.take(i as int).drop_last() =~= bytes@.take(i - 1));
            assert(bytes@.take(i as int).last() == bytes@[i - 1]);
        }
    }
    proof {
        assert(bytes@.take(bytes.len() as int) =~= bytes@);
    }
    h
}

/// The digest is deterministic: equal keys always yield equal digests,
/// within one process and across processes.
pub proof fn lemma_digest_deterministic(k1: Seq<char>, k2: Seq<char>)
    requires
        k1 == k2,
    ensures
        digest_of(k1) == digest_of(k2),
{
}

} // verus!
