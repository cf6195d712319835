//! The key hash of the unordered engine and the bucket it selects.

use vstd::prelude::*;

verus! {

/// FNV-1a 64-bit offset basis.
pub const FNV_OFFSET: u64 = 0xcbf29ce484222325;

/// FNV-1a 64-bit prime.
pub const FNV_PRIME: u64 = 0x100000001b3;

/// The FNV-1a hash of a key: each byte is xored in, then the state is
/// multiplied by the prime, modulo 2^64.
pub open spec fn key_hash(k: Seq<u8>) -> u64
    decreases k.len(),
{
    if k.len() == 0 {
        FNV_OFFSET
    } else {
        (key_hash(k.drop_last()) ^ (k.last() as u64)).wrapping_mul(FNV_PRIME)
    }
}

/// The bucket, among `n`, that key `k` belongs to.
pub open spec fn slot(k: Seq<u8>, n: nat) -> int {
    (key_hash(k) as nat % n) as int
}

/// A slot names one of the `n` buckets.
pub proof fn lemma_slot_bound(k: Seq<u8>, n: nat)
    requires
        n > 0,
    ensures
        0 <= slot(k, n) < n,
{
    let h = key_hash(k) as nat;
    assert(0 <= h % n < n) by (nonlinear_arith)
        requires
            n > 0,
    {}
}

/// Computes the hash of a key.
pub fn hash_key(k: &[u8]) -> (r: u64)
    ensures
        r == key_hash(k@),
{
    let mut h: u64 = FNV_OFFSET;
    let mut i: usize = 0;
    assert(k@.take(0) =~= Seq::<u8>::empty());
    while i < k.len()
        invariant
            0 <= i <= k@.len(),
            h == key_hash(k@.take(i as int)),
        decreases k@.len() - i,
    {
        assert(k@.take(i + 1).drop_last() =~= k@.take(i as int));
        h = (h ^ (k[i] as u64)).wrapping_mul(FNV_PRIME);
        i = i + 1;
    }
    assert(k@.take(i as int) =~= k@);
    h
}

/// Computes the bucket, among `n`, of a key.
pub fn slot_of(k: &[u8], n: usize) -> (r: usize)
    requires
        n > 0,
    ensures
        r < n,
        r as int == slot(k@, n as nat),
{
    let h = hash_key(k);
    (h % (n as u64)) as usize
}

} // verus!
