//! Keccak-256.

use vstd::prelude::*;

use crate::primitives::{FixedBytes, B256};

verus! {

/// What `tiny_keccak::Keccak::v256` gives for some bytes.
pub uninterp spec fn keccak_v256(data: Seq<u8>) -> B256;

/// `tiny_keccak::Keccak::v256`, fed with all of `data` and finalized into 32 bytes: the Keccak-256
/// hash, which depends on the bytes alone.
#[verifier::external_body]
pub(crate) fn keccak256_bytes(data: &[u8]) -> (r: B256)
    ensures
        r == keccak_v256(data@),
{
    let mut hasher = tiny_keccak::Keccak::v256();
    let mut output = [0u8; 32];
    tiny_keccak::Hasher::update(&mut hasher, data);
    tiny_keccak::Hasher::finalize(hasher, &mut output);
    FixedBytes(output)
}

/// What `alloy_primitives::keccak256` gives for some bytes.
pub uninterp spec fn keccak_alloy(data: Seq<u8>) -> B256;

/// `alloy_primitives::keccak256`: the Keccak-256 hash, which depends on the bytes alone.
#[verifier::external_body]
pub(crate) fn keccak256(data: &[u8]) -> (r: B256)
    ensures
        r == keccak_alloy(data@),
{
    FixedBytes(alloy_primitives::keccak256(data).0)
}

/// Whether `s` starts with `prefix`.
pub open spec fn starts_with(s: Seq<u8>, prefix: Seq<u8>) -> bool {
    prefix.len() <= s.len() && s.take(prefix.len() as int) == prefix
}

/// Whether `s` starts with `prefix`.
pub fn has_prefix(s: &[u8], prefix: &[u8]) -> (r: bool)
    ensures
        r == starts_with(s@, prefix@),
{
    if prefix.len() > s.len() {
        return false;
    }
    let mut i: usize = 0;
    while i < prefix.len()
        invariant
            i <= prefix@.len() <= s@.len(),
            forall|j: int| 0 <= j < i ==> s@[j] == prefix@[j],
        decreases prefix@.len() - i,
    {
        if s[i] != prefix[i] {
            assert(s@.take(prefix@.len() as int)[i as int] != prefix@[i as int]);
            return false;
        }
        i = i + 1;
    }
    assert(s@.take(prefix@.len() as int) =~= prefix@);
    true
}

/// Bytes start with a prefix exactly if they are the prefix followed by other bytes.
pub proof fn lemma_prefix_comes_first(prefix: Seq<u8>, rest: Seq<u8>, s: Seq<u8>)
    ensures
        starts_with(prefix + rest, prefix),
        starts_with(s, prefix) ==> s == prefix + s.skip(prefix.len() as int),
{
    assert((prefix + rest).take(prefix.len() as int) =~= prefix);
    if starts_with(s, prefix) {
        assert(s =~= s.take(prefix.len() as int) + s.skip(prefix.len() as int));
    }
}

} // verus!
