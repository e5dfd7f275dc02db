//! OndrisHash over the library's own BLAKE3: what a GPU kernel is held to. It returns
//! what `pow` returns, on every input.

use crate::blake3_ref::{self, digest, xof};
use crate::bytes::{le_bytes, push_u64_le};
use crate::pow::{mix_and_fold, sealed, ITEM_SIZE};
use vstd::prelude::*;

verus! {

/// OndrisHash of a header and a nonce, with every hash taken by `blake3_ref`.
pub open spec fn reference_digest(header: Seq<u8>, nonce: u64, dataset: Seq<u8>, accesses: nat) -> Seq<u8> {
    let seed = digest(header + le_bytes(nonce as nat, 8));
    digest(sealed(seed, xof(seed, 128), dataset, accesses))
}

/// `dataset` is the raw bytes of the dataset.
pub fn ondris_hash_with_accesses(header_bytes: &[u8], nonce: u64, dataset: &[u8], accesses: usize) -> (r: [u8; 32])
    requires
        dataset@.len() >= ITEM_SIZE || accesses == 0,
    ensures
        r@ == reference_digest(header_bytes@, nonce, dataset@, accesses as nat),
{
    let mut input: Vec<u8> = Vec::with_capacity(header_bytes.len());
    input.extend_from_slice(header_bytes);
    assert(input@ =~= header_bytes@);
    push_u64_le(&mut input, nonce);
    let seed = blake3_ref::hash(&input);
    let start = blake3_ref::xof_from_32_bytes(&seed, ITEM_SIZE);
    let last = mix_and_fold(&seed, &start, dataset, accesses);
    blake3_ref::hash(&last)
}

} // verus!
