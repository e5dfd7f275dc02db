//! Block headers.

use crate::bytes::{le_bytes, le_value, lemma_le_bytes_len, lemma_u64_le_round_trip, push_u64_le};
use crate::pow::{ondris_digest, ondris_hash, Dataset, ACCESSES};
use crate::primitives::{hash_of, lemma_hash_of, Address, Hash256};
use vstd::prelude::*;

verus! {

#[derive(Clone, Copy, Debug, PartialEq, Eq)]
pub struct BlockHeader {
    pub height: u64,
    pub prev_hash: Hash256,
    pub tx_root: Hash256,
    pub timestamp: u64,
    pub difficulty: u64,
    pub miner: Address,
    pub nonce: u64,
}

/// The header without its nonce, as it is hashed.
pub open spec fn pow_bytes(header: BlockHeader) -> Seq<u8> {
    le_bytes(header.height as nat, 8) + header.prev_hash@ + header.tx_root@ + le_bytes(header.timestamp as nat, 8)
        + le_bytes(header.difficulty as nat, 8) + header.miner@
}

/// The block's identity: the proof-of-work hash of its header over a dataset.
pub open spec fn header_hash(header: BlockHeader, dataset: Seq<u8>) -> Hash256 {
    hash_of(ondris_digest(pow_bytes(header), header.nonce, dataset, ACCESSES as nat))
}

/// Headers with the same bytes differ in the nonce alone.
pub proof fn pow_bytes_determine_the_header(a: BlockHeader, b: BlockHeader)
    requires
        pow_bytes(a) == pow_bytes(b),
    ensures
        a == (BlockHeader { nonce: a.nonce, ..b }),
{
    let (s, t) = (pow_bytes(a), pow_bytes(b));
    lemma_u64_le_round_trip(a.height);
    lemma_u64_le_round_trip(b.height);
    lemma_u64_le_round_trip(a.timestamp);
    lemma_u64_le_round_trip(b.timestamp);
    lemma_u64_le_round_trip(a.difficulty);
    lemma_u64_le_round_trip(b.difficulty);
    assert(s.subrange(0, 8) =~= le_bytes(a.height as nat, 8) && t.subrange(0, 8) =~= le_bytes(b.height as nat, 8));
    assert(s.subrange(8, 40) =~= a.prev_hash@ && t.subrange(8, 40) =~= b.prev_hash@);
    assert(s.subrange(40, 72) =~= a.tx_root@ && t.subrange(40, 72) =~= b.tx_root@);
    assert(s.subrange(72, 80) =~= le_bytes(a.timestamp as nat, 8));
    assert(t.subrange(72, 80) =~= le_bytes(b.timestamp as nat, 8));
    assert(s.subrange(80, 88) =~= le_bytes(a.difficulty as nat, 8));
    assert(t.subrange(80, 88) =~= le_bytes(b.difficulty as nat, 8));
    assert(s.subrange(88, 108) =~= a.miner@ && t.subrange(88, 108) =~= b.miner@);
    assert(a.prev_hash.0 =~= b.prev_hash.0);
    assert(a.tx_root.0 =~= b.tx_root.0);
    assert(a.miner.0 =~= b.miner.0);
}

impl BlockHeader {
    /// The canonical bytes of the header without the nonce, which the hash adds
    /// itself.
    pub fn bytes_for_pow(&self) -> (r: Vec<u8>)
        ensures
            r@ == pow_bytes(*self),
            r@.len() == 108,
    {
        let mut buf: Vec<u8> = Vec::with_capacity(108);
        push_u64_le(&mut buf, self.height);
        buf.extend_from_slice(&self.prev_hash.0);
        buf.extend_from_slice(&self.tx_root.0);
        let ghost head = le_bytes(self.height as nat, 8) + self.prev_hash@ + self.tx_root@;
        assert(buf@ =~= head);
        push_u64_le(&mut buf, self.timestamp);
        push_u64_le(&mut buf, self.difficulty);
        buf.extend_from_slice(&self.miner.0);
        proof {
            assert(buf@ =~= pow_bytes(*self));
            lemma_le_bytes_len(self.height as nat, 8);
            lemma_le_bytes_len(self.timestamp as nat, 8);
            lemma_le_bytes_len(self.difficulty as nat, 8);
        }
        buf
    }

    /// The proof-of-work hash of the header, which is also the block's identity.
    pub fn id(&self, dataset: &Dataset) -> (r: Hash256)
        requires
            dataset.wf(),
        ensures
            r == header_hash(*self, dataset@),
    {
        let bytes = self.bytes_for_pow();
        let r = ondris_hash(&bytes, self.nonce, dataset);
        proof {
            lemma_hash_of(r);
        }
        r
    }
}

/// Where each field of a header stands in the bytes that are hashed, numbers least
/// significant byte first. The nonce is not among them.
pub proof fn where_the_fields_of_a_header_stand(header: BlockHeader)
    ensures
        ({
            let b = pow_bytes(header);
            &&& b.len() == 108
            &&& le_value(b.subrange(0, 8)) == header.height
            &&& b.subrange(8, 40) == header.prev_hash@
            &&& b.subrange(40, 72) == header.tx_root@
            &&& le_value(b.subrange(72, 80)) == header.timestamp
            &&& le_value(b.subrange(80, 88)) == header.difficulty
            &&& b.subrange(88, 108) == header.miner@
        }),
{
    let b = pow_bytes(header);
    lemma_u64_le_round_trip(header.height);
    lemma_u64_le_round_trip(header.timestamp);
    lemma_u64_le_round_trip(header.difficulty);
    assert(b.subrange(0, 8) =~= le_bytes(header.height as nat, 8));
    assert(b.subrange(8, 40) =~= header.prev_hash@);
    assert(b.subrange(40, 72) =~= header.tx_root@);
    assert(b.subrange(72, 80) =~= le_bytes(header.timestamp as nat, 8));
    assert(b.subrange(80, 88) =~= le_bytes(header.difficulty as nat, 8));
    assert(b.subrange(88, 108) =~= header.miner@);
}

/// A block is known by OndrisHash of its header's bytes and its nonce with 64 accesses.
pub proof fn a_block_is_known_by_its_work(header: BlockHeader, dataset: Seq<u8>, id: Hash256)
    requires
        id@ == ondris_digest(pow_bytes(header), header.nonce, dataset, 64),
    ensures
        header_hash(header, dataset) == id,
{
    lemma_hash_of(id);
}

} // verus!
