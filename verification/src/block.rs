//! Blocks and the root of their transactions.

use crate::crypto::blake3_digest;
use crate::header::BlockHeader;
use crate::primitives::{hash_of, lemma_hash_of, lemma_zero_hash_bytes, zero_hash, Hash256};
use crate::transaction::{transaction_hash, Transaction};
use vstd::prelude::*;

verus! {

#[derive(Debug)]
pub struct Block {
    pub header: BlockHeader,
    pub transactions: Vec<Transaction>,
}

/// A block as a value.
#[verifier::ext_equal]
pub struct BlockView {
    pub header: BlockHeader,
    pub transactions: Seq<Transaction>,
}

impl View for Block {
    type V = BlockView;

    open spec fn view(&self) -> BlockView {
        BlockView { header: self.header, transactions: self.transactions@ }
    }
}

impl Clone for Block {
    fn clone(&self) -> (r: Self)
        ensures
            r@ == self@,
    {
        Block { header: self.header, transactions: self.transactions.clone() }
    }
}

/// The hash of two hashes side by side.
pub open spec fn pair_hash(left: Hash256, right: Hash256) -> Hash256 {
    hash_of(blake3_digest(left@ + right@))
}

/// The hashes paired off; where one is left over, it is paired with itself.
pub open spec fn level_above(hashes: Seq<Hash256>) -> Seq<Hash256> {
    Seq::new(
        (hashes.len() + 1) / 2,
        |i: int| pair_hash(hashes[2 * i], hashes[if 2 * i + 1 < hashes.len() { 2 * i + 1 } else { 2 * i }]),
    )
}

/// The root of the tree over `hashes`; all zeroes over none.
pub open spec fn root_of(hashes: Seq<Hash256>) -> Hash256
    decreases hashes.len(),
{
    if hashes.len() == 0 {
        zero_hash()
    } else if hashes.len() == 1 {
        hashes[0]
    } else {
        root_of(level_above(hashes))
    }
}

/// The hashes of `transactions`, in order.
pub open spec fn transaction_hashes(transactions: Seq<Transaction>) -> Seq<Hash256> {
    Seq::new(transactions.len(), |i: int| transaction_hash(transactions[i]))
}

/// The Merkle root of a list of hashes.
pub fn merkle_root(hashes: &[Hash256]) -> (r: Hash256)
    ensures
        r == root_of(hashes@),
{
    if hashes.len() == 0 {
        return Hash256::zero();
    }
    let mut level: Vec<Hash256> = Vec::with_capacity(hashes.len());
    level.extend_from_slice(hashes);
    assert(level@ =~= hashes@);
    while level.len() > 1
        invariant
            level@.len() > 0,
            root_of(level@) == root_of(hashes@),
        decreases level@.len(),
    {
        let next = pair_off(&level);
        level = next;
    }
    level[0]
}

fn pair_off(level: &Vec<Hash256>) -> (r: Vec<Hash256>)
    requires
        level@.len() > 1,
    ensures
        r@ == level_above(level@),
{
    let mut next: Vec<Hash256> = Vec::with_capacity(level.len() / 2 + 1);
    let mut i: usize = 0;
    while i < level.len()
        invariant
            i % 2 == 0,
            i <= level@.len() + 1,
            next@.len() == i / 2,
            forall|j: int| 0 <= j < next@.len() ==> next@[j] == level_above(level@)[j],
        decreases level@.len() + 1 - i,
    {
        let rest: usize = level.len() - i;
        let right: usize = if rest > 1 {
            i + 1
        } else {
            i
        };
        let mut bytes: Vec<u8> = Vec::with_capacity(64);
        bytes.extend_from_slice(&level[i].0);
        bytes.extend_from_slice(&level[right].0);
        assert(bytes@ =~= level@[i as int]@ + level@[right as int]@);
        let parent = Hash256::hash(&bytes);
        proof {
            lemma_hash_of(parent);
            assert(parent == level_above(level@)[(i / 2) as int]);
        }
        next.push(parent);
        if rest <= 2 {
            assert(next@ =~= level_above(level@));
            return next;
        }
        i += 2;
    }
    assert(next@ =~= level_above(level@));
    next
}

impl Block {
    /// The root of the block's transactions.
    pub fn compute_tx_root(&self) -> (r: Hash256)
        ensures
            r == root_of(transaction_hashes(self@.transactions)),
    {
        let hashes = hashes_of(&self.transactions);
        merkle_root(&hashes)
    }
}

/// The hashes of a list of transactions.
pub fn hashes_of(transactions: &Vec<Transaction>) -> (r: Vec<Hash256>)
    ensures
        r@ == transaction_hashes(transactions@),
{
    let mut hashes: Vec<Hash256> = Vec::with_capacity(transactions.len());
    let mut i: usize = 0;
    while i < transactions.len()
        invariant
            i <= transactions@.len(),
            hashes@ == transaction_hashes(transactions@.take(i as int)),
        decreases transactions@.len() - i,
    {
        hashes.push(transactions[i].hash());
        assert(hashes@ =~= transaction_hashes(transactions@.take(i + 1)));
        i += 1;
    }
    assert(transactions@.take(i as int) =~= transactions@);
    hashes
}

/// The root over more than one hash is the root over the level above: one hash for each
/// two neighbours, taken over both side by side, and one for a hash left over at the end,
/// taken over it twice.
pub proof fn a_root_is_that_of_the_level_above(hashes: Seq<Hash256>, above: Seq<Hash256>)
    requires
        hashes.len() >= 2,
        above.len() == (hashes.len() + 1) / 2,
        forall|i: int| 0 <= i < hashes.len() / 2 ==> #[trigger] above[i]@ == blake3_digest(hashes[2 * i]@ + hashes[2 * i + 1]@),
        hashes.len() % 2 == 1 ==> above.last()@ == blake3_digest(hashes.last()@ + hashes.last()@),
    ensures
        root_of(hashes) == root_of(above),
{
    let level = level_above(hashes);
    assert forall|i: int| 0 <= i < level.len() implies level[i] == above[i] by {
        lemma_hash_of(above[i]);
        if i >= hashes.len() / 2 {
            assert(above[i] == above.last() && hashes[2 * i] == hashes.last());
        } else {
            assert(above[i]@ == blake3_digest(hashes[2 * i]@ + hashes[2 * i + 1]@));
        }
    }
    assert(level =~= above);
}

/// A hash left over counts as if it were there twice; one hash is its own root, and the
/// root over nothing is all zeroes.
pub proof fn a_hash_left_over_counts_twice(hashes: Seq<Hash256>, one: Hash256)
    requires
        hashes.len() > 1,
        hashes.len() % 2 == 1,
    ensures
        root_of(hashes.push(hashes.last())) == root_of(hashes),
        root_of(seq![one]) == one,
        root_of(Seq::<Hash256>::empty())@ == Seq::new(32, |i: int| 0u8),
{
    let longer = hashes.push(hashes.last());
    assert(level_above(longer) =~= level_above(hashes));
    lemma_zero_hash_bytes();
}

/// The transactions' hashes are taken in the order of the block, one for each.
pub proof fn transactions_are_hashed_in_order(first: Seq<Transaction>, tx: Transaction)
    ensures
        transaction_hashes(first.push(tx)) == transaction_hashes(first).push(transaction_hash(tx)),
        transaction_hashes(Seq::<Transaction>::empty()) == Seq::<Hash256>::empty(),
{
    assert(transaction_hashes(first.push(tx)) =~= transaction_hashes(first).push(transaction_hash(tx)));
    assert(transaction_hashes(Seq::<Transaction>::empty()) =~= Seq::<Hash256>::empty());
}

} // verus!
