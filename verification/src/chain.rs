//! The chain: judging blocks, choosing the heaviest branch, and moving to it.

use crate::block::{hashes_of, merkle_root, root_of, transaction_hashes, Block, BlockView};
use crate::bytes::be_value;
use crate::crypto::blake3_digest;
use crate::difficulty::{next_difficulty, retargeted, target_for_difficulty, target_value};
use crate::error::ChainError;
use crate::fork::{
    all_known, ancestor, apply_path, at_height, branches_meet_at_the_fork, chain_work, consistent, fork_height,
    fork_paths, fork_steps, height_of, index_of, lemma_ancestor_known, lemma_ancestor_of_ancestor,
    lemma_ancestor_parent, lemma_ancestor_stays, lemma_shared_below, lemma_work_bound, linked, linked_at, parent_of,
    path_back, step, undo_path, weighed_at, work_back,
};
use crate::genesis::{
    address_written, genesis_block_hash, genesis_hash, is_address, premine_accounts, premine_valid, reward_at,
    GenesisConfig,
};
use crate::header::{header_hash, BlockHeader};
use crate::laws::{
    a_heavier_block_becomes_the_tip, carries_a_signature, is_accepted, submission_keeps_the_state_consistent,
    which_blocks_are_valid,
};
use crate::ledger::{capped, overlaid, Overlay, TxFault};
use crate::pow::{
    dataset_bytes, epoch_number, epoch_of, epoch_seed, meets_target, seed_of_epoch, Dataset, CACHE_SIZE, DATASET_SIZE,
    EPOCH_LENGTH, GENESIS_EPOCH,
};
use crate::primitives::{
    address_text, address_text_is_injective, lemma_zero_hash_bytes, zero_address, zero_hash, Address, Hash256,
};
use crate::reorg::{
    applied_along, apply_along, left_over, transactions_along, transactions_to_requeue, undo_along, undone_along,
};
use crate::state::{
    changed, complete, credited, empty_state, op_views, replayed, Account, ChainState, StateView, StoreOp,
};
use crate::table::Table;
use crate::transaction::{signature_valid, Transaction};
use std::sync::Arc;
use vstd::prelude::*;

verus! {

/// What became of a submitted block. Only `Accepted` and `SideBranch` mean that it
/// was valid; of an `Orphan` that is not known yet, because its parent is missing.
#[derive(Debug)]
pub enum SubmitOutcome {
    /// Now on the canonical chain: it extended the tip, or won a reorganisation away
    /// from it. `requeue` holds the transactions of the losing branch that are not on
    /// the new one; they belong back among the pending ones.
    Accepted { hash: Hash256, height: u64, reorged: bool, requeue: Vec<Transaction> },
    /// Valid and stored, but not heavier than the tip.
    SideBranch { hash: Hash256, height: u64 },
    /// Stored before; nothing changed.
    AlreadyKnown,
    /// The parent is not stored. Once it is, the block can be submitted again.
    Orphan { missing_parent: Hash256 },
}

/// What a block turns out to be when it is held against the stored chain.
#[derive(Clone, Copy, Debug, PartialEq, Eq)]
pub enum Verdict {
    Refused(ChainError),
    Known,
    Orphan(Hash256),
    Valid,
}

/// A block's contribution to the cumulative work: its difficulty.
pub fn block_work(difficulty: u64) -> (r: u128)
    ensures
        r == difficulty,
{
    difficulty as u128
}

// ---- genesis ----

/// The block that the chain starts from.
pub open spec fn genesis_block(config: GenesisConfig) -> BlockView {
    BlockView {
        header: BlockHeader {
            height: 0,
            prev_hash: zero_hash(),
            tx_root: zero_hash(),
            timestamp: config.timestamp,
            difficulty: config.initial_difficulty,
            miner: zero_address(),
            nonce: 0,
        },
        transactions: Seq::empty(),
    }
}

/// The accounts after a list of credits.
pub open spec fn all_credited(accounts: Map<Address, Account>, credits: Seq<(Address, u64)>) -> Map<Address, Account>
    decreases credits.len(),
{
    if credits.len() == 0 {
        accounts
    } else {
        credited(all_credited(accounts, credits.drop_last()), credits.last().0, credits.last().1)
    }
}

/// The state with the genesis block as its tip and the premine credited.
pub open spec fn founded(config: GenesisConfig, s: StateView) -> StateView {
    let hash = genesis_hash(config);
    StateView {
        accounts: all_credited(s.accounts, premine_accounts(config.premine@)),
        blocks: s.blocks.insert(hash, genesis_block(config)),
        heights: s.heights.insert(0, hash),
        work: s.work.insert(hash, config.initial_difficulty as u128),
        tip: Some((0, hash)),
        mempool: s.mempool,
    }
}

/// A chain founded on a store without blocks is consistent.
pub proof fn a_new_chain_is_consistent(config: GenesisConfig, s: StateView)
    requires
        s.blocks == Map::<Hash256, BlockView>::empty(),
        s.heights == Map::<u64, Hash256>::empty(),
    ensures
        consistent(founded(config, s)),
{
    let f = founded(config, s);
    let hash = genesis_hash(config);
    assert forall|h: Hash256| f.blocks.contains_key(h) implies #[trigger] linked_at(f.blocks, hash, h) by {}
    assert forall|h: Hash256| f.blocks.contains_key(h) implies #[trigger] weighed_at(
        f.blocks,
        f.work,
        h,
    ) by {}
    assert(f.heights =~= index_of(f.blocks, hash));
}

/// What a new chain holds: one block without transactions, at height zero and under the
/// network's genesis hash, with the initial difficulty as its work. It is the tip. Pending
/// transactions stay.
pub proof fn what_a_new_chain_holds(config: GenesisConfig, s: StateView)
    ensures
        ({
            let (f, hash) = (founded(config, s), genesis_hash(config));
            let header = f.blocks[hash].header;
            &&& f.tip == Some((0u64, hash))
            &&& f.heights == s.heights.insert(0, hash)
            &&& f.blocks.contains_key(hash) && f.blocks.remove(hash) == s.blocks.remove(hash)
            &&& f.work == s.work.insert(hash, config.initial_difficulty as u128)
            &&& f.mempool == s.mempool
            &&& f.blocks[hash].transactions.len() == 0
            &&& header.height == 0 && header.nonce == 0
            &&& header.timestamp == config.timestamp
            &&& header.difficulty == config.initial_difficulty
            &&& header.prev_hash@ == Seq::new(32, |i: int| 0u8)
            &&& header.tx_root == header.prev_hash
        }),
{
    lemma_zero_hash_bytes();
    assert(founded(config, s).blocks.remove(genesis_hash(config)) =~= s.blocks.remove(genesis_hash(config)));
}

/// What the premine assigns to an address in all.
pub open spec fn premined(premine: Seq<(String, u64)>, a: Address) -> int
    decreases premine.len(),
{
    if premine.len() == 0 {
        0
    } else {
        premined(premine.drop_last(), a) + if premine.last().0@ == address_text(a@) {
            premine.last().1 as int
        } else {
            0
        }
    }
}

proof fn lemma_premine_credited(accounts: Map<Address, Account>, premine: Seq<(String, u64)>, a: Address)
    requires
        premine_valid(premine),
    ensures
        all_credited(accounts, premine_accounts(premine))[a].balance == capped(
            accounts[a].balance + premined(premine, a),
        ),
        all_credited(accounts, premine_accounts(premine))[a].nonce == accounts[a].nonce,
        premined(premine, a) >= 0,
    decreases premine.len(),
{
    if premine.len() > 0 {
        let front = premine.drop_last();
        assert forall|i: int| 0 <= i < front.len() implies is_address((#[trigger] front[i]).0@) by {
            assert(front[i] == premine[i]);
        }
        lemma_premine_credited(accounts, front, a);
        assert(premine_accounts(premine).drop_last() =~= premine_accounts(front));
        assert(is_address(premine[premine.len() - 1].0@));
        let named = address_written(premine.last().0@);
        assert(address_text(named@) == premine.last().0@);
        if premine.last().0@ == address_text(a@) {
            address_text_is_injective(a, named);
        }
    }
}

/// A new chain credits every address with what the premine assigns to it in all, up to the
/// largest balance, and nothing else.
pub proof fn the_premine_is_credited(config: GenesisConfig, s: StateView, a: Address)
    requires
        premine_valid(config.premine@),
    ensures
        founded(config, s).accounts[a].balance == capped(s.accounts[a].balance + premined(config.premine@, a)),
        founded(config, s).accounts[a].nonce == s.accounts[a].nonce,
{
    lemma_premine_credited(s.accounts, config.premine@, a);
}

// ---- datasets ----

/// The height of the block whose hash seeds the epoch of `height`: the first of the
/// epoch. It has to be on the canonical chain before a block of its epoch, itself
/// among them, can be judged.
pub open spec fn boundary_of(height: u64) -> u64 {
    (epoch_number(height) * EPOCH_LENGTH) as u64
}

/// The bytes of an epoch's dataset, grown from the epoch's boundary block on the
/// canonical chain. There are none where that block is missing.
pub open spec fn grown_for(s: StateView, epoch: u64) -> Option<Seq<u8>> {
    let boundary = (epoch * EPOCH_LENGTH) as u64;
    if epoch == 0 {
        Some(dataset_bytes(seed_of_epoch(None), CACHE_SIZE as nat, DATASET_SIZE as nat))
    } else if s.heights.contains_key(boundary) {
        Some(dataset_bytes(seed_of_epoch(Some(s.heights[boundary])), CACHE_SIZE as nat, DATASET_SIZE as nat))
    } else {
        None
    }
}

/// Whether the cached dataset is of `epoch`.
pub open spec fn is_cached(cached: Option<(u64, Seq<u8>)>, epoch: u64) -> bool {
    match cached {
        Some((cached_epoch, _)) => cached_epoch == epoch,
        None => false,
    }
}

/// The dataset for a block at `height`: the cached one where it is of the same epoch,
/// else the one grown for that epoch.
pub open spec fn dataset_at(s: StateView, cached: Option<(u64, Seq<u8>)>, height: u64) -> Option<Seq<u8>> {
    let epoch = epoch_number(height);
    if is_cached(cached, epoch) {
        Some((cached->0).1)
    } else {
        grown_for(s, epoch)
    }
}

/// The cached bytes are those grown for their epoch from the canonical chain as it is.
pub open spec fn is_fresh(s: StateView, cached: Option<(u64, Seq<u8>)>) -> bool {
    match cached {
        Some((epoch, bytes)) => grown_for(s, epoch) == Some(bytes),
        None => true,
    }
}

/// Whether two states have the same boundary block for an epoch.
pub open spec fn same_boundary(s: StateView, t: StateView, epoch: u64) -> bool {
    let boundary = (epoch * EPOCH_LENGTH) as u64;
    epoch > 0 ==> s.heights.contains_key(boundary) == t.heights.contains_key(boundary) && s.heights[boundary]
        == t.heights[boundary]
}

/// What is cached once the dataset for `height` was asked for.
pub open spec fn cached_after(s: StateView, cached: Option<(u64, Seq<u8>)>, height: u64) -> Option<(u64, Seq<u8>)> {
    match dataset_at(s, cached, height) {
        Some(bytes) => Some((epoch_number(height), bytes)),
        None => cached,
    }
}

/// An epoch's dataset grows from the hash of the canonical block at its first height, a
/// multiple of 2048; that of the first epoch from a fixed text. It is derived from a cache
/// of 16 MiB and has 64 MiB.
pub proof fn a_dataset_grows_from_the_first_block_of_its_epoch(s: StateView, height: u64)
    ensures
        height < 2048 ==> dataset_at(s, None, height) == Some(
            dataset_bytes(blake3_digest(GENESIS_EPOCH@), 16 * 1024 * 1024, 64 * 1024 * 1024),
        ),
        height >= 2048 ==> ({
            let boundary = (height - height % 2048) as u64;
            dataset_at(s, None, height) == if s.heights.contains_key(boundary) {
                Some(dataset_bytes(blake3_digest(s.heights[boundary]@), 16 * 1024 * 1024, 64 * 1024 * 1024))
            } else {
                None
            }
        }),
{
    assert(boundary_of(height) == height - height % 2048);
}

// ---- difficulty ----

/// The retarget window; zero counts as one.
pub open spec fn window_of(config: GenesisConfig) -> u64 {
    if config.retarget_window == 0 {
        1
    } else {
        config.retarget_window
    }
}

/// The difficulty after the block `last`, where `first` is one window before it.
pub open spec fn retargeted_after(config: GenesisConfig, last: BlockHeader, first: BlockHeader) -> u64 {
    retargeted(
        last.difficulty,
        last.timestamp.saturating_sub(first.timestamp),
        config.target_block_time_secs,
        window_of(config),
    )
}

/// The difficulty of the canonical block at `next_height`, by the index: the initial
/// one within the first window; after that it is readjusted once per window, and in
/// between it is that of the block before.
pub open spec fn canonical_difficulty(config: GenesisConfig, s: StateView, next_height: u64) -> Result<u64, ChainError> {
    let window = window_of(config);
    if next_height <= window {
        Ok(config.initial_difficulty)
    } else {
        let last = (next_height - 1) as u64;
        let first = (next_height - 1 - window) as u64;
        if !indexed(s, last) {
            Err(ChainError::MissingBlock { height: last })
        } else if last % window != 0 {
            Ok(s.blocks[s.heights[last]].header.difficulty)
        } else if !indexed(s, first) {
            Err(ChainError::MissingWindowStart)
        } else {
            Ok(retargeted_after(config, s.blocks[s.heights[last]].header, s.blocks[s.heights[first]].header))
        }
    }
}

/// Whether there is a canonical block at `height`.
pub open spec fn indexed(s: StateView, height: u64) -> bool {
    s.heights.contains_key(height) && s.blocks.contains_key(s.heights[height])
}

/// Whether the `n` next ancestors of `h` are stored.
pub open spec fn ancestors_known(blocks: Map<Hash256, BlockView>, h: Hash256, n: nat) -> bool
    decreases n,
{
    n == 0 || (blocks.contains_key(parent_of(blocks, h)) && ancestors_known(
        blocks,
        parent_of(blocks, h),
        (n - 1) as nat,
    ))
}

/// The difficulty of a block right after `parent`, by `parent`'s own branch: the same
/// rule as on the canonical chain.
pub open spec fn branch_difficulty(config: GenesisConfig, blocks: Map<Hash256, BlockView>, parent: Hash256) -> Result<
    u64,
    ChainError,
> {
    let window = window_of(config);
    if height_of(blocks, parent) + 1 <= window {
        Ok(config.initial_difficulty)
    } else if height_of(blocks, parent) % window != 0 {
        Ok(blocks[parent].header.difficulty)
    } else if !ancestors_known(blocks, parent, window as nat) {
        Err(ChainError::ShortBranch)
    } else {
        Ok(retargeted_after(config, blocks[parent].header, blocks[ancestor(blocks, parent, window as nat)].header))
    }
}

/// In one tree every block has as many ancestors as it is high.
pub proof fn lemma_ancestors_known(blocks: Map<Hash256, BlockView>, root: Hash256, h: Hash256, n: nat)
    requires
        linked(blocks, root),
        blocks.contains_key(h),
        n <= height_of(blocks, h),
    ensures
        ancestors_known(blocks, h, n),
    decreases n,
{
    assert(linked_at(blocks, root, h));
    if n > 0 {
        lemma_ancestors_known(blocks, root, parent_of(blocks, h), (n - 1) as nat);
    }
}

/// How the difficulty goes on along a branch of one tree, after a block at `height`: within
/// the first window it is the initial one; at the end of each window it is readjusted by
/// the time since the block one window back on the same branch; in between it stays.
pub proof fn how_difficulty_goes_on(
    config: GenesisConfig,
    blocks: Map<Hash256, BlockView>,
    root: Hash256,
    parent: Hash256,
    window: int,
)
    requires
        linked(blocks, root),
        blocks.contains_key(parent),
        window == if config.retarget_window == 0 {
            1
        } else {
            config.retarget_window as int
        },
    ensures
        ({
            let last = blocks[parent].header;
            let first = blocks[at_height(blocks, parent, last.height - window)].header;
            let time = if last.timestamp < first.timestamp {
                0
            } else {
                last.timestamp - first.timestamp
            };
            let next = branch_difficulty(config, blocks, parent);
            &&& last.height < window ==> next == Ok::<u64, ChainError>(config.initial_difficulty)
            &&& last.height >= window && last.height as int % window != 0 ==> next == Ok::<u64, ChainError>(
                last.difficulty,
            )
            &&& last.height >= window && last.height as int % window == 0 ==> next == Ok::<u64, ChainError>(
                retargeted(last.difficulty, time as u64, config.target_block_time_secs, window as u64),
            )
        }),
{
    let height = height_of(blocks, parent);
    if height >= window {
        lemma_ancestors_known(blocks, root, parent, window as nat);
        assert(at_height(blocks, parent, height - window) == ancestor(blocks, parent, window as nat));
    }
}

// ---- judging a block ----

/// The hash of the canonical chain's last block.
pub open spec fn tip_of(s: StateView) -> Hash256 {
    (s.tip->0).1
}

/// Whether every transaction has a valid signature.
pub open spec fn all_signed(transactions: Seq<Transaction>) -> bool {
    forall|i: int| 0 <= i < transactions.len() ==> signature_valid(#[trigger] transactions[i])
}

/// The verdict on a block, given its hash, the root of its transactions and whether
/// all of them are signed.
pub open spec fn verdict_given(
    config: GenesisConfig,
    s: StateView,
    header: BlockHeader,
    hash: Hash256,
    tx_root: Hash256,
    signed: bool,
) -> Verdict {
    let parent = header.prev_hash;
    if s.blocks.contains_key(hash) {
        Verdict::Known
    } else if header.tx_root != tx_root {
        Verdict::Refused(ChainError::InvalidTxRoot)
    } else if be_value(hash@) > target_value(header.difficulty) {
        Verdict::Refused(ChainError::InsufficientWork)
    } else if !signed {
        Verdict::Refused(ChainError::InvalidSignature)
    } else if !s.blocks.contains_key(parent) {
        Verdict::Orphan(parent)
    } else if height_of(s.blocks, parent) + 1 != header.height {
        Verdict::Refused(
            ChainError::HeightMismatch { height: header.height, parent_height: height_of(s.blocks, parent) },
        )
    } else {
        match branch_difficulty(config, s.blocks, parent) {
            Err(e) => Verdict::Refused(e),
            Ok(expected) => if header.difficulty != expected {
                Verdict::Refused(ChainError::WrongDifficulty { stated: header.difficulty, expected })
            } else if !s.work.contains_key(parent) {
                Verdict::Refused(ChainError::MissingParentWork { parent })
            } else if s.work[parent] + header.difficulty > u128::MAX {
                Verdict::Refused(ChainError::WorkOutOfRange)
            } else {
                Verdict::Valid
            },
        }
    }
}

/// The verdict on a block, given the dataset of its epoch.
pub open spec fn verdict(config: GenesisConfig, s: StateView, dataset: Option<Seq<u8>>, block: BlockView) -> Verdict {
    if block.header.height == 0 {
        Verdict::Refused(ChainError::SecondGenesis)
    } else {
        match dataset {
            None => Verdict::Refused(ChainError::MissingEpochBoundary { height: boundary_of(block.header.height) }),
            Some(dataset) => verdict_given(
                config,
                s,
                block.header,
                header_hash(block.header, dataset),
                root_of(transaction_hashes(block.transactions)),
                all_signed(block.transactions),
            ),
        }
    }
}

/// The state with a block stored, its work on record: that of its parent and its own.
pub open spec fn with_block(s: StateView, hash: Hash256, block: BlockView) -> StateView {
    StateView {
        blocks: s.blocks.insert(hash, block),
        work: s.work.insert(hash, (s.work[block.header.prev_hash] + block.header.difficulty) as u128),
        ..s
    }
}

/// Whether a stored block has more work on record than the tip.
pub open spec fn outweighs_tip(s: StateView, hash: Hash256) -> Result<bool, ChainError> {
    match s.tip {
        None => Err(ChainError::NotInitialized),
        Some((_, tip)) => if !s.work.contains_key(tip) {
            Err(ChainError::MissingTipWork)
        } else {
            Ok(s.work[hash] > s.work[tip])
        },
    }
}

/// The index without the heights of a list of blocks.
pub open spec fn index_without(
    blocks: Map<Hash256, BlockView>,
    heights: Map<u64, Hash256>,
    path: Seq<Hash256>,
) -> Map<u64, Hash256>
    decreases path.len(),
{
    if path.len() == 0 {
        heights
    } else {
        index_without(blocks, heights, path.drop_last()).remove(height_of(blocks, path.last()))
    }
}

/// The index with each block of a list under its height.
pub open spec fn index_with(
    blocks: Map<Hash256, BlockView>,
    heights: Map<u64, Hash256>,
    path: Seq<Hash256>,
) -> Map<u64, Hash256>
    decreases path.len(),
{
    if path.len() == 0 {
        heights
    } else {
        index_with(blocks, heights, path.drop_last()).insert(height_of(blocks, path.last()), path.last())
    }
}

/// The index after leaving the branch of `old` for that of `new`.
pub open spec fn moved_index(s: StateView, old: Hash256, new: Hash256) -> Map<u64, Hash256> {
    index_with(
        s.blocks,
        index_without(s.blocks, s.heights, undo_path(s.blocks, old, new)),
        apply_path(s.blocks, old, new),
    )
}

/// The accounts after leaving the branch of `old` for that of `new`.
pub open spec fn moved_accounts(config: GenesisConfig, s: StateView, old: Hash256, new: Hash256) -> Result<
    Map<Address, Account>,
    (Hash256, TxFault),
> {
    applied_along(
        config,
        s.blocks,
        undone_along(config, s.blocks, s.accounts, undo_path(s.blocks, old, new)),
        apply_path(s.blocks, old, new),
    )
}

/// The state after the canonical chain moves from `old` to `new`, or why it cannot.
pub open spec fn reorganised(config: GenesisConfig, s: StateView, old: Hash256, new: Hash256) -> Result<
    StateView,
    ChainError,
> {
    match fork_steps(s.blocks, old, new) {
        Err(e) => Err(e),
        Ok(_) => match moved_accounts(config, s, old, new) {
            Ok(accounts) => Ok(
                StateView {
                    accounts,
                    heights: moved_index(s, old, new),
                    tip: Some((height_of(s.blocks, new), new)),
                    ..s
                },
            ),
            Err((block, fault)) => Err(
                ChainError::InvalidTransaction { block, height: height_of(s.blocks, block), fault },
            ),
        },
    }
}

/// The transactions that are handed back when the chain moves from `old` to `new`.
pub open spec fn handed_back(blocks: Map<Hash256, BlockView>, old: Hash256, new: Hash256) -> Seq<Transaction> {
    left_over(
        transactions_along(blocks, undo_path(blocks, old, new)),
        transactions_along(blocks, apply_path(blocks, old, new)),
    )
}

// ---- what storing and moving keep ----

pub proof fn lemma_store_keeps(s: StateView, hash: Hash256, block: BlockView)
    requires
        consistent(s),
        !s.blocks.contains_key(hash),
        s.blocks.contains_key(block.header.prev_hash),
        height_of(s.blocks, block.header.prev_hash) + 1 == block.header.height,
    ensures
        consistent(with_block(s, hash, block)),
        s.work.contains_key(block.header.prev_hash),
        s.work[block.header.prev_hash] + block.header.difficulty <= u128::MAX,
        outweighs_tip(with_block(s, hash, block), hash) == Ok::<bool, ChainError>(
            chain_work(s.blocks, block.header.prev_hash) + block.header.difficulty > chain_work(s.blocks, tip_of(s)),
        ),
        chain_work(s.blocks.insert(hash, block), hash) == chain_work(s.blocks, block.header.prev_hash)
            + block.header.difficulty,
        forall|h: Hash256|
            s.blocks.contains_key(h) ==> #[trigger] chain_work(s.blocks.insert(hash, block), h) == chain_work(
                s.blocks,
                h,
            ),
{
    let after = with_block(s, hash, block);
    let root = s.heights[0];
    let parent = block.header.prev_hash;
    let tip = tip_of(s);
    assert(weighed_at(s.blocks, s.work, parent) && weighed_at(s.blocks, s.work, tip));
    assert forall|h: Hash256| s.blocks.contains_key(h) implies #[trigger] chain_work(after.blocks, h) == chain_work(
        s.blocks,
        h,
    ) by {
        lemma_ancestor_stays(s.blocks, root, hash, block, h, height_of(s.blocks, h) as nat);
    }
    assert(after.blocks[parent] == s.blocks[parent]);
    assert(chain_work(after.blocks, hash) == block.header.difficulty + work_back(
        after.blocks,
        parent,
        height_of(s.blocks, parent) as nat,
    ));
    lemma_ancestor_stays(s.blocks, root, hash, block, parent, height_of(s.blocks, parent) as nat);
    lemma_work_bound(s.blocks, parent, height_of(s.blocks, parent) as nat);
    assert((height_of(s.blocks, parent) + 1) * u64::MAX + block.header.difficulty <= u128::MAX) by (nonlinear_arith)
        requires
            height_of(s.blocks, parent) <= u64::MAX - 1,
            block.header.difficulty <= u64::MAX,
    ;
    assert forall|h: Hash256| after.blocks.contains_key(h) implies #[trigger] linked_at(after.blocks, root, h) by {
        if h != hash {
            assert(linked_at(s.blocks, root, h));
        }
    }
    assert forall|h: Hash256| after.blocks.contains_key(h) implies #[trigger] weighed_at(after.blocks, after.work, h) by {
        if h != hash {
            assert(weighed_at(s.blocks, s.work, h));
        }
    }
    assert forall|at: u64| #[trigger] index_of(s.blocks, tip).contains_key(at) implies index_of(s.blocks, tip)[at]
        == index_of(after.blocks, tip)[at] by {
        lemma_ancestor_stays(s.blocks, root, hash, block, tip, (height_of(s.blocks, tip) - at) as nat);
    }
    assert(index_of(s.blocks, tip) =~= index_of(after.blocks, tip));
}

proof fn lemma_index_without(blocks: Map<Hash256, BlockView>, root: Hash256, h: Hash256, n: nat)
    requires
        linked(blocks, root),
        blocks.contains_key(h),
        n <= height_of(blocks, h),
    ensures
        ({
            let left = index_without(blocks, index_of(blocks, h), path_back(blocks, h, n));
            &&& forall|at: u64| #[trigger] left.contains_key(at) <==> at + n <= height_of(blocks, h)
            &&& forall|at: u64| #[trigger] left.contains_key(at) ==> left[at] == at_height(blocks, h, at as int)
        }),
    decreases n,
{
    let path = path_back(blocks, h, n);
    if n > 0 {
        let before = (n - 1) as nat;
        assert(path.drop_last() =~= path_back(blocks, h, before));
        lemma_index_without(blocks, root, h, before);
        lemma_ancestor_known(blocks, root, h, before);
        let index = index_of(blocks, h);
        let left = index_without(blocks, index, path);
        let earlier = index_without(blocks, index, path_back(blocks, h, before));
        assert(left == earlier.remove(height_of(blocks, path.last())));
        assert forall|at: u64| #[trigger] left.contains_key(at) <==> at + n <= height_of(blocks, h) by {
            assert(earlier.contains_key(at) <==> at + before <= height_of(blocks, h));
        }
        assert forall|at: u64| #[trigger] left.contains_key(at) implies left[at] == at_height(blocks, h, at as int) by {
            assert(earlier.contains_key(at));
        }
    }
}

proof fn lemma_index_with(
    blocks: Map<Hash256, BlockView>,
    root: Hash256,
    heights: Map<u64, Hash256>,
    h: Hash256,
    n: nat,
    i: nat,
)
    requires
        linked(blocks, root),
        blocks.contains_key(h),
        i <= n <= height_of(blocks, h),
        forall|at: u64| #[trigger] heights.contains_key(at) <==> at + n <= height_of(blocks, h),
        forall|at: u64| #[trigger] heights.contains_key(at) ==> heights[at] == at_height(blocks, h, at as int),
    ensures
        ({
            let grown = index_with(blocks, heights, path_back(blocks, h, n).reverse().take(i as int));
            &&& forall|at: u64| #[trigger] grown.contains_key(at) <==> at + n <= height_of(blocks, h) + i
            &&& forall|at: u64| #[trigger] grown.contains_key(at) ==> grown[at] == at_height(blocks, h, at as int)
        }),
    decreases i,
{
    let path = path_back(blocks, h, n).reverse();
    if i > 0 {
        let before = (i - 1) as nat;
        assert(path.take(i as int).drop_last() =~= path.take(before as int));
        lemma_index_with(blocks, root, heights, h, n, before);
        let back = (n - i) as nat;
        let added = path.take(i as int).last();
        assert(added == ancestor(blocks, h, back));
        lemma_ancestor_known(blocks, root, h, back);
        let grown = index_with(blocks, heights, path.take(i as int));
        let earlier = index_with(blocks, heights, path.take(before as int));
        assert(grown == earlier.insert(height_of(blocks, added), added));
        assert forall|at: u64| #[trigger] grown.contains_key(at) <==> at + n <= height_of(blocks, h) + i by {
            assert(earlier.contains_key(at) <==> at + n <= height_of(blocks, h) + before);
        }
        assert forall|at: u64| #[trigger] grown.contains_key(at) implies grown[at] == at_height(blocks, h, at as int) by {
            assert(at != height_of(blocks, added) ==> earlier.contains_key(at));
        }
    } else {
        assert(path.take(0) =~= Seq::<Hash256>::empty());
    }
}

/// Where the index holds the branch of `old`, it holds that of `new` after a move.
proof fn lemma_moved_index(s: StateView, new: Hash256)
    requires
        consistent(s),
        s.blocks.contains_key(new),
    ensures
        moved_index(s, tip_of(s), new) == index_of(s.blocks, new),
{
    let root = s.heights[0];
    let old = tip_of(s);
    let blocks = s.blocks;
    branches_meet_at_the_fork(blocks, root, old, new);
    let fork = fork_height(blocks, old, new);
    let n = (height_of(blocks, new) - fork) as nat;
    lemma_index_without(blocks, root, old, (height_of(blocks, old) - fork) as nat);
    let left = index_without(blocks, s.heights, undo_path(blocks, old, new));
    assert forall|at: u64| #[trigger] left.contains_key(at) implies left[at] == at_height(blocks, new, at as int) by {
        lemma_shared_below(blocks, root, old, new, fork, at as int);
    }
    lemma_index_with(blocks, root, left, new, n, n);
    let apply = apply_path(blocks, old, new);
    assert(apply.take(n as int) =~= apply);
    assert(moved_index(s, old, new) =~= index_of(blocks, new));
}

pub proof fn lemma_move_keeps(config: GenesisConfig, s: StateView, new: Hash256)
    requires
        consistent(s),
        s.blocks.contains_key(new),
        reorganised(config, s, tip_of(s), new) is Ok,
    ensures
        consistent(reorganised(config, s, tip_of(s), new)->Ok_0),
        (reorganised(config, s, tip_of(s), new)->Ok_0).heights == index_of(s.blocks, new),
{
    let root = s.heights[0];
    let after = reorganised(config, s, tip_of(s), new)->Ok_0;
    let n = height_of(s.blocks, new) as nat;
    lemma_moved_index(s, new);
    lemma_ancestor_known(s.blocks, root, new, n);
    assert(linked_at(s.blocks, root, ancestor(s.blocks, new, n)));
    assert(after.heights[0] == root);
}

// ---- writing a move to the state ----

/// Writes changed accounts to the state.
fn write_accounts(state: &mut ChainState, changes: &Table<Address, Account>)
    requires
        old(state).wf(),
    ensures
        final(state).wf(),
        final(state).saved() == old(state).saved(),
        final(state)@ == (StateView { accounts: overlaid(old(state)@.accounts, changes@), ..old(state)@ }),
{
    let ghost before = state@;
    let ghost keys = changes.keys();
    let n: usize = changes.len();
    let mut i: usize = 0;
    proof {
        state.every_address_has_an_account();
    }
    while i < n
        invariant
            i <= n == keys.len(),
            keys == changes.keys(),
            state.wf(),
            state.saved() == old(state).saved(),
            complete(before.accounts),
            state@ == (StateView { accounts: state@.accounts, ..before }),
            forall|a: Address| state@.accounts.contains_key(a),
            forall|a: Address|
                (exists|j: int| 0 <= j < i && keys[j] == a) ==> #[trigger] state@.accounts[a] == changes@[a],
            forall|a: Address|
                !(exists|j: int| 0 <= j < i && keys[j] == a) ==> #[trigger] state@.accounts[a] == before.accounts[a],
        decreases n - i,
    {
        let (a, account) = changes.at(i);
        let ghost earlier = state@.accounts;
        state.set_account(a, account);
        proof {
            assert forall|x: Address| (exists|j: int| 0 <= j < i + 1 && keys[j] == x) implies #[trigger] state@.accounts[x]
                == changes@[x] by {
                if x != *a {
                    let j = choose|j: int| 0 <= j < i + 1 && keys[j] == x;
                    assert(0 <= j < i && keys[j] == x);
                    assert(earlier[x] == changes@[x]);
                }
            }
            assert forall|x: Address| !(exists|j: int| 0 <= j < i + 1 && keys[j] == x) implies #[trigger] state@.accounts[x]
                == before.accounts[x] by {
                assert(keys[i as int] == *a);
                assert(x != *a);
                assert(earlier[x] == before.accounts[x]);
            }
        }
        i += 1;
    }
    proof {
        let wanted = overlaid(before.accounts, changes@);
        assert forall|a: Address| #[trigger] state@.accounts[a] == wanted[a] by {
            assert(changes@.contains_key(a) <==> keys.contains(a));
        }
        assert(state@.accounts =~= wanted);
    }
}

/// Takes a list of blocks out of the index and puts another in.
fn write_index(state: &mut ChainState, undo: &Vec<Hash256>, apply: &Vec<Hash256>)
    requires
        old(state).wf(),
        all_known(old(state)@.blocks, undo@),
        all_known(old(state)@.blocks, apply@),
    ensures
        final(state).wf(),
        final(state).saved() == old(state).saved(),
        final(state)@ == (StateView {
            heights: index_with(
                old(state)@.blocks,
                index_without(old(state)@.blocks, old(state)@.heights, undo@),
                apply@,
            ),
            ..old(state)@
        }),
{
    let ghost before = state@;
    let ghost blocks = state@.blocks;
    let mut i: usize = 0;
    while i < undo.len()
        invariant
            i <= undo@.len(),
            state.wf(),
            state.saved() == old(state).saved(),
            blocks == before.blocks,
            all_known(blocks, undo@),
            state@ == (StateView {
                heights: index_without(blocks, before.heights, undo@.take(i as int)),
                ..before
            }),
        decreases undo@.len() - i,
    {
        assert(undo@.take(i + 1).drop_last() =~= undo@.take(i as int));
        let (height, _): (u64, Hash256) = step(state, &undo[i]);
        state.remove_canonical_height(height);
        i += 1;
    }
    assert(undo@.take(i as int) =~= undo@);
    let ghost left = state@.heights;
    let mut i: usize = 0;
    while i < apply.len()
        invariant
            i <= apply@.len(),
            state.wf(),
            state.saved() == old(state).saved(),
            blocks == before.blocks,
            all_known(blocks, apply@),
            state@ == (StateView { heights: index_with(blocks, left, apply@.take(i as int)), ..before }),
        decreases apply@.len() - i,
    {
        assert(apply@.take(i + 1).drop_last() =~= apply@.take(i as int));
        let (height, _): (u64, Hash256) = step(state, &apply[i]);
        state.set_canonical_height(height, apply[i]);
        i += 1;
    }
    assert(apply@.take(i as int) =~= apply@);
}

/// Whether every transaction of a list has a valid signature.
fn all_signatures_valid(transactions: &Vec<Transaction>) -> (r: bool)
    ensures
        r == all_signed(transactions@),
{
    let mut i: usize = 0;
    while i < transactions.len()
        invariant
            i <= transactions@.len(),
            forall|j: int| 0 <= j < i ==> signature_valid(#[trigger] transactions@[j]),
        decreases transactions@.len() - i,
    {
        if !transactions[i].is_signature_valid() {
            assert(!signature_valid(transactions@[i as int]));
            return false;
        }
        i += 1;
    }
    true
}

// ---- the chain ----

pub struct Chain {
    pub state: ChainState,
    pub genesis: GenesisConfig,
    /// The last dataset that was needed, with its epoch: it changes once per epoch
    /// and takes long to grow.
    pub dataset_cache: Option<(u64, Arc<Dataset>)>,
}

/// The state that a chain is opened with, from what was stored.
pub open spec fn opened(config: GenesisConfig, s: StateView) -> StateView {
    match s.tip {
        None => founded(config, s),
        Some(_) => s,
    }
}

impl Chain {
    /// The cached dataset's epoch and bytes.
    pub open spec fn cached(&self) -> Option<(u64, Seq<u8>)> {
        match self.dataset_cache {
            Some((epoch, dataset)) => Some((epoch, (*dataset)@)),
            None => None,
        }
    }

    /// The state can be restored from its journal, and the cached dataset is of the
    /// epoch that it is kept under.
    pub open spec fn wf(&self) -> bool {
        &&& self.state.wf()
        &&& match self.dataset_cache {
            Some((epoch, dataset)) => (*dataset).wf() && (*dataset).epoch_index() == epoch,
            None => true,
        }
    }

    /// Opens the chain over what was stored. A store without a tip is given the
    /// genesis block first; one with a tip is taken as it is.
    pub fn open(stored: Vec<StoreOp>, genesis: GenesisConfig) -> (r: Result<Chain, ChainError>)
        ensures
            ({
                let s = replayed(empty_state(), op_views(stored@));
                match r {
                    Ok(chain) => {
                        &&& s.tip is None ==> premine_valid(genesis.premine@)
                        &&& chain.wf()
                        &&& chain.genesis == genesis
                        &&& chain.cached() is None
                        &&& chain.state@ == opened(genesis, s)
                        &&& chain.state.saved() == s
                    },
                    Err(ChainError::InvalidPremine { entry }) => {
                        &&& s.tip is None
                        &&& entry < genesis.premine@.len()
                        &&& !is_address(genesis.premine@[entry as int].0@)
                        &&& forall|i: int| 0 <= i < entry ==> is_address((#[trigger] genesis.premine@[i]).0@)
                    },
                    Err(_) => false,
                }
            }),
    {
        let mut state = ChainState::open(stored);
        if state.tip().is_none() {
            match init_genesis(&mut state, &genesis) {
                Ok(()) => {},
                Err(entry) => {
                    return Err(ChainError::InvalidPremine { entry });
                },
            }
        }
        Ok(Chain { state, genesis, dataset_cache: None })
    }

    /// The reward of the block at `height`.
    pub fn block_reward(&self, height: u64) -> (r: u64)
        ensures
            r == reward_at(self.genesis, height),
    {
        self.genesis.block_reward(height)
    }

    /// The dataset of the epoch that holds `height`, from the cache where it is
    /// there. The epoch's boundary block is looked up on the canonical chain, also for
    /// a block of a side branch: branches that part before an epoch boundary are not
    /// told apart.
    pub fn dataset_for_height(&mut self, height: u64) -> (r: Result<Arc<Dataset>, ChainError>)
        requires
            old(self).wf(),
        ensures
            final(self).wf(),
            final(self).state == old(self).state,
            final(self).genesis == old(self).genesis,
            final(self).cached() == cached_after(old(self).state@, old(self).cached(), height),
            is_fresh(old(self).state@, old(self).cached()) ==> is_fresh(final(self).state@, final(self).cached()),
            match r {
                Ok(dataset) => {
                    &&& (*dataset).wf()
                    &&& (*dataset).epoch_index() == epoch_number(height)
                    &&& dataset_at(old(self).state@, old(self).cached(), height) == Some((*dataset)@)
                },
                Err(e) => {
                    &&& dataset_at(old(self).state@, old(self).cached(), height) is None
                    &&& e == (ChainError::MissingEpochBoundary { height: boundary_of(height) })
                },
            },
    {
        let epoch: u64 = epoch_of(height);
        match &self.dataset_cache {
            Some((cached_epoch, dataset)) => {
                if *cached_epoch == epoch {
                    return Ok(dataset.clone());
                }
            },
            None => {},
        }
        let seed = if epoch == 0 {
            epoch_seed(None)
        } else {
            let boundary: u64 = epoch * EPOCH_LENGTH;
            match self.state.get_hash_by_height(boundary) {
                Some(hash) => epoch_seed(Some(hash)),
                None => {
                    return Err(ChainError::MissingEpochBoundary { height: boundary });
                },
            }
        };
        let dataset = Arc::new(Dataset::generate(epoch, seed));
        self.dataset_cache = Some((epoch, dataset.clone()));
        Ok(dataset)
    }

    /// The difficulty of the canonical block at `next_height`. It is readjusted once
    /// per retarget window.
    pub fn compute_next_difficulty(&self, next_height: u64) -> (r: Result<u64, ChainError>)
        ensures
            r == canonical_difficulty(self.genesis, self.state@, next_height),
    {
        let window: u64 = if self.genesis.retarget_window == 0 {
            1
        } else {
            self.genesis.retarget_window
        };
        if next_height <= window {
            return Ok(self.genesis.initial_difficulty);
        }
        let last: u64 = next_height - 1;
        let first: u64 = next_height - 1 - window;
        let tip_block = match self.state.get_block_by_height(last) {
            Some(block) => block,
            None => {
                return Err(ChainError::MissingBlock { height: last });
            },
        };
        if last % window != 0 {
            return Ok(tip_block.header.difficulty);
        }
        let window_start = match self.state.get_block_by_height(first) {
            Some(block) => block,
            None => {
                return Err(ChainError::MissingWindowStart);
            },
        };
        let timespan: u64 = tip_block.header.timestamp.saturating_sub(window_start.header.timestamp);
        Ok(next_difficulty(tip_block.header.difficulty, timespan, self.genesis.target_block_time_secs, window))
    }

    /// Walks `depth` blocks back from `from` along its own parents, so that it works
    /// on a side branch too.
    fn block_ancestor<'a>(&'a self, from: &'a Block, Ghost(hash): Ghost<Hash256>, depth: u64) -> (r: Option<&'a Block>)
        requires
            from@ == self.state@.blocks[hash],
        ensures
            match r {
                Some(block) => {
                    &&& ancestors_known(self.state@.blocks, hash, depth as nat)
                    &&& block@ == self.state@.blocks[ancestor(self.state@.blocks, hash, depth as nat)]
                },
                None => !ancestors_known(self.state@.blocks, hash, depth as nat),
            },
    {
        let ghost blocks = self.state@.blocks;
        let mut current = from;
        let mut i: u64 = 0;
        while i < depth
            invariant
                i <= depth,
                blocks == self.state@.blocks,
                current@ == blocks[ancestor(blocks, hash, i as nat)],
                ancestors_known(blocks, hash, depth as nat) == ancestors_known(
                    blocks,
                    ancestor(blocks, hash, i as nat),
                    (depth - i) as nat,
                ),
            decreases depth - i,
        {
            proof {
                lemma_ancestor_parent(blocks, hash, i as nat);
            }
            match self.state.block(&current.header.prev_hash) {
                Some(block) => {
                    current = block;
                },
                None => {
                    return None;
                },
            }
            i += 1;
        }
        Some(current)
    }

    /// The difficulty of a block right after `parent`, by `parent`'s own branch,
    /// whether that is the canonical one or not.
    fn expected_difficulty_after(&self, parent: &Block, Ghost(hash): Ghost<Hash256>) -> (r: Result<u64, ChainError>)
        requires
            parent@ == self.state@.blocks[hash],
        ensures
            r == branch_difficulty(self.genesis, self.state@.blocks, hash),
    {
        let window: u64 = if self.genesis.retarget_window == 0 {
            1
        } else {
            self.genesis.retarget_window
        };
        if parent.header.height < window {
            return Ok(self.genesis.initial_difficulty);
        }
        if parent.header.height % window != 0 {
            return Ok(parent.header.difficulty);
        }
        match self.block_ancestor(parent, Ghost(hash), window) {
            Some(first) => {
                let timespan: u64 = parent.header.timestamp.saturating_sub(first.header.timestamp);
                Ok(next_difficulty(parent.header.difficulty, timespan, self.genesis.target_block_time_secs, window))
            },
            None => Err(ChainError::ShortBranch),
        }
    }
}

/// The height and hash of the tip of a consistent state.
pub proof fn lemma_tip_known(s: StateView)
    requires
        consistent(s),
    ensures
        s.tip == Some((height_of(s.blocks, tip_of(s)), tip_of(s))),
        s.blocks.contains_key(tip_of(s)),
        weighed_at(s.blocks, s.work, tip_of(s)),
{
}

impl Chain {
    /// Judges a block, given its hash, the root of its transactions and whether all
    /// of them are signed.
    pub fn judge(&self, header: &BlockHeader, hash: &Hash256, tx_root: &Hash256, signed: bool) -> (r: Verdict)
        ensures
            r == verdict_given(self.genesis, self.state@, *header, *hash, *tx_root, signed),
    {
        if self.state.has_block(hash) {
            return Verdict::Known;
        }
        if header.tx_root != *tx_root {
            return Verdict::Refused(ChainError::InvalidTxRoot);
        }
        let target = target_for_difficulty(header.difficulty);
        if !meets_target(hash, &target) {
            return Verdict::Refused(ChainError::InsufficientWork);
        }
        if !signed {
            return Verdict::Refused(ChainError::InvalidSignature);
        }
        let parent = match self.state.block(&header.prev_hash) {
            Some(parent) => parent,
            None => {
                return Verdict::Orphan(header.prev_hash);
            },
        };
        let parent_height: u64 = parent.header.height;
        if header.height == 0 || header.height - 1 != parent_height {
            return Verdict::Refused(ChainError::HeightMismatch { height: header.height, parent_height });
        }
        match self.expected_difficulty_after(parent, Ghost(header.prev_hash)) {
            Ok(expected) => {
                if header.difficulty != expected {
                    return Verdict::Refused(ChainError::WrongDifficulty { stated: header.difficulty, expected });
                }
            },
            Err(e) => {
                return Verdict::Refused(e);
            },
        }
        match self.state.get_chainwork(&header.prev_hash) {
            Some(parent_work) => {
                if parent_work > u128::MAX - block_work(header.difficulty) {
                    return Verdict::Refused(ChainError::WorkOutOfRange);
                }
            },
            None => {
                return Verdict::Refused(ChainError::MissingParentWork { parent: header.prev_hash });
            },
        }
        Verdict::Valid
    }

    /// Stores a valid block with its work.
    fn store(&mut self, hash: Hash256, block: &Block)
        requires
            old(self).wf(),
            old(self).state@.work.contains_key(block@.header.prev_hash),
            old(self).state@.work[block@.header.prev_hash] + block@.header.difficulty <= u128::MAX,
        ensures
            final(self).wf(),
            final(self).genesis == old(self).genesis,
            final(self).dataset_cache == old(self).dataset_cache,
            final(self).state.saved() == old(self).state.saved(),
            final(self).state@ == with_block(old(self).state@, hash, block@),
    {
        let parent_work: u128 = self.state.get_chainwork(&block.header.prev_hash).unwrap();
        let work: u128 = parent_work + block_work(block.header.difficulty);
        self.state.store_block(hash, block);
        self.state.set_chainwork(hash, work);
    }

    /// Whether a stored block has more work than the tip.
    fn outweighs(&self, hash: &Hash256) -> (r: Result<bool, ChainError>)
        requires
            self.state@.work.contains_key(*hash),
        ensures
            r == outweighs_tip(self.state@, *hash),
    {
        let tip = match self.state.tip() {
            Some(tip) => tip,
            None => {
                return Err(ChainError::NotInitialized);
            },
        };
        match (self.state.get_chainwork(hash), self.state.get_chainwork(&tip.1)) {
            (Some(work), Some(tip_work)) => Ok(work > tip_work),
            _ => Err(ChainError::MissingTipWork),
        }
    }

    /// Moves the canonical chain from `old_tip` to `new_tip`. Everything is tried out
    /// on the side first, and the state is written only if every transaction of the
    /// new branch can be applied.
    fn reconsider_tip(&mut self, old_tip: Hash256, new_tip: Hash256) -> (r: Result<Vec<Transaction>, ChainError>)
        requires
            old(self).wf(),
        ensures
            final(self).wf(),
            final(self).genesis == old(self).genesis,
            final(self).dataset_cache == old(self).dataset_cache,
            final(self).state.saved() == old(self).state.saved(),
            match r {
                Ok(requeue) => {
                    &&& reorganised(old(self).genesis, old(self).state@, old_tip, new_tip) == Ok::<StateView, ChainError>(
                        final(self).state@,
                    )
                    &&& requeue@ == handed_back(old(self).state@.blocks, old_tip, new_tip)
                },
                Err(e) => {
                    &&& reorganised(old(self).genesis, old(self).state@, old_tip, new_tip) == Err::<
                        StateView,
                        ChainError,
                    >(e)
                    &&& final(self).state@ == old(self).state@
                },
            },
    {
        let (undo, apply) = match fork_paths(&self.state, old_tip, new_tip) {
            Ok(paths) => paths,
            Err(e) => {
                return Err(e);
            },
        };
        let mut overlay = Overlay::new(&self.state);
        undo_along(&self.genesis, &self.state, &mut overlay, &undo);
        match apply_along(&self.genesis, &self.state, &mut overlay, &apply) {
            Ok(()) => {},
            Err((block, fault)) => {
                let (height, _): (u64, Hash256) = step(&self.state, &block);
                return Err(ChainError::InvalidTransaction { block, height, fault });
            },
        }
        let changes = overlay.into_changes();
        write_accounts(&mut self.state, &changes);
        write_index(&mut self.state, &undo, &apply);
        let (height, _): (u64, Hash256) = step(&self.state, &new_tip);
        self.state.set_tip(height, new_tip);
        let requeue = transactions_to_requeue(&self.state, &undo, &apply);
        Ok(requeue)
    }

    /// Takes a block in: judges it, stores it, and moves the chain where it is to move.
    fn take_in(&mut self, block: Block) -> (r: Result<SubmitOutcome, ChainError>)
        requires
            old(self).wf(),
        ensures
            final(self).wf(),
            final(self).genesis == old(self).genesis,
            final(self).state.saved() == old(self).state.saved(),
            final(self).cached() == if block@.header.height == 0 {
                old(self).cached()
            } else {
                cached_after(old(self).state@, old(self).cached(), block@.header.height)
            },
            is_fresh(old(self).state@, old(self).cached()) && (final(self).cached() matches Some((epoch, _))
                ==> same_boundary(old(self).state@, final(self).state@, epoch)) ==> is_fresh(
                final(self).state@,
                final(self).cached(),
            ),
            submission(
                old(self).genesis,
                old(self).state@,
                dataset_at(old(self).state@, old(self).cached(), block@.header.height),
                block@,
                r,
                final(self).state@,
            ),
    {
        let ghost s = self.state@;
        let height: u64 = block.header.height;
        if height == 0 {
            return Err(ChainError::SecondGenesis);
        }
        let dataset = match self.dataset_for_height(height) {
            Ok(dataset) => dataset,
            Err(e) => {
                return Err(e);
            },
        };
        let hash = block.header.id(&dataset);
        if self.state.has_block(&hash) {
            return Ok(SubmitOutcome::AlreadyKnown);
        }
        let tx_root = block.compute_tx_root();
        let target = target_for_difficulty(block.header.difficulty);
        // Signatures are only worth checking on a block that took work to make.
        let signed = meets_target(&hash, &target) && all_signatures_valid(&block.transactions);
        match self.judge(&block.header, &hash, &tx_root, signed) {
            Verdict::Refused(e) => Err(e),
            Verdict::Known => Ok(SubmitOutcome::AlreadyKnown),
            Verdict::Orphan(missing_parent) => Ok(SubmitOutcome::Orphan { missing_parent }),
            Verdict::Valid => {
                self.store(hash, &block);
                match self.outweighs(&hash) {
                    Err(e) => Err(e),
                    Ok(false) => Ok(SubmitOutcome::SideBranch { hash, height }),
                    Ok(true) => {
                        let tip = self.state.tip().unwrap();
                        let reorged = tip.1 != block.header.prev_hash;
                        match self.reconsider_tip(tip.1, hash) {
                            Ok(requeue) => Ok(SubmitOutcome::Accepted { hash, height, reorged, requeue }),
                            Err(e) => Err(e),
                        }
                    },
                }
            },
        }
    }

    /// Judges a block and, where it is valid, stores it; where it is also heavier
    /// than the tip, moves the canonical chain onto it. A block need not extend the
    /// tip, only have a parent that is stored. Where the store lacks something that is
    /// needed on the way, that is the error; a block that was stored by then stays.
    pub fn submit_block(&mut self, block: Block) -> (r: Result<SubmitOutcome, ChainError>)
        requires
            old(self).wf(),
        ensures
            final(self).wf(),
            final(self).genesis == old(self).genesis,
            final(self).state.saved() == old(self).state.saved(),
            final(self).cached() == if block@.header.height == 0 {
                old(self).cached()
            } else {
                cached_after(old(self).state@, old(self).cached(), block@.header.height)
            },
            is_fresh(old(self).state@, old(self).cached()) && (final(self).cached() matches Some((epoch, _))
                ==> same_boundary(old(self).state@, final(self).state@, epoch)) ==> is_fresh(
                final(self).state@,
                final(self).cached(),
            ),
            submission(
                old(self).genesis,
                old(self).state@,
                dataset_at(old(self).state@, old(self).cached(), block@.header.height),
                block@,
                r,
                final(self).state@,
            ),
            is_accepted(r) || (r matches Ok(SubmitOutcome::SideBranch { hash, height })) ==> forall|i: int|
                0 <= i < block@.transactions.len() ==> carries_a_signature(#[trigger] block@.transactions[i]),
            consistent(old(self).state@) ==> consistent(final(self).state@),
            ({
                let s = old(self).state@;
                let dataset = dataset_at(s, old(self).cached(), block@.header.height);
                let hash = header_hash(block@.header, dataset->0);
                let work = chain_work(s.blocks, block@.header.prev_hash) + block@.header.difficulty;
                consistent(s) && verdict(old(self).genesis, s, dataset, block@) == Verdict::Valid ==> {
                    &&& final(self).state@.blocks.contains_key(hash)
                    &&& work <= chain_work(s.blocks, tip_of(s)) ==> final(self).state@.tip == s.tip
                    &&& work > chain_work(s.blocks, tip_of(s)) && moved_accounts(
                        old(self).genesis,
                        with_block(s, hash, block@),
                        tip_of(s),
                        hash,
                    ) is Ok ==> is_accepted(r) && final(self).state@.tip == Some((block@.header.height, hash))
                }
            }),
    {
        let ghost s = self.state@;
        let ghost config = self.genesis;
        let ghost dataset = dataset_at(s, self.cached(), block@.header.height);
        let ghost view = block@;
        let r = self.take_in(block);
        proof {
            let after = self.state@;
            which_blocks_are_valid(config, s, dataset, view);
            if consistent(s) {
                submission_keeps_the_state_consistent(config, s, dataset, view, r, after);
                if verdict(config, s, dataset, view) == Verdict::Valid {
                    let hash = header_hash(view.header, dataset->0);
                    lemma_store_keeps(s, hash, view);
                    if chain_work(s.blocks, view.header.prev_hash) + view.header.difficulty > chain_work(
                        s.blocks,
                        tip_of(s),
                    ) && moved_accounts(config, with_block(s, hash, view), tip_of(s), hash) is Ok {
                        a_heavier_block_becomes_the_tip(config, s, dataset, view, r, after);
                    }
                }
            }
        }
        r
    }

    /// A block to mine on top of the tip, stamped with the time: everything in place
    /// but the nonce, which is zero; and the dataset to mine it with.
    pub fn work_template(&mut self, miner: Address, pending_txs: Vec<Transaction>) -> (r: Result<
        (Block, Arc<Dataset>),
        ChainError,
    >)
        requires
            old(self).wf(),
            old(self).state@.tip matches Some((height, _)) ==> height < u64::MAX,
        ensures
            final(self).wf(),
            final(self).state == old(self).state,
            final(self).genesis == old(self).genesis,
            final(self).cached() == if old(self).state@.tip is None {
                old(self).cached()
            } else {
                cached_after(old(self).state@, old(self).cached(), next_height(old(self).state@))
            },
            is_fresh(old(self).state@, old(self).cached()) ==> is_fresh(final(self).state@, final(self).cached()),
            ({
                let s = old(self).state@;
                match no_template(old(self).genesis, s, old(self).cached()) {
                    Some(e) => r matches Err(error) && error == e,
                    None => {
                        &&& r matches Ok((block, dataset))
                        &&& (*dataset).wf()
                        &&& (*dataset).epoch_index() == epoch_number(next_height(s))
                        &&& dataset_at(s, old(self).cached(), next_height(s)) == Some((*dataset)@)
                        &&& block@ == template(old(self).genesis, s, miner, pending_txs@, block@.header.timestamp)
                    },
                }
            }),
    {
        let timestamp: u64 = now_secs();
        self.work_template_at(miner, pending_txs, timestamp)
    }

    /// The same, stamped with a given time.
    pub fn work_template_at(&mut self, miner: Address, pending_txs: Vec<Transaction>, timestamp: u64) -> (r: Result<
        (Block, Arc<Dataset>),
        ChainError,
    >)
        requires
            old(self).wf(),
            old(self).state@.tip matches Some((height, _)) ==> height < u64::MAX,
        ensures
            final(self).wf(),
            final(self).state == old(self).state,
            final(self).genesis == old(self).genesis,
            final(self).cached() == if old(self).state@.tip is None {
                old(self).cached()
            } else {
                cached_after(old(self).state@, old(self).cached(), next_height(old(self).state@))
            },
            is_fresh(old(self).state@, old(self).cached()) ==> is_fresh(final(self).state@, final(self).cached()),
            ({
                let s = old(self).state@;
                match no_template(old(self).genesis, s, old(self).cached()) {
                    Some(e) => r matches Err(error) && error == e,
                    None => {
                        &&& r matches Ok((block, dataset))
                        &&& (*dataset).wf()
                        &&& (*dataset).epoch_index() == epoch_number(next_height(s))
                        &&& dataset_at(s, old(self).cached(), next_height(s)) == Some((*dataset)@)
                        &&& block@ == template(old(self).genesis, s, miner, pending_txs@, timestamp)
                    },
                }
            }),
    {
        let tip = match self.state.tip() {
            Some(tip) => tip,
            None => {
                return Err(ChainError::NotInitialized);
            },
        };
        let next: u64 = tip.0 + 1;
        let dataset = match self.dataset_for_height(next) {
            Ok(dataset) => dataset,
            Err(e) => {
                return Err(e);
            },
        };
        let difficulty: u64 = match self.compute_next_difficulty(next) {
            Ok(difficulty) => difficulty,
            Err(e) => {
                return Err(e);
            },
        };
        let tx_root = merkle_root(&hashes_of(&pending_txs));
        let header = BlockHeader { height: next, prev_hash: tip.1, tx_root, timestamp, difficulty, miner, nonce: 0 };
        let block = Block { header, transactions: pending_txs };
        assert(block@ =~= template(old(self).genesis, old(self).state@, miner, pending_txs@, timestamp));
        Ok((block, dataset))
    }
}

/// The height of the block after the tip.
pub open spec fn next_height(s: StateView) -> u64 {
    ((s.tip->0).0 + 1) as u64
}

/// Why there is no block to mine, if there is none.
pub open spec fn no_template(config: GenesisConfig, s: StateView, cached: Option<(u64, Seq<u8>)>) -> Option<ChainError> {
    if s.tip is None {
        Some(ChainError::NotInitialized)
    } else if dataset_at(s, cached, next_height(s)) is None {
        Some(ChainError::MissingEpochBoundary { height: boundary_of(next_height(s)) })
    } else {
        match canonical_difficulty(config, s, next_height(s)) {
            Err(e) => Some(e),
            Ok(_) => None,
        }
    }
}

/// The block to mine on top of the tip.
pub open spec fn template(
    config: GenesisConfig,
    s: StateView,
    miner: Address,
    transactions: Seq<Transaction>,
    timestamp: u64,
) -> BlockView {
    BlockView {
        header: BlockHeader {
            height: next_height(s),
            prev_hash: tip_of(s),
            tx_root: root_of(transaction_hashes(transactions)),
            timestamp,
            difficulty: canonical_difficulty(config, s, next_height(s))->Ok_0,
            miner,
            nonce: 0,
        },
        transactions,
    }
}

/// Calls `std::time::SystemTime::now` for the seconds since 1970; zero for a clock
/// set before. Nothing is claimed of the time.
#[verifier::external_body]
pub fn now_secs() -> (r: u64) {
    match std::time::SystemTime::now().duration_since(std::time::UNIX_EPOCH) {
        Ok(elapsed) => elapsed.as_secs(),
        Err(_) => 0,
    }
}

/// What submitting a block gives: the outcome and the state afterwards.
pub open spec fn submission(
    config: GenesisConfig,
    s: StateView,
    dataset: Option<Seq<u8>>,
    block: BlockView,
    r: Result<SubmitOutcome, ChainError>,
    after: StateView,
) -> bool {
    let height = block.header.height;
    match verdict(config, s, dataset, block) {
        Verdict::Refused(e) => r == Err::<SubmitOutcome, ChainError>(e) && after == s,
        Verdict::Known => r == Ok::<SubmitOutcome, ChainError>(SubmitOutcome::AlreadyKnown) && after == s,
        Verdict::Orphan(missing_parent) => {
            &&& r == Ok::<SubmitOutcome, ChainError>(SubmitOutcome::Orphan { missing_parent })
            &&& after == s
        },
        Verdict::Valid => {
            let hash = header_hash(block.header, dataset->0);
            let stored = with_block(s, hash, block);
            match outweighs_tip(stored, hash) {
                Err(e) => r == Err::<SubmitOutcome, ChainError>(e) && after == stored,
                Ok(false) => {
                    &&& r == Ok::<SubmitOutcome, ChainError>(SubmitOutcome::SideBranch { hash, height })
                    &&& after == stored
                },
                Ok(true) => match reorganised(config, stored, tip_of(s), hash) {
                    Ok(moved) => {
                        &&& after == moved
                        &&& r matches Ok(SubmitOutcome::Accepted { hash: h, height: at, reorged, requeue })
                        &&& h == hash
                        &&& at == height
                        &&& reorged == (tip_of(s) != block.header.prev_hash)
                        &&& requeue@ == handed_back(stored.blocks, tip_of(s), hash)
                    },
                    Err(e) => r == Err::<SubmitOutcome, ChainError>(e) && after == stored,
                },
            }
        },
    }
}

/// On the canonical chain the difficulty by the index is the one by the branch, at
/// every height up to the one after the tip.
pub proof fn index_and_branch_agree_on_difficulty(config: GenesisConfig, s: StateView, height: u64)
    requires
        consistent(s),
        height <= height_of(s.blocks, tip_of(s)),
        height < u64::MAX,
    ensures
        s.heights.contains_key(height),
        canonical_difficulty(config, s, (height + 1) as u64) == branch_difficulty(config, s.blocks, s.heights[height]),
        canonical_difficulty(config, s, (height + 1) as u64) is Ok,
        height + 1 <= window_of(config) ==> branch_difficulty(config, s.blocks, s.heights[height]) == Ok::<
            u64,
            ChainError,
        >(config.initial_difficulty),
{
    let tip = tip_of(s);
    let top = height_of(s.blocks, tip);
    let window = window_of(config);
    lemma_tip_known(s);
    let back = (top - height) as nat;
    let parent = s.heights[height];
    assert(parent == ancestor(s.blocks, tip, back));
    lemma_ancestor_known(s.blocks, s.heights[0], tip, back);
    if height + 1 > window {
        let first = (height - window) as u64;
        lemma_ancestor_of_ancestor(s.blocks, tip, back, window as nat);
        lemma_ancestor_known(s.blocks, s.heights[0], tip, back + window as nat);
        lemma_ancestors_known(s.blocks, s.heights[0], parent, window as nat);
        assert(s.heights.contains_key(first) && s.heights[first] == ancestor(s.blocks, parent, window as nat));
    }
}

/// A work template states the difficulty which is asked of it once it is mined.
pub proof fn the_template_has_the_expected_difficulty(config: GenesisConfig, s: StateView)
    requires
        consistent(s),
        height_of(s.blocks, tip_of(s)) < u64::MAX,
    ensures
        next_height(s) == height_of(s.blocks, tip_of(s)) + 1,
        canonical_difficulty(config, s, next_height(s)) == branch_difficulty(config, s.blocks, tip_of(s)),
        canonical_difficulty(config, s, next_height(s)) is Ok,
{
    let tip = tip_of(s);
    lemma_tip_known(s);
    index_and_branch_agree_on_difficulty(config, s, height_of(s.blocks, tip));
    assert(at_height(s.blocks, tip, height_of(s.blocks, tip) as int) == tip);
}

/// Gives a store its genesis block and its premine.
fn init_genesis(state: &mut ChainState, genesis: &GenesisConfig) -> (r: Result<(), usize>)
    requires
        old(state).wf(),
    ensures
        final(state).wf(),
        final(state).saved() == old(state).saved(),
        match r {
            Ok(()) => premine_valid(genesis.premine@) && final(state)@ == founded(*genesis, old(state)@),
            Err(entry) => {
                &&& entry < genesis.premine@.len()
                &&& !is_address(genesis.premine@[entry as int].0@)
                &&& forall|i: int| 0 <= i < entry ==> is_address((#[trigger] genesis.premine@[i]).0@)
            },
        },
{
    let premine = match genesis.premine_parsed() {
        Ok(premine) => premine,
        Err(entry) => {
            return Err(entry);
        },
    };
    let ghost before = state@;
    let mut i: usize = 0;
    while i < premine.len()
        invariant
            i <= premine@.len(),
            state.wf(),
            state.saved() == old(state).saved(),
            state@ == (StateView { accounts: all_credited(before.accounts, premine@.take(i as int)), ..before }),
        decreases premine@.len() - i,
    {
        assert(premine@.take(i + 1).drop_last() =~= premine@.take(i as int));
        state.credit(&premine[i].0, premine[i].1);
        i += 1;
    }
    assert(premine@.take(i as int) =~= premine@);
    let header = BlockHeader {
        height: 0,
        prev_hash: Hash256::zero(),
        tx_root: Hash256::zero(),
        timestamp: genesis.timestamp,
        difficulty: genesis.initial_difficulty,
        miner: Address::zero(),
        nonce: 0,
    };
    let block = Block { header, transactions: Vec::new() };
    let hash = genesis_block_hash(genesis);
    state.set_chainwork(hash, block_work(block.header.difficulty));
    state.store_block(hash, &block);
    state.set_canonical_height(0, hash);
    state.set_tip(0, hash);
    assert(block@ =~= genesis_block(*genesis));
    Ok(())
}

/// A store with a tip is taken as it is, and one without is given its genesis block.
pub proof fn how_a_chain_is_opened(config: GenesisConfig, s: StateView)
    ensures
        s.tip is Some ==> opened(config, s) == s,
        s.tip is None ==> opened(config, s) == founded(config, s),
{
}

/// A dataset at hand is used for every height of its epoch.
pub proof fn a_dataset_at_hand_is_used(s: StateView, bytes: Seq<u8>, height: u64)
    ensures
        dataset_at(s, Some(((height / 2048) as u64, bytes)), height) == Some(bytes),
        cached_after(s, Some(((height / 2048) as u64, bytes)), height) == Some(((height / 2048) as u64, bytes)),
{
}

/// Where the canonical chain lacks the block before, there is no next difficulty beyond the
/// first window, and where it lacks the one at the start of the window there is none at a
/// readjustment.
pub proof fn when_there_is_no_next_difficulty(config: GenesisConfig, s: StateView, next: u64, window: int)
    requires
        window == if config.retarget_window == 0 {
            1
        } else {
            config.retarget_window as int
        },
    ensures
        ({
            let r = canonical_difficulty(config, s, next);
            let missing = |height: int| !(s.heights.contains_key(height as u64) && s.blocks.contains_key(
                s.heights[height as u64],
            ));
            &&& next <= window ==> r == Ok::<u64, ChainError>(config.initial_difficulty)
            &&& next > window && missing(next - 1) ==> r == Err::<u64, ChainError>(
                ChainError::MissingBlock { height: (next - 1) as u64 },
            )
            &&& next > window && !missing(next - 1) && (next - 1) % window == 0 && missing(next - 1 - window) ==> r
                == Err::<u64, ChainError>(ChainError::MissingWindowStart)
            &&& next > window && !missing(next - 1) && ((next - 1) % window != 0 || !missing(next - 1 - window)) ==> r is Ok
        }),
{
}

/// A consistent chain always has a next block to mine, as long as the dataset of its epoch
/// can be had and there is a next height.
pub proof fn a_consistent_chain_has_a_template(config: GenesisConfig, s: StateView, cached: Option<(u64, Seq<u8>)>)
    requires
        consistent(s),
        height_of(s.blocks, tip_of(s)) < u64::MAX,
        dataset_at(s, cached, next_height(s)) is Some,
    ensures
        no_template(config, s, cached) is None,
{
    the_template_has_the_expected_difficulty(config, s);
}

/// Work is compared by the record: a block outweighs the tip where its own is strictly more.
/// Without a tip, or without the tip's work on record, it cannot be told.
pub proof fn how_work_is_compared(s: StateView, hash: Hash256)
    ensures
        s.tip is None ==> outweighs_tip(s, hash) == Err::<bool, ChainError>(ChainError::NotInitialized),
        s.tip matches Some((_, tip)) ==> outweighs_tip(s, hash) == if s.work.contains_key(tip) {
            Ok::<bool, ChainError>(s.work[tip] < s.work[hash])
        } else {
            Err(ChainError::MissingTipWork)
        },
{
}

} // verus!
