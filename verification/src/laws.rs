//! What holds of the chain as a whole, whichever blocks are submitted to it.

use crate::block::{root_of, transaction_hashes, BlockView};
use crate::bytes::be_value;
use crate::chain::{
    all_signed, ancestors_known, boundary_of, branch_difficulty, cached_after, canonical_difficulty, dataset_at,
    founded, grown_for, handed_back, index_and_branch_agree_on_difficulty, indexed, is_cached, is_fresh,
    lemma_ancestors_known, lemma_move_keeps, lemma_store_keeps, lemma_tip_known, moved_accounts, opened, outweighs_tip,
    reorganised, submission, template, the_template_has_the_expected_difficulty, tip_of, verdict, window_of, with_block,
    SubmitOutcome, Verdict,
};
use crate::crypto::ed25519_accepts;
use crate::difficulty::target_value;
use crate::error::ChainError;
use crate::fork::{
    ancestor, apply_path, at_height, branches_meet_at_the_fork, chain_work, consistent, fork_height, height_of,
    lemma_ancestor_known, lemma_ancestor_of_ancestor, lemma_ancestor_parent, lemma_ancestor_stays, lemma_fork_height,
    linked, linked_at, parent_of, parts_at, path_back, undo_path, weighed_at,
};
use crate::genesis::{reward_at, GenesisConfig};
use crate::header::{header_hash, BlockHeader};
use crate::ledger::{block_applied, covers, total, TxFault};
use crate::pow::epoch_number;
use crate::primitives::{Address, Hash256};
use crate::reorg::{
    a_branch_creates_its_rewards_and_burns_its_fees, applied_along, applying_continues, covers_along, fits_along,
    is_among, left_over, lemma_minted_reversed, lemma_untouched_along, minted_along, touched_along, transactions_along,
    transactions_along_a_path, undoing_reverses_a_branch, undone_along, what_is_left_over,
    what_is_left_over_keeps_its_order,
};
use crate::state::{
    complete, credited, empty_state, reopening_restores_the_state, replayed, Account, OpView, StateView,
};
use crate::transaction::{signature_valid, signed_bytes, transaction_hash, Transaction};
use vstd::prelude::*;

verus! {

/// Whether an outcome is an acceptance.
pub open spec fn is_accepted(r: Result<SubmitOutcome, ChainError>) -> bool {
    r matches Ok(SubmitOutcome::Accepted { hash, height, reorged, requeue })
}

/// Whatever is submitted, the state stays consistent: one tree of blocks, the work
/// of each on record, and an index that holds exactly the branch of the tip.
pub proof fn submission_keeps_the_state_consistent(
    config: GenesisConfig,
    s: StateView,
    dataset: Option<Seq<u8>>,
    block: BlockView,
    r: Result<SubmitOutcome, ChainError>,
    after: StateView,
)
    requires
        consistent(s),
        submission(config, s, dataset, block, r, after),
    ensures
        consistent(after),
{
    match verdict(config, s, dataset, block) {
        Verdict::Valid => {
            let hash = header_hash(block.header, dataset->0);
            lemma_store_keeps(s, hash, block);
            if reorganised(config, with_block(s, hash, block), tip_of(s), hash) is Ok {
                lemma_move_keeps(config, with_block(s, hash, block), hash);
            }
        },
        _ => {},
    }
}

/// The canonical chain moves only to strictly more work: the tip's cumulative work
/// grows where a block is accepted and stays otherwise. On a tie the branch that was
/// seen first stays.
pub proof fn the_heaviest_branch_wins(
    config: GenesisConfig,
    s: StateView,
    dataset: Option<Seq<u8>>,
    block: BlockView,
    r: Result<SubmitOutcome, ChainError>,
    after: StateView,
)
    requires
        consistent(s),
        submission(config, s, dataset, block, r, after),
    ensures
        is_accepted(r) ==> chain_work(after.blocks, tip_of(after)) > chain_work(s.blocks, tip_of(s)),
        !is_accepted(r) ==> tip_of(after) == tip_of(s) && chain_work(after.blocks, tip_of(after)) == chain_work(
            s.blocks,
            tip_of(s),
        ),
{
    lemma_tip_known(s);
    match verdict(config, s, dataset, block) {
        Verdict::Valid => {
            lemma_store_keeps(s, header_hash(block.header, dataset->0), block);
        },
        _ => {},
    }
}

/// A block that is not accepted moves nothing: not the tip, not the index, not an
/// account. This covers orphans, side branches, known blocks, and a heavier branch
/// that turns out to hold a transaction which cannot be applied.
pub proof fn only_acceptance_moves_the_chain(
    config: GenesisConfig,
    s: StateView,
    dataset: Option<Seq<u8>>,
    block: BlockView,
    r: Result<SubmitOutcome, ChainError>,
    after: StateView,
)
    requires
        submission(config, s, dataset, block, r, after),
        !is_accepted(r),
    ensures
        after.tip == s.tip,
        after.heights == s.heights,
        after.accounts == s.accounts,
        after.mempool == s.mempool,
{
}

/// Submitting adds the submitted block at most: stored blocks and pending
/// transactions stay.
pub proof fn stored_blocks_stay(
    config: GenesisConfig,
    s: StateView,
    dataset: Option<Seq<u8>>,
    block: BlockView,
    r: Result<SubmitOutcome, ChainError>,
    after: StateView,
    h: Hash256,
)
    requires
        submission(config, s, dataset, block, r, after),
    ensures
        after.mempool == s.mempool,
        s.blocks.contains_key(h) ==> after.blocks.contains_key(h) && after.blocks[h] == s.blocks[h],
        after.blocks.contains_key(h) && !s.blocks.contains_key(h) ==> dataset is Some && h == header_hash(
            block.header,
            dataset->0,
        ) && after.blocks[h] == block,
{
}

/// An accepted block is the tip, under its height in the index.
pub proof fn an_accepted_block_is_the_tip(
    config: GenesisConfig,
    s: StateView,
    dataset: Option<Seq<u8>>,
    block: BlockView,
    r: Result<SubmitOutcome, ChainError>,
    after: StateView,
)
    requires
        consistent(s),
        submission(config, s, dataset, block, r, after),
        is_accepted(r),
    ensures
        r matches Ok(SubmitOutcome::Accepted { hash, height, reorged, requeue }) && {
            &&& after.tip == Some((height, hash))
            &&& after.heights.contains_key(height)
            &&& after.heights[height] == hash
            &&& after.blocks.contains_key(hash)
            &&& after.blocks[hash] == block
            &&& height == block.header.height
        },
{
    let hash = header_hash(block.header, dataset->0);
    let stored = with_block(s, hash, block);
    lemma_store_keeps(s, hash, block);
    lemma_move_keeps(config, stored, hash);
    assert(at_height(stored.blocks, hash, block.header.height as int) == hash);
}

/// A block that is stored is known, whatever else happened since: with the dataset of
/// its epoch it is judged to be that, and submitting it changes nothing.
pub proof fn a_stored_block_is_known(
    config: GenesisConfig,
    s: StateView,
    dataset: Seq<u8>,
    block: BlockView,
    r: Result<SubmitOutcome, ChainError>,
    after: StateView,
)
    requires
        block.header.height > 0,
        s.blocks.contains_key(header_hash(block.header, dataset)),
        submission(config, s, Some(dataset), block, r, after),
    ensures
        verdict(config, s, Some(dataset), block) == Verdict::Known,
        r == Ok::<SubmitOutcome, ChainError>(SubmitOutcome::AlreadyKnown),
        after == s,
{
}

/// A block that was stored is known right after, with the dataset cached then, so that
/// submitting it twice in a row changes nothing the second time.
pub proof fn resubmitting_changes_nothing(
    config: GenesisConfig,
    s: StateView,
    cached: Option<(u64, Seq<u8>)>,
    block: BlockView,
    r: Result<SubmitOutcome, ChainError>,
    after: StateView,
)
    requires
        submission(config, s, dataset_at(s, cached, block.header.height), block, r, after),
        is_accepted(r) || (r matches Ok(SubmitOutcome::SideBranch { hash, height })),
    ensures
        ({
            let height = block.header.height;
            let dataset = dataset_at(after, cached_after(s, cached, height), height);
            verdict(config, after, dataset, block) == Verdict::Known
        }),
{
}

/// A block on top of the tip undoes nothing and hands nothing back; the accounts
/// change by this block alone.
pub proof fn extending_the_tip_is_no_reorganisation(config: GenesisConfig, s: StateView, hash: Hash256, block: BlockView)
    requires
        consistent(s),
        !s.blocks.contains_key(hash),
        block.header.prev_hash == tip_of(s),
        block.header.height == height_of(s.blocks, tip_of(s)) + 1,
    ensures
        ({
            let blocks = s.blocks.insert(hash, block);
            &&& undo_path(blocks, tip_of(s), hash) == Seq::<Hash256>::empty()
            &&& apply_path(blocks, tip_of(s), hash) == seq![hash]
            &&& handed_back(blocks, tip_of(s), hash) == Seq::<Transaction>::empty()
            &&& moved_accounts(config, with_block(s, hash, block), tip_of(s), hash) == match block_applied(
                s.accounts,
                block,
                reward_at(config, block.header.height),
            ) {
                Ok(accounts) => Ok(accounts),
                Err(fault) => Err((hash, fault)),
            }
        }),
{
    let tip = tip_of(s);
    let blocks = s.blocks.insert(hash, block);
    lemma_tip_known(s);
    assert(blocks[tip] == s.blocks[tip]);
    let at = height_of(blocks, tip) as int;
    assert(at_height(blocks, tip, at) == tip);
    assert(ancestor(blocks, hash, 1) == ancestor(blocks, parent_of(blocks, hash), 0));
    assert(at_height(blocks, hash, at) == tip);
    assert(parts_at(blocks, tip, hash, at));
    lemma_fork_height(blocks, tip, hash, at);
    lemma_store_keeps(s, hash, block);
    branches_meet_at_the_fork(blocks, s.heights[0], tip, hash);
    assert(undo_path(blocks, tip, hash) =~= Seq::<Hash256>::empty());
    assert(apply_path(blocks, tip, hash) =~= seq![hash]);
    reveal(Seq::filter);
    assert(transactions_along(blocks, Seq::<Hash256>::empty()) =~= Seq::<Transaction>::empty());
    assert(handed_back(blocks, tip, hash) =~= Seq::<Transaction>::empty());
    assert(seq![hash].drop_last() =~= Seq::<Hash256>::empty());
    assert(applied_along(config, blocks, s.accounts, Seq::<Hash256>::empty()) == Ok::<
        Map<Address, Account>,
        (Hash256, TxFault),
    >(s.accounts));
}

/// A block without transactions on top of the tip credits its miner with the reward,
/// and changes no other account.
pub proof fn an_empty_block_credits_its_miner(config: GenesisConfig, s: StateView, hash: Hash256, block: BlockView)
    requires
        consistent(s),
        !s.blocks.contains_key(hash),
        block.header.prev_hash == tip_of(s),
        block.header.height == height_of(s.blocks, tip_of(s)) + 1,
        block.transactions.len() == 0,
    ensures
        moved_accounts(config, with_block(s, hash, block), tip_of(s), hash) == Ok::<
            Map<Address, Account>,
            (Hash256, TxFault),
        >(credited(s.accounts, block.header.miner, reward_at(config, block.header.height))),
{
    extending_the_tip_is_no_reorganisation(config, s, hash, block);
}

/// A chain opened from what was stored, followed by what it handed out since, is as it
/// was: its blocks, accounts and pending transactions, and its tip.
pub proof fn a_chain_reopens_as_it_was(
    config: GenesisConfig,
    stored: Seq<OpView>,
    handed_out: Seq<OpView>,
    s: StateView,
)
    requires
        consistent(s),
        s == replayed(replayed(empty_state(), stored), handed_out),
    ensures
        opened(config, replayed(empty_state(), stored + handed_out)) == s,
{
    reopening_restores_the_state(stored, handed_out, s);
}

/// A work template with signed transactions, once it has a nonce that meets the
/// target, is valid, and heavier than the tip once it is stored. It must not be known
/// already, and its difficulty must be positive.
pub proof fn a_mined_template_is_heavier(
    config: GenesisConfig,
    s: StateView,
    dataset: Seq<u8>,
    miner: Address,
    transactions: Seq<Transaction>,
    timestamp: u64,
    nonce: u64,
)
    requires
        consistent(s),
        height_of(s.blocks, tip_of(s)) < u64::MAX,
        all_signed(transactions),
        ({
            let block = mined(template(config, s, miner, transactions, timestamp), nonce);
            let hash = header_hash(block.header, dataset);
            &&& block.header.difficulty > 0
            &&& be_value(hash@) <= target_value(block.header.difficulty)
            &&& !s.blocks.contains_key(hash)
        }),
    ensures
        ({
            let block = mined(template(config, s, miner, transactions, timestamp), nonce);
            let hash = header_hash(block.header, dataset);
            &&& verdict(config, s, Some(dataset), block) == Verdict::Valid
            &&& outweighs_tip(with_block(s, hash, block), hash) == Ok::<bool, ChainError>(true)
        }),
{
    let block = mined(template(config, s, miner, transactions, timestamp), nonce);
    lemma_tip_known(s);
    the_template_has_the_expected_difficulty(config, s);
    lemma_store_keeps(s, header_hash(block.header, dataset), block);
}

/// A block with another nonce.
pub open spec fn mined(block: BlockView, nonce: u64) -> BlockView {
    BlockView { header: BlockHeader { nonce, ..block.header }, transactions: block.transactions }
}

/// A new chain's accounts are those at its root.
pub proof fn a_new_chain_is_settled(config: GenesisConfig, s: StateView)
    ensures
        settled(config, founded(config, s).accounts, founded(config, s)),
{
    let f = founded(config, s);
    assert(branch(f.blocks, tip_of(f)) =~= Seq::<Hash256>::empty());
}

// ---- which blocks are taken ----

/// The signature of a transaction is one that Ed25519 accepts under the sender's key on
/// the transaction's signed bytes.
pub open spec fn carries_a_signature(tx: Transaction) -> bool {
    tx.signature matches Some(signature) && ed25519_accepts(tx.from@, signed_bytes(tx), signature@)
}

/// A block is valid exactly where all of this holds: it is no genesis block, the dataset
/// of its epoch is at hand, it is not known, it states the root of its transactions, its
/// hash is at most the target of the difficulty that it states, every transaction in it
/// is signed, its parent is stored and one lower, the difficulty is the one that its
/// branch asks for, and its parent's work is on record and leaves room for its own.
pub proof fn which_blocks_are_valid(config: GenesisConfig, s: StateView, dataset: Option<Seq<u8>>, block: BlockView)
    ensures
        verdict(config, s, dataset, block) == Verdict::Valid <==> {
            let header = block.header;
            let hash = header_hash(header, dataset->0);
            &&& header.height > 0
            &&& dataset is Some
            &&& !s.blocks.contains_key(hash)
            &&& header.tx_root == root_of(transaction_hashes(block.transactions))
            &&& be_value(hash@) <= target_value(header.difficulty)
            &&& forall|i: int|
                0 <= i < block.transactions.len() ==> carries_a_signature(#[trigger] block.transactions[i])
            &&& s.blocks.contains_key(header.prev_hash)
            &&& s.blocks[header.prev_hash].header.height + 1 == header.height
            &&& branch_difficulty(config, s.blocks, header.prev_hash) == Ok::<u64, ChainError>(header.difficulty)
            &&& s.work.contains_key(header.prev_hash)
            &&& s.work[header.prev_hash] + header.difficulty <= u128::MAX
        },
{
    let txs = block.transactions;
    assert forall|i: int| 0 <= i < txs.len() implies signature_valid(#[trigger] txs[i]) == carries_a_signature(txs[i]) by {}
    if all_signed(txs) {
        assert forall|i: int| 0 <= i < txs.len() implies carries_a_signature(#[trigger] txs[i]) by {
            assert(signature_valid(txs[i]));
        }
    }
    if forall|i: int| 0 <= i < txs.len() ==> carries_a_signature(#[trigger] txs[i]) {
        assert forall|i: int| 0 <= i < txs.len() implies signature_valid(#[trigger] txs[i]) by {
            assert(carries_a_signature(txs[i]));
        }
    }
}

/// On a consistent chain a block needs less to be taken: the work of its parent is always
/// on record there, and leaves room for its own.
pub proof fn a_block_in_order_is_taken(
    config: GenesisConfig,
    s: StateView,
    dataset: Seq<u8>,
    block: BlockView,
    r: Result<SubmitOutcome, ChainError>,
    after: StateView,
)
    requires
        consistent(s),
        submission(config, s, Some(dataset), block, r, after),
        block.header.height > 0,
        !s.blocks.contains_key(header_hash(block.header, dataset)),
        block.header.tx_root == root_of(transaction_hashes(block.transactions)),
        be_value(header_hash(block.header, dataset)@) <= target_value(block.header.difficulty),
        forall|i: int| 0 <= i < block.transactions.len() ==> carries_a_signature(#[trigger] block.transactions[i]),
        s.blocks.contains_key(block.header.prev_hash),
        s.blocks[block.header.prev_hash].header.height + 1 == block.header.height,
        branch_difficulty(config, s.blocks, block.header.prev_hash) == Ok::<u64, ChainError>(block.header.difficulty),
    ensures
        ({
            let hash = header_hash(block.header, dataset);
            &&& verdict(config, s, Some(dataset), block) == Verdict::Valid
            &&& after.blocks.contains_key(hash)
            &&& after.blocks[hash] == block
            &&& after.work.contains_key(hash)
            &&& after.work[hash] == chain_work(s.blocks, block.header.prev_hash) + block.header.difficulty
        }),
{
    let hash = header_hash(block.header, dataset);
    lemma_store_keeps(s, hash, block);
    assert(weighed_at(s.blocks, s.work, block.header.prev_hash));
    which_blocks_are_valid(config, s, Some(dataset), block);
}

/// Where submitting a block ends in an acceptance or on a side branch, every transaction
/// of the block, in whatever place, is signed by its sender.
pub proof fn whatever_is_taken_is_signed(
    config: GenesisConfig,
    s: StateView,
    dataset: Option<Seq<u8>>,
    block: BlockView,
    r: Result<SubmitOutcome, ChainError>,
    after: StateView,
    i: int,
)
    requires
        submission(config, s, dataset, block, r, after),
        is_accepted(r) || (r matches Ok(SubmitOutcome::SideBranch { hash, height })),
        0 <= i < block.transactions.len(),
    ensures
        block.transactions[i].signature matches Some(signature) && ed25519_accepts(
            block.transactions[i].from@,
            signed_bytes(block.transactions[i]),
            signature@,
        ),
{
    which_blocks_are_valid(config, s, dataset, block);
    assert(carries_a_signature(block.transactions[i]));
}

/// Every transaction of every stored block but the root is signed.
pub open spec fn holds_signed_blocks(blocks: Map<Hash256, BlockView>) -> bool {
    forall|h: Hash256, i: int|
        blocks.contains_key(h) && height_of(blocks, h) > 0 && 0 <= i < blocks[h].transactions.len()
            ==> carries_a_signature(#[trigger] blocks[h].transactions[i])
}

/// Whatever is submitted, and whatever comes of it, no unsigned transaction gets into a
/// stored block.
pub proof fn submission_keeps_blocks_signed(
    config: GenesisConfig,
    s: StateView,
    dataset: Option<Seq<u8>>,
    block: BlockView,
    r: Result<SubmitOutcome, ChainError>,
    after: StateView,
)
    requires
        holds_signed_blocks(s.blocks),
        submission(config, s, dataset, block, r, after),
    ensures
        holds_signed_blocks(after.blocks),
{
    which_blocks_are_valid(config, s, dataset, block);
    assert forall|h: Hash256, i: int|
        after.blocks.contains_key(h) && height_of(after.blocks, h) > 0 && 0 <= i < after.blocks[h].transactions.len()
        implies carries_a_signature(#[trigger] after.blocks[h].transactions[i]) by {
        stored_blocks_stay(config, s, dataset, block, r, after, h);
        if s.blocks.contains_key(h) {
            assert(carries_a_signature(s.blocks[h].transactions[i]));
        } else {
            assert(carries_a_signature(block.transactions[i]));
        }
    }
}

/// Why a block that is not known is refused. Of several reasons the first counts, in this
/// order: its height, the dataset of its epoch, the root that it states, its work, its
/// signatures, its parent, its height above the parent, and its difficulty. An unknown
/// parent is no fault. What is refused changes nothing.
#[verifier::rlimit(40)]
pub proof fn why_a_block_is_refused(
    config: GenesisConfig,
    s: StateView,
    dataset: Option<Seq<u8>>,
    block: BlockView,
    r: Result<SubmitOutcome, ChainError>,
    after: StateView,
)
    requires
        submission(config, s, dataset, block, r, after),
    ensures
        ({
            let header = block.header;
            let hash = header_hash(header, dataset->0);
            let rooted = header.tx_root == root_of(transaction_hashes(block.transactions));
            let worked = be_value(hash@) <= target_value(header.difficulty);
            let signed = forall|i: int|
                0 <= i < block.transactions.len() ==> carries_a_signature(#[trigger] block.transactions[i]);
            let fresh = header.height > 0 && dataset is Some && !s.blocks.contains_key(hash);
            let sound = fresh && rooted && worked && signed;
            let parent = s.blocks[header.prev_hash].header;
            let follows = parent.height + 1 == header.height;
            let stored = s.blocks.contains_key(header.prev_hash);
            &&& header.height == 0 ==> r == Err::<SubmitOutcome, ChainError>(ChainError::SecondGenesis) && after == s
            &&& header.height > 0 && dataset is None ==> r == Err::<SubmitOutcome, ChainError>(
                ChainError::MissingEpochBoundary { height: (header.height - header.height % 2048) as u64 },
            ) && after == s
            &&& fresh && !rooted ==> r == Err::<SubmitOutcome, ChainError>(ChainError::InvalidTxRoot) && after == s
            &&& fresh && rooted && !worked ==> r == Err::<SubmitOutcome, ChainError>(ChainError::InsufficientWork)
                && after == s
            &&& fresh && rooted && worked && !signed ==> r == Err::<SubmitOutcome, ChainError>(
                ChainError::InvalidSignature,
            ) && after == s
            &&& sound && !stored ==> r == Ok::<SubmitOutcome, ChainError>(
                SubmitOutcome::Orphan { missing_parent: header.prev_hash },
            ) && after == s
            &&& sound && stored && !follows ==> r == Err::<SubmitOutcome, ChainError>(
                ChainError::HeightMismatch { height: header.height, parent_height: parent.height },
            ) && after == s
            &&& sound && stored && follows ==> match branch_difficulty(config, s.blocks, header.prev_hash) {
                Err(e) => r == Err::<SubmitOutcome, ChainError>(e) && after == s,
                Ok(expected) => {
                    &&& expected != header.difficulty ==> r == Err::<SubmitOutcome, ChainError>(
                        ChainError::WrongDifficulty { stated: header.difficulty, expected },
                    ) && after == s
                    &&& expected == header.difficulty && !s.work.contains_key(header.prev_hash) ==> r == Err::<
                        SubmitOutcome,
                        ChainError,
                    >(ChainError::MissingParentWork { parent: header.prev_hash }) && after == s
                    &&& expected == header.difficulty && s.work.contains_key(header.prev_hash)
                        && s.work[header.prev_hash] + header.difficulty > u128::MAX ==> r == Err::<
                        SubmitOutcome,
                        ChainError,
                    >(ChainError::WorkOutOfRange) && after == s
                },
            }
        }),
{
    let txs = block.transactions;
    let height = block.header.height;
    assert(all_signed(txs) <==> forall|i: int| 0 <= i < txs.len() ==> carries_a_signature(#[trigger] txs[i])) by {
        if all_signed(txs) {
            assert forall|i: int| 0 <= i < txs.len() implies carries_a_signature(#[trigger] txs[i]) by {
                assert(signature_valid(txs[i]));
            }
        }
        if forall|i: int| 0 <= i < txs.len() ==> carries_a_signature(#[trigger] txs[i]) {
            assert forall|i: int| 0 <= i < txs.len() implies signature_valid(#[trigger] txs[i]) by {
                assert(carries_a_signature(txs[i]));
            }
        }
    }
    assert(boundary_of(height) == height - height % 2048);
}

// ---- which branch wins ----

/// A valid block with strictly more cumulative work than the tip is accepted and is the
/// tip afterwards, whether or not it extends the old one, where every transaction on the
/// way from the fork to it can be applied. It counts as a reorganisation exactly where it
/// does not extend the old tip.
pub proof fn a_heavier_block_becomes_the_tip(
    config: GenesisConfig,
    s: StateView,
    dataset: Option<Seq<u8>>,
    block: BlockView,
    r: Result<SubmitOutcome, ChainError>,
    after: StateView,
)
    requires
        consistent(s),
        submission(config, s, dataset, block, r, after),
        verdict(config, s, dataset, block) == Verdict::Valid,
        chain_work(s.blocks, block.header.prev_hash) + block.header.difficulty > chain_work(s.blocks, tip_of(s)),
        moved_accounts(
            config,
            with_block(s, header_hash(block.header, dataset->0), block),
            tip_of(s),
            header_hash(block.header, dataset->0),
        ) is Ok,
    ensures
        r matches Ok(SubmitOutcome::Accepted { hash, height, reorged, requeue }) && {
            &&& hash == header_hash(block.header, dataset->0)
            &&& height == block.header.height
            &&& reorged == (block.header.prev_hash != tip_of(s))
            &&& after.tip == Some((block.header.height, hash))
            &&& after.heights.contains_key(block.header.height)
            &&& after.heights[block.header.height] == hash
            &&& chain_work(after.blocks, hash) == chain_work(s.blocks, block.header.prev_hash) + block.header.difficulty
        },
{
    let hash = header_hash(block.header, dataset->0);
    let stored = with_block(s, hash, block);
    lemma_tip_known(s);
    lemma_store_keeps(s, hash, block);
    branches_meet_at_the_fork(stored.blocks, s.heights[0], tip_of(s), hash);
    an_accepted_block_is_the_tip(config, s, dataset, block, r, after);
}

/// The same where what is known are the accounts at the root: if the whole branch of the
/// block can be applied to them, and those of the chain so far came from them, the heavier
/// block is accepted.
pub proof fn a_heavier_branch_that_can_be_applied_wins(
    config: GenesisConfig,
    at_root: Map<Address, Account>,
    s: StateView,
    dataset: Option<Seq<u8>>,
    block: BlockView,
    r: Result<SubmitOutcome, ChainError>,
    after: StateView,
)
    requires
        consistent(s),
        submission(config, s, dataset, block, r, after),
        verdict(config, s, dataset, block) == Verdict::Valid,
        chain_work(s.blocks, block.header.prev_hash) + block.header.difficulty > chain_work(s.blocks, tip_of(s)),
        complete(at_root),
        settled(config, at_root, s),
        fits_along(config, s.blocks, at_root, branch(s.blocks, tip_of(s))),
        ({
            let hash = header_hash(block.header, dataset->0);
            let blocks = s.blocks.insert(hash, block);
            applied_along(config, blocks, at_root, branch(blocks, hash)) is Ok
        }),
    ensures
        is_accepted(r),
        after.tip == Some((block.header.height, header_hash(block.header, dataset->0))),
        applied_along(config, after.blocks, at_root, branch(after.blocks, tip_of(after))) == Ok::<
            Map<Address, Account>,
            (Hash256, TxFault),
        >(after.accounts),
{
    let hash = header_hash(block.header, dataset->0);
    let stored = with_block(s, hash, block);
    lemma_settled_after_storing(config, at_root, s, hash, block);
    lemma_store_keeps(s, hash, block);
    let old = tip_of(s);
    let at_fork = lemma_accounts_at_fork(config, at_root, stored, hash);
    let common = branch(stored.blocks, at_height(stored.blocks, hash, fork_height(stored.blocks, old, hash)));
    applying_continues(config, stored.blocks, at_root, common, apply_path(stored.blocks, old, hash));
    a_heavier_block_becomes_the_tip(config, s, dataset, block, r, after);
    the_accounts_follow_the_canonical_chain(config, at_root, s, dataset, block, r, after);
}

/// A valid block with no more cumulative work than the tip is stored on a side branch, and
/// nothing else happens.
pub proof fn a_block_that_is_not_heavier_is_set_aside(
    config: GenesisConfig,
    s: StateView,
    dataset: Option<Seq<u8>>,
    block: BlockView,
    r: Result<SubmitOutcome, ChainError>,
    after: StateView,
)
    requires
        consistent(s),
        submission(config, s, dataset, block, r, after),
        verdict(config, s, dataset, block) == Verdict::Valid,
        chain_work(s.blocks, block.header.prev_hash) + block.header.difficulty <= chain_work(s.blocks, tip_of(s)),
    ensures
        r == Ok::<SubmitOutcome, ChainError>(
            SubmitOutcome::SideBranch { hash: header_hash(block.header, dataset->0), height: block.header.height },
        ),
        after.blocks == s.blocks.insert(header_hash(block.header, dataset->0), block),
        after.tip == s.tip,
        after.heights == s.heights,
        after.accounts == s.accounts,
{
    lemma_store_keeps(s, header_hash(block.header, dataset->0), block);
}

/// A heavier branch that holds a transaction which cannot be applied is not moved to, and
/// the error names the block, its height and the fault. The block stays stored.
pub proof fn a_heavier_branch_that_cannot_be_applied_loses(
    config: GenesisConfig,
    s: StateView,
    dataset: Option<Seq<u8>>,
    block: BlockView,
    r: Result<SubmitOutcome, ChainError>,
    after: StateView,
    at: Hash256,
    fault: TxFault,
)
    requires
        consistent(s),
        submission(config, s, dataset, block, r, after),
        verdict(config, s, dataset, block) == Verdict::Valid,
        chain_work(s.blocks, block.header.prev_hash) + block.header.difficulty > chain_work(s.blocks, tip_of(s)),
        moved_accounts(
            config,
            with_block(s, header_hash(block.header, dataset->0), block),
            tip_of(s),
            header_hash(block.header, dataset->0),
        ) == Err::<Map<Address, Account>, (Hash256, TxFault)>((at, fault)),
    ensures
        r == Err::<SubmitOutcome, ChainError>(
            ChainError::InvalidTransaction { block: at, height: after.blocks[at].header.height, fault },
        ),
        after.blocks == s.blocks.insert(header_hash(block.header, dataset->0), block),
        after.tip == s.tip,
        after.heights == s.heights,
        after.accounts == s.accounts,
{
    let hash = header_hash(block.header, dataset->0);
    lemma_tip_known(s);
    lemma_store_keeps(s, hash, block);
    branches_meet_at_the_fork(s.blocks.insert(hash, block), s.heights[0], tip_of(s), hash);
}

/// The blocks to undo run from the old tip down, each the parent of the one before; those
/// to apply run up to the new tip, each the parent of the next; the two lists meet in one
/// block, which is in neither, and share no block.
pub proof fn the_paths_lead_from_tip_to_tip(blocks: Map<Hash256, BlockView>, root: Hash256, old: Hash256, new: Hash256)
    requires
        linked(blocks, root),
        blocks.dom().finite(),
        blocks.contains_key(old),
        blocks.contains_key(new),
    ensures
        ({
            let (undo, apply) = (undo_path(blocks, old, new), apply_path(blocks, old, new));
            let shared = at_height(blocks, new, fork_height(blocks, old, new));
            &&& undo.len() > 0 ==> undo[0] == old && parent_of(blocks, undo.last()) == shared
            &&& undo.len() == 0 ==> old == shared
            &&& forall|i: int| 0 <= i < undo.len() - 1 ==> parent_of(blocks, #[trigger] undo[i]) == undo[i + 1]
            &&& apply.len() > 0 ==> apply.last() == new && parent_of(blocks, apply[0]) == shared
            &&& apply.len() == 0 ==> new == shared
            &&& forall|i: int| 0 < i < apply.len() ==> parent_of(blocks, #[trigger] apply[i]) == apply[i - 1]
            &&& forall|i: int, j: int|
                0 <= i < undo.len() && 0 <= j < apply.len() ==> #[trigger] undo[i] != #[trigger] apply[j]
        }),
{
    branches_meet_at_the_fork(blocks, root, old, new);
    let (undo, apply) = (undo_path(blocks, old, new), apply_path(blocks, old, new));
    let fork = fork_height(blocks, old, new);
    let (m, n) = (height_of(blocks, old) as int, height_of(blocks, new) as int);
    assert forall|i: int| 0 <= i < undo.len() implies parent_of(blocks, #[trigger] undo[i]) == ancestor(
        blocks,
        old,
        (i + 1) as nat,
    ) && undo[i] == at_height(blocks, old, m - i) by {
        lemma_ancestor_parent(blocks, old, i as nat);
    }
    assert forall|i: int| 0 <= i < apply.len() implies parent_of(blocks, #[trigger] apply[i]) == ancestor(
        blocks,
        new,
        (apply.len() - i) as nat,
    ) && apply[i] == at_height(blocks, new, fork + 1 + i) by {
        lemma_ancestor_parent(blocks, new, (apply.len() - 1 - i) as nat);
    }
    assert forall|i: int, j: int| 0 <= i < undo.len() && 0 <= j < apply.len() implies #[trigger] undo[i]
        != #[trigger] apply[j] by {
        lemma_ancestor_known(blocks, root, old, i as nat);
        lemma_ancestor_known(blocks, root, new, (apply.len() - 1 - j) as nat);
        if undo[i] == apply[j] {
            assert(m - i == fork + 1 + j);
            assert(at_height(blocks, old, m - i) == at_height(blocks, new, m - i));
        }
    }
}

/// What is handed back when the chain moves: exactly the transactions of the undone blocks
/// of which none with the same hash is in an applied block.
pub proof fn what_a_move_hands_back(blocks: Map<Hash256, BlockView>, old: Hash256, new: Hash256, tx: Transaction)
    ensures
        handed_back(blocks, old, new).contains(tx) <==> {
            &&& exists|i: int|
                0 <= i < undo_path(blocks, old, new).len() && blocks[#[trigger] undo_path(
                    blocks,
                    old,
                    new,
                )[i]].transactions.contains(tx)
            &&& forall|i: int, j: int|
                0 <= i < apply_path(blocks, old, new).len() && 0 <= j < blocks[apply_path(
                    blocks,
                    old,
                    new,
                )[i]].transactions.len() ==> transaction_hash(
                    #[trigger] blocks[apply_path(blocks, old, new)[i]].transactions[j],
                ) != transaction_hash(tx)
        },
{
    let (undo, apply) = (undo_path(blocks, old, new), apply_path(blocks, old, new));
    let mined = transactions_along(blocks, apply);
    what_is_left_over(transactions_along(blocks, undo), mined, tx);
    transactions_along_a_path(blocks, undo, tx);
    if is_among(mined, tx) {
        let k = choose|k: int| 0 <= k < mined.len() && transaction_hash(#[trigger] mined[k]) == transaction_hash(tx);
        transactions_along_a_path(blocks, apply, mined[k]);
        assert(mined.contains(mined[k]));
        let i = choose|i: int| 0 <= i < apply.len() && blocks[#[trigger] apply[i]].transactions.contains(mined[k]);
        let txs = blocks[apply[i]].transactions;
        let j = choose|j: int| 0 <= j < txs.len() && txs[j] == mined[k];
        assert(transaction_hash(blocks[apply[i]].transactions[j]) == transaction_hash(tx));
    } else {
        assert forall|i: int, j: int|
            0 <= i < apply.len() && 0 <= j < blocks[apply[i]].transactions.len() implies transaction_hash(
            #[trigger] blocks[apply[i]].transactions[j],
        ) != transaction_hash(tx) by {
            let other = blocks[apply[i]].transactions[j];
            assert(blocks[apply[i]].transactions.contains(other));
            transactions_along_a_path(blocks, apply, other);
            let k = choose|k: int| 0 <= k < mined.len() && mined[k] == other;
            assert(transaction_hash(mined[k]) != transaction_hash(tx));
        }
    }
}

/// What is handed back is in the order in which it was undone: the undone blocks from the
/// old tip down, and within each the transactions as they stand in it.
pub proof fn what_is_handed_back_is_in_order(blocks: Map<Hash256, BlockView>, old: Hash256, new: Hash256, n: int)
    requires
        0 <= n <= undo_path(blocks, old, new).len(),
    ensures
        ({
            let undo = undo_path(blocks, old, new);
            let mined = transactions_along(blocks, apply_path(blocks, old, new));
            handed_back(blocks, old, new) == left_over(transactions_along(blocks, undo.take(n)), mined) + left_over(
                transactions_along(blocks, undo.skip(n)),
                mined,
            )
        }),
{
    let undo = undo_path(blocks, old, new);
    let mined = transactions_along(blocks, apply_path(blocks, old, new));
    lemma_transactions_in_parts(blocks, undo.take(n), undo.skip(n));
    assert(undo.take(n) + undo.skip(n) =~= undo);
    what_is_left_over_keeps_its_order(
        transactions_along(blocks, undo.take(n)),
        transactions_along(blocks, undo.skip(n)),
        mined,
        arbitrary(),
    );
}

proof fn lemma_transactions_in_parts(blocks: Map<Hash256, BlockView>, first: Seq<Hash256>, second: Seq<Hash256>)
    ensures
        transactions_along(blocks, first + second) == transactions_along(blocks, first) + transactions_along(
            blocks,
            second,
        ),
    decreases second.len(),
{
    if second.len() == 0 {
        assert(first + second =~= first);
        assert(transactions_along(blocks, first) + transactions_along(blocks, second) =~= transactions_along(
            blocks,
            first,
        ));
    } else {
        lemma_transactions_in_parts(blocks, first, second.drop_last());
        assert((first + second).drop_last() =~= first + second.drop_last());
        assert(transactions_along(blocks, first + second) =~= transactions_along(blocks, first) + transactions_along(
            blocks,
            second,
        ));
    }
}

/// The block to mine: on top of the tip and one higher, with the transactions given and
/// their root, the time and the miner given, the difficulty by the index, and nonce zero.
pub proof fn what_a_template_holds(
    config: GenesisConfig,
    s: StateView,
    miner: Address,
    transactions: Seq<Transaction>,
    timestamp: u64,
)
    requires
        s.tip matches Some((height, _)) && height < u64::MAX,
    ensures
        ({
            let block = template(config, s, miner, transactions, timestamp);
            &&& block.transactions == transactions
            &&& s.tip == Some(((block.header.height - 1) as u64, block.header.prev_hash))
            &&& block.header.tx_root == root_of(transaction_hashes(transactions))
            &&& block.header.timestamp == timestamp
            &&& block.header.miner == miner
            &&& block.header.nonce == 0
            &&& canonical_difficulty(config, s, block.header.height) is Ok ==> canonical_difficulty(
                config,
                s,
                block.header.height,
            ) == Ok::<u64, ChainError>(block.header.difficulty)
        }),
{
}

// ---- datasets ----

/// As long as the boundary block of the cached epoch stays, the cache makes no
/// difference: the dataset for a height is the one grown for its epoch, and two
/// heights of one epoch have the same dataset.
pub proof fn a_fresh_cache_makes_no_difference(s: StateView, cached: Option<(u64, Seq<u8>)>, one: u64, other: u64)
    requires
        is_fresh(s, cached),
        epoch_number(one) == epoch_number(other),
    ensures
        dataset_at(s, cached, one) == grown_for(s, epoch_number(one)),
        dataset_at(s, cached, one) == dataset_at(s, cached, other),
        is_fresh(s, cached_after(s, cached, one)),
{
}

/// There is no dataset exactly where none of the epoch is cached and the epoch, not
/// the first, has no boundary block on the canonical chain.
pub proof fn when_there_is_no_dataset(s: StateView, cached: Option<(u64, Seq<u8>)>, height: u64)
    ensures
        dataset_at(s, cached, height) is None <==> epoch_number(height) > 0 && !is_cached(cached, epoch_number(height))
            && !s.heights.contains_key(boundary_of(height)),
{
}

// ---- difficulty ----

/// A block states the difficulty that its branch asks of it.
pub open spec fn states_its_difficulty(config: GenesisConfig, blocks: Map<Hash256, BlockView>, h: Hash256) -> bool {
    branch_difficulty(config, blocks, parent_of(blocks, h)) == Ok::<u64, ChainError>(blocks[h].header.difficulty)
}

/// Every block but the root states the difficulty that its branch asks of it.
pub open spec fn paced(config: GenesisConfig, blocks: Map<Hash256, BlockView>) -> bool {
    forall|h: Hash256|
        blocks.contains_key(h) && height_of(blocks, h) > 0 ==> #[trigger] states_its_difficulty(config, blocks, h)
}

/// A new chain has only its root, of which no difficulty is asked.
pub proof fn a_new_chain_is_paced(config: GenesisConfig, s: StateView)
    requires
        s.blocks == Map::<Hash256, BlockView>::empty(),
    ensures
        paced(config, founded(config, s).blocks),
{
}

proof fn lemma_ancestors_stay_known(
    blocks: Map<Hash256, BlockView>,
    new: Hash256,
    block: BlockView,
    h: Hash256,
    n: nat,
)
    requires
        !blocks.contains_key(new),
        blocks.contains_key(h),
        ancestors_known(blocks, h, n),
    ensures
        ancestors_known(blocks.insert(new, block), h, n),
    decreases n,
{
    if n > 0 {
        lemma_ancestors_stay_known(blocks, new, block, parent_of(blocks, h), (n - 1) as nat);
    }
}

proof fn lemma_branch_difficulty_stays(
    config: GenesisConfig,
    blocks: Map<Hash256, BlockView>,
    root: Hash256,
    new: Hash256,
    block: BlockView,
    h: Hash256,
)
    requires
        linked(blocks, root),
        !blocks.contains_key(new),
        blocks.contains_key(h),
    ensures
        branch_difficulty(config, blocks.insert(new, block), h) == branch_difficulty(config, blocks, h),
{
    let window = window_of(config);
    if height_of(blocks, h) + 1 > window {
        lemma_ancestor_known(blocks, root, h, window as nat);
        lemma_ancestor_stays(blocks, root, new, block, h, window as nat);
        lemma_ancestors_known(blocks, root, h, window as nat);
        lemma_ancestors_stay_known(blocks, new, block, h, window as nat);
    }
}

/// Whatever is submitted, every stored block states the difficulty that its branch
/// asks of it.
pub proof fn submission_keeps_the_pace(
    config: GenesisConfig,
    s: StateView,
    dataset: Option<Seq<u8>>,
    block: BlockView,
    r: Result<SubmitOutcome, ChainError>,
    after: StateView,
)
    requires
        consistent(s),
        paced(config, s.blocks),
        submission(config, s, dataset, block, r, after),
    ensures
        paced(config, after.blocks),
{
    if verdict(config, s, dataset, block) == Verdict::Valid {
        let hash = header_hash(block.header, dataset->0);
        let root = s.heights[0];
        let blocks = s.blocks.insert(hash, block);
        assert(after.blocks == blocks);
        assert forall|h: Hash256| blocks.contains_key(h) && height_of(blocks, h) > 0 implies #[trigger]
        states_its_difficulty(config, blocks, h) by {
            if h != hash {
                assert(linked_at(s.blocks, root, h));
                assert(states_its_difficulty(config, s.blocks, h));
            }
            lemma_branch_difficulty_stays(config, s.blocks, root, hash, block, parent_of(blocks, h));
        }
    }
}

/// Between readjustments a block is asked for the difficulty of the block before it.
pub proof fn difficulty_stays_within_a_window(config: GenesisConfig, s: StateView, height: u64)
    requires
        height > window_of(config),
        (height - 1) % (window_of(config) as int) != 0,
        indexed(s, (height - 1) as u64),
    ensures
        canonical_difficulty(config, s, height) == Ok::<u64, ChainError>(
            s.blocks[s.heights[(height - 1) as u64]].header.difficulty,
        ),
{
}

/// Where the difficulty changes from one height to the next, a window ends.
proof fn lemma_changes_at_window_ends(config: GenesisConfig, s: StateView, height: u64)
    requires
        consistent(s),
        paced(config, s.blocks),
        window_of(config) < height <= height_of(s.blocks, tip_of(s)),
        height < u64::MAX,
        canonical_difficulty(config, s, (height + 1) as u64) != canonical_difficulty(config, s, height),
    ensures
        height % window_of(config) == 0,
{
    let tip = tip_of(s);
    let top = height_of(s.blocks, tip);
    let root = s.heights[0];
    lemma_tip_known(s);
    let before = (height - 1) as u64;
    index_and_branch_agree_on_difficulty(config, s, before);
    let back = (top - height) as nat;
    lemma_ancestor_known(s.blocks, root, tip, back);
    lemma_ancestor_parent(s.blocks, tip, back);
    let h = s.heights[height];
    assert(s.heights.contains_key(height) && h == ancestor(s.blocks, tip, back));
    assert(s.heights.contains_key(before) && s.heights[before] == ancestor(s.blocks, tip, back + 1));
    assert(states_its_difficulty(config, s.blocks, h));
}

proof fn lemma_one_multiple(i: int, j: int, window: int)
    by (nonlinear_arith)
    requires
        window > 0,
        i % window == 0,
        j % window == 0,
        -window < i - j < window,
    ensures
        i == j,
{
}

/// The difficulty is readjusted once per window: of the difficulties at any `window`
/// heights in a row above the first window, `n` to `n + window - 1`, at most one
/// differs from the one before it.
pub proof fn difficulty_is_readjusted_once_per_window(config: GenesisConfig, s: StateView, n: u64, i: u64, j: u64)
    requires
        consistent(s),
        paced(config, s.blocks),
        n > window_of(config),
        n + window_of(config) - 2 <= height_of(s.blocks, tip_of(s)),
        n + window_of(config) - 1 <= u64::MAX,
        n <= i < n + window_of(config) - 1,
        n <= j < n + window_of(config) - 1,
        canonical_difficulty(config, s, (i + 1) as u64) != canonical_difficulty(config, s, i),
        canonical_difficulty(config, s, (j + 1) as u64) != canonical_difficulty(config, s, j),
    ensures
        i == j,
{
    lemma_changes_at_window_ends(config, s, i);
    lemma_changes_at_window_ends(config, s, j);
    lemma_one_multiple(i as int, j as int, window_of(config) as int);
}

// ---- the accounts follow the canonical chain ----

/// The branch of `h` from just above the root, in order.
pub open spec fn branch(blocks: Map<Hash256, BlockView>, h: Hash256) -> Seq<Hash256> {
    path_back(blocks, h, height_of(blocks, h) as nat).reverse()
}

/// The accounts are what the canonical chain makes of those at the root.
pub open spec fn settled(config: GenesisConfig, at_root: Map<Address, Account>, s: StateView) -> bool {
    applied_along(config, s.blocks, at_root, branch(s.blocks, tip_of(s))) == Ok::<
        Map<Address, Account>,
        (Hash256, TxFault),
    >(s.accounts)
}

/// Two maps that agree on a path apply it alike.
proof fn lemma_applied_alike(
    config: GenesisConfig,
    one: Map<Hash256, BlockView>,
    two: Map<Hash256, BlockView>,
    accounts: Map<Address, Account>,
    path: Seq<Hash256>,
)
    requires
        forall|i: int| 0 <= i < path.len() ==> one[#[trigger] path[i]] == two[path[i]],
    ensures
        applied_along(config, one, accounts, path) == applied_along(config, two, accounts, path),
        fits_along(config, one, accounts, path) == fits_along(config, two, accounts, path),
    decreases path.len(),
{
    if path.len() > 0 {
        let front = path.drop_last();
        assert forall|i: int| 0 <= i < front.len() implies one[#[trigger] front[i]] == two[front[i]] by {
            assert(front[i] == path[i]);
        }
        lemma_applied_alike(config, one, two, accounts, front);
        assert(one[path[path.len() - 1]] == two[path[path.len() - 1]]);
    }
}

/// The later part of a path fits where the whole path does.
proof fn lemma_fits_in_parts(
    config: GenesisConfig,
    blocks: Map<Hash256, BlockView>,
    accounts: Map<Address, Account>,
    first: Seq<Hash256>,
    second: Seq<Hash256>,
)
    requires
        fits_along(config, blocks, accounts, first + second),
        applied_along(config, blocks, accounts, first) is Ok,
    ensures
        fits_along(config, blocks, applied_along(config, blocks, accounts, first)->Ok_0, second),
        fits_along(config, blocks, accounts, first),
    decreases second.len(),
{
    if second.len() == 0 {
        assert(first + second =~= first);
    } else {
        assert((first + second).drop_last() =~= first + second.drop_last());
        lemma_fits_in_parts(config, blocks, accounts, first, second.drop_last());
        applying_continues(config, blocks, accounts, first, second.drop_last());
    }
}

/// The accounts along a path stay complete.
proof fn lemma_applied_complete(
    config: GenesisConfig,
    blocks: Map<Hash256, BlockView>,
    accounts: Map<Address, Account>,
    path: Seq<Hash256>,
)
    requires
        complete(accounts),
        applied_along(config, blocks, accounts, path) is Ok,
        fits_along(config, blocks, accounts, path),
    ensures
        complete(applied_along(config, blocks, accounts, path)->Ok_0),
{
    undoing_reverses_a_branch(config, blocks, accounts, path);
}

/// A branch is what lies below one of its blocks, and then what lies above it.
proof fn lemma_branch_in_parts(blocks: Map<Hash256, BlockView>, root: Hash256, h: Hash256, n: nat)
    requires
        linked(blocks, root),
        blocks.contains_key(h),
        n <= height_of(blocks, h),
    ensures
        branch(blocks, h) == branch(blocks, ancestor(blocks, h, n)) + path_back(blocks, h, n).reverse(),
{
    let below = ancestor(blocks, h, n);
    lemma_ancestor_known(blocks, root, h, n);
    let total = height_of(blocks, h) as nat;
    let low = height_of(blocks, below) as nat;
    assert forall|i: int| 0 <= i < low implies #[trigger] branch(blocks, below)[i] == branch(blocks, h)[i] by {
        lemma_ancestor_of_ancestor(blocks, h, n, (low - 1 - i) as nat);
    }
    assert(branch(blocks, h) =~= branch(blocks, below) + path_back(blocks, h, n).reverse());
}

/// Where the accounts are settled, those at the fork are what undoing gives; applying
/// the old branch to them gives the accounts as they are.
proof fn lemma_accounts_at_fork(
    config: GenesisConfig,
    at_root: Map<Address, Account>,
    s: StateView,
    new: Hash256,
) -> (at_fork: Map<Address, Account>)
    requires
        consistent(s),
        s.blocks.contains_key(new),
        complete(at_root),
        settled(config, at_root, s),
        fits_along(config, s.blocks, at_root, branch(s.blocks, tip_of(s))),
    ensures
        ({
            let blocks = s.blocks;
            let old = tip_of(s);
            let undo = undo_path(blocks, old, new);
            let apply = apply_path(blocks, old, new);
            let common = branch(blocks, at_height(blocks, new, fork_height(blocks, old, new)));
            &&& complete(at_fork)
            &&& undo == apply_path(blocks, new, old).reverse()
            &&& apply == undo_path(blocks, new, old).reverse()
            &&& branch(blocks, new) == common + apply
            &&& applied_along(config, blocks, at_root, common) == Ok::<Map<Address, Account>, (Hash256, TxFault)>(at_fork)
            &&& applied_along(config, blocks, at_fork, undo.reverse()) == Ok::<
                Map<Address, Account>,
                (Hash256, TxFault),
            >(s.accounts)
            &&& fits_along(config, blocks, at_fork, undo.reverse())
            &&& undone_along(config, blocks, s.accounts, undo) == at_fork
        }),
{
    let blocks = s.blocks;
    let root = s.heights[0];
    let old = tip_of(s);
    lemma_tip_known(s);
    branches_meet_at_the_fork(blocks, root, old, new);
    branches_meet_at_the_fork(blocks, root, new, old);
    let fork = fork_height(blocks, old, new);
    let down = (height_of(blocks, old) - fork) as nat;
    let up = (height_of(blocks, new) - fork) as nat;
    lemma_branch_in_parts(blocks, root, old, down);
    lemma_branch_in_parts(blocks, root, new, up);
    let common = branch(blocks, at_height(blocks, new, fork));
    let losing = undo_path(blocks, old, new).reverse();
    assert(losing.reverse() =~= undo_path(blocks, old, new));
    assert(apply_path(blocks, new, old) =~= losing);
    assert(undo_path(blocks, new, old).reverse() =~= apply_path(blocks, old, new));
    applying_continues(config, blocks, at_root, common, losing);
    lemma_fits_in_parts(config, blocks, at_root, common, losing);
    lemma_applied_complete(config, blocks, at_root, common);
    let at_fork = applied_along(config, blocks, at_root, common)->Ok_0;
    undoing_reverses_a_branch(config, blocks, at_fork, losing);
    at_fork
}

/// Moving to another branch keeps the accounts what the canonical chain makes of
/// those at the root, as long as no balance met its limit on the old branch.
pub proof fn a_move_keeps_the_accounts_settled(
    config: GenesisConfig,
    at_root: Map<Address, Account>,
    s: StateView,
    new: Hash256,
)
    requires
        consistent(s),
        s.blocks.contains_key(new),
        complete(at_root),
        settled(config, at_root, s),
        fits_along(config, s.blocks, at_root, branch(s.blocks, tip_of(s))),
        reorganised(config, s, tip_of(s), new) is Ok,
    ensures
        settled(config, at_root, reorganised(config, s, tip_of(s), new)->Ok_0),
{
    let old = tip_of(s);
    let at_fork = lemma_accounts_at_fork(config, at_root, s, new);
    let common = branch(s.blocks, at_height(s.blocks, new, fork_height(s.blocks, old, new)));
    applying_continues(config, s.blocks, at_root, common, apply_path(s.blocks, old, new));
}

/// Moving to another branch and back restores everything: tip, index and accounts.
/// This holds where the accounts are what the canonical chain made of them, and no
/// balance meets its limit on either branch.
pub proof fn moving_there_and_back_restores_everything(
    config: GenesisConfig,
    at_root: Map<Address, Account>,
    s: StateView,
    new: Hash256,
)
    requires
        consistent(s),
        s.blocks.contains_key(new),
        complete(at_root),
        settled(config, at_root, s),
        fits_along(config, s.blocks, at_root, branch(s.blocks, tip_of(s))),
        fits_along(config, s.blocks, at_root, branch(s.blocks, new)),
        reorganised(config, s, tip_of(s), new) is Ok,
    ensures
        reorganised(config, reorganised(config, s, tip_of(s), new)->Ok_0, new, tip_of(s)) == Ok::<StateView, ChainError>(s),
{
    let blocks = s.blocks;
    let old = tip_of(s);
    let at_fork = lemma_accounts_at_fork(config, at_root, s, new);
    lemma_tip_known(s);
    let common = branch(blocks, at_height(blocks, new, fork_height(blocks, old, new)));
    let winning = apply_path(blocks, old, new);
    let after = reorganised(config, s, old, new)->Ok_0;
    lemma_fits_in_parts(config, blocks, at_root, common, winning);
    undoing_reverses_a_branch(config, blocks, at_fork, winning);
    assert(winning.reverse() =~= undo_path(blocks, new, old));
    assert(apply_path(blocks, new, old) =~= undo_path(blocks, old, new).reverse());
    let back = reorganised(config, after, new, old)->Ok_0;
    branches_meet_at_the_fork(blocks, s.heights[0], old, new);
    branches_meet_at_the_fork(blocks, s.heights[0], new, old);
    lemma_move_keeps(config, s, new);
    lemma_move_keeps(config, after, old);
    assert(back =~= s);
}

/// After a move the index holds exactly the new branch: the ancestor of the new tip at
/// every height up to it, each entry the parent of the next, and nothing above, even
/// where the new tip is lower than the old one.
pub proof fn a_move_reindexes(config: GenesisConfig, s: StateView, new: Hash256)
    requires
        consistent(s),
        s.blocks.contains_key(new),
        reorganised(config, s, tip_of(s), new) is Ok,
    ensures
        ({
            let after = reorganised(config, s, tip_of(s), new)->Ok_0;
            let top = height_of(s.blocks, new);
            &&& after.tip == Some((top, new))
            &&& forall|at: u64| #[trigger] after.heights.contains_key(at) <==> at <= top
            &&& forall|at: u64|
                at <= top ==> #[trigger] after.heights[at] == at_height(s.blocks, new, at as int)
            &&& forall|at: u64|
                at < top ==> #[trigger] after.heights[at] == parent_of(s.blocks, after.heights[(at + 1) as u64])
        }),
{
    let after = reorganised(config, s, tip_of(s), new)->Ok_0;
    let top = height_of(s.blocks, new);
    lemma_move_keeps(config, s, new);
    assert forall|at: u64| at < top implies #[trigger] after.heights[at] == parent_of(
        s.blocks,
        after.heights[(at + 1) as u64],
    ) by {
        lemma_ancestor_parent(s.blocks, new, (top - at - 1) as nat);
    }
}

/// A move conserves money: over any list of accounts that holds all those touched,
/// what there is in all falls by what the undone blocks created and grows by what the
/// applied ones create, where a block creates its reward and burns its fees.
pub proof fn a_move_conserves_money(
    config: GenesisConfig,
    at_root: Map<Address, Account>,
    s: StateView,
    new: Hash256,
    who: Seq<Address>,
)
    requires
        consistent(s),
        s.blocks.contains_key(new),
        complete(at_root),
        settled(config, at_root, s),
        fits_along(config, s.blocks, at_root, branch(s.blocks, tip_of(s))),
        fits_along(config, s.blocks, at_root, branch(s.blocks, new)),
        reorganised(config, s, tip_of(s), new) is Ok,
        who.no_duplicates(),
        covers_along(s.blocks, undo_path(s.blocks, tip_of(s), new), who),
        covers_along(s.blocks, apply_path(s.blocks, tip_of(s), new), who),
    ensures
        total((reorganised(config, s, tip_of(s), new)->Ok_0).accounts, who) == total(s.accounts, who) - minted_along(
            config,
            s.blocks,
            undo_path(s.blocks, tip_of(s), new),
        ) + minted_along(config, s.blocks, apply_path(s.blocks, tip_of(s), new)),
{
    let blocks = s.blocks;
    let old = tip_of(s);
    let at_fork = lemma_accounts_at_fork(config, at_root, s, new);
    let common = branch(blocks, at_height(blocks, new, fork_height(blocks, old, new)));
    let undo = undo_path(blocks, old, new);
    let winning = apply_path(blocks, old, new);
    lemma_fits_in_parts(config, blocks, at_root, common, winning);
    assert forall|i: int| 0 <= i < undo.reverse().len() implies covers(
        who,
        blocks[#[trigger] undo.reverse()[i]].transactions,
    ) && who.contains(blocks[undo.reverse()[i]].header.miner) by {
        assert(undo.reverse()[i] == undo[undo.len() - 1 - i]);
    }
    a_branch_creates_its_rewards_and_burns_its_fees(config, blocks, at_fork, undo.reverse(), who);
    a_branch_creates_its_rewards_and_burns_its_fees(config, blocks, at_fork, winning, who);
    lemma_minted_reversed(config, blocks, undo);
}

/// A move leaves every account alone that is not a miner's, a sender's or a
/// recipient's in a block undone or applied.
pub proof fn a_move_leaves_other_accounts_alone(config: GenesisConfig, s: StateView, new: Hash256, a: Address)
    requires
        reorganised(config, s, tip_of(s), new) is Ok,
        !touched_along(s.blocks, undo_path(s.blocks, tip_of(s), new), a),
        !touched_along(s.blocks, apply_path(s.blocks, tip_of(s), new), a),
    ensures
        (reorganised(config, s, tip_of(s), new)->Ok_0).accounts[a] == s.accounts[a],
{
    let undo = undo_path(s.blocks, tip_of(s), new);
    let apply = apply_path(s.blocks, tip_of(s), new);
    lemma_untouched_along(config, s.blocks, s.accounts, undo, a);
    lemma_untouched_along(config, s.blocks, undone_along(config, s.blocks, s.accounts, undo), apply, a);
}

/// Storing a block leaves the accounts settled, and what fits still fits.
proof fn lemma_settled_after_storing(
    config: GenesisConfig,
    at_root: Map<Address, Account>,
    s: StateView,
    hash: Hash256,
    block: BlockView,
)
    requires
        consistent(s),
        !s.blocks.contains_key(hash),
        settled(config, at_root, s),
        fits_along(config, s.blocks, at_root, branch(s.blocks, tip_of(s))),
    ensures
        settled(config, at_root, with_block(s, hash, block)),
        fits_along(config, s.blocks.insert(hash, block), at_root, branch(s.blocks.insert(hash, block), tip_of(s))),
{
    let stored = with_block(s, hash, block);
    let tip = tip_of(s);
    let root = s.heights[0];
    lemma_tip_known(s);
    let path = branch(s.blocks, tip);
    let height = height_of(s.blocks, tip);
    assert forall|i: int| 0 <= i < path.len() implies s.blocks[#[trigger] path[i]] == stored.blocks[path[i]]
        && branch(stored.blocks, tip)[i] == path[i] by {
        let back = (height - 1 - i) as nat;
        lemma_ancestor_known(s.blocks, root, tip, back);
        lemma_ancestor_stays(s.blocks, root, hash, block, tip, back);
    }
    assert(branch(stored.blocks, tip) =~= path);
    lemma_applied_alike(config, s.blocks, stored.blocks, at_root, path);
}

/// Whatever is submitted, the accounts stay what the canonical chain makes of those
/// at the root: a reorganisation leaves no trace of the losing branch. This holds as
/// long as no balance met its limit on the canonical chain.
pub proof fn the_accounts_follow_the_canonical_chain(
    config: GenesisConfig,
    at_root: Map<Address, Account>,
    s: StateView,
    dataset: Option<Seq<u8>>,
    block: BlockView,
    r: Result<SubmitOutcome, ChainError>,
    after: StateView,
)
    requires
        consistent(s),
        submission(config, s, dataset, block, r, after),
        complete(at_root),
        settled(config, at_root, s),
        fits_along(config, s.blocks, at_root, branch(s.blocks, tip_of(s))),
    ensures
        settled(config, at_root, after),
{
    if verdict(config, s, dataset, block) == Verdict::Valid {
        let hash = header_hash(block.header, dataset->0);
        let stored = with_block(s, hash, block);
        let tip = tip_of(s);
        lemma_store_keeps(s, hash, block);
        lemma_settled_after_storing(config, at_root, s, hash, block);
        if reorganised(config, stored, tip, hash) is Ok {
            a_move_keeps_the_accounts_settled(config, at_root, stored, hash);
        }
    }
}

} // verus!
