use ondris::block::{merkle_root, Block};
use ondris::chain::{Chain, SubmitOutcome, Verdict};
use ondris::difficulty::target_for_difficulty;
use ondris::error::ChainError;
use ondris::fork::{fork_paths, is_consistent};
use ondris::genesis::{genesis_block_hash, GenesisConfig};
use ondris::header::BlockHeader;
use ondris::ledger::{Overlay, TxFault};
use ondris::pow::{epoch_seed, meets_target, Dataset};
use ondris::primitives::{Address, Hash256, KeyPair};
use ondris::state::{Account, ChainState, StoreOp};
use ondris::transaction::Transaction;
use ondris::wallet::signed_transfer;
use std::sync::Arc;

fn key(n: u8) -> KeyPair {
    KeyPair::from_secret([n; 32])
}

fn config(premine: &[(Address, u64)]) -> GenesisConfig {
    let mut g = GenesisConfig::testnet_default();
    g.retarget_window = 4;
    g.initial_difficulty = 2;
    g.premine = premine.iter().map(|(a, n)| (a.to_text(), *n)).collect();
    g
}

/// A chain over a small dataset, so that mining takes no time.
fn chain_over(stored: Vec<StoreOp>, genesis: GenesisConfig) -> Chain {
    let mut chain = Chain::open(stored, genesis).unwrap();
    let dataset = Dataset::generate_with_sizes(0, Hash256::hash(b"small"), 256, 256);
    chain.dataset_cache = Some((0, Arc::new(dataset)));
    chain
}

fn child(parent: Hash256, height: u64, timestamp: u64, difficulty: u64, miner: Address, txs: Vec<Transaction>) -> Block {
    let hashes: Vec<Hash256> = txs.iter().map(|t| t.hash()).collect();
    let header = BlockHeader {
        height,
        prev_hash: parent,
        tx_root: merkle_root(&hashes),
        timestamp,
        difficulty,
        miner,
        nonce: 0,
    };
    Block { header, transactions: txs }
}

fn mine(chain: &mut Chain, mut block: Block) -> Block {
    let dataset = chain.dataset_for_height(block.header.height).unwrap();
    let target = target_for_difficulty(block.header.difficulty);
    while !meets_target(&block.header.id(&dataset), &target) {
        block.header.nonce += 1;
    }
    block
}

fn submit(chain: &mut Chain, block: Block) -> (Hash256, bool, Vec<Transaction>) {
    let block = mine(chain, block);
    match chain.submit_block(block).unwrap() {
        SubmitOutcome::Accepted { hash, reorged, requeue, .. } => (hash, reorged, requeue),
        other => panic!("expected Accepted, got {other:?}"),
    }
}

fn submit_side(chain: &mut Chain, block: Block) -> Hash256 {
    let block = mine(chain, block);
    match chain.submit_block(block).unwrap() {
        SubmitOutcome::SideBranch { hash, .. } => hash,
        other => panic!("expected SideBranch, got {other:?}"),
    }
}

fn root(chain: &Chain) -> Hash256 {
    chain.state.get_hash_by_height(0).unwrap()
}

#[test]
fn a_second_genesis_is_refused() {
    let mut chain = chain_over(vec![], config(&[]));
    let block = child(Hash256::zero(), 0, 0, 2, key(1).address(), vec![]);
    assert_eq!(chain.submit_block(block).unwrap_err(), ChainError::SecondGenesis);
}

#[test]
fn a_block_of_a_later_epoch_needs_its_boundary() {
    let mut chain = chain_over(vec![], config(&[]));
    let block = child(root(&chain), 2050, 0, 2, key(1).address(), vec![]);
    assert_eq!(
        chain.submit_block(block).unwrap_err(),
        ChainError::MissingEpochBoundary { height: 2048 }
    );
    assert!(chain.dataset_for_height(5000).is_err());
}

#[test]
fn a_wrong_root_is_refused() {
    let mut chain = chain_over(vec![], config(&[]));
    let mut block = child(root(&chain), 1, 0, 2, key(1).address(), vec![]);
    block.header.tx_root = Hash256([1u8; 32]);
    let block = mine(&mut chain, block);
    assert_eq!(chain.submit_block(block).unwrap_err(), ChainError::InvalidTxRoot);
}

#[test]
fn a_block_without_work_is_refused() {
    let mut chain = chain_over(vec![], config(&[]));
    let mut block = child(root(&chain), 1, 0, u64::MAX, key(1).address(), vec![]);
    block.header.nonce = 1;
    assert_eq!(chain.submit_block(block).unwrap_err(), ChainError::InsufficientWork);
}

#[test]
fn an_unsigned_transaction_is_refused() {
    let mut chain = chain_over(vec![], config(&[]));
    let tx = Transaction::new_unsigned(key(1).public(), key(2).address(), 1, 0, 0);
    let block = child(root(&chain), 1, 0, 2, key(1).address(), vec![tx]);
    let block = mine(&mut chain, block);
    assert_eq!(chain.submit_block(block).unwrap_err(), ChainError::InvalidSignature);
}

#[test]
fn a_height_that_does_not_follow_is_refused() {
    let mut chain = chain_over(vec![], config(&[]));
    let block = child(root(&chain), 2, 0, 2, key(1).address(), vec![]);
    let block = mine(&mut chain, block);
    assert_eq!(
        chain.submit_block(block).unwrap_err(),
        ChainError::HeightMismatch { height: 2, parent_height: 0 }
    );
}

#[test]
fn a_wrong_difficulty_is_refused() {
    let mut chain = chain_over(vec![], config(&[]));
    let block = child(root(&chain), 1, 0, 3, key(1).address(), vec![]);
    let block = mine(&mut chain, block);
    assert_eq!(
        chain.submit_block(block).unwrap_err(),
        ChainError::WrongDifficulty { stated: 3, expected: 2 }
    );
}

#[test]
fn difficulty_of_unknown_heights_is_an_error() {
    let chain = chain_over(vec![], config(&[]));
    assert_eq!(chain.compute_next_difficulty(4).unwrap(), 2);
    assert_eq!(
        chain.compute_next_difficulty(9).unwrap_err(),
        ChainError::MissingBlock { height: 8 }
    );
    let mut chain = chain;
    let block = child(root(&chain), 8, 0, 2, key(1).address(), vec![]);
    chain.state.store_block(Hash256([8u8; 32]), &block);
    chain.state.set_canonical_height(8, Hash256([8u8; 32]));
    assert_eq!(chain.compute_next_difficulty(9).unwrap_err(), ChainError::MissingWindowStart);
    assert_eq!(
        chain.compute_next_difficulty(10).unwrap_err(),
        ChainError::MissingBlock { height: 9 }
    );
    // Within a window only the block before counts.
    let block = child(root(&chain), 9, 0, 7, key(1).address(), vec![]);
    chain.state.store_block(Hash256([9u8; 32]), &block);
    chain.state.set_canonical_height(9, Hash256([9u8; 32]));
    assert_eq!(chain.compute_next_difficulty(10).unwrap(), 7);
}

#[test]
fn errors_say_what_is_wrong() {
    let h = Hash256([0xab; 32]);
    let at = |fault| ChainError::InvalidTransaction { block: h, height: 7, fault };
    for (error, text) in [
        (ChainError::InvalidPremine { entry: 3 }, "premine entry 3 names no address".to_string()),
        (ChainError::NotInitialized, "chain not initialized".to_string()),
        (
            ChainError::MissingEpochBoundary { height: 2048 },
            "epoch boundary block 2048 not found".to_string(),
        ),
        (ChainError::MissingBlock { height: 0 }, "block 0 not found".to_string()),
        (ChainError::MissingWindowStart, "window start block not found".to_string()),
        (ChainError::SecondGenesis, "refusing to accept a second genesis block".to_string()),
        (ChainError::InvalidTxRoot, "invalid tx_root".to_string()),
        (
            ChainError::InsufficientWork,
            "PoW does not meet the difficulty target".to_string(),
        ),
        (ChainError::InvalidSignature, "invalid transaction signature".to_string()),
        (
            ChainError::HeightMismatch { height: 5, parent_height: 3 },
            "block height 5 does not follow its stated parent (height 3)".to_string(),
        ),
        (
            ChainError::WrongDifficulty { stated: 1, expected: 22 },
            "incorrect difficulty for this branch/height: got 1, expected 22".to_string(),
        ),
        (
            ChainError::ShortBranch,
            "not enough ancestors on this branch to retarget difficulty".to_string(),
        ),
        (
            ChainError::MissingParentWork { parent: h },
            format!("missing chainwork for known parent {}", "ab".repeat(32)),
        ),
        (ChainError::MissingTipWork, "missing chainwork for current tip".to_string()),
        (ChainError::WorkOutOfRange, "cumulative work out of range".to_string()),
        (ChainError::UnknownBlock { hash: h }, format!("missing block {}", "ab".repeat(32))),
        (ChainError::MissingAncestor { hash: h }, format!("missing ancestor {}", "ab".repeat(32))),
        (ChainError::EndlessBranch, "a branch runs in circles".to_string()),
        (
            at(TxFault::Nonce),
            format!(
                "reorg to {}: invalid tx nonce in block 7 (rolled back the wrong way?)",
                "ab".repeat(32)
            ),
        ),
        (
            at(TxFault::Balance),
            format!("reorg to {}: insufficient balance for a transaction in block 7", "ab".repeat(32)),
        ),
        (
            at(TxFault::NonceExhausted),
            format!("reorg to {}: exhausted tx nonce in block 7", "ab".repeat(32)),
        ),
    ] {
        assert_eq!(error.message(), text);
    }
}

#[test]
fn a_premine_entry_must_be_an_address() {
    let mut g = config(&[(key(1).address(), 5)]);
    g.premine.push(("ondrzz".to_string(), 1));
    match Chain::open(vec![], g) {
        Err(e) => assert_eq!(e, ChainError::InvalidPremine { entry: 1 }),
        Ok(_) => panic!("the premine is invalid"),
    }
}

#[test]
fn the_premine_is_credited() {
    let (a, b) = (key(1).address(), key(2).address());
    let chain = chain_over(vec![], config(&[(a, 5), (b, 7), (a, 10)]));
    assert_eq!(chain.state.get_account(&a), Account { balance: 15, nonce: 0 });
    assert_eq!(chain.state.get_account(&b).balance, 7);
    assert_eq!(chain.state.get_account(&key(3).address()), Account::default());
}

#[test]
fn genesis_is_fixed_by_name_and_time() {
    let mut g = config(&[]);
    g.network_name = "net".to_string();
    g.timestamp = 120;
    let chain = chain_over(vec![], g);
    let expected = Hash256::hash(b"ONDRIS_GENESIS:net:120");
    assert_eq!(root(&chain), expected);
    assert_eq!(genesis_block_hash(&chain.genesis), expected);
    let block = chain.state.get_block_by_height(0).unwrap();
    assert_eq!(block.header.prev_hash, Hash256::zero());
    assert_eq!(block.header.timestamp, 120);
    assert_eq!(block.header.miner, Address([0u8; 20]));
    assert_eq!(chain.state.get_chainwork(&expected), Some(2));
}

#[test]
fn a_store_with_a_tip_is_opened_as_it_is() {
    let tip = Hash256([1u8; 32]);
    let mut chain = chain_over(vec![StoreOp::SetTip(3, tip)], config(&[(key(1).address(), 5)]));
    assert_eq!(chain.state.tip(), Some((3, tip)));
    assert_eq!(chain.state.get_hash_by_height(0), None);
    assert_eq!(chain.state.get_account(&key(1).address()), Account::default());
    assert!(chain.state.flush().is_empty());
    assert!(!is_consistent(&chain.state));
    let (block, _) = chain.work_template_at(key(1).address(), vec![], 9).unwrap();
    assert_eq!((block.header.height, block.header.prev_hash, block.header.difficulty), (4, tip, 2));
    let block = mine(&mut chain, block);
    match chain.submit_block(block).unwrap() {
        SubmitOutcome::Orphan { missing_parent } => assert_eq!(missing_parent, tip),
        other => panic!("expected Orphan, got {other:?}"),
    }
}

#[test]
fn without_a_tip_there_is_nothing_to_build_on() {
    let parent = Hash256([7u8; 32]);
    let mut chain = chain_over(vec![], config(&[]));
    chain.state = ChainState::open(vec![
        StoreOp::StoreBlock(parent, child(Hash256::zero(), 0, 0, 2, key(1).address(), vec![])),
        StoreOp::SetChainwork(parent, 2),
    ]);
    assert_eq!(
        chain.work_template(key(1).address(), vec![]).err(),
        Some(ChainError::NotInitialized)
    );
    let block = child(parent, 1, 0, 2, key(1).address(), vec![]);
    let block = mine(&mut chain, block);
    let hash = block.header.id(&chain.dataset_for_height(1).unwrap());
    assert_eq!(chain.submit_block(block).unwrap_err(), ChainError::NotInitialized);
    // The block is stored before the tip is looked at.
    assert_eq!(chain.state.get_chainwork(&hash), Some(4));
}

/// Submits a child of the block `parent`, which is stored at height 1, to a chain
/// with the given changes.
fn submitted_after(changes: Vec<StoreOp>, window: u64, parent: Hash256) -> Result<SubmitOutcome, ChainError> {
    let mut g = config(&[]);
    g.retarget_window = window;
    let first = child(Hash256([3u8; 32]), 1, 0, 2, key(1).address(), vec![]);
    let mut stored = vec![
        StoreOp::SetTip(0, Hash256([4u8; 32])),
        StoreOp::SetChainwork(Hash256([4u8; 32]), 1),
        StoreOp::StoreBlock(parent, first),
        StoreOp::SetChainwork(parent, 5),
    ];
    stored.extend(changes);
    let mut chain = chain_over(stored, g);
    let block = child(parent, 2, 0, 2, key(1).address(), vec![]);
    let block = mine(&mut chain, block);
    chain.submit_block(block)
}

#[test]
fn a_damaged_store_shows_when_it_is_walked() {
    let (parent, tip) = (Hash256([2u8; 32]), Hash256([4u8; 32]));
    let at = |prev: Hash256, height: u64| child(prev, height, 0, 2, key(1).address(), vec![]);
    let after = |changes: Vec<StoreOp>| submitted_after(changes, 4, parent).map(|_| ());
    // The parent of `parent` is not stored.
    assert_eq!(submitted_after(vec![], 1, parent).unwrap_err(), ChainError::ShortBranch);
    // The tip is not stored.
    assert_eq!(after(vec![]).unwrap_err(), ChainError::UnknownBlock { hash: tip });
    // The walk from either side comes to a block that is not stored.
    assert_eq!(
        after(vec![StoreOp::StoreBlock(tip, at(Hash256([9u8; 32]), 0))]).unwrap_err(),
        ChainError::MissingAncestor { hash: Hash256([3u8; 32]) }
    );
    assert_eq!(
        after(vec![StoreOp::StoreBlock(tip, at(Hash256([9u8; 32]), 3))]).unwrap_err(),
        ChainError::MissingAncestor { hash: Hash256([9u8; 32]) }
    );
    assert_eq!(
        after(vec![StoreOp::StoreBlock(tip, at(Hash256([9u8; 32]), 1))]).unwrap_err(),
        ChainError::MissingAncestor { hash: Hash256([9u8; 32]) }
    );
    // A block that is its own parent.
    assert_eq!(
        after(vec![StoreOp::StoreBlock(tip, at(tip, 3))]).unwrap_err(),
        ChainError::EndlessBranch
    );
    // Two branches that run in circles beside each other.
    assert_eq!(
        after(vec![
            StoreOp::StoreBlock(tip, at(tip, 1)),
            StoreOp::StoreBlock(parent, at(parent, 1)),
        ])
        .unwrap_err(),
        ChainError::EndlessBranch
    );
    // Branches that meet where heights do not follow one another.
    assert_eq!(
        after(vec![
            StoreOp::StoreBlock(tip, at(parent, 3)),
            StoreOp::StoreBlock(parent, at(Hash256([3u8; 32]), 1)),
        ]),
        Ok(())
    );
}

#[test]
fn work_is_needed_on_record() {
    let (parent, tip) = (Hash256([2u8; 32]), Hash256([4u8; 32]));
    let submitted = |stored: Vec<StoreOp>| {
        let mut chain = chain_over(stored, config(&[]));
        let block = child(parent, 2, 0, 2, key(1).address(), vec![]);
        let block = mine(&mut chain, block);
        let hash = block.header.id(&chain.dataset_for_height(2).unwrap());
        (chain.submit_block(block), chain.state.get_chainwork(&hash))
    };
    let stored = vec![
        StoreOp::SetTip(0, tip),
        StoreOp::StoreBlock(parent, child(tip, 1, 0, 2, key(1).address(), vec![])),
    ];
    let (r, work) = submitted(stored.clone());
    assert_eq!(r.unwrap_err(), ChainError::MissingParentWork { parent });
    assert_eq!(work, None);
    let with = |work: u128| {
        let mut stored = stored.clone();
        stored.push(StoreOp::SetChainwork(parent, work));
        submitted(stored)
    };
    let (r, work) = with(5);
    assert_eq!(r.unwrap_err(), ChainError::MissingTipWork);
    assert_eq!(work, Some(7));
    let (r, work) = with(u128::MAX - 1);
    assert_eq!(r.unwrap_err(), ChainError::WorkOutOfRange);
    assert_eq!(work, None);
    let (r, work) = with(u128::MAX - 2);
    assert_eq!(r.unwrap_err(), ChainError::MissingTipWork);
    assert_eq!(work, Some(u128::MAX));
}

#[test]
fn each_kind_of_damage_is_noticed() {
    let mut chain = chain_over(vec![], config(&[]));
    let genesis = root(&chain);
    submit(&mut chain, child(genesis, 1, 1, 2, key(1).address(), vec![]));
    let stored = chain.state.flush();
    let tip = chain.state.tip().unwrap().1;
    let spoil = |op: StoreOp| {
        let mut ops = stored.clone();
        ops.push(op);
        is_consistent(&ChainState::open(ops))
    };
    assert!(is_consistent(&ChainState::open(stored.clone())));
    assert!(!spoil(StoreOp::SetChainwork(tip, 5)));
    assert!(!spoil(StoreOp::SetCanonicalHeight(2, tip)));
    assert!(!spoil(StoreOp::SetCanonicalHeight(1, genesis)));
    assert!(!spoil(StoreOp::RemoveCanonicalHeight(0)));
    assert!(!spoil(StoreOp::SetTip(2, tip)));
    assert!(!spoil(StoreOp::SetTip(0, genesis)));
    let stray = child(Hash256([9u8; 32]), 7, 0, 2, key(1).address(), vec![]);
    assert!(!spoil(StoreOp::StoreBlock(Hash256([8u8; 32]), stray)));
    assert!(spoil(StoreOp::SetAccount(key(1).address(), Account { balance: 1, nonce: 1 })));
}

#[test]
fn a_chain_reopens_as_it_was() {
    let (a, b) = (key(1), key(2).address());
    let mut chain = chain_over(vec![], config(&[(a.address(), 100)]));
    let mut stored = chain.state.flush();
    let tx = signed_transfer(&a, b, 30, 5, 0);
    let at = root(&chain);
    let (hash, _, _) = submit(&mut chain, child(at, 1, 1, 2, b, vec![tx]));
    let pending = signed_transfer(&a, b, 1, 0, 1);
    chain.state.mempool_insert(&pending);
    stored.extend(chain.state.flush());
    assert!(chain.state.flush().is_empty());

    let again = chain_over(stored, config(&[(a.address(), 100)]));
    assert_eq!(again.state.tip(), Some((1, hash)));
    assert_eq!(again.state.get_account(&a.address()), Account { balance: 65, nonce: 1 });
    assert_eq!(again.state.get_account(&b).balance, 30 + again.block_reward(1));
    assert_eq!(again.state.get_chainwork(&hash), Some(4));
    assert_eq!(again.state.get_block(&hash).unwrap().transactions, vec![tx]);
    assert_eq!(again.state.mempool_all(), vec![pending]);
}

#[test]
fn a_known_block_changes_nothing() {
    let mut chain = chain_over(vec![], config(&[]));
    let at = root(&chain);
    let block = child(at, 1, 1, 2, key(1).address(), vec![]);
    let block = mine(&mut chain, block);
    chain.submit_block(block.clone()).unwrap();
    let before = chain.state.get_account(&key(1).address());
    assert!(matches!(chain.submit_block(block).unwrap(), SubmitOutcome::AlreadyKnown));
    assert_eq!(chain.state.get_account(&key(1).address()), before);
}

#[test]
fn a_reorganisation_hands_back_what_is_not_on_the_new_branch() {
    let (a, b, c) = (key(1), key(2).address(), key(3).address());
    let mut chain = chain_over(vec![], config(&[(a.address(), 100)]));
    let at = root(&chain);
    let shared = signed_transfer(&a, b, 10, 1, 0);
    let lost = signed_transfer(&a, c, 20, 2, 1);
    submit(&mut chain, child(at, 1, 1, 2, b, vec![shared, lost]));
    assert_eq!(chain.state.get_account(&a.address()), Account { balance: 67, nonce: 2 });

    let b1 = submit_side(&mut chain, child(at, 1, 2, 2, c, vec![]));
    assert_eq!(chain.state.get_account(&a.address()), Account { balance: 67, nonce: 2 });
    let (b2, reorged, requeue) = submit(&mut chain, child(b1, 2, 3, 2, c, vec![shared]));
    assert!(reorged);
    assert_eq!(requeue, vec![lost]);

    assert_eq!(chain.state.tip(), Some((2, b2)));
    assert_eq!(chain.state.get_hash_by_height(1), Some(b1));
    assert_eq!(chain.state.get_hash_by_height(2), Some(b2));
    assert_eq!(chain.state.get_account(&a.address()), Account { balance: 89, nonce: 1 });
    assert_eq!(chain.state.get_account(&b).balance, 10);
    assert_eq!(
        chain.state.get_account(&c).balance,
        chain.block_reward(1) + chain.block_reward(2)
    );
    assert!(is_consistent(&chain.state));
}

#[test]
fn a_longer_branch_can_lose_blocks_above_the_new_tip() {
    // Three light blocks against one heavy one: after the retarget the branches differ
    // in difficulty, and the index must not keep the heights above the new tip.
    let m = key(1).address();
    let mut g = config(&[]);
    g.retarget_window = 1;
    g.target_block_time_secs = 40;
    let mut chain = chain_over(vec![], g);
    let at = root(&chain);
    let time = chain.genesis.timestamp;
    // A1 comes very late, so what follows it is easy.
    let (a1, _, _) = submit(&mut chain, child(at, 1, time + 1000, 2, m, vec![]));
    let (a2, _, _) = submit(&mut chain, child(a1, 2, time + 2000, 1, m, vec![]));
    let (a3, _, _) = submit(&mut chain, child(a2, 3, time + 3000, 1, m, vec![]));
    assert_eq!(chain.state.get_chainwork(&a3), Some(6));
    // B1 comes at once, so what follows it is four times as hard.
    let b1 = submit_side(&mut chain, child(at, 1, time + 1, 2, m, vec![]));
    let (b2, reorged, _) = submit(&mut chain, child(b1, 2, time + 2, 8, m, vec![]));
    assert!(reorged);
    assert_eq!(chain.state.get_chainwork(&b2), Some(12));
    assert_eq!(chain.state.tip(), Some((2, b2)));
    assert_eq!(chain.state.get_hash_by_height(3), None);
    assert!(is_consistent(&chain.state));
    let (undo, apply) = fork_paths(&chain.state, b2, a3).unwrap();
    assert_eq!(undo, vec![b2, b1]);
    assert_eq!(apply, vec![a1, a2, a3]);
    assert_eq!(
        chain.state.get_account(&m).balance,
        chain.block_reward(1) + chain.block_reward(2)
    );
}

#[test]
fn a_branch_with_a_bad_transaction_moves_nothing() {
    let (a, b, c) = (key(1), key(2).address(), key(3).address());
    let mut chain = chain_over(vec![], config(&[(a.address(), 100)]));
    let at = root(&chain);
    let (a1, _, _) = submit(&mut chain, child(at, 1, 1, 2, b, vec![signed_transfer(&a, b, 10, 1, 0)]));
    for (time, tx, fault) in [
        (2, signed_transfer(&a, b, 10, 1, 5), TxFault::Nonce),
        (3, signed_transfer(&a, b, 100, 1, 0), TxFault::Balance),
        (4, signed_transfer(&a, b, u64::MAX, 1, 0), TxFault::Balance),
    ] {
        let b1 = submit_side(&mut chain, child(at, 1, time, 2, c, vec![tx]));
        let b2 = child(b1, 2, time, 2, c, vec![]);
        let b2 = mine(&mut chain, b2);
        assert_eq!(
            chain.submit_block(b2).unwrap_err(),
            ChainError::InvalidTransaction { block: b1, height: 1, fault }
        );
        assert_eq!(chain.state.tip(), Some((1, a1)));
        assert_eq!(chain.state.get_hash_by_height(2), None);
        assert_eq!(chain.state.get_account(&a.address()), Account { balance: 89, nonce: 1 });
        assert_eq!(chain.state.get_account(&c).balance, 0);
        assert!(is_consistent(&chain.state));
    }
}

#[test]
fn an_exhausted_nonce_is_refused() {
    let (a, b) = (key(1), key(2).address());
    let mut chain = chain_over(vec![], config(&[]));
    chain.state.set_account(&a.address(), &Account { balance: 10, nonce: u64::MAX });
    let at = root(&chain);
    let block = child(at, 1, 1, 2, b, vec![signed_transfer(&a, b, 1, 0, u64::MAX)]);
    let block = mine(&mut chain, block);
    let hash = block.header.id(&chain.dataset_for_height(1).unwrap());
    assert_eq!(
        chain.submit_block(block).unwrap_err(),
        ChainError::InvalidTransaction { block: hash, height: 1, fault: TxFault::NonceExhausted }
    );
    assert!(chain.state.has_block(&hash));
}

#[test]
fn templates_follow_the_tip_and_are_accepted() {
    let (a, m) = (key(1), key(2).address());
    let mut chain = chain_over(vec![], config(&[(a.address(), 50)]));
    let start = chain.genesis.timestamp;
    for height in 1..=9u64 {
        let tx = signed_transfer(&a, m, 1, 0, height - 1);
        let (block, _) = chain.work_template_at(m, vec![tx], start + 10 * height).unwrap();
        assert_eq!(block.header.height, height);
        assert_eq!(block.header.prev_hash, chain.state.tip().unwrap().1);
        assert_eq!(block.header.nonce, 0);
        assert_eq!(block.header.tx_root, tx.hash());
        // Blocks come three times as fast as planned, and every four of them the
        // difficulty is readjusted: 2 * 120 / 40, then 6 * 120 / 40.
        let expected = match height {
            1..=4 => 2,
            5..=8 => 6,
            _ => 18,
        };
        assert_eq!(block.header.difficulty, expected);
        let (_, reorged, requeue) = submit(&mut chain, block);
        assert!(!reorged);
        assert!(requeue.is_empty());
    }
    assert_eq!(chain.state.get_account(&a.address()), Account { balance: 41, nonce: 9 });
    assert_eq!(chain.state.get_account(&m).balance, 9 + 9 * 5_000_000_000);
}

#[test]
fn difficulty_is_readjusted_once_per_window() {
    let m = key(1).address();
    let mut chain = chain_over(vec![], config(&[]));
    let start = chain.genesis.timestamp;
    // Every block comes at another pace.
    let mut time = start;
    for height in 1..=14u64 {
        time += 3 + 2 * (height % 5);
        let (block, _) = chain.work_template_at(m, vec![], time).unwrap();
        submit(&mut chain, block);
    }
    let list: Vec<u64> = (5..=15).map(|h| chain.compute_next_difficulty(h).unwrap()).collect();
    for n in 0..list.len() - 3 {
        let changes = list[n..n + 4].windows(2).filter(|w| w[0] != w[1]).count();
        assert!(changes <= 1, "more than one change in {:?}", &list[n..n + 4]);
    }
    assert_eq!(list[0], 7);
    assert_eq!(list[4], 28);
}

#[test]
fn judging_goes_by_what_it_is_given() {
    let mut chain = chain_over(vec![], config(&[]));
    let at = root(&chain);
    let header = child(at, 1, 1, 2, key(1).address(), vec![]).header;
    let low = Hash256([0u8; 32]);
    let high = Hash256([0xff; 32]);
    let zero = Hash256::zero();
    assert_eq!(chain.judge(&header, &at, &zero, true), Verdict::Known);
    assert_eq!(chain.judge(&header, &low, &zero, true), Verdict::Valid);
    assert_eq!(
        chain.judge(&header, &low, &high, true),
        Verdict::Refused(ChainError::InvalidTxRoot)
    );
    assert_eq!(
        chain.judge(&header, &high, &zero, true),
        Verdict::Refused(ChainError::InsufficientWork)
    );
    assert_eq!(
        chain.judge(&header, &low, &zero, false),
        Verdict::Refused(ChainError::InvalidSignature)
    );
    submit(&mut chain, child(at, 1, 1, 2, key(1).address(), vec![]));
    // Not heavier than the tip by now, but no less valid.
    assert_eq!(chain.judge(&header, &low, &zero, true), Verdict::Valid);
}

#[test]
fn the_dataset_is_kept_for_its_epoch() {
    let mut chain = chain_over(vec![], config(&[]));
    let first = chain.dataset_for_height(1).unwrap();
    let second = chain.dataset_for_height(2047).unwrap();
    assert!(Arc::ptr_eq(&first, &second));
    assert_eq!(first.epoch, 0);
}

#[test]
fn a_dataset_is_grown_for_its_epoch() {
    let mut chain = Chain::open(vec![], config(&[])).unwrap();
    let boundary = Hash256([5u8; 32]);
    chain.state.set_canonical_height(2048, boundary);
    let dataset = chain.dataset_for_height(2100).unwrap();
    assert_eq!(dataset.epoch, 1);
    let grown = Dataset::generate(1, epoch_seed(Some(boundary)));
    assert!(dataset.bytes() == grown.bytes());
    assert!(Arc::ptr_eq(&dataset, &chain.dataset_for_height(4095).unwrap()));
    assert_eq!(chain.dataset_for_height(0).unwrap().epoch, 0);
}

#[test]
fn moving_away_and_back_restores_the_accounts() {
    let (a, b, c) = (key(1), key(2).address(), key(3).address());
    let everyone = [a.address(), b, c];
    let mut chain = chain_over(vec![], config(&[(a.address(), 100)]));
    let at = root(&chain);
    let pay = |amount, nonce| signed_transfer(&a, b, amount, 2, nonce);
    let (a1, _, _) = submit(&mut chain, child(at, 1, 1, 2, b, vec![pay(10, 0), pay(20, 1)]));
    let before: Vec<Account> = everyone.iter().map(|x| chain.state.get_account(x)).collect();
    let total = |chain: &Chain| -> u64 { everyone.iter().map(|x| chain.state.get_account(x).balance).sum() };
    let in_all = total(&chain);

    let b1 = submit_side(&mut chain, child(at, 1, 2, 2, c, vec![pay(5, 0)]));
    let (b2, reorged, _) = submit(&mut chain, child(b1, 2, 3, 2, c, vec![]));
    assert!(reorged);
    // One block with fees of 4 undone; two blocks with fees of 2 applied.
    let reward = chain.block_reward(1);
    assert_eq!(total(&chain), in_all - (reward - 4) + (2 * reward - 2));

    // Back to the first branch, with two empty blocks of a fourth miner on top.
    let d = key(4).address();
    let a2 = submit_side(&mut chain, child(a1, 2, 4, 2, d, vec![]));
    let (a3, reorged, requeue) = submit(&mut chain, child(a2, 3, 5, 2, d, vec![]));
    assert!(reorged);
    assert_eq!(requeue, vec![pay(5, 0)]);
    let after: Vec<Account> = everyone.iter().map(|x| chain.state.get_account(x)).collect();
    assert_eq!(after, before);
    assert_eq!(chain.state.get_account(&d).balance, chain.block_reward(2) + chain.block_reward(3));
    let index: Vec<Option<Hash256>> = (0..5).map(|h| chain.state.get_hash_by_height(h)).collect();
    assert_eq!(index, vec![Some(at), Some(a1), Some(a2), Some(a3), None]);
    assert!(chain.state.has_block(&b2));
}

#[test]
fn undoing_a_transfer_gives_the_accounts_back() {
    let (a, b) = (key(1), key(2).address());
    let mut state = ChainState::open(vec![]);
    state.credit(&a.address(), 100);
    state.credit(&b, 7);
    let tx = signed_transfer(&a, b, 30, 5, 0);
    let mut overlay = Overlay::new(&state);
    assert_eq!(overlay.apply_transaction(&tx), Ok(()));
    assert_eq!(overlay.apply_transaction(&tx), Err(TxFault::Nonce));
    overlay.undo_transaction(&tx);
    let changes = overlay.into_changes();
    assert_eq!(*changes.get(&a.address()).unwrap(), Account { balance: 100, nonce: 0 });
    assert_eq!(*changes.get(&b).unwrap(), Account { balance: 7, nonce: 0 });
}

#[test]
fn balances_stop_at_their_limits() {
    let a = key(1).address();
    let mut state = ChainState::open(vec![]);
    state.credit(&a, u64::MAX);
    state.credit(&a, 1);
    assert_eq!(state.get_account(&a).balance, u64::MAX);
    state.debit(&a, 3);
    assert_eq!(state.get_account(&a).balance, u64::MAX - 3);
    state.debit(&a, u64::MAX);
    assert_eq!(state.get_account(&a).balance, 0);
}

#[test]
fn the_state_keeps_what_is_set() {
    let mut state = ChainState::open(vec![]);
    let (h, g) = (Hash256([1u8; 32]), Hash256([2u8; 32]));
    assert_eq!(state.tip(), None);
    state.set_tip(5, h);
    assert_eq!(state.tip(), Some((5, h)));
    state.set_chainwork(h, 1 << 100);
    assert_eq!(state.get_chainwork(&h), Some(1 << 100));
    assert_eq!(state.get_chainwork(&g), None);
    state.set_canonical_height(9, h);
    assert_eq!(state.get_hash_by_height(9), Some(h));
    assert!(state.get_block_by_height(9).is_none());
    let block = child(g, 9, 1, 2, key(1).address(), vec![]);
    state.store_block(h, &block);
    assert!(state.has_block(&h) && !state.has_block(&g));
    assert_eq!(state.get_block_by_height(9).unwrap().header, block.header);
    state.remove_canonical_height(9);
    assert_eq!(state.get_hash_by_height(9), None);
}

#[test]
fn a_block_adds_its_reward_and_takes_its_fees_away() {
    let (a, b, c) = (key(1), key(2).address(), key(3).address());
    let mut chain = chain_over(vec![], config(&[(a.address(), 100)]));
    let at = root(&chain);
    let txs = vec![
        signed_transfer(&a, b, 10, 3, 0),
        signed_transfer(&a, a.address(), 20, 4, 1),
        signed_transfer(&a, c, 5, 0, 2),
    ];
    submit(&mut chain, child(at, 1, 1, 2, c, txs));
    let total: u64 = [a.address(), b, c].iter().map(|x| chain.state.get_account(x).balance).sum();
    assert_eq!(total, 100 + chain.block_reward(1) - 7);
    assert_eq!(chain.state.get_account(&a.address()), Account { balance: 78, nonce: 3 });
}
