use ondris::block::{merkle_root, Block};
use ondris::chain::{now_secs, Chain, SubmitOutcome};
use ondris::difficulty::target_for_difficulty;
use ondris::genesis::GenesisConfig;
use ondris::header::BlockHeader;
use ondris::pow::meets_target;
use ondris::primitives::{Address, Hash256, KeyPair};
use ondris::transaction::Transaction;

fn test_genesis() -> GenesisConfig {
    let mut g = GenesisConfig::testnet_default();
    g.retarget_window = 4;
    // Deliberately tiny difficulty so the test mines a real block in a handful of
    // iterations rather than several seconds.
    g.initial_difficulty = 2;
    g
}

fn generate() -> KeyPair {
    KeyPair::from_secret(rand::random::<[u8; 32]>())
}

#[test]
fn mempool_survives_a_node_restart() {
    let sender = generate();
    let mut tx = Transaction::new_unsigned(sender.public(), sender.address(), 1, 0, 0);
    tx.sign(&sender);
    let tx_hash = tx.hash();

    let stored = {
        let mut chain = Chain::open(vec![], test_genesis()).unwrap();
        chain.state.mempool_insert(&tx);
        chain.state.flush()
        // `chain` drops here, simulating the node process exiting.
    };

    let mut reopened = Chain::open(stored, test_genesis()).unwrap();
    let pending = reopened.state.mempool_all();
    assert_eq!(pending.len(), 1, "the transaction must survive a restart");
    assert_eq!(pending[0].hash(), tx_hash);

    reopened.state.mempool_remove(&tx_hash);
    assert!(reopened.state.mempool_all().is_empty());
}

#[test]
fn genesis_initializes_tip_at_zero() {
    let chain = Chain::open(vec![], test_genesis()).unwrap();
    let (height, _) = chain.state.tip().unwrap();
    assert_eq!(height, 0);
}

#[test]
fn mine_and_submit_one_block_credits_miner() {
    let mut chain = Chain::open(vec![], test_genesis()).unwrap();
    let miner_key = generate();
    let miner_addr = miner_key.address();

    let (mut block, dataset) = chain.work_template(miner_addr, vec![]).unwrap();

    // Actually mine: increment the nonce until it satisfies the target.
    let target = target_for_difficulty(block.header.difficulty);
    loop {
        let hash = block.header.id(&dataset);
        if meets_target(&hash, &target) {
            break;
        }
        block.header.nonce += 1;
    }

    let outcome = chain.submit_block(block).unwrap();
    let hash = match outcome {
        SubmitOutcome::Accepted { hash, height, reorged, .. } => {
            assert_eq!(height, 1);
            assert!(!reorged, "extending an empty chain isn't a reorg");
            hash
        }
        other => panic!("expected Accepted, got {other:?}"),
    };
    let (height, tip_hash) = chain.state.tip().unwrap();
    assert_eq!(height, 1);
    assert_eq!(tip_hash, hash);

    let account = chain.state.get_account(&miner_addr);
    assert_eq!(account.balance, chain.block_reward(1));
}

/// Mines a valid child of `prev_hash` at `height` with a fixed difficulty, for
/// constructing competing branches in tests.
fn mine_child(chain: &mut Chain, prev_hash: Hash256, height: u64, difficulty: u64, miner: Address) -> Block {
    let dataset = chain.dataset_for_height(height).unwrap();
    let header = BlockHeader {
        height,
        prev_hash,
        tx_root: merkle_root(&[]),
        timestamp: now_secs(),
        difficulty,
        miner,
        nonce: 0,
    };
    let mut block = Block { header, transactions: vec![] };
    let target = target_for_difficulty(difficulty);
    loop {
        let hash = block.header.id(&dataset);
        if meets_target(&hash, &target) {
            return block;
        }
        block.header.nonce += 1;
    }
}

#[test]
fn unknown_parent_is_reported_as_orphan_not_an_error() {
    let mut chain = Chain::open(vec![], test_genesis()).unwrap();
    let miner_addr = generate().address();
    let difficulty = chain.compute_next_difficulty(1).unwrap();
    let missing = Hash256::hash(b"a parent we never stored");
    // Mine a genuinely valid block ON TOP of the missing parent: prev_hash is part of
    // what gets hashed, so it has to be present from the start rather than swapped in
    // after mining.
    let block = mine_child(&mut chain, missing, 1, difficulty, miner_addr);

    let outcome = chain.submit_block(block).unwrap();
    match outcome {
        SubmitOutcome::Orphan { missing_parent } => assert_eq!(missing_parent, missing),
        other => panic!("expected Orphan, got {other:?}"),
    }
    // An orphan must never move the tip.
    let (height, _) = chain.state.tip().unwrap();
    assert_eq!(height, 0);
}

#[test]
fn equal_work_side_branch_does_not_move_the_tip() {
    let mut chain = Chain::open(vec![], test_genesis()).unwrap();
    let (_, genesis_hash) = chain.state.tip().unwrap();
    let miner_a = generate().address();
    let miner_b = generate().address();
    let difficulty = chain.compute_next_difficulty(1).unwrap();

    let a1 = mine_child(&mut chain, genesis_hash, 1, difficulty, miner_a);
    let a1_outcome = chain.submit_block(a1).unwrap();
    let a1_hash = match a1_outcome {
        SubmitOutcome::Accepted { hash, .. } => hash,
        other => panic!("expected Accepted, got {other:?}"),
    };

    let b1 = mine_child(&mut chain, genesis_hash, 1, difficulty, miner_b);
    let b1_outcome = chain.submit_block(b1).unwrap();
    assert!(
        matches!(b1_outcome, SubmitOutcome::SideBranch { .. }),
        "equal work must not win: {b1_outcome:?}"
    );

    let (height, tip_hash) = chain.state.tip().unwrap();
    assert_eq!(height, 1);
    assert_eq!(tip_hash, a1_hash, "first-seen branch should still be the tip on a tie");
}

#[test]
fn heavier_branch_triggers_a_reorg_and_rolls_back_the_loser() {
    let mut chain = Chain::open(vec![], test_genesis()).unwrap();
    let (_, genesis_hash) = chain.state.tip().unwrap();
    let miner_a = generate().address();
    let miner_b = generate().address();
    let d1 = chain.compute_next_difficulty(1).unwrap();

    // Branch A: genesis -> A1 (one block of work).
    let a1 = mine_child(&mut chain, genesis_hash, 1, d1, miner_a);
    match chain.submit_block(a1).unwrap() {
        SubmitOutcome::Accepted { height, reorged, .. } => {
            assert_eq!(height, 1);
            assert!(!reorged);
        }
        other => panic!("expected Accepted, got {other:?}"),
    }
    assert_eq!(chain.state.get_account(&miner_a).balance, chain.block_reward(1));

    // Branch B: genesis -> B1 -> B2 (two blocks of work, heavier than A).
    let b1 = mine_child(&mut chain, genesis_hash, 1, d1, miner_b);
    let b1_hash = match chain.submit_block(b1.clone()).unwrap() {
        SubmitOutcome::SideBranch { hash, .. } => hash,
        other => panic!("expected SideBranch, got {other:?}"),
    };
    // Tip hasn't moved yet: still branch A's block, miner_a still credited.
    assert_eq!(chain.state.get_account(&miner_a).balance, chain.block_reward(1));

    let b2 = mine_child(&mut chain, b1_hash, 2, d1, miner_b);
    match chain.submit_block(b2).unwrap() {
        SubmitOutcome::Accepted { height, reorged, requeue, .. } => {
            assert_eq!(height, 2);
            assert!(reorged, "B2 should have reorganized the chain away from A1");
            assert!(requeue.is_empty(), "neither branch had any transactions here");
        }
        other => panic!("expected Accepted, got {other:?}"),
    }

    let (height, _) = chain.state.tip().unwrap();
    assert_eq!(height, 2);
    // A1's reward must be rolled back...
    assert_eq!(chain.state.get_account(&miner_a).balance, 0);
    // ...and miner_b must be credited for both B1 and B2.
    assert_eq!(
        chain.state.get_account(&miner_b).balance,
        chain.block_reward(1) + chain.block_reward(2)
    );
}
