//! Moving the accounts from one branch to another: undoing the blocks of the one and
//! applying those of the other, and the transactions that are left over.

use crate::block::BlockView;
use crate::fork::height_of;
use crate::genesis::{reward_at, GenesisConfig};
use crate::ledger::{
    a_block_creates_its_reward_and_burns_its_fees, a_block_leaves_other_accounts_alone, block_applied, block_fits,
    block_undone, covers, total, total_fees, touches, undoing_reverses_a_block, Overlay, TxFault,
};
use crate::primitives::{Address, Hash256};
use crate::state::{complete, Account, ChainState};
use crate::table::Table;
use crate::transaction::{transaction_hash, Transaction};
use vstd::prelude::*;

verus! {

/// The accounts after the blocks of `path` are undone in this order.
pub open spec fn undone_along(
    config: GenesisConfig,
    blocks: Map<Hash256, BlockView>,
    accounts: Map<Address, Account>,
    path: Seq<Hash256>,
) -> Map<Address, Account>
    decreases path.len(),
{
    if path.len() == 0 {
        accounts
    } else {
        let h = path.last();
        block_undone(
            undone_along(config, blocks, accounts, path.drop_last()),
            blocks[h],
            reward_at(config, height_of(blocks, h)),
        )
    }
}

/// The accounts after the blocks of `path` are applied in this order, or the first
/// block that holds a transaction which cannot be applied, and why.
pub open spec fn applied_along(
    config: GenesisConfig,
    blocks: Map<Hash256, BlockView>,
    accounts: Map<Address, Account>,
    path: Seq<Hash256>,
) -> Result<Map<Address, Account>, (Hash256, TxFault)>
    decreases path.len(),
{
    if path.len() == 0 {
        Ok(accounts)
    } else {
        let h = path.last();
        match applied_along(config, blocks, accounts, path.drop_last()) {
            Ok(before) => match block_applied(before, blocks[h], reward_at(config, height_of(blocks, h))) {
                Ok(after) => Ok(after),
                Err(fault) => Err((h, fault)),
            },
            Err(fault) => Err(fault),
        }
    }
}

/// Whether no balance meets its limit while the blocks of `path` are applied.
pub open spec fn fits_along(
    config: GenesisConfig,
    blocks: Map<Hash256, BlockView>,
    accounts: Map<Address, Account>,
    path: Seq<Hash256>,
) -> bool
    decreases path.len(),
{
    path.len() > 0 ==> fits_along(config, blocks, accounts, path.drop_last()) && match applied_along(
        config,
        blocks,
        accounts,
        path.drop_last(),
    ) {
        Ok(before) => block_fits(before, blocks[path.last()], reward_at(config, height_of(blocks, path.last()))),
        Err(_) => true,
    }
}

/// The transactions of the blocks of `path`, in order.
pub open spec fn transactions_along(blocks: Map<Hash256, BlockView>, path: Seq<Hash256>) -> Seq<Transaction>
    decreases path.len(),
{
    if path.len() == 0 {
        Seq::empty()
    } else {
        transactions_along(blocks, path.drop_last()) + blocks[path.last()].transactions
    }
}

/// Whether a transaction with this one's hash is among `txs`.
pub open spec fn is_among(txs: Seq<Transaction>, tx: Transaction) -> bool {
    exists|i: int| 0 <= i < txs.len() && transaction_hash(#[trigger] txs[i]) == transaction_hash(tx)
}

/// Those of the undone transactions that were not applied again.
pub open spec fn left_over(undone: Seq<Transaction>, applied: Seq<Transaction>) -> Seq<Transaction> {
    undone.filter(|tx: Transaction| !is_among(applied, tx))
}

// ---- laws ----

proof fn lemma_undone_in_parts(
    config: GenesisConfig,
    blocks: Map<Hash256, BlockView>,
    accounts: Map<Address, Account>,
    first: Seq<Hash256>,
    second: Seq<Hash256>,
)
    ensures
        undone_along(config, blocks, accounts, first + second) == undone_along(
            config,
            blocks,
            undone_along(config, blocks, accounts, first),
            second,
        ),
    decreases second.len(),
{
    if second.len() == 0 {
        assert(first + second =~= first);
    } else {
        assert((first + second).drop_last() =~= first + second.drop_last());
        lemma_undone_in_parts(config, blocks, accounts, first, second.drop_last());
    }
}

/// Undoing a path in two parts is undoing it at once.
pub proof fn undoing_continues(
    config: GenesisConfig,
    blocks: Map<Hash256, BlockView>,
    accounts: Map<Address, Account>,
    first: Seq<Hash256>,
    second: Seq<Hash256>,
)
    ensures
        undone_along(config, blocks, accounts, first + second) == undone_along(
            config,
            blocks,
            undone_along(config, blocks, accounts, first),
            second,
        ),
{
    lemma_undone_in_parts(config, blocks, accounts, first, second);
}

/// Applying a path in two parts is applying it at once.
pub proof fn applying_continues(
    config: GenesisConfig,
    blocks: Map<Hash256, BlockView>,
    accounts: Map<Address, Account>,
    first: Seq<Hash256>,
    second: Seq<Hash256>,
)
    ensures
        applied_along(config, blocks, accounts, first + second) == match applied_along(config, blocks, accounts, first) {
            Ok(between) => applied_along(config, blocks, between, second),
            Err(fault) => Err(fault),
        },
    decreases second.len(),
{
    if second.len() == 0 {
        assert(first + second =~= first);
    } else {
        assert((first + second).drop_last() =~= first + second.drop_last());
        applying_continues(config, blocks, accounts, first, second.drop_last());
    }
}

/// Undoing a branch from its tip gives the accounts as they were before the branch,
/// as long as no balance met its limit on it.
pub proof fn undoing_reverses_a_branch(
    config: GenesisConfig,
    blocks: Map<Hash256, BlockView>,
    accounts: Map<Address, Account>,
    path: Seq<Hash256>,
)
    requires
        complete(accounts),
        applied_along(config, blocks, accounts, path) is Ok,
        fits_along(config, blocks, accounts, path),
    ensures
        complete(applied_along(config, blocks, accounts, path)->Ok_0),
        undone_along(config, blocks, applied_along(config, blocks, accounts, path)->Ok_0, path.reverse()) == accounts,
    decreases path.len(),
{
    if path.len() == 0 {
        assert(path.reverse() =~= path);
    } else {
        let h = path.last();
        let front = path.drop_last();
        undoing_reverses_a_branch(config, blocks, accounts, front);
        let before = applied_along(config, blocks, accounts, front)->Ok_0;
        let after = applied_along(config, blocks, accounts, path)->Ok_0;
        undoing_reverses_a_block(before, blocks[h], reward_at(config, height_of(blocks, h)));
        assert(path.reverse() =~= seq![h] + front.reverse());
        lemma_undone_in_parts(config, blocks, after, seq![h], front.reverse());
        assert(seq![h].drop_last() =~= Seq::<Hash256>::empty());
        assert(undone_along(config, blocks, after, Seq::empty()) == after);
        assert(undone_along(config, blocks, after, seq![h]) == before);
    }
}

/// A reorganisation leaves the accounts as if only the winning branch had ever been
/// applied, as long as no balance met its limit on the losing one.
pub proof fn a_reorganisation_leaves_no_trace(
    config: GenesisConfig,
    blocks: Map<Hash256, BlockView>,
    at_fork: Map<Address, Account>,
    losing: Seq<Hash256>,
    winning: Seq<Hash256>,
)
    requires
        complete(at_fork),
        applied_along(config, blocks, at_fork, losing) is Ok,
        fits_along(config, blocks, at_fork, losing),
    ensures
        applied_along(
            config,
            blocks,
            undone_along(config, blocks, applied_along(config, blocks, at_fork, losing)->Ok_0, losing.reverse()),
            winning,
        ) == applied_along(config, blocks, at_fork, winning),
{
    undoing_reverses_a_branch(config, blocks, at_fork, losing);
}

/// Every transaction that is handed back was undone and is not on the winning
/// branch, and every such transaction is handed back.
pub proof fn what_is_left_over(undone: Seq<Transaction>, applied: Seq<Transaction>, tx: Transaction)
    ensures
        left_over(undone, applied).contains(tx) <==> undone.contains(tx) && !is_among(applied, tx),
    decreases undone.len(),
{
    reveal(Seq::filter);
    if undone.len() > 0 {
        let front = undone.drop_last();
        let last = undone.last();
        what_is_left_over(front, applied, tx);
        assert(undone =~= front.push(last));
        lemma_contains_push(front, last, tx);
        lemma_contains_push(left_over(front, applied), last, tx);
    }
}

/// The transactions along a path are those of its blocks.
pub proof fn transactions_along_a_path(blocks: Map<Hash256, BlockView>, path: Seq<Hash256>, tx: Transaction)
    ensures
        transactions_along(blocks, path).contains(tx) <==> exists|i: int|
            0 <= i < path.len() && blocks[#[trigger] path[i]].transactions.contains(tx),
    decreases path.len(),
{
    if path.len() > 0 {
        let front = path.drop_last();
        transactions_along_a_path(blocks, front, tx);
        let (early, late) = (transactions_along(blocks, front), blocks[path.last()].transactions);
        let all = transactions_along(blocks, path);
        if early.contains(tx) {
            let i = choose|i: int| 0 <= i < front.len() && blocks[#[trigger] front[i]].transactions.contains(tx);
            assert(path[i] == front[i]);
            let k = choose|k: int| 0 <= k < early.len() && early[k] == tx;
            assert(all[k] == tx);
        }
        if late.contains(tx) {
            let k = choose|k: int| 0 <= k < late.len() && late[k] == tx;
            assert(all[early.len() + k] == tx);
            assert(path[path.len() - 1] == path.last());
        }
        if all.contains(tx) {
            let k = choose|k: int| 0 <= k < all.len() && all[k] == tx;
            if k < early.len() {
                assert(early[k] == tx);
            } else {
                assert(late[k - early.len()] == tx);
            }
        }
        if exists|i: int| 0 <= i < path.len() && blocks[#[trigger] path[i]].transactions.contains(tx) {
            let i = choose|i: int| 0 <= i < path.len() && blocks[#[trigger] path[i]].transactions.contains(tx);
            if i < front.len() {
                assert(front[i] == path[i]);
            }
        }
    }
}

/// The transactions along a path are in the order of its blocks, and within a block in the
/// order of the block.
pub proof fn transactions_along_a_path_are_in_order(blocks: Map<Hash256, BlockView>, path: Seq<Hash256>, h: Hash256)
    ensures
        transactions_along(blocks, path.push(h)) == transactions_along(blocks, path) + blocks[h].transactions,
        transactions_along(blocks, Seq::empty()) == Seq::<Transaction>::empty(),
{
    assert(path.push(h).drop_last() =~= path);
}

/// What is left over keeps its order, and each transaction counts by itself.
pub proof fn what_is_left_over_keeps_its_order(
    first: Seq<Transaction>,
    second: Seq<Transaction>,
    applied: Seq<Transaction>,
    tx: Transaction,
)
    ensures
        left_over(first + second, applied) == left_over(first, applied) + left_over(second, applied),
        left_over(seq![tx], applied) == if is_among(applied, tx) {
            Seq::<Transaction>::empty()
        } else {
            seq![tx]
        },
    decreases second.len(),
{
    reveal(Seq::filter);
    let keep = |tx: Transaction| !is_among(applied, tx);
    assert(seq![tx].drop_last() =~= Seq::<Transaction>::empty());
    assert(keep(tx) == !is_among(applied, tx));
    assert(left_over(Seq::empty(), applied) =~= Seq::<Transaction>::empty());
    assert(left_over(seq![tx], applied) =~= if is_among(applied, tx) {
        Seq::<Transaction>::empty()
    } else {
        seq![tx]
    });
    if second.len() == 0 {
        assert(first + second =~= first);
        assert(left_over(first, applied) + left_over(second, applied) =~= left_over(first, applied));
    } else {
        what_is_left_over_keeps_its_order(first, second.drop_last(), applied, tx);
        assert((first + second).drop_last() =~= first + second.drop_last());
        assert((first + second).last() == second.last());
        assert(left_over(first + second, applied) =~= left_over(first, applied) + left_over(second, applied));
    }
}

/// A path of one block undoes or applies that block, with the reward of its height.
pub proof fn a_path_of_one_block(
    config: GenesisConfig,
    blocks: Map<Hash256, BlockView>,
    accounts: Map<Address, Account>,
    h: Hash256,
)
    ensures
        undone_along(config, blocks, accounts, seq![h]) == block_undone(
            accounts,
            blocks[h],
            reward_at(config, blocks[h].header.height),
        ),
        applied_along(config, blocks, accounts, seq![h]) == match block_applied(
            accounts,
            blocks[h],
            reward_at(config, blocks[h].header.height),
        ) {
            Ok(after) => Ok::<Map<Address, Account>, (Hash256, TxFault)>(after),
            Err(fault) => Err((h, fault)),
        },
{
    assert(seq![h].drop_last() =~= Seq::<Hash256>::empty());
    assert(undone_along(config, blocks, accounts, Seq::empty()) == accounts);
    assert(applied_along(config, blocks, accounts, Seq::empty()) == Ok::<Map<Address, Account>, (Hash256, TxFault)>(
        accounts,
    ));
}

proof fn lemma_contains_push(txs: Seq<Transaction>, last: Transaction, tx: Transaction)
    ensures
        txs.push(last).contains(tx) <==> txs.contains(tx) || last == tx,
{
    let longer = txs.push(last);
    if txs.contains(tx) {
        let i = choose|i: int| 0 <= i < txs.len() && txs[i] == tx;
        assert(longer[i] == tx);
    }
    assert(longer[txs.len() as int] == last);
    if longer.contains(tx) {
        let i = choose|i: int| 0 <= i < longer.len() && longer[i] == tx;
        if i < txs.len() {
            assert(txs[i] == tx);
        }
    }
}

/// What the blocks of `path` create and burn together: their rewards less their fees.
pub open spec fn minted_along(config: GenesisConfig, blocks: Map<Hash256, BlockView>, path: Seq<Hash256>) -> int
    decreases path.len(),
{
    if path.len() == 0 {
        0
    } else {
        minted_along(config, blocks, path.drop_last()) + minted_by(config, blocks, path.last())
    }
}

/// A block's reward less its fees.
pub open spec fn minted_by(config: GenesisConfig, blocks: Map<Hash256, BlockView>, h: Hash256) -> int {
    reward_at(config, height_of(blocks, h)) - total_fees(blocks[h].transactions)
}

/// The list holds every account that a block of `path` touches.
pub open spec fn covers_along(blocks: Map<Hash256, BlockView>, path: Seq<Hash256>, who: Seq<Address>) -> bool {
    forall|i: int|
        0 <= i < path.len() ==> covers(who, blocks[#[trigger] path[i]].transactions) && who.contains(
            blocks[path[i]].header.miner,
        )
}

/// Whether a block of `path` touches an account.
pub open spec fn touched_along(blocks: Map<Hash256, BlockView>, path: Seq<Hash256>, a: Address) -> bool {
    exists|i: int| 0 <= i < path.len() && touches(blocks[#[trigger] path[i]], a)
}

proof fn lemma_minted_in_parts(
    config: GenesisConfig,
    blocks: Map<Hash256, BlockView>,
    first: Seq<Hash256>,
    second: Seq<Hash256>,
)
    ensures
        minted_along(config, blocks, first + second) == minted_along(config, blocks, first) + minted_along(
            config,
            blocks,
            second,
        ),
    decreases second.len(),
{
    if second.len() == 0 {
        assert(first + second =~= first);
    } else {
        assert((first + second).drop_last() =~= first + second.drop_last());
        lemma_minted_in_parts(config, blocks, first, second.drop_last());
    }
}

/// The order of a path does not matter to what it creates and burns.
pub proof fn lemma_minted_reversed(config: GenesisConfig, blocks: Map<Hash256, BlockView>, path: Seq<Hash256>)
    ensures
        minted_along(config, blocks, path.reverse()) == minted_along(config, blocks, path),
    decreases path.len(),
{
    if path.len() == 0 {
        assert(path.reverse() =~= path);
    } else {
        let (h, front) = (path.last(), path.drop_last());
        assert(path.reverse() =~= seq![h] + front.reverse());
        lemma_minted_in_parts(config, blocks, seq![h], front.reverse());
        lemma_minted_reversed(config, blocks, front);
        assert(seq![h].drop_last() =~= Seq::<Hash256>::empty());
        assert(minted_along(config, blocks, Seq::<Hash256>::empty()) == 0);
    }
}

/// Along a branch, what there is in all grows by the rewards and falls by the fees.
pub proof fn a_branch_creates_its_rewards_and_burns_its_fees(
    config: GenesisConfig,
    blocks: Map<Hash256, BlockView>,
    accounts: Map<Address, Account>,
    path: Seq<Hash256>,
    who: Seq<Address>,
)
    requires
        who.no_duplicates(),
        covers_along(blocks, path, who),
        applied_along(config, blocks, accounts, path) is Ok,
        fits_along(config, blocks, accounts, path),
    ensures
        total(applied_along(config, blocks, accounts, path)->Ok_0, who) == total(accounts, who) + minted_along(
            config,
            blocks,
            path,
        ),
    decreases path.len(),
{
    if path.len() > 0 {
        let (h, front) = (path.last(), path.drop_last());
        assert forall|i: int| 0 <= i < front.len() implies covers(who, blocks[#[trigger] front[i]].transactions)
            && who.contains(blocks[front[i]].header.miner) by {
            assert(front[i] == path[i]);
        }
        a_branch_creates_its_rewards_and_burns_its_fees(config, blocks, accounts, front, who);
        assert(path[path.len() - 1] == h);
        a_block_creates_its_reward_and_burns_its_fees(
            applied_along(config, blocks, accounts, front)->Ok_0,
            blocks[h],
            reward_at(config, height_of(blocks, h)),
            who,
        );
    }
}

/// Undoing or applying a path leaves every account alone that none of its blocks
/// touches.
pub proof fn lemma_untouched_along(
    config: GenesisConfig,
    blocks: Map<Hash256, BlockView>,
    accounts: Map<Address, Account>,
    path: Seq<Hash256>,
    a: Address,
)
    requires
        !touched_along(blocks, path, a),
    ensures
        undone_along(config, blocks, accounts, path)[a] == accounts[a],
        applied_along(config, blocks, accounts, path) matches Ok(after) ==> after[a] == accounts[a],
    decreases path.len(),
{
    if path.len() > 0 {
        let (h, front) = (path.last(), path.drop_last());
        if touched_along(blocks, front, a) {
            let i = choose|i: int| 0 <= i < front.len() && touches(blocks[#[trigger] front[i]], a);
            assert(path[i] == front[i]);
        }
        assert(path[path.len() - 1] == h);
        lemma_untouched_along(config, blocks, accounts, front, a);
        let reward = reward_at(config, height_of(blocks, h));
        a_block_leaves_other_accounts_alone(undone_along(config, blocks, accounts, front), blocks[h], reward, a);
        if applied_along(config, blocks, accounts, front) is Ok {
            let before = applied_along(config, blocks, accounts, front)->Ok_0;
            a_block_leaves_other_accounts_alone(before, blocks[h], reward, a);
        }
    }
}

// ---- along stored blocks ----

/// Undoes the blocks of `path` in this order.
pub fn undo_along(config: &GenesisConfig, state: &ChainState, overlay: &mut Overlay, path: &Vec<Hash256>)
    requires
        forall|i: int| 0 <= i < path@.len() ==> state@.blocks.contains_key(#[trigger] path@[i]),
    ensures
        final(overlay)@ == undone_along(*config, state@.blocks, old(overlay)@, path@),
        final(overlay).base() == old(overlay).base(),
{
    let mut i: usize = 0;
    while i < path.len()
        invariant
            i <= path@.len(),
            forall|j: int| 0 <= j < path@.len() ==> state@.blocks.contains_key(#[trigger] path@[j]),
            overlay@ == undone_along(*config, state@.blocks, old(overlay)@, path@.take(i as int)),
            overlay.base() == old(overlay).base(),
        decreases path@.len() - i,
    {
        assert(path@.take(i + 1).drop_last() =~= path@.take(i as int));
        let block = state.block(&path[i]).unwrap();
        overlay.undo_block(block, config.block_reward(block.header.height));
        i += 1;
    }
    assert(path@.take(i as int) =~= path@);
}

/// Applies the blocks of `path` in this order.
pub fn apply_along(config: &GenesisConfig, state: &ChainState, overlay: &mut Overlay, path: &Vec<Hash256>) -> (r: Result<
    (),
    (Hash256, TxFault),
>)
    requires
        forall|i: int| 0 <= i < path@.len() ==> state@.blocks.contains_key(#[trigger] path@[i]),
    ensures
        match r {
            Ok(()) => applied_along(*config, state@.blocks, old(overlay)@, path@) == Ok::<
                Map<Address, Account>,
                (Hash256, TxFault),
            >(final(overlay)@),
            Err(fault) => applied_along(*config, state@.blocks, old(overlay)@, path@) == Err::<
                Map<Address, Account>,
                (Hash256, TxFault),
            >(fault) && path@.contains(fault.0),
        },
        final(overlay).base() == old(overlay).base(),
{
    let mut i: usize = 0;
    while i < path.len()
        invariant
            i <= path@.len(),
            forall|j: int| 0 <= j < path@.len() ==> state@.blocks.contains_key(#[trigger] path@[j]),
            applied_along(*config, state@.blocks, old(overlay)@, path@.take(i as int)) == Ok::<
                Map<Address, Account>,
                (Hash256, TxFault),
            >(overlay@),
            overlay.base() == old(overlay).base(),
        decreases path@.len() - i,
    {
        assert(path@.take(i + 1).drop_last() =~= path@.take(i as int));
        let block = state.block(&path[i]).unwrap();
        match overlay.apply_block(block, config.block_reward(block.header.height)) {
            Ok(()) => {},
            Err(fault) => {
                proof {
                    applying_continues(*config, state@.blocks, old(overlay)@, path@.take(i + 1), path@.skip(i + 1));
                    assert(path@.take(i + 1) + path@.skip(i + 1) =~= path@);
                }
                return Err((path[i], fault));
            },
        }
        i += 1;
    }
    assert(path@.take(i as int) =~= path@);
    Ok(())
}

/// `seen` holds the hashes of `txs`, and of no other transactions.
spec fn holds_hashes(seen: Map<Hash256, ()>, txs: Seq<Transaction>) -> bool {
    forall|tx: Transaction| #[trigger] seen.contains_key(transaction_hash(tx)) <==> is_among(txs, tx)
}

/// Adds the hashes of a block's transactions.
fn note_hashes(seen: &mut Table<Hash256, ()>, transactions: &Vec<Transaction>, Ghost(done): Ghost<Seq<Transaction>>)
    requires
        holds_hashes(old(seen)@, done),
    ensures
        holds_hashes(final(seen)@, done + transactions@),
{
    let ghost txs = transactions@;
    let mut j: usize = 0;
    assert(done + txs.take(0) =~= done);
    while j < transactions.len()
        invariant
            j <= transactions@.len(),
            txs == transactions@,
            holds_hashes(seen@, done + txs.take(j as int)),
        decreases transactions@.len() - j,
    {
        let ghost before = seen@;
        seen.insert(transactions[j].hash(), ());
        proof {
            let shorter = done + txs.take(j as int);
            assert(done + txs.take(j + 1) =~= shorter.push(txs[j as int]));
            assert forall|tx: Transaction| #[trigger]
                seen@.contains_key(transaction_hash(tx)) <==> is_among(done + txs.take(j + 1), tx) by {
                lemma_among_push(shorter, txs[j as int], tx);
                assert(before.contains_key(transaction_hash(tx)) <==> is_among(shorter, tx));
            }
        }
        j += 1;
    }
    assert(txs.take(j as int) =~= txs);
}

/// The hashes of the transactions along `path`.
fn hashes_along(state: &ChainState, path: &Vec<Hash256>) -> (r: Table<Hash256, ()>)
    requires
        forall|i: int| 0 <= i < path@.len() ==> state@.blocks.contains_key(#[trigger] path@[i]),
    ensures
        holds_hashes(r@, transactions_along(state@.blocks, path@)),
{
    let mut seen: Table<Hash256, ()> = Table::new();
    let ghost blocks = state@.blocks;
    let mut i: usize = 0;
    while i < path.len()
        invariant
            i <= path@.len(),
            blocks == state@.blocks,
            forall|j: int| 0 <= j < path@.len() ==> state@.blocks.contains_key(#[trigger] path@[j]),
            holds_hashes(seen@, transactions_along(blocks, path@.take(i as int))),
        decreases path@.len() - i,
    {
        let ghost done = transactions_along(blocks, path@.take(i as int));
        assert(path@.take(i + 1).drop_last() =~= path@.take(i as int));
        let block = state.block(&path[i]).unwrap();
        note_hashes(&mut seen, &block.transactions, Ghost(done));
        i += 1;
    }
    assert(path@.take(i as int) =~= path@);
    seen
}

proof fn lemma_among_push(txs: Seq<Transaction>, last: Transaction, tx: Transaction)
    ensures
        is_among(txs.push(last), tx) <==> is_among(txs, tx) || transaction_hash(last) == transaction_hash(tx),
{
    if is_among(txs, tx) {
        let i = choose|i: int| 0 <= i < txs.len() && transaction_hash(#[trigger] txs[i]) == transaction_hash(tx);
        assert(txs.push(last)[i] == txs[i]);
    }
    assert(txs.push(last)[txs.len() as int] == last);
    if is_among(txs.push(last), tx) {
        let i = choose|i: int|
            0 <= i < txs.len() + 1 && transaction_hash(#[trigger] txs.push(last)[i]) == transaction_hash(tx);
        if i < txs.len() {
            assert(txs.push(last)[i] == txs[i]);
        }
    }
}

/// The transactions of the undone blocks that are not on the applied ones.
pub fn transactions_to_requeue(state: &ChainState, undone: &Vec<Hash256>, applied: &Vec<Hash256>) -> (r: Vec<Transaction>)
    requires
        forall|i: int| 0 <= i < undone@.len() ==> state@.blocks.contains_key(#[trigger] undone@[i]),
        forall|i: int| 0 <= i < applied@.len() ==> state@.blocks.contains_key(#[trigger] applied@[i]),
    ensures
        r@ == left_over(
            transactions_along(state@.blocks, undone@),
            transactions_along(state@.blocks, applied@),
        ),
{
    let seen = hashes_along(state, applied);
    let ghost blocks = state@.blocks;
    let ghost mined = transactions_along(blocks, applied@);
    let ghost keep = |tx: Transaction| !is_among(mined, tx);
    let mut requeue: Vec<Transaction> = Vec::new();
    reveal(Seq::filter);
    let mut i: usize = 0;
    while i < undone.len()
        invariant
            i <= undone@.len(),
            blocks == state@.blocks,
            keep == (|tx: Transaction| !is_among(mined, tx)),
            forall|j: int| 0 <= j < undone@.len() ==> state@.blocks.contains_key(#[trigger] undone@[j]),
            holds_hashes(seen@, mined),
            requeue@ == transactions_along(blocks, undone@.take(i as int)).filter(keep),
        decreases undone@.len() - i,
    {
        let ghost done = transactions_along(blocks, undone@.take(i as int));
        assert(undone@.take(i + 1).drop_last() =~= undone@.take(i as int));
        let block = state.block(&undone[i]).unwrap();
        let ghost txs = block.transactions@;
        let mut j: usize = 0;
        assert(done + txs.take(0) =~= done);
        while j < block.transactions.len()
            invariant
                j <= block.transactions@.len(),
                txs == block.transactions@,
                keep == (|tx: Transaction| !is_among(mined, tx)),
                holds_hashes(seen@, mined),
                requeue@ == (done + txs.take(j as int)).filter(keep),
            decreases block.transactions@.len() - j,
        {
            proof {
                reveal(Seq::filter);
                let longer = done + txs.take(j + 1);
                assert(longer.drop_last() =~= done + txs.take(j as int));
                assert(longer.last() == txs[j as int]);
                assert(keep(txs[j as int]) == !is_among(mined, txs[j as int]));
            }
            let tx = block.transactions[j];
            if !seen.contains(&tx.hash()) {
                requeue.push(tx);
            }
            j += 1;
        }
        assert(txs.take(j as int) =~= txs);
        i += 1;
    }
    assert(undone@.take(i as int) =~= undone@);
    requeue
}

} // verus!
