//! What transactions and blocks do to the accounts, and how it is undone.

use crate::block::{Block, BlockView};
use crate::primitives::{address_of, Address};
use crate::state::{complete, credited, debited, Account, ChainState};
use crate::table::Table;
use crate::transaction::Transaction;
use vstd::prelude::*;

verus! {

/// Why a transaction cannot be applied to the accounts.
#[derive(Clone, Copy, Debug, PartialEq, Eq, Structural)]
pub enum TxFault {
    /// Its nonce is not the one that the sender's account expects.
    Nonce,
    /// The sender's balance does not cover amount and fee.
    Balance,
    /// The sender's nonce cannot be counted up any more.
    NonceExhausted,
}

/// The accounts after one transaction: the sender pays amount and fee and its nonce
/// counts up, then the recipient is credited the amount. The fee goes to nobody.
pub open spec fn transferred(accounts: Map<Address, Account>, tx: Transaction) -> Result<Map<Address, Account>, TxFault> {
    let sender = address_of(tx.from);
    let account = accounts[sender];
    if tx.account_nonce != account.nonce {
        Err(TxFault::Nonce)
    } else if account.balance < tx.amount + tx.fee {
        Err(TxFault::Balance)
    } else if account.nonce == u64::MAX {
        Err(TxFault::NonceExhausted)
    } else {
        Ok(credited(accounts.insert(sender, charged(account, tx)), tx.to, tx.amount))
    }
}

/// The sender's account after paying for a transaction that it can pay for.
pub open spec fn charged(account: Account, tx: Transaction) -> Account {
    Account { balance: (account.balance - tx.amount - tx.fee) as u64, nonce: (account.nonce + 1) as u64 }
}

/// The sender's account after a transaction is taken back.
pub open spec fn refunded(account: Account, tx: Transaction) -> Account {
    let balance = account.balance + tx.amount + tx.fee;
    Account {
        balance: if balance > u64::MAX {
            u64::MAX
        } else {
            balance as u64
        },
        nonce: account.nonce.saturating_sub(1),
    }
}

/// The accounts after one transaction is taken back: the recipient first, then the
/// sender.
pub open spec fn taken_back(accounts: Map<Address, Account>, tx: Transaction) -> Map<Address, Account> {
    let sender = address_of(tx.from);
    let paid_back = debited(accounts, tx.to, tx.amount);
    paid_back.insert(sender, refunded(paid_back[sender], tx))
}

/// The accounts after a list of transactions, in order.
pub open spec fn all_transferred(accounts: Map<Address, Account>, txs: Seq<Transaction>) -> Result<
    Map<Address, Account>,
    TxFault,
>
    decreases txs.len(),
{
    if txs.len() == 0 {
        Ok(accounts)
    } else {
        match all_transferred(accounts, txs.drop_last()) {
            Ok(before) => transferred(before, txs.last()),
            Err(fault) => Err(fault),
        }
    }
}

/// The accounts after a list of transactions is taken back, last first.
pub open spec fn all_taken_back(accounts: Map<Address, Account>, txs: Seq<Transaction>) -> Map<Address, Account>
    decreases txs.len(),
{
    if txs.len() == 0 {
        accounts
    } else {
        all_taken_back(taken_back(accounts, txs.last()), txs.drop_last())
    }
}

/// The accounts after a block: its transactions, then the miner's reward.
pub open spec fn block_applied(accounts: Map<Address, Account>, block: BlockView, reward: u64) -> Result<
    Map<Address, Account>,
    TxFault,
> {
    match all_transferred(accounts, block.transactions) {
        Ok(after) => Ok(credited(after, block.header.miner, reward)),
        Err(fault) => Err(fault),
    }
}

/// The accounts after a block is undone: the miner's reward, then its transactions
/// from the last.
pub open spec fn block_undone(accounts: Map<Address, Account>, block: BlockView, reward: u64) -> Map<Address, Account> {
    all_taken_back(debited(accounts, block.header.miner, reward), block.transactions)
}

// ---- what a transaction does to each account ----

/// The smaller of a balance that is owed and the largest that an account can hold.
pub open spec fn capped(balance: int) -> int {
    if balance > u64::MAX {
        u64::MAX as int
    } else {
        balance
    }
}

/// A transaction is applied exactly where its nonce is the one that the sender's account
/// expects, amount and fee together are at most the sender's balance, and the nonce can
/// still be counted up; each fault comes where the first of these fails that it is named
/// after.
pub proof fn a_covered_transfer_is_applied(accounts: Map<Address, Account>, tx: Transaction)
    ensures
        ({
            let from = accounts[address_of(tx.from)];
            let r = transferred(accounts, tx);
            &&& r is Ok <==> from.nonce == tx.account_nonce && tx.amount + tx.fee <= from.balance && from.nonce
                < 0xffff_ffff_ffff_ffff
            &&& r == Err::<Map<Address, Account>, TxFault>(TxFault::Nonce) <==> from.nonce != tx.account_nonce
            &&& r == Err::<Map<Address, Account>, TxFault>(TxFault::Balance) <==> from.nonce == tx.account_nonce
                && from.balance < tx.amount + tx.fee
        }),
{
}

/// What a transaction does to every account. A sender that pays itself gets the amount
/// back and is left without the fee.
pub proof fn what_a_transfer_does(accounts: Map<Address, Account>, tx: Transaction, a: Address)
    requires
        transferred(accounts, tx) is Ok,
    ensures
        ({
            let after = (transferred(accounts, tx)->Ok_0)[a];
            let sender = address_of(tx.from);
            let paid = if a == sender {
                tx.amount + tx.fee
            } else {
                0
            };
            let received = if a == tx.to {
                tx.amount as int
            } else {
                0
            };
            &&& after.balance == capped(accounts[a].balance - paid + received)
            &&& after.nonce == accounts[a].nonce + if a == sender {
                1int
            } else {
                0
            }
        }),
{
}

/// What taking a transaction back does to every account: the recipient gives the amount
/// back as far as it has it, the sender gets amount and fee, and its nonce counts down.
pub proof fn what_taking_back_does(accounts: Map<Address, Account>, tx: Transaction, a: Address)
    ensures
        ({
            let after = taken_back(accounts, tx)[a];
            let sender = address_of(tx.from);
            let left = if a != tx.to {
                accounts[a].balance as int
            } else if accounts[a].balance < tx.amount {
                0
            } else {
                accounts[a].balance - tx.amount
            };
            &&& after.balance == if a == sender {
                capped(left + tx.amount + tx.fee)
            } else {
                left
            }
            &&& after.nonce == if a == sender && accounts[a].nonce > 0 {
                accounts[a].nonce - 1
            } else {
                accounts[a].nonce as int
            }
        }),
{
}

/// A credit adds to one balance, up to the largest there is, and a debit takes from one,
/// down to zero. Neither touches a nonce or another account.
pub proof fn what_credits_and_debits_do(accounts: Map<Address, Account>, to: Address, amount: u64, a: Address)
    ensures
        credited(accounts, to, amount)[a].nonce == accounts[a].nonce,
        debited(accounts, to, amount)[a].nonce == accounts[a].nonce,
        a != to ==> credited(accounts, to, amount)[a] == accounts[a],
        a != to ==> debited(accounts, to, amount)[a] == accounts[a],
        credited(accounts, to, amount)[to].balance == capped(accounts[to].balance + amount),
        debited(accounts, to, amount)[to].balance == if amount > accounts[to].balance {
            0
        } else {
            accounts[to].balance - amount
        },
{
}

/// The accounts between the transactions of a block: one state before each transaction
/// and one after the last, each brought about from the one before by one transaction, in
/// the order of the block.
pub open spec fn steps_through(states: Seq<Map<Address, Account>>, txs: Seq<Transaction>) -> bool {
    &&& states.len() == txs.len() + 1
    &&& forall|i: int|
        0 <= i < txs.len() ==> #[trigger] transferred(states[i], txs[i]) == Ok::<Map<Address, Account>, TxFault>(
            states[i + 1],
        )
}

proof fn lemma_steps_of_transfers(accounts: Map<Address, Account>, txs: Seq<Transaction>) -> (states: Seq<
    Map<Address, Account>,
>)
    requires
        all_transferred(accounts, txs) is Ok,
    ensures
        steps_through(states, txs),
        states[0] == accounts,
        states.last() == all_transferred(accounts, txs)->Ok_0,
    decreases txs.len(),
{
    if txs.len() == 0 {
        seq![accounts]
    } else {
        let front = txs.drop_last();
        let before = lemma_steps_of_transfers(accounts, front);
        let states = before.push(all_transferred(accounts, txs)->Ok_0);
        assert forall|i: int| 0 <= i < txs.len() implies #[trigger] transferred(states[i], txs[i]) == Ok::<
            Map<Address, Account>,
            TxFault,
        >(states[i + 1]) by {
            if i < front.len() {
                assert(states[i] == before[i] && states[i + 1] == before[i + 1] && txs[i] == front[i]);
                assert(transferred(before[i], front[i]) == Ok::<Map<Address, Account>, TxFault>(before[i + 1]));
            }
        }
        states
    }
}

proof fn lemma_transfers_of_steps(states: Seq<Map<Address, Account>>, txs: Seq<Transaction>)
    requires
        steps_through(states, txs),
    ensures
        all_transferred(states[0], txs) == Ok::<Map<Address, Account>, TxFault>(states.last()),
    decreases txs.len(),
{
    if txs.len() > 0 {
        let (front, before) = (txs.drop_last(), states.drop_last());
        assert forall|i: int| 0 <= i < front.len() implies #[trigger] transferred(before[i], front[i]) == Ok::<
            Map<Address, Account>,
            TxFault,
        >(before[i + 1]) by {
            assert(transferred(states[i], txs[i]) == Ok::<Map<Address, Account>, TxFault>(states[i + 1]));
        }
        lemma_transfers_of_steps(before, front);
        let n = txs.len() - 1;
        assert(transferred(states[n], txs[n]) == Ok::<Map<Address, Account>, TxFault>(states[n + 1]));
    }
}

/// Where a block is applied, its transactions are applied one after the other, and then
/// the miner, and nobody else, is credited the reward.
pub proof fn a_block_applies_its_transactions_in_order(
    accounts: Map<Address, Account>,
    block: BlockView,
    reward: u64,
) -> (states: Seq<Map<Address, Account>>)
    requires
        block_applied(accounts, block, reward) is Ok,
    ensures
        steps_through(states, block.transactions),
        states[0] == accounts,
        ({
            let (before, after) = (states.last(), block_applied(accounts, block, reward)->Ok_0);
            let miner = block.header.miner;
            &&& after[miner].balance == capped(before[miner].balance + reward)
            &&& after[miner].nonce == before[miner].nonce
            &&& forall|a: Address| a != miner ==> #[trigger] after[a] == before[a]
        }),
{
    lemma_steps_of_transfers(accounts, block.transactions)
}

/// A block whose transactions can be applied one after the other is applied: nothing else
/// is asked of it.
pub proof fn a_block_of_covered_transfers_is_applied(
    states: Seq<Map<Address, Account>>,
    block: BlockView,
    reward: u64,
)
    requires
        steps_through(states, block.transactions),
    ensures
        block_applied(states[0], block, reward) is Ok,
{
    lemma_transfers_of_steps(states, block.transactions);
}

/// A block without transactions is always applied: the miner gets the reward.
pub proof fn an_empty_block_pays_its_miner(accounts: Map<Address, Account>, block: BlockView, reward: u64)
    requires
        block.transactions.len() == 0,
    ensures
        block_applied(accounts, block, reward) matches Ok(after) && after[block.header.miner].balance == capped(
            accounts[block.header.miner].balance + reward,
        ),
{
}

// ---- undoing what was applied ----

/// Whether a credit stays below the largest balance.
pub open spec fn credit_fits(accounts: Map<Address, Account>, a: Address, amount: u64) -> bool {
    accounts[a].balance + amount <= u64::MAX
}

/// Whether no balance meets its limit in a transaction.
pub open spec fn transfer_fits(accounts: Map<Address, Account>, tx: Transaction) -> bool {
    let sender = address_of(tx.from);
    credit_fits(accounts.insert(sender, charged(accounts[sender], tx)), tx.to, tx.amount)
}

/// Whether no balance meets its limit in a list of transactions.
pub open spec fn all_transfers_fit(accounts: Map<Address, Account>, txs: Seq<Transaction>) -> bool
    decreases txs.len(),
{
    txs.len() > 0 ==> all_transfers_fit(accounts, txs.drop_last()) && match all_transferred(
        accounts,
        txs.drop_last(),
    ) {
        Ok(before) => transfer_fits(before, txs.last()),
        Err(_) => true,
    }
}

/// Whether no balance meets its limit in a block.
pub open spec fn block_fits(accounts: Map<Address, Account>, block: BlockView, reward: u64) -> bool {
    all_transfers_fit(accounts, block.transactions) && match all_transferred(accounts, block.transactions) {
        Ok(after) => credit_fits(after, block.header.miner, reward),
        Err(_) => true,
    }
}

/// Taking back a transaction that was applied gives the accounts as they were.
pub proof fn taking_back_reverses_a_transfer(accounts: Map<Address, Account>, tx: Transaction)
    requires
        complete(accounts),
        transferred(accounts, tx) is Ok,
        transfer_fits(accounts, tx),
    ensures
        complete(transferred(accounts, tx)->Ok_0),
        taken_back(transferred(accounts, tx)->Ok_0, tx) == accounts,
{
    let after = transferred(accounts, tx)->Ok_0;
    assert(taken_back(after, tx) =~= accounts);
}

/// Taking back a list of transactions that were applied gives the accounts as they
/// were.
pub proof fn taking_back_reverses_transfers(accounts: Map<Address, Account>, txs: Seq<Transaction>)
    requires
        complete(accounts),
        all_transferred(accounts, txs) is Ok,
        all_transfers_fit(accounts, txs),
    ensures
        complete(all_transferred(accounts, txs)->Ok_0),
        all_taken_back(all_transferred(accounts, txs)->Ok_0, txs) == accounts,
    decreases txs.len(),
{
    if txs.len() > 0 {
        taking_back_reverses_transfers(accounts, txs.drop_last());
        taking_back_reverses_a_transfer(all_transferred(accounts, txs.drop_last())->Ok_0, txs.last());
    }
}

/// Undoing a block that was applied gives the accounts as they were.
pub proof fn undoing_reverses_a_block(accounts: Map<Address, Account>, block: BlockView, reward: u64)
    requires
        complete(accounts),
        block_applied(accounts, block, reward) is Ok,
        block_fits(accounts, block, reward),
    ensures
        complete(block_applied(accounts, block, reward)->Ok_0),
        block_undone(block_applied(accounts, block, reward)->Ok_0, block, reward) == accounts,
{
    taking_back_reverses_transfers(accounts, block.transactions);
    let after = all_transferred(accounts, block.transactions)->Ok_0;
    assert(debited(credited(after, block.header.miner, reward), block.header.miner, reward) =~= after);
}

/// A transaction between two accounts moves the amount and burns the fee; every
/// other account stays.
pub proof fn a_transfer_moves_the_amount(accounts: Map<Address, Account>, tx: Transaction, other: Address)
    requires
        transferred(accounts, tx) is Ok,
        transfer_fits(accounts, tx),
        tx.to != address_of(tx.from),
        other != tx.to,
        other != address_of(tx.from),
    ensures
        ({
            let after = transferred(accounts, tx)->Ok_0;
            let sender = address_of(tx.from);
            &&& after[sender].balance == accounts[sender].balance - tx.amount - tx.fee
            &&& after[tx.to].balance == accounts[tx.to].balance + tx.amount
            &&& after[sender].nonce == accounts[sender].nonce + 1
            &&& after[tx.to].nonce == accounts[tx.to].nonce
            &&& after[other] == accounts[other]
        }),
{
}

/// A transaction cannot be applied a second time: its nonce was used up.
pub proof fn a_transfer_cannot_be_replayed(accounts: Map<Address, Account>, tx: Transaction)
    requires
        transferred(accounts, tx) is Ok,
    ensures
        transferred(transferred(accounts, tx)->Ok_0, tx) == Err::<Map<Address, Account>, TxFault>(TxFault::Nonce),
{
}

// ---- what there is in all ----

/// What the listed accounts hold together.
pub open spec fn total(accounts: Map<Address, Account>, who: Seq<Address>) -> int
    decreases who.len(),
{
    if who.len() == 0 {
        0
    } else {
        total(accounts, who.drop_last()) + accounts[who.last()].balance
    }
}

/// The fees of a list of transactions together.
pub open spec fn total_fees(txs: Seq<Transaction>) -> int
    decreases txs.len(),
{
    if txs.len() == 0 {
        0
    } else {
        total_fees(txs.drop_last()) + txs.last().fee
    }
}

/// The list holds the sender and the recipient of every transaction.
pub open spec fn covers(who: Seq<Address>, txs: Seq<Transaction>) -> bool {
    forall|i: int|
        0 <= i < txs.len() ==> who.contains(address_of((#[trigger] txs[i]).from)) && who.contains(txs[i].to)
}

/// Writing one account changes what there is in all by the difference.
proof fn lemma_total_insert(accounts: Map<Address, Account>, who: Seq<Address>, a: Address, account: Account)
    requires
        who.no_duplicates(),
    ensures
        total(accounts.insert(a, account), who) == total(accounts, who) + if who.contains(a) {
            account.balance - accounts[a].balance
        } else {
            0
        },
    decreases who.len(),
{
    if who.len() > 0 {
        let front = who.drop_last();
        lemma_total_insert(accounts, front, a, account);
        if who.last() == a {
            if front.contains(a) {
                let i = choose|i: int| 0 <= i < front.len() && front[i] == a;
                assert(who[i] == who[who.len() - 1]);
            }
            assert(who[who.len() - 1] == a);
        } else if who.contains(a) {
            let i = choose|i: int| 0 <= i < who.len() && who[i] == a;
            assert(front[i] == a);
        } else if front.contains(a) {
            let i = choose|i: int| 0 <= i < front.len() && front[i] == a;
            assert(who[i] == a);
        }
    }
}

proof fn lemma_total_transfers(accounts: Map<Address, Account>, txs: Seq<Transaction>, who: Seq<Address>)
    requires
        who.no_duplicates(),
        covers(who, txs),
        all_transferred(accounts, txs) is Ok,
        all_transfers_fit(accounts, txs),
    ensures
        total(all_transferred(accounts, txs)->Ok_0, who) == total(accounts, who) - total_fees(txs),
    decreases txs.len(),
{
    if txs.len() > 0 {
        let front = txs.drop_last();
        let tx = txs.last();
        assert forall|i: int| 0 <= i < front.len() implies who.contains(address_of((#[trigger] front[i]).from))
            && who.contains(front[i].to) by {
            assert(front[i] == txs[i]);
        }
        lemma_total_transfers(accounts, front, who);
        assert(txs[txs.len() - 1] == tx);
        let before = all_transferred(accounts, front)->Ok_0;
        let sender = address_of(tx.from);
        let paid = before.insert(sender, charged(before[sender], tx));
        lemma_total_insert(before, who, sender, charged(before[sender], tx));
        lemma_total_insert(
            paid,
            who,
            tx.to,
            Account { balance: paid[tx.to].balance.saturating_add(tx.amount), nonce: paid[tx.to].nonce },
        );
    }
}

/// A block creates its reward and burns its fees, and nothing else: over any list of
/// accounts that holds all those the block touches, what there is in all grows by the
/// one and falls by the other.
pub proof fn a_block_creates_its_reward_and_burns_its_fees(
    accounts: Map<Address, Account>,
    block: BlockView,
    reward: u64,
    who: Seq<Address>,
)
    requires
        who.no_duplicates(),
        covers(who, block.transactions),
        who.contains(block.header.miner),
        block_applied(accounts, block, reward) is Ok,
        block_fits(accounts, block, reward),
    ensures
        total(block_applied(accounts, block, reward)->Ok_0, who) == total(accounts, who) + reward - total_fees(
            block.transactions,
        ),
{
    lemma_total_transfers(accounts, block.transactions, who);
    let after = all_transferred(accounts, block.transactions)->Ok_0;
    let miner = block.header.miner;
    lemma_total_insert(
        after,
        who,
        miner,
        Account { balance: after[miner].balance.saturating_add(reward), nonce: after[miner].nonce },
    );
}

/// Whether a block pays to or from an account: its miner, a sender or a recipient.
pub open spec fn touches(block: BlockView, a: Address) -> bool {
    block.header.miner == a || any_touches(block.transactions, a)
}

/// Whether one of the transactions pays to or from an account.
pub open spec fn any_touches(txs: Seq<Transaction>, a: Address) -> bool {
    exists|i: int| 0 <= i < txs.len() && (address_of((#[trigger] txs[i]).from) == a || txs[i].to == a)
}

proof fn lemma_front_touches_less(txs: Seq<Transaction>, a: Address)
    requires
        txs.len() > 0,
        !any_touches(txs, a),
    ensures
        !any_touches(txs.drop_last(), a),
        address_of(txs.last().from) != a,
        txs.last().to != a,
{
    let front = txs.drop_last();
    if any_touches(front, a) {
        let i = choose|i: int|
            0 <= i < front.len() && (address_of((#[trigger] front[i]).from) == a || front[i].to == a);
        assert(txs[i] == front[i]);
    }
    assert(txs[txs.len() - 1] == txs.last());
}

proof fn lemma_untouched_by_transfers(accounts: Map<Address, Account>, txs: Seq<Transaction>, a: Address)
    requires
        !any_touches(txs, a),
        all_transferred(accounts, txs) is Ok,
    ensures
        (all_transferred(accounts, txs)->Ok_0)[a] == accounts[a],
    decreases txs.len(),
{
    if txs.len() > 0 {
        lemma_front_touches_less(txs, a);
        lemma_untouched_by_transfers(accounts, txs.drop_last(), a);
    }
}

proof fn lemma_untouched_by_taking_back(accounts: Map<Address, Account>, txs: Seq<Transaction>, a: Address)
    requires
        !any_touches(txs, a),
    ensures
        all_taken_back(accounts, txs)[a] == accounts[a],
    decreases txs.len(),
{
    if txs.len() > 0 {
        lemma_front_touches_less(txs, a);
        lemma_untouched_by_taking_back(taken_back(accounts, txs.last()), txs.drop_last(), a);
    }
}

/// A block leaves every account alone that is not its miner's, a sender's or a
/// recipient's, both when it is applied and when it is undone.
pub proof fn a_block_leaves_other_accounts_alone(
    accounts: Map<Address, Account>,
    block: BlockView,
    reward: u64,
    a: Address,
)
    requires
        !touches(block, a),
    ensures
        block_applied(accounts, block, reward) matches Ok(after) ==> after[a] == accounts[a],
        block_undone(accounts, block, reward)[a] == accounts[a],
{
    if block_applied(accounts, block, reward) is Ok {
        lemma_untouched_by_transfers(accounts, block.transactions, a);
    }
    lemma_untouched_by_taking_back(debited(accounts, block.header.miner, reward), block.transactions, a);
}

// ---- trying changes out before they are made ----

/// Accounts with some of them replaced.
pub open spec fn overlaid(base: Map<Address, Account>, changes: Map<Address, Account>) -> Map<Address, Account> {
    Map::total(|a: Address| if changes.contains_key(a) { changes[a] } else { base[a] })
}

/// Account changes over a state that stays untouched.
pub struct Overlay<'a> {
    base: &'a ChainState,
    changes: Table<Address, Account>,
}

impl<'a> View for Overlay<'a> {
    type V = Map<Address, Account>;

    closed spec fn view(&self) -> Map<Address, Account> {
        overlaid(self.base@.accounts, self.changes@)
    }
}

impl<'a> Overlay<'a> {
    /// The accounts underneath.
    pub closed spec fn base(&self) -> Map<Address, Account> {
        self.base@.accounts
    }

    pub fn new(base: &'a ChainState) -> (r: Self)
        ensures
            r@ == base@.accounts,
            r.base() == base@.accounts,
    {
        let r = Overlay { base, changes: Table::new() };
        proof {
            base.every_address_has_an_account();
            assert(r@ =~= base@.accounts);
        }
        r
    }

    /// The replaced accounts.
    pub fn into_changes(self) -> (r: Table<Address, Account>)
        ensures
            overlaid(self.base(), r@) == self@,
    {
        self.changes
    }

    fn get(&self, a: &Address) -> (r: Account)
        ensures
            r == self@[*a],
    {
        match self.changes.get(a) {
            Some(account) => *account,
            None => self.base.get_account(a),
        }
    }

    fn put(&mut self, a: Address, account: Account)
        ensures
            final(self)@ == old(self)@.insert(a, account),
            final(self).base() == old(self).base(),
    {
        self.changes.insert(a, account);
        assert(self@ =~= old(self)@.insert(a, account));
    }

    fn credit(&mut self, a: Address, amount: u64)
        ensures
            final(self)@ == credited(old(self)@, a, amount),
            final(self).base() == old(self).base(),
    {
        let mut account = self.get(&a);
        account.balance = account.balance.saturating_add(amount);
        self.put(a, account);
    }

    fn debit(&mut self, a: Address, amount: u64)
        ensures
            final(self)@ == debited(old(self)@, a, amount),
            final(self).base() == old(self).base(),
    {
        let mut account = self.get(&a);
        account.balance = account.balance.saturating_sub(amount);
        self.put(a, account);
    }

    /// Applies one transaction.
    pub fn apply_transaction(&mut self, tx: &Transaction) -> (r: Result<(), TxFault>)
        ensures
            match r {
                Ok(()) => transferred(old(self)@, *tx) == Ok::<Map<Address, Account>, TxFault>(final(self)@),
                Err(fault) => transferred(old(self)@, *tx) == Err::<Map<Address, Account>, TxFault>(fault)
                    && final(self)@ == old(self)@,
            },
            r is Ok <==> old(self)@[address_of(tx.from)].nonce == tx.account_nonce && tx.amount + tx.fee <= old(
                self,
            )@[address_of(tx.from)].balance && tx.account_nonce < u64::MAX,
            final(self).base() == old(self).base(),
    {
        let sender = tx.from.to_address();
        let account = self.get(&sender);
        if tx.account_nonce != account.nonce {
            return Err(TxFault::Nonce);
        }
        if account.balance < tx.amount || account.balance - tx.amount < tx.fee {
            return Err(TxFault::Balance);
        }
        if account.nonce == u64::MAX {
            return Err(TxFault::NonceExhausted);
        }
        self.put(sender, Account { balance: account.balance - tx.amount - tx.fee, nonce: account.nonce + 1 });
        self.credit(tx.to, tx.amount);
        Ok(())
    }

    /// Takes one transaction back.
    pub fn undo_transaction(&mut self, tx: &Transaction)
        ensures
            final(self)@ == taken_back(old(self)@, *tx),
            final(self).base() == old(self).base(),
    {
        self.debit(tx.to, tx.amount);
        let sender = tx.from.to_address();
        let account = self.get(&sender);
        let balance: u64 = account.balance.saturating_add(tx.amount).saturating_add(tx.fee);
        self.put(sender, Account { balance, nonce: account.nonce.saturating_sub(1) });
    }

    /// Applies a block: its transactions, then the reward.
    pub fn apply_block(&mut self, block: &Block, reward: u64) -> (r: Result<(), TxFault>)
        ensures
            match r {
                Ok(()) => block_applied(old(self)@, block@, reward) == Ok::<Map<Address, Account>, TxFault>(final(self)@),
                Err(fault) => block_applied(old(self)@, block@, reward) == Err::<Map<Address, Account>, TxFault>(fault),
            },
            final(self).base() == old(self).base(),
    {
        let ghost txs = block.transactions@;
        let mut i: usize = 0;
        while i < block.transactions.len()
            invariant
                i <= block.transactions@.len(),
                txs == block.transactions@,
                all_transferred(old(self)@, txs.take(i as int)) == Ok::<Map<Address, Account>, TxFault>(self@),
                self.base() == old(self).base(),
            decreases block.transactions@.len() - i,
        {
            assert(txs.take(i + 1).drop_last() =~= txs.take(i as int));
            match self.apply_transaction(&block.transactions[i]) {
                Ok(()) => {},
                Err(fault) => {
                    proof {
                        lemma_fault_stays(old(self)@, txs, i + 1, fault);
                    }
                    return Err(fault);
                },
            }
            i += 1;
        }
        assert(txs.take(i as int) =~= txs);
        self.credit(block.header.miner, reward);
        Ok(())
    }

    /// Undoes a block: the reward, then its transactions from the last.
    pub fn undo_block(&mut self, block: &Block, reward: u64)
        ensures
            final(self)@ == block_undone(old(self)@, block@, reward),
            final(self).base() == old(self).base(),
    {
        self.debit(block.header.miner, reward);
        let ghost txs = block.transactions@;
        let mut i: usize = block.transactions.len();
        assert(txs.take(i as int) =~= txs);
        while i > 0
            invariant
                i <= block.transactions@.len(),
                txs == block.transactions@,
                all_taken_back(self@, txs.take(i as int)) == block_undone(old(self)@, block@, reward),
                self.base() == old(self).base(),
            decreases i,
        {
            i -= 1;
            assert(txs.take(i + 1).drop_last() =~= txs.take(i as int));
            self.undo_transaction(&block.transactions[i]);
        }
    }
}

/// A list of transactions fails as its first failing part does.
proof fn lemma_fault_stays(accounts: Map<Address, Account>, txs: Seq<Transaction>, n: int, fault: TxFault)
    requires
        0 <= n <= txs.len(),
        all_transferred(accounts, txs.take(n)) == Err::<Map<Address, Account>, TxFault>(fault),
    ensures
        all_transferred(accounts, txs) == Err::<Map<Address, Account>, TxFault>(fault),
    decreases txs.len(),
{
    if n < txs.len() {
        assert(txs.drop_last().take(n) =~= txs.take(n));
        lemma_fault_stays(accounts, txs.drop_last(), n, fault);
    } else {
        assert(txs.take(n) =~= txs);
    }
}

/// A block is undone from its end: first its miner gives the reward back, then its
/// transactions are taken back, the last one first.
pub proof fn a_block_is_undone_from_its_end(accounts: Map<Address, Account>, block: BlockView, reward: u64)
    ensures
        block.transactions.len() == 0 ==> block_undone(accounts, block, reward) == debited(
            accounts,
            block.header.miner,
            reward,
        ),
        block.transactions.len() > 0 ==> ({
            let rest = BlockView { header: block.header, transactions: block.transactions.drop_last() };
            let without_reward = debited(accounts, block.header.miner, reward);
            block_undone(accounts, block, reward) == all_taken_back(
                taken_back(without_reward, block.transactions.last()),
                rest.transactions,
            )
        }),
        all_taken_back(accounts, Seq::empty()) == accounts,
{
}

} // verus!
