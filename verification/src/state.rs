//! The chain's state: accounts, every block ever seen, the index of the canonical
//! chain, each block's cumulative work, the tip, and the pending transactions. The
//! state is held in memory; each change is also noted in a journal, which is handed
//! out to be made durable and from which the state is built again.

use crate::block::{Block, BlockView};
use crate::primitives::{Address, Hash256};
use crate::table::Table;
use crate::transaction::{transaction_hash, Transaction};
use vstd::prelude::*;

verus! {

#[derive(Clone, Copy, Debug, PartialEq, Eq, Structural)]
pub struct Account {
    pub balance: u64,
    /// The `account_nonce` that the account's next transaction must have.
    pub nonce: u64,
}

impl Default for Account {
    fn default() -> (r: Account)
        ensures
            r == new_account(),
    {
        Account { balance: 0, nonce: 0 }
    }
}

/// An account that nothing has happened to.
pub open spec fn new_account() -> Account {
    Account { balance: 0, nonce: 0 }
}

/// One change of the state.
#[derive(Clone, Debug)]
pub enum StoreOp {
    SetAccount(Address, Account),
    StoreBlock(Hash256, Block),
    SetChainwork(Hash256, u128),
    SetCanonicalHeight(u64, Hash256),
    RemoveCanonicalHeight(u64),
    SetTip(u64, Hash256),
    MempoolInsert(Transaction),
    MempoolRemove(Hash256),
}

/// A change as a value.
pub enum OpView {
    SetAccount(Address, Account),
    StoreBlock(Hash256, BlockView),
    SetChainwork(Hash256, u128),
    SetCanonicalHeight(u64, Hash256),
    RemoveCanonicalHeight(u64),
    SetTip(u64, Hash256),
    MempoolInsert(Transaction),
    MempoolRemove(Hash256),
}

impl View for StoreOp {
    type V = OpView;

    open spec fn view(&self) -> OpView {
        match *self {
            StoreOp::SetAccount(a, account) => OpView::SetAccount(a, account),
            StoreOp::StoreBlock(h, block) => OpView::StoreBlock(h, block@),
            StoreOp::SetChainwork(h, work) => OpView::SetChainwork(h, work),
            StoreOp::SetCanonicalHeight(height, h) => OpView::SetCanonicalHeight(height, h),
            StoreOp::RemoveCanonicalHeight(height) => OpView::RemoveCanonicalHeight(height),
            StoreOp::SetTip(height, h) => OpView::SetTip(height, h),
            StoreOp::MempoolInsert(tx) => OpView::MempoolInsert(tx),
            StoreOp::MempoolRemove(h) => OpView::MempoolRemove(h),
        }
    }
}

/// A list of changes as values.
pub open spec fn op_views(ops: Seq<StoreOp>) -> Seq<OpView> {
    Seq::new(ops.len(), |i: int| ops[i]@)
}

/// The state as a value. Every address has an account; an address that was never
/// written to has a new one.
#[verifier::ext_equal]
pub struct StateView {
    pub accounts: Map<Address, Account>,
    pub blocks: Map<Hash256, BlockView>,
    /// The canonical chain's blocks by height.
    pub heights: Map<u64, Hash256>,
    /// The cumulative work of each block.
    pub work: Map<Hash256, u128>,
    pub tip: Option<(u64, Hash256)>,
    /// The pending transactions by hash.
    pub mempool: Map<Hash256, Transaction>,
}

/// The state before anything was stored.
pub open spec fn empty_state() -> StateView {
    StateView {
        accounts: Map::total(|a: Address| new_account()),
        blocks: Map::empty(),
        heights: Map::empty(),
        work: Map::empty(),
        tip: None,
        mempool: Map::empty(),
    }
}

/// The state after one change.
pub open spec fn changed(s: StateView, op: OpView) -> StateView {
    match op {
        OpView::SetAccount(a, account) => StateView { accounts: s.accounts.insert(a, account), ..s },
        OpView::StoreBlock(h, block) => StateView { blocks: s.blocks.insert(h, block), ..s },
        OpView::SetChainwork(h, work) => StateView { work: s.work.insert(h, work), ..s },
        OpView::SetCanonicalHeight(height, h) => StateView { heights: s.heights.insert(height, h), ..s },
        OpView::RemoveCanonicalHeight(height) => StateView { heights: s.heights.remove(height), ..s },
        OpView::SetTip(height, h) => StateView { tip: Some((height, h)), ..s },
        OpView::MempoolInsert(tx) => StateView { mempool: s.mempool.insert(transaction_hash(tx), tx), ..s },
        OpView::MempoolRemove(h) => StateView { mempool: s.mempool.remove(h), ..s },
    }
}

/// The state after a list of changes.
pub open spec fn replayed(s: StateView, ops: Seq<OpView>) -> StateView
    decreases ops.len(),
{
    if ops.len() == 0 {
        s
    } else {
        changed(replayed(s, ops.drop_last()), ops.last())
    }
}

/// Replaying two journals one after the other is replaying them joined: what was
/// stored before a restart and what is stored after it make one history.
pub proof fn replay_continues(s: StateView, first: Seq<OpView>, second: Seq<OpView>)
    ensures
        replayed(s, first + second) == replayed(replayed(s, first), second),
    decreases second.len(),
{
    if second.len() == 0 {
        assert(first + second =~= first);
    } else {
        assert((first + second).drop_last() =~= first + second.drop_last());
        replay_continues(s, first, second.drop_last());
    }
}

spec fn block_views(blocks: Map<Hash256, Block>) -> Map<Hash256, BlockView> {
    Map::new(|h: Hash256| blocks.contains_key(h), |h: Hash256| blocks[h]@)
}

spec fn all_accounts(accounts: Map<Address, Account>) -> Map<Address, Account> {
    Map::total(|a: Address| if accounts.contains_key(a) { accounts[a] } else { new_account() })
}

pub struct ChainState {
    accounts: Table<Address, Account>,
    blocks: Table<Hash256, Block>,
    heights: Table<u64, Hash256>,
    chainwork: Table<Hash256, u128>,
    tip: Option<(u64, Hash256)>,
    mempool: Table<Hash256, Transaction>,
    journal: Vec<StoreOp>,
    saved: Ghost<StateView>,
}

impl View for ChainState {
    type V = StateView;

    closed spec fn view(&self) -> StateView {
        StateView {
            accounts: all_accounts(self.accounts@),
            blocks: block_views(self.blocks@),
            heights: self.heights@,
            work: self.chainwork@,
            tip: self.tip,
            mempool: self.mempool@,
        }
    }
}

impl ChainState {
    /// The changes that were not handed out yet.
    pub closed spec fn journal(&self) -> Seq<OpView> {
        op_views(self.journal@)
    }

    /// The state as of the last time the journal was handed out.
    pub closed spec fn saved(&self) -> StateView {
        self.saved@
    }

    /// The journal leads from what was saved to the state as it is.
    pub open spec fn wf(&self) -> bool {
        self@ == replayed(self.saved(), self.journal())
    }

    pub proof fn every_address_has_an_account(&self)
        ensures
            complete(self@.accounts),
    {
    }

    /// Builds the state from the changes that were stored.
    pub fn open(stored: Vec<StoreOp>) -> (r: ChainState)
        ensures
            r.wf(),
            r@ == replayed(empty_state(), op_views(stored@)),
            r.saved() == r@,
            r.journal() == Seq::<OpView>::empty(),
    {
        let mut state = ChainState {
            accounts: Table::new(),
            blocks: Table::new(),
            heights: Table::new(),
            chainwork: Table::new(),
            tip: None,
            mempool: Table::new(),
            journal: Vec::new(),
            saved: Ghost(empty_state()),
        };
        assert(state@ =~= empty_state());
        let mut i: usize = 0;
        assert(op_views(stored@.take(0)) =~= Seq::empty());
        while i < stored.len()
            invariant
                i <= stored@.len(),
                state@ == replayed(empty_state(), op_views(stored@.take(i as int))),
                state.journal() == Seq::<OpView>::empty(),
            decreases stored@.len() - i,
        {
            state.perform(&stored[i]);
            assert(op_views(stored@.take(i + 1)).drop_last() =~= op_views(stored@.take(i as int)));
            i += 1;
        }
        assert(stored@.take(i as int) =~= stored@);
        state.saved = Ghost(state@);
        state
    }

    /// Makes one change, and leaves the journal alone.
    fn perform(&mut self, op: &StoreOp)
        ensures
            final(self)@ == changed(old(self)@, op@),
            final(self).journal() == old(self).journal(),
            final(self).saved() == old(self).saved(),
            final(self).journal@ == old(self).journal@,
    {
        match op {
            StoreOp::SetAccount(a, account) => {
                self.accounts.insert(*a, *account);
                assert(self@.accounts =~= old(self)@.accounts.insert(*a, *account));
            },
            StoreOp::StoreBlock(h, block) => {
                self.blocks.insert(*h, block.clone());
                assert(self@.blocks =~= old(self)@.blocks.insert(*h, block@));
            },
            StoreOp::SetChainwork(h, work) => {
                self.chainwork.insert(*h, *work);
            },
            StoreOp::SetCanonicalHeight(height, h) => {
                self.heights.insert(*height, *h);
            },
            StoreOp::RemoveCanonicalHeight(height) => {
                self.heights.remove(height);
            },
            StoreOp::SetTip(height, h) => {
                self.tip = Some((*height, *h));
            },
            StoreOp::MempoolInsert(tx) => {
                self.mempool.insert(tx.hash(), *tx);
            },
            StoreOp::MempoolRemove(h) => {
                self.mempool.remove(h);
            },
        }
    }

    /// Makes one change and notes it.
    fn record(&mut self, op: StoreOp)
        requires
            old(self).wf(),
        ensures
            final(self).wf(),
            final(self)@ == changed(old(self)@, op@),
            final(self).saved() == old(self).saved(),
            final(self).journal() == old(self).journal().push(op@),
    {
        self.perform(&op);
        self.journal.push(op);
        assert(self.journal() =~= old(self).journal().push(op@));
        assert(self.journal().drop_last() =~= old(self).journal());
    }

    /// Adds a pending transaction, in place of the same one if it is there.
    pub fn mempool_insert(&mut self, tx: &Transaction)
        requires
            old(self).wf(),
        ensures
            final(self).wf(),
            final(self)@ == changed(old(self)@, OpView::MempoolInsert(*tx)),
            final(self).saved() == old(self).saved(),
            final(self).journal() == old(self).journal().push(OpView::MempoolInsert(*tx)),
    {
        self.record(StoreOp::MempoolInsert(*tx));
    }

    /// Takes a transaction out of the pending ones. This is for a transaction whose
    /// block was accepted onto the canonical chain; one that a reorganisation
    /// displaced is put back with `mempool_insert`.
    pub fn mempool_remove(&mut self, tx_hash: &Hash256)
        requires
            old(self).wf(),
        ensures
            final(self).wf(),
            final(self)@ == changed(old(self)@, OpView::MempoolRemove(*tx_hash)),
            final(self).saved() == old(self).saved(),
            final(self).journal() == old(self).journal().push(OpView::MempoolRemove(*tx_hash)),
    {
        self.record(StoreOp::MempoolRemove(*tx_hash));
    }

    /// Every pending transaction once, in no particular order. Nothing is consumed.
    pub fn mempool_all(&self) -> (r: Vec<Transaction>)
        ensures
            exists|keys: Seq<Hash256>|
                {
                    &&& #[trigger] lists_keys(keys, self@.mempool)
                    &&& r@ == Seq::new(keys.len(), |i: int| self@.mempool[keys[i]])
                },
    {
        let mut out: Vec<Transaction> = Vec::new();
        let n: usize = self.mempool.len();
        let ghost keys = self.mempool.keys();
        let mut i: usize = 0;
        while i < n
            invariant
                i <= n == keys.len(),
                keys == self.mempool.keys(),
                out@ == Seq::new(i as nat, |j: int| self@.mempool[keys[j]]),
            decreases n - i,
        {
            let (_, tx) = self.mempool.at(i);
            out.push(*tx);
            assert(out@ =~= Seq::new((i + 1) as nat, |j: int| self@.mempool[keys[j]]));
            i += 1;
        }
        assert(lists_keys(keys, self@.mempool));
        out
    }

    pub fn get_account(&self, addr: &Address) -> (r: Account)
        ensures
            r == self@.accounts[*addr],
    {
        match self.accounts.get(addr) {
            Some(account) => *account,
            None => Account { balance: 0, nonce: 0 },
        }
    }

    pub fn set_account(&mut self, addr: &Address, account: &Account)
        requires
            old(self).wf(),
        ensures
            final(self).wf(),
            final(self)@ == changed(old(self)@, OpView::SetAccount(*addr, *account)),
            final(self).saved() == old(self).saved(),
            final(self).journal() == old(self).journal().push(OpView::SetAccount(*addr, *account)),
    {
        self.record(StoreOp::SetAccount(*addr, *account));
    }

    /// Adds to a balance, which stops at the largest value.
    pub fn credit(&mut self, addr: &Address, amount: u64)
        requires
            old(self).wf(),
        ensures
            final(self).wf(),
            final(self).saved() == old(self).saved(),
            final(self)@ == (StateView { accounts: credited(old(self)@.accounts, *addr, amount), ..old(self)@ }),
    {
        let mut account = self.get_account(addr);
        account.balance = account.balance.saturating_add(amount);
        self.set_account(addr, &account);
    }

    /// Takes from a balance, which stops at zero.
    pub fn debit(&mut self, addr: &Address, amount: u64)
        requires
            old(self).wf(),
        ensures
            final(self).wf(),
            final(self).saved() == old(self).saved(),
            final(self)@ == (StateView { accounts: debited(old(self)@.accounts, *addr, amount), ..old(self)@ }),
    {
        let mut account = self.get_account(addr);
        account.balance = account.balance.saturating_sub(amount);
        self.set_account(addr, &account);
    }

    /// The height and the hash of the canonical chain's last block.
    pub fn tip(&self) -> (r: Option<(u64, Hash256)>)
        ensures
            r == self@.tip,
    {
        self.tip
    }

    pub fn set_tip(&mut self, height: u64, hash: Hash256)
        requires
            old(self).wf(),
        ensures
            final(self).wf(),
            final(self)@ == changed(old(self)@, OpView::SetTip(height, hash)),
            final(self).saved() == old(self).saved(),
            final(self).journal() == old(self).journal().push(OpView::SetTip(height, hash)),
    {
        self.record(StoreOp::SetTip(height, hash));
    }

    /// Stores a block under its hash. The canonical index stays as it is: the block
    /// may be on a side branch.
    pub fn store_block(&mut self, hash: Hash256, block: &Block)
        requires
            old(self).wf(),
        ensures
            final(self).wf(),
            final(self)@ == changed(old(self)@, OpView::StoreBlock(hash, block@)),
            final(self).saved() == old(self).saved(),
            final(self).journal() == old(self).journal().push(OpView::StoreBlock(hash, block@)),
    {
        self.record(StoreOp::StoreBlock(hash, block.clone()));
    }

    pub fn has_block(&self, hash: &Hash256) -> (r: bool)
        ensures
            r == self@.blocks.contains_key(*hash),
    {
        self.blocks.contains(hash)
    }

    pub fn get_block(&self, hash: &Hash256) -> (r: Option<Block>)
        ensures
            match r {
                Some(block) => self@.blocks.contains_key(*hash) && block@ == self@.blocks[*hash],
                None => !self@.blocks.contains_key(*hash),
            },
    {
        match self.blocks.get(hash) {
            Some(block) => Some(block.clone()),
            None => None,
        }
    }

    /// The stored block itself, not a copy.
    pub(crate) fn block(&self, hash: &Hash256) -> (r: Option<&Block>)
        ensures
            match r {
                Some(block) => self@.blocks.contains_key(*hash) && block@ == self@.blocks[*hash],
                None => !self@.blocks.contains_key(*hash),
            },
    {
        self.blocks.get(hash)
    }

    pub fn get_chainwork(&self, hash: &Hash256) -> (r: Option<u128>)
        ensures
            r == (if self@.work.contains_key(*hash) { Some(self@.work[*hash]) } else { None }),
    {
        match self.chainwork.get(hash) {
            Some(work) => Some(*work),
            None => None,
        }
    }

    pub fn set_chainwork(&mut self, hash: Hash256, work: u128)
        requires
            old(self).wf(),
        ensures
            final(self).wf(),
            final(self)@ == changed(old(self)@, OpView::SetChainwork(hash, work)),
            final(self).saved() == old(self).saved(),
            final(self).journal() == old(self).journal().push(OpView::SetChainwork(hash, work)),
    {
        self.record(StoreOp::SetChainwork(hash, work));
    }

    pub fn set_canonical_height(&mut self, height: u64, hash: Hash256)
        requires
            old(self).wf(),
        ensures
            final(self).wf(),
            final(self)@ == changed(old(self)@, OpView::SetCanonicalHeight(height, hash)),
            final(self).saved() == old(self).saved(),
            final(self).journal() == old(self).journal().push(OpView::SetCanonicalHeight(height, hash)),
    {
        self.record(StoreOp::SetCanonicalHeight(height, hash));
    }

    pub fn remove_canonical_height(&mut self, height: u64)
        requires
            old(self).wf(),
        ensures
            final(self).wf(),
            final(self)@ == changed(old(self)@, OpView::RemoveCanonicalHeight(height)),
            final(self).saved() == old(self).saved(),
            final(self).journal() == old(self).journal().push(OpView::RemoveCanonicalHeight(height)),
    {
        self.record(StoreOp::RemoveCanonicalHeight(height));
    }

    pub fn get_hash_by_height(&self, height: u64) -> (r: Option<Hash256>)
        ensures
            r == (if self@.heights.contains_key(height) { Some(self@.heights[height]) } else { None }),
    {
        match self.heights.get(&height) {
            Some(hash) => Some(*hash),
            None => None,
        }
    }

    /// The canonical block at a height.
    pub fn get_block_by_height(&self, height: u64) -> (r: Option<Block>)
        ensures
            match r {
                Some(block) => {
                    &&& self@.heights.contains_key(height)
                    &&& self@.blocks.contains_key(self@.heights[height])
                    &&& block@ == self@.blocks[self@.heights[height]]
                },
                None => {
                    ||| !self@.heights.contains_key(height)
                    ||| !self@.blocks.contains_key(self@.heights[height])
                },
            },
    {
        match self.get_hash_by_height(height) {
            Some(hash) => self.get_block(&hash),
            None => None,
        }
    }

    /// The hashes of the stored blocks, in their order in the table.
    pub(crate) closed spec fn block_keys(&self) -> Seq<Hash256> {
        self.blocks.keys()
    }

    pub(crate) fn block_count(&self) -> (r: usize)
        ensures
            r == self.block_keys().len(),
            lists_keys(self.block_keys(), self@.blocks),
            self@.blocks.dom().finite(),
            r == self@.blocks.dom().len(),
    {
        let n = self.blocks.len();
        assert forall|h: Hash256| #[trigger]
            self@.blocks.contains_key(h) <==> self.block_keys().contains(h) by {
            assert(self.blocks@.contains_key(h) <==> self.blocks.keys().contains(h));
        }
        proof {
            self.block_keys().unique_seq_to_set();
            assert(self@.blocks.dom() =~= self.block_keys().to_set());
        }
        n
    }

    pub(crate) fn block_at(&self, i: usize) -> (r: (&Hash256, &Block))
        requires
            i < self.block_keys().len(),
        ensures
            *r.0 == self.block_keys()[i as int],
            self@.blocks.contains_key(*r.0),
            r.1@ == self@.blocks[*r.0],
    {
        self.blocks.at(i)
    }

    /// The heights in the canonical index, in order.
    pub(crate) closed spec fn height_keys(&self) -> Seq<u64> {
        self.heights.keys()
    }

    pub(crate) fn height_count(&self) -> (r: usize)
        ensures
            r == self.height_keys().len(),
            lists_keys(self.height_keys(), self@.heights),
    {
        let n = self.heights.len();
        assert forall|at: u64| #[trigger]
            self@.heights.contains_key(at) <==> self.height_keys().contains(at) by {
            assert(self.heights@.contains_key(at) <==> self.heights.keys().contains(at));
        }
        n
    }

    pub(crate) fn height_at(&self, i: usize) -> (r: u64)
        requires
            i < self.height_keys().len(),
        ensures
            r == self.height_keys()[i as int],
    {
        *self.heights.at(i).0
    }

    /// Hands out the changes made since the last call, oldest first, to be made
    /// durable.
    pub fn flush(&mut self) -> (r: Vec<StoreOp>)
        requires
            old(self).wf(),
        ensures
            final(self).wf(),
            final(self)@ == old(self)@,
            final(self).saved() == old(self)@,
            final(self).journal() == Seq::<OpView>::empty(),
            op_views(r@) == old(self).journal(),
            replayed(old(self).saved(), op_views(r@)) == old(self)@,
    {
        let mut ops: Vec<StoreOp> = Vec::new();
        std::mem::swap(&mut ops, &mut self.journal);
        self.saved = Ghost(self@);
        assert(self.journal() =~= Seq::<OpView>::empty());
        ops
    }
}

/// `keys` holds each key of `map` once.
pub open spec fn lists_keys<K, V>(keys: Seq<K>, map: Map<K, V>) -> bool {
    &&& keys.no_duplicates()
    &&& forall|k: K| #[trigger] map.contains_key(k) <==> keys.contains(k)
}

/// Every address has an account.
pub open spec fn complete(accounts: Map<Address, Account>) -> bool {
    forall|a: Address| accounts.contains_key(a)
}

/// The accounts after a credit.
pub open spec fn credited(accounts: Map<Address, Account>, a: Address, amount: u64) -> Map<Address, Account> {
    accounts.insert(a, Account { balance: accounts[a].balance.saturating_add(amount), nonce: accounts[a].nonce })
}

/// The accounts after a debit.
pub open spec fn debited(accounts: Map<Address, Account>, a: Address, amount: u64) -> Map<Address, Account> {
    accounts.insert(a, Account { balance: accounts[a].balance.saturating_sub(amount), nonce: accounts[a].nonce })
}

/// What was stored and handed out comes back: a state opened from the changes that
/// an earlier state was opened from, followed by those that it handed out, is that
/// earlier state, its pending transactions included.
pub proof fn reopening_restores_the_state(stored: Seq<OpView>, handed_out: Seq<OpView>, state: StateView)
    requires
        state == replayed(replayed(empty_state(), stored), handed_out),
    ensures
        replayed(empty_state(), stored + handed_out) == state,
{
    replay_continues(empty_state(), stored, handed_out);
}

/// Reading gives back what was written last, and a write changes nothing but its own
/// place.
pub proof fn a_write_changes_its_own_place(
    s: StateView,
    a: Address,
    account: Account,
    h: Hash256,
    block: BlockView,
    work: u128,
    height: u64,
    tx: Transaction,
)
    ensures
        ({
            let t = changed(s, OpView::SetAccount(a, account));
            &&& t.accounts[a] == account
            &&& forall|x: Address| x != a ==> #[trigger] t.accounts[x] == s.accounts[x]
            &&& t == (StateView { accounts: t.accounts, ..s })
        }),
        ({
            let t = changed(s, OpView::StoreBlock(h, block));
            &&& t.blocks.contains_key(h) && t.blocks[h] == block
            &&& t.blocks.remove(h) == s.blocks.remove(h)
            &&& t == (StateView { blocks: t.blocks, ..s })
        }),
        ({
            let t = changed(s, OpView::SetChainwork(h, work));
            &&& t.work.contains_key(h) && t.work[h] == work
            &&& t.work.remove(h) == s.work.remove(h)
            &&& t == (StateView { work: t.work, ..s })
        }),
        ({
            let t = changed(s, OpView::SetCanonicalHeight(height, h));
            &&& t.heights.contains_key(height) && t.heights[height] == h
            &&& t.heights.remove(height) == s.heights.remove(height)
            &&& t == (StateView { heights: t.heights, ..s })
        }),
        ({
            let t = changed(s, OpView::RemoveCanonicalHeight(height));
            &&& !t.heights.contains_key(height)
            &&& t.heights == s.heights.remove(height)
            &&& t == (StateView { heights: t.heights, ..s })
        }),
        changed(s, OpView::SetTip(height, h)) == (StateView { tip: Some((height, h)), ..s }),
        ({
            let t = changed(s, OpView::MempoolInsert(tx));
            let key = transaction_hash(tx);
            &&& t.mempool.contains_key(key) && t.mempool[key] == tx
            &&& t.mempool.remove(key) == s.mempool.remove(key)
            &&& t == (StateView { mempool: t.mempool, ..s })
        }),
        ({
            let t = changed(s, OpView::MempoolRemove(h));
            &&& !t.mempool.contains_key(h)
            &&& t.mempool == s.mempool.remove(h)
            &&& t == (StateView { mempool: t.mempool, ..s })
        }),
{
    assert(changed(s, OpView::StoreBlock(h, block)).blocks.remove(h) =~= s.blocks.remove(h));
    assert(changed(s, OpView::SetChainwork(h, work)).work.remove(h) =~= s.work.remove(h));
    assert(changed(s, OpView::SetCanonicalHeight(height, h)).heights.remove(height) =~= s.heights.remove(height));
    let key = transaction_hash(tx);
    assert(changed(s, OpView::MempoolInsert(tx)).mempool.remove(key) =~= s.mempool.remove(key));
}

/// Changes are made one after the other, the oldest first.
pub proof fn changes_are_made_in_order(s: StateView, ops: Seq<OpView>, op: OpView)
    ensures
        replayed(s, Seq::empty()) == s,
        replayed(s, ops.push(op)) == changed(replayed(s, ops), op),
{
    assert(ops.push(op).drop_last() =~= ops);
}

} // verus!
