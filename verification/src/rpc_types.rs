//! What the node, the wallet and the miners tell each other.

use crate::block::Block;
use crate::primitives::{Address, Hash256};
use crate::state::Account;
use vstd::prelude::*;

verus! {

#[derive(Clone, Debug)]
pub struct ChainInfo {
    pub network: String,
    pub height: u64,
    pub tip_hash: Hash256,
    pub next_difficulty: u64,
    pub peer_count: usize,
}

#[derive(Clone, Debug)]
pub struct AccountInfo {
    pub address: Address,
    pub balance: u64,
    pub nonce: u64,
}

impl AccountInfo {
    pub fn new(address: Address, account: Account) -> (r: Self)
        ensures
            r == (AccountInfo { address, balance: account.balance, nonce: account.nonce }),
    {
        AccountInfo { address, balance: account.balance, nonce: account.nonce }
    }
}

/// A block ready to be mined (its nonce is zero and its transactions are in
/// place), with what a miner needs to grow the epoch's dataset by itself.
#[derive(Clone, Debug)]
pub struct WorkTemplate {
    pub block: Block,
    pub target: [u8; 32],
    pub epoch: u64,
    /// The hash of the epoch's boundary block; `None` for the first epoch only.
    pub epoch_boundary_hash: Option<Hash256>,
}

#[derive(Clone, Debug)]
pub struct SubmitBlockResponse {
    pub block_hash: Hash256,
    pub height: u64,
}

#[derive(Clone, Debug)]
pub struct SubmitTxResponse {
    pub tx_hash: Hash256,
}

#[derive(Clone, Debug)]
pub struct ErrorResponse {
    pub error: String,
}

} // verus!
