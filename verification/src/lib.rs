//! The core of the Ondris blockchain: OndrisHash, headers, transactions, blocks,
//! the account state, difficulty, and the chain that ties them together.

pub mod blake3_ref;
pub mod block;
pub mod bytes;
pub mod chain;
pub mod crypto;
pub mod difficulty;
pub mod error;
pub mod fork;
pub mod genesis;
pub mod header;
pub mod hex;
pub mod laws;
pub mod ledger;
pub mod mining;
pub mod ondris_hash_ref;
pub mod pow;
pub mod primitives;
pub mod reorg;
pub mod rpc_types;
pub mod state;
pub mod table;
pub mod text;
pub mod transaction;
pub mod wallet;
pub mod xoshiro_ref;
