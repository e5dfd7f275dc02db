//! Why the chain refuses something, and how that is said.

use crate::hex;
use crate::ledger::TxFault;
use crate::primitives::Hash256;
use crate::text::{decimal, push_decimal};
use vstd::prelude::*;
use vstd::string::*;

verus! {

#[derive(Clone, Copy, Debug, PartialEq, Eq)]
pub enum ChainError {
    /// The premine entry in this place names no address.
    InvalidPremine { entry: usize },
    /// There is no tip.
    NotInitialized,
    /// The boundary block of the epoch is not on the canonical chain.
    MissingEpochBoundary { height: u64 },
    /// There is no canonical block at this height.
    MissingBlock { height: u64 },
    /// There is no canonical block at the start of the retarget window.
    MissingWindowStart,
    SecondGenesis,
    InvalidTxRoot,
    /// The hash does not meet the target of the stated difficulty.
    InsufficientWork,
    InvalidSignature,
    HeightMismatch { height: u64, parent_height: u64 },
    WrongDifficulty { stated: u64, expected: u64 },
    /// A branch is too short for the retarget window.
    ShortBranch,
    /// There is no work on record for a stored parent.
    MissingParentWork { parent: Hash256 },
    /// There is no work on record for the tip.
    MissingTipWork,
    /// The cumulative work does not fit.
    WorkOutOfRange,
    /// A tip is not stored.
    UnknownBlock { hash: Hash256 },
    /// A stored block's parent is not stored.
    MissingAncestor { hash: Hash256 },
    /// The parents of a branch run in circles.
    EndlessBranch,
    /// A block of the heavier branch holds a transaction that cannot be applied.
    InvalidTransaction { block: Hash256, height: u64, fault: TxFault },
}

/// The wording of an error.
pub open spec fn error_text(e: ChainError) -> Seq<char> {
    match e {
        ChainError::InvalidPremine { entry } => "premine entry "@ + decimal(entry as nat) + " names no address"@,
        ChainError::NotInitialized => "chain not initialized"@,
        ChainError::MissingEpochBoundary { height } => "epoch boundary block "@ + decimal(height as nat)
            + " not found"@,
        ChainError::MissingBlock { height } => "block "@ + decimal(height as nat) + " not found"@,
        ChainError::MissingWindowStart => "window start block not found"@,
        ChainError::SecondGenesis => "refusing to accept a second genesis block"@,
        ChainError::InvalidTxRoot => "invalid tx_root"@,
        ChainError::InsufficientWork => "PoW does not meet the difficulty target"@,
        ChainError::InvalidSignature => "invalid transaction signature"@,
        ChainError::HeightMismatch { height, parent_height } => "block height "@ + decimal(height as nat)
            + " does not follow its stated parent (height "@ + decimal(parent_height as nat) + ")"@,
        ChainError::WrongDifficulty { stated, expected } => "incorrect difficulty for this branch/height: got "@
            + decimal(stated as nat) + ", expected "@ + decimal(expected as nat),
        ChainError::ShortBranch => "not enough ancestors on this branch to retarget difficulty"@,
        ChainError::MissingParentWork { parent } => "missing chainwork for known parent "@ + hex::encoded(parent@),
        ChainError::MissingTipWork => "missing chainwork for current tip"@,
        ChainError::WorkOutOfRange => "cumulative work out of range"@,
        ChainError::UnknownBlock { hash } => "missing block "@ + hex::encoded(hash@),
        ChainError::MissingAncestor { hash } => "missing ancestor "@ + hex::encoded(hash@),
        ChainError::EndlessBranch => "a branch runs in circles"@,
        ChainError::InvalidTransaction { block, height, fault } => "reorg to "@ + hex::encoded(block@) + fault_text(fault)
            + decimal(height as nat) + fault_note(fault),
    }
}

/// What is wrong with a transaction.
pub open spec fn fault_text(fault: TxFault) -> Seq<char> {
    match fault {
        TxFault::Nonce => ": invalid tx nonce in block "@,
        TxFault::Balance => ": insufficient balance for a transaction in block "@,
        TxFault::NonceExhausted => ": exhausted tx nonce in block "@,
    }
}

/// What is added to that.
pub open spec fn fault_note(fault: TxFault) -> Seq<char> {
    match fault {
        TxFault::Nonce => " (rolled back the wrong way?)"@,
        _ => ""@,
    }
}

/// A text with one number in it.
fn with_number(before: &str, n: u64, after: &str) -> (r: String)
    ensures
        r@ == before@ + decimal(n as nat) + after@,
{
    let mut text: String = String::from_str(before);
    push_decimal(&mut text, n);
    text.append(after);
    text
}

/// A text with two numbers in it.
fn with_numbers(before: &str, m: u64, between: &str, n: u64, after: &str) -> (r: String)
    ensures
        r@ == before@ + decimal(m as nat) + between@ + decimal(n as nat) + after@,
{
    let mut text: String = String::from_str(before);
    push_decimal(&mut text, m);
    text.append(between);
    push_decimal(&mut text, n);
    text.append(after);
    text
}

/// A text that ends in a hash.
fn with_hash(before: &str, hash: &Hash256) -> (r: String)
    ensures
        r@ == before@ + hex::encoded(hash@),
{
    let mut text: String = String::from_str(before);
    text.append(hex::encode(&hash.0).as_str());
    text
}

impl ChainError {
    /// The error in words.
    pub fn message(&self) -> (r: String)
        ensures
            r@ == error_text(*self),
    {
        match *self {
            ChainError::InvalidPremine { entry } => with_number("premine entry ", entry as u64, " names no address"),
            ChainError::NotInitialized => String::from_str("chain not initialized"),
            ChainError::MissingEpochBoundary { height } => with_number("epoch boundary block ", height, " not found"),
            ChainError::MissingBlock { height } => with_number("block ", height, " not found"),
            ChainError::MissingWindowStart => String::from_str("window start block not found"),
            ChainError::SecondGenesis => String::from_str("refusing to accept a second genesis block"),
            ChainError::InvalidTxRoot => String::from_str("invalid tx_root"),
            ChainError::InsufficientWork => String::from_str("PoW does not meet the difficulty target"),
            ChainError::InvalidSignature => String::from_str("invalid transaction signature"),
            ChainError::HeightMismatch { height, parent_height } => with_numbers(
                "block height ",
                height,
                " does not follow its stated parent (height ",
                parent_height,
                ")",
            ),
            ChainError::WrongDifficulty { stated, expected } => {
                let mut text: String = with_number(
                    "incorrect difficulty for this branch/height: got ",
                    stated,
                    ", expected ",
                );
                push_decimal(&mut text, expected);
                text
            },
            ChainError::ShortBranch => String::from_str("not enough ancestors on this branch to retarget difficulty"),
            ChainError::MissingParentWork { parent } => with_hash("missing chainwork for known parent ", &parent),
            ChainError::MissingTipWork => String::from_str("missing chainwork for current tip"),
            ChainError::WorkOutOfRange => String::from_str("cumulative work out of range"),
            ChainError::UnknownBlock { hash } => with_hash("missing block ", &hash),
            ChainError::MissingAncestor { hash } => with_hash("missing ancestor ", &hash),
            ChainError::EndlessBranch => String::from_str("a branch runs in circles"),
            ChainError::InvalidTransaction { block, height, fault } => {
                let mut text: String = with_hash("reorg to ", &block);
                let (what, note): (&str, &str) = match fault {
                    TxFault::Nonce => (": invalid tx nonce in block ", " (rolled back the wrong way?)"),
                    TxFault::Balance => (": insufficient balance for a transaction in block ", ""),
                    TxFault::NonceExhausted => (": exhausted tx nonce in block ", ""),
                };
                text.append(what);
                push_decimal(&mut text, height);
                text.append(note);
                text
            },
        }
    }
}

} // verus!
