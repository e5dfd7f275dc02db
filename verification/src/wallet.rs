//! What the wallet decides by itself.

use crate::crypto::{ed25519_public_key, ed25519_signature};
use crate::primitives::{Address, KeyPair};
use crate::transaction::{signature_valid, signed_bytes, Transaction};
use vstd::prelude::*;
use vstd::string::*;
use vstd::utf8::*;

verus! {

/// The length in bytes that a wallet's password has at least.
pub const MIN_PASSWORD_LEN: usize = 8;

/// Whether a password is long enough for a new wallet.
pub fn password_is_long_enough(password: &str) -> (r: bool)
    ensures
        r == (encode_utf8(password@).len() >= MIN_PASSWORD_LEN),
        r == (encode_utf8(password@).len() >= 8),
{
    password.as_bytes().len() >= MIN_PASSWORD_LEN
}

/// A signed transfer from the key pair's account, whose next nonce is
/// `account_nonce`.
pub fn signed_transfer(keypair: &KeyPair, to: Address, amount: u64, fee: u64, account_nonce: u64) -> (r: Transaction)
    ensures
        r.from@ == ed25519_public_key(keypair.secret()),
        r.to == to,
        r.amount == amount,
        r.fee == fee,
        r.account_nonce == account_nonce,
        r.signature matches Some(signature) && signature@ == ed25519_signature(keypair.secret(), signed_bytes(r)),
        signature_valid(r),
{
    let mut tx = Transaction::new_unsigned(keypair.public(), to, amount, fee, account_nonce);
    tx.sign(keypair);
    tx
}

} // verus!
