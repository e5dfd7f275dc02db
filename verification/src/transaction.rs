//! Transfers between accounts.

use crate::bytes::{le_bytes, le_value, lemma_le_bytes_len, lemma_u64_le_round_trip, push_u64_le, same_bytes};
use crate::crypto::{blake3_digest, ed25519_accepts, ed25519_public_key, ed25519_signature};
use crate::primitives::{hash_of, lemma_hash_of, Address, Hash256, KeyPair, PublicKey, Signature};
use crate::text::{
    decimal, json_array, json_of_bytes, lemma_array_read, lemma_decimal_read, lemma_literal_read, no_digit_first,
    push_decimal,
};
use vstd::prelude::*;
use vstd::string::*;
use vstd::utf8::*;

verus! {

#[derive(Clone, Copy, Debug, PartialEq, Eq)]
pub struct Transaction {
    pub from: PublicKey,
    pub to: Address,
    pub amount: u64,
    pub fee: u64,
    /// The sender's account nonce, against replay; not the nonce of a block.
    pub account_nonce: u64,
    pub signature: Option<Signature>,
}

/// What a signature covers: every field but the signature.
pub open spec fn signed_bytes(tx: Transaction) -> Seq<u8> {
    tx.from@ + tx.to@ + le_bytes(tx.amount as nat, 8) + le_bytes(tx.fee as nat, 8) + le_bytes(
        tx.account_nonce as nat,
        8,
    )
}

/// Whether the sender's key accepts the signature.
pub open spec fn signature_valid(tx: Transaction) -> bool {
    match tx.signature {
        Some(signature) => ed25519_accepts(tx.from@, signed_bytes(tx), signature@),
        None => false,
    }
}

/// The transaction as a JSON object, its fields in the order of declaration.
pub open spec fn json_text(tx: Transaction) -> Seq<char> {
    let signature = match tx.signature {
        Some(signature) => json_array(signature@),
        None => "null"@,
    };
    "{\"from\":"@ + json_array(tx.from@) + ",\"to\":"@ + json_array(tx.to@) + ",\"amount\":"@ + decimal(
        tx.amount as nat,
    ) + ",\"fee\":"@ + decimal(tx.fee as nat) + ",\"account_nonce\":"@ + decimal(tx.account_nonce as nat)
        + ",\"signature\":"@ + signature + "}"@
}

/// The hash by which a transaction is known.
pub open spec fn transaction_hash(tx: Transaction) -> Hash256 {
    hash_of(blake3_digest(encode_utf8(json_text(tx))))
}

/// Transactions with the same signed bytes differ in the signature alone.
pub proof fn signed_bytes_determine_the_transfer(a: Transaction, b: Transaction)
    requires
        signed_bytes(a) == signed_bytes(b),
    ensures
        a == (Transaction { signature: a.signature, ..b }),
{
    let (s, t) = (signed_bytes(a), signed_bytes(b));
    lemma_le_bytes_len(a.amount as nat, 8);
    lemma_le_bytes_len(a.fee as nat, 8);
    lemma_le_bytes_len(b.amount as nat, 8);
    lemma_le_bytes_len(b.fee as nat, 8);
    assert(s.subrange(0, 32) =~= a.from@ && t.subrange(0, 32) =~= b.from@);
    assert(s.subrange(32, 52) =~= a.to@ && t.subrange(32, 52) =~= b.to@);
    assert(s.subrange(52, 60) =~= le_bytes(a.amount as nat, 8) && t.subrange(52, 60) =~= le_bytes(b.amount as nat, 8));
    assert(s.subrange(60, 68) =~= le_bytes(a.fee as nat, 8) && t.subrange(60, 68) =~= le_bytes(b.fee as nat, 8));
    lemma_le_bytes_len(a.account_nonce as nat, 8);
    lemma_le_bytes_len(b.account_nonce as nat, 8);
    assert(s.subrange(68, 76) =~= le_bytes(a.account_nonce as nat, 8));
    assert(t.subrange(68, 76) =~= le_bytes(b.account_nonce as nat, 8));
    lemma_u64_le_round_trip(a.amount);
    lemma_u64_le_round_trip(b.amount);
    lemma_u64_le_round_trip(a.fee);
    lemma_u64_le_round_trip(b.fee);
    lemma_u64_le_round_trip(a.account_nonce);
    lemma_u64_le_round_trip(b.account_nonce);
    assert(a.from.0 =~= b.from.0);
    assert(a.to.0 =~= b.to.0);
}

/// The JSON text from the signature on.
spec fn json_from_signature(tx: Transaction) -> Seq<char> {
    ",\"signature\":"@ + (match tx.signature {
        Some(signature) => json_array(signature@),
        None => "null"@,
    } + "}"@)
}

/// The JSON text from the nonce on.
spec fn json_from_nonce(tx: Transaction) -> Seq<char> {
    ",\"account_nonce\":"@ + (decimal(tx.account_nonce as nat) + json_from_signature(tx))
}

/// The JSON text from the fee on.
spec fn json_from_fee(tx: Transaction) -> Seq<char> {
    ",\"fee\":"@ + (decimal(tx.fee as nat) + json_from_nonce(tx))
}

/// The JSON text from the amount on.
spec fn json_from_amount(tx: Transaction) -> Seq<char> {
    ",\"amount\":"@ + (decimal(tx.amount as nat) + json_from_fee(tx))
}

/// The JSON text from the recipient on.
spec fn json_from_to(tx: Transaction) -> Seq<char> {
    ",\"to\":"@ + (json_array(tx.to@) + json_from_amount(tx))
}

proof fn lemma_json_shape(tx: Transaction)
    ensures
        json_text(tx) == "{\"from\":"@ + (json_array(tx.from@) + json_from_to(tx)),
        no_digit_first(json_from_signature(tx)),
        no_digit_first(json_from_nonce(tx)),
        no_digit_first(json_from_fee(tx)),
{
    reveal_strlit(",\"signature\":");
    reveal_strlit(",\"account_nonce\":");
    reveal_strlit(",\"fee\":");
    assert(json_text(tx) =~= "{\"from\":"@ + (json_array(tx.from@) + json_from_to(tx)));
}

/// No two transactions are written alike, so that their hashes differ unless BLAKE3
/// collides.
pub proof fn json_texts_are_distinct(a: Transaction, b: Transaction)
    requires
        json_text(a) == json_text(b),
    ensures
        a == b,
{
    lemma_json_shape(a);
    lemma_json_shape(b);
    lemma_literal_read(
        "{\"from\":"@,
        json_array(a.from@) + json_from_to(a),
        json_array(b.from@) + json_from_to(b),
    );
    lemma_array_read(a.from@, b.from@, json_from_to(a), json_from_to(b));
    lemma_literal_read(
        ",\"to\":"@,
        json_array(a.to@) + json_from_amount(a),
        json_array(b.to@) + json_from_amount(b),
    );
    lemma_array_read(a.to@, b.to@, json_from_amount(a), json_from_amount(b));
    lemma_literal_read(
        ",\"amount\":"@,
        decimal(a.amount as nat) + json_from_fee(a),
        decimal(b.amount as nat) + json_from_fee(b),
    );
    lemma_decimal_read(a.amount as nat, b.amount as nat, json_from_fee(a), json_from_fee(b));
    lemma_literal_read(
        ",\"fee\":"@,
        decimal(a.fee as nat) + json_from_nonce(a),
        decimal(b.fee as nat) + json_from_nonce(b),
    );
    lemma_decimal_read(a.fee as nat, b.fee as nat, json_from_nonce(a), json_from_nonce(b));
    lemma_literal_read(
        ",\"account_nonce\":"@,
        decimal(a.account_nonce as nat) + json_from_signature(a),
        decimal(b.account_nonce as nat) + json_from_signature(b),
    );
    lemma_decimal_read(
        a.account_nonce as nat,
        b.account_nonce as nat,
        json_from_signature(a),
        json_from_signature(b),
    );
    let written = |tx: Transaction| match tx.signature {
        Some(signature) => json_array(signature@),
        None => "null"@,
    } + "}"@;
    lemma_literal_read(",\"signature\":"@, written(a), written(b));
    reveal_strlit("null");
    match (a.signature, b.signature) {
        (Some(x), Some(y)) => {
            lemma_array_read(x@, y@, "}"@, "}"@);
            assert(x.0 =~= y.0);
        },
        (None, None) => {},
        _ => {
            assert(written(a)[0] != written(b)[0]);
        },
    }
    assert(a.from.0 =~= b.from.0);
    assert(a.to.0 =~= b.to.0);
}

impl Transaction {
    pub fn new_unsigned(from: PublicKey, to: Address, amount: u64, fee: u64, account_nonce: u64) -> (r: Self)
        ensures
            r == (Transaction { from, to, amount, fee, account_nonce, signature: None }),
            !signature_valid(r),
    {
        Transaction { from, to, amount, fee, account_nonce, signature: None }
    }

    /// The bytes that are signed: everything but the signature itself.
    pub fn signing_bytes(&self) -> (r: Vec<u8>)
        ensures
            r@ == signed_bytes(*self),
    {
        let mut buf: Vec<u8> = Vec::with_capacity(96);
        buf.extend_from_slice(&self.from.0);
        buf.extend_from_slice(&self.to.0);
        assert(buf@ =~= self.from@ + self.to@);
        push_u64_le(&mut buf, self.amount);
        push_u64_le(&mut buf, self.fee);
        push_u64_le(&mut buf, self.account_nonce);
        buf
    }

    /// Signs the transaction with the sender's key.
    pub fn sign(&mut self, keypair: &KeyPair)
        requires
            old(self).from@ == ed25519_public_key(keypair.secret()),
        ensures
            *final(self) == (Transaction { signature: final(self).signature, ..*old(self) }),
            final(self).signature matches Some(signature) && signature@ == ed25519_signature(
                keypair.secret(),
                signed_bytes(*old(self)),
            ),
            signature_valid(*final(self)),
    {
        let bytes = self.signing_bytes();
        self.signature = Some(keypair.sign(&bytes));
        assert(signed_bytes(*self) == signed_bytes(*old(self)));
    }

    /// Signs the transaction where `keypair` is the sender's; says whether it was.
    pub fn sign_if_owner(&mut self, keypair: &KeyPair) -> (r: bool)
        ensures
            r == (old(self).from@ == ed25519_public_key(keypair.secret())),
            r ==> *final(self) == (Transaction { signature: final(self).signature, ..*old(self) }) && (
            final(self).signature matches Some(signature) && signature@ == ed25519_signature(
                keypair.secret(),
                signed_bytes(*old(self)),
            )) && signature_valid(*final(self)),
            !r ==> *final(self) == *old(self),
    {
        let key = keypair.public();
        if !same_bytes(&key.0, &self.from.0) {
            return false;
        }
        self.sign(keypair);
        true
    }

    pub fn is_signature_valid(&self) -> (r: bool)
        ensures
            r == signature_valid(*self),
    {
        match self.signature {
            Some(signature) => {
                let bytes = self.signing_bytes();
                self.from.verify(&bytes, &signature)
            },
            None => false,
        }
    }

    /// The JSON text that the hash is taken over.
    pub fn to_json(&self) -> (r: String)
        ensures
            r@ == json_text(*self),
    {
        let mut text: String = String::from_str("{\"from\":");
        text.append(json_of_bytes(&self.from.0).as_str());
        text.append(",\"to\":");
        text.append(json_of_bytes(&self.to.0).as_str());
        text.append(",\"amount\":");
        push_decimal(&mut text, self.amount);
        text.append(",\"fee\":");
        push_decimal(&mut text, self.fee);
        text.append(",\"account_nonce\":");
        push_decimal(&mut text, self.account_nonce);
        text.append(",\"signature\":");
        match self.signature {
            Some(signature) => {
                text.append(json_of_bytes(&signature.0).as_str());
            },
            None => {
                text.append("null");
            },
        }
        text.append("}");
        text
    }

    pub fn hash(&self) -> (r: Hash256)
        ensures
            r == transaction_hash(*self),
    {
        let text = self.to_json();
        let r = Hash256::hash(text.as_str().as_bytes());
        proof {
            lemma_hash_of(r);
        }
        r
    }
}

/// Where each field stands in the bytes that are signed, numbers least significant byte
/// first.
pub proof fn where_the_signed_fields_stand(tx: Transaction)
    ensures
        ({
            let b = signed_bytes(tx);
            &&& b.len() == 76
            &&& b.subrange(0, 32) == tx.from@
            &&& b.subrange(32, 52) == tx.to@
            &&& le_value(b.subrange(52, 60)) == tx.amount
            &&& le_value(b.subrange(60, 68)) == tx.fee
            &&& le_value(b.subrange(68, 76)) == tx.account_nonce
        }),
{
    let b = signed_bytes(tx);
    lemma_u64_le_round_trip(tx.amount);
    lemma_u64_le_round_trip(tx.fee);
    lemma_u64_le_round_trip(tx.account_nonce);
    assert(b.subrange(0, 32) =~= tx.from@);
    assert(b.subrange(32, 52) =~= tx.to@);
    assert(b.subrange(52, 60) =~= le_bytes(tx.amount as nat, 8));
    assert(b.subrange(60, 68) =~= le_bytes(tx.fee as nat, 8));
    assert(b.subrange(68, 76) =~= le_bytes(tx.account_nonce as nat, 8));
}

/// A transaction without a signature is never valid, and one with a signature is exactly
/// where Ed25519 accepts it under the sender's key on all the other fields.
pub proof fn what_a_valid_signature_is(tx: Transaction, signature: Signature)
    ensures
        !signature_valid((Transaction { signature: None, ..tx })),
        signature_valid((Transaction { signature: Some(signature), ..tx })) == ed25519_accepts(
            tx.from@,
            signed_bytes(tx),
            signature@,
        ),
{
    let with = Transaction { signature: Some(signature), ..tx };
    assert(signed_bytes(with) == signed_bytes(tx));
}

} // verus!
