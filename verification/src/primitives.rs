//! Hashes, addresses, keys and signatures.

use crate::blake3_ref::digest;
use crate::bytes::same_bytes;
use crate::crypto::{
    accepts_signature, blake3_digest, blake3_hash, ed25519_accepts, ed25519_public_key, ed25519_signature,
    public_key_of, sign_message,
};
use crate::hex;
use vstd::prelude::*;
use vstd::string::*;
use vstd::utf8::*;

verus! {

/// A 32-byte BLAKE3 hash.
#[derive(Clone, Copy, Debug, Eq)]
pub struct Hash256(pub [u8; 32]);

/// A 20-byte account address.
#[derive(Clone, Copy, Debug, PartialEq, Eq)]
pub struct Address(pub [u8; 20]);

/// An Ed25519 public key.
#[derive(Clone, Copy, Debug, PartialEq, Eq)]
pub struct PublicKey(pub [u8; 32]);

/// An Ed25519 signature.
#[derive(Clone, Copy, Debug, PartialEq, Eq)]
pub struct Signature(pub [u8; 64]);

/// An Ed25519 secret key, with the public key that belongs to it.
pub struct KeyPair {
    secret: [u8; 32],
}

impl PartialEq for Hash256 {
    fn eq(&self, other: &Self) -> (r: bool) {
        let r = same_bytes(&self.0, &other.0);
        proof {
            if self.0@ == other.0@ {
                assert(self.0 =~= other.0);
            }
        }
        r
    }
}

impl vstd::std_specs::cmp::PartialEqSpecImpl for Hash256 {
    open spec fn obeys_eq_spec() -> bool {
        true
    }

    open spec fn eq_spec(&self, other: &Self) -> bool {
        *self == *other
    }
}

impl View for Hash256 {
    type V = Seq<u8>;

    open spec fn view(&self) -> Seq<u8> {
        self.0@
    }
}

impl View for Address {
    type V = Seq<u8>;

    open spec fn view(&self) -> Seq<u8> {
        self.0@
    }
}

impl View for PublicKey {
    type V = Seq<u8>;

    open spec fn view(&self) -> Seq<u8> {
        self.0@
    }
}

impl View for Signature {
    type V = Seq<u8>;

    open spec fn view(&self) -> Seq<u8> {
        self.0@
    }
}

const ZEROES: [u8; 32] = [
    0, 0, 0, 0, 0, 0, 0, 0, 0, 0, 0, 0, 0, 0, 0, 0, 0, 0, 0, 0, 0, 0, 0, 0, 0, 0, 0, 0, 0, 0, 0, 0,
];

/// The hash whose bytes are all zero.
pub closed spec fn zero_hash() -> Hash256 {
    Hash256(ZEROES)
}

pub proof fn lemma_zero_hash_bytes()
    ensures
        zero_hash()@ == Seq::new(32, |i: int| 0u8),
{
    assert(zero_hash()@ =~= Seq::new(32, |i: int| 0u8));
}

const ZERO_ADDRESS: [u8; 20] = [0, 0, 0, 0, 0, 0, 0, 0, 0, 0, 0, 0, 0, 0, 0, 0, 0, 0, 0, 0];

/// The address whose bytes are all zero.
pub closed spec fn zero_address() -> Address {
    Address(ZERO_ADDRESS)
}

/// Hashes are equal where their bytes are.
pub proof fn lemma_hash_equal(a: Hash256, b: Hash256)
    requires
        a@ == b@,
    ensures
        a == b,
{
    assert(a.0 =~= b.0);
}

/// The hash with the given 32 bytes.
pub open spec fn hash_of(bytes: Seq<u8>) -> Hash256 {
    choose|h: Hash256| h@ == bytes
}

pub proof fn lemma_hash_of(h: Hash256)
    ensures
        hash_of(h@) == h,
{
    lemma_hash_equal(hash_of(h@), h);
}

impl Hash256 {
    /// The hash whose bytes are all zero: the parent of the genesis block, and
    /// the transaction root of an empty block.
    pub fn zero() -> (r: Hash256)
        ensures
            r == zero_hash(),
            r@ == Seq::new(32, |i: int| 0u8),
    {
        proof {
            lemma_zero_hash_bytes();
        }
        Hash256(ZEROES)
    }

    /// The BLAKE3 hash of `data`.
    pub fn hash(data: &[u8]) -> (r: Hash256)
        ensures
            r@ == blake3_digest(data@),
            r@ == digest(data@),
    {
        Hash256(blake3_hash(data))
    }

    pub fn as_bytes(&self) -> (r: &[u8; 32])
        ensures
            r@ == self@,
    {
        &self.0
    }

    /// The hash as a 256-bit integer, most significant byte first.
    pub fn to_u256_be(&self) -> (r: [u8; 32])
        ensures
            r@ == self@,
    {
        self.0
    }
}

/// The written form of an address: `ondr`, then its bytes in hexadecimal.
pub open spec fn address_text(address: Seq<u8>) -> Seq<char> {
    "ondr"@ + hex::encoded(address)
}

proof fn lemma_address_text_shape(address: Address)
    ensures
        address_text(address@).len() == 44,
        is_ascii_chars(address_text(address@)),
{
    reveal_strlit("ondr");
    assert(hex::encoded(address@).len() == 40);
}

/// No two addresses are written alike.
pub proof fn address_text_is_injective(a: Address, b: Address)
    requires
        address_text(a@) == address_text(b@),
    ensures
        a == b,
{
    let prefix = "ondr"@;
    assert(address_text(a@).skip(prefix.len() as int) =~= hex::encoded(a@));
    assert(address_text(b@).skip(prefix.len() as int) =~= hex::encoded(b@));
    hex::encoding_is_injective(a@, b@);
    assert(a.0 =~= b.0);
}

impl Address {
    /// The address whose bytes are all zero: the miner of the genesis block.
    pub fn zero() -> (r: Address)
        ensures
            r == zero_address(),
            r@ == Seq::new(20, |i: int| 0u8),
    {
        let r = Address(ZERO_ADDRESS);
        assert(r@ =~= Seq::new(20, |i: int| 0u8));
        r
    }

    /// The written form, `ondr` and forty hexadecimal digits.
    pub fn to_text(&self) -> (r: String)
        ensures
            r@ == address_text(self@),
    {
        let mut text: String = String::from_str("ondr");
        let digits = hex::encode(&self.0);
        text.append(digits.as_str());
        text
    }

    /// The address that `text` is the written form of, or `None` where it is that
    /// of none.
    pub fn parse(text: &str) -> (r: Option<Address>)
        ensures
            match r {
                Some(address) => text@ == address_text(address@),
                None => forall|address: Address| text@ != #[trigger] address_text(address@),
            },
    {
        proof {
            reveal_strlit("ondr");
        }
        if !text.is_ascii() || text.unicode_len() != 44 {
            assert forall|address: Address| text@ != #[trigger] address_text(address@) by {
                lemma_address_text_shape(address);
            }
            return None;
        }
        let (head, tail) = (text.substring_ascii(0, 4), text.substring_ascii(4, 44));
        assert(text@ =~= head@ + tail@);
        if head.get_ascii(0) != 111 || head.get_ascii(1) != 110 || head.get_ascii(2) != 100 || head.get_ascii(3) != 114 {
            assert forall|address: Address| text@ != #[trigger] address_text(address@) by {
                if text@ == address_text(address@) {
                    assert(head@ =~= address_text(address@).take(4));
                    assert(head@ =~= "ondr"@);
                }
            }
            return None;
        }
        assert(head@ =~= "ondr"@);
        let decoded = hex::decode(tail);
        match decoded {
            Some(bytes) => {
                assert(hex::encoded(bytes@).len() == 2 * bytes@.len());
                let mut out = [0u8; 20];
                let mut i: usize = 0;
                while i < 20
                    invariant
                        i <= 20,
                        bytes@.len() == 20,
                        forall|j: int| 0 <= j < i ==> out@[j] == bytes@[j],
                    decreases 20 - i,
                {
                    out[i] = bytes[i];
                    i += 1;
                }
                assert(out@ =~= bytes@);
                Some(Address(out))
            },
            None => {
                assert forall|address: Address| text@ != #[trigger] address_text(address@) by {
                    if text@ == address_text(address@) {
                        assert(tail@ =~= address_text(address@).skip(4));
                        assert(address_text(address@).skip(4) =~= hex::encoded(address@));
                    }
                }
                None
            },
        }
    }
}

impl PublicKey {
    /// The account that this key signs for: the first twenty bytes of its hash.
    pub fn to_address(&self) -> (r: Address)
        ensures
            r == address_of(*self),
            r@ == blake3_digest(self@).subrange(0, 20),
    {
        let digest = blake3_hash(&self.0);
        let mut out = [0u8; 20];
        let mut i: usize = 0;
        while i < 20
            invariant
                i <= 20,
                forall|j: int| 0 <= j < i ==> out@[j] == digest@[j],
            decreases 20 - i,
        {
            out[i] = digest[i];
            i += 1;
        }
        let address = Address(out);
        proof {
            assert(address@ =~= blake3_digest(self@).take(20));
            assert(address_of(*self)@ == blake3_digest(self@).take(20));
            assert(address.0 =~= address_of(*self).0);
        }
        address
    }

    /// Whether `signature` is this key's on `message`.
    pub fn verify(&self, message: &[u8], signature: &Signature) -> (r: bool)
        ensures
            r == ed25519_accepts(self@, message@, signature@),
    {
        accepts_signature(&self.0, message, &signature.0)
    }
}

/// The public key with the given 32 bytes.
pub open spec fn key_of(bytes: Seq<u8>) -> PublicKey {
    choose|key: PublicKey| key@ == bytes
}

/// The account that `key` signs for.
pub open spec fn address_of(key: PublicKey) -> Address {
    choose|a: Address| a@ == blake3_digest(key@).take(20)
}

impl KeyPair {
    /// The secret key's bytes.
    pub closed spec fn secret(&self) -> Seq<u8> {
        self.secret@
    }

    pub fn from_secret(secret: [u8; 32]) -> (r: KeyPair)
        ensures
            r.secret() == secret@,
    {
        KeyPair { secret }
    }

    pub fn public(&self) -> (r: PublicKey)
        ensures
            r@ == ed25519_public_key(self.secret()),
            r == key_of(r@),
    {
        let r = PublicKey(public_key_of(&self.secret));
        assert(r.0 =~= key_of(r@).0);
        r
    }

    /// The account that this key pair signs for.
    pub fn address(&self) -> (r: Address)
        ensures
            r == address_of(key_of(ed25519_public_key(self.secret()))),
    {
        let key = self.public();
        key.to_address()
    }

    /// Signs `message`.
    pub fn sign(&self, message: &[u8]) -> (r: Signature)
        ensures
            r@ == ed25519_signature(self.secret(), message@),
            ed25519_accepts(ed25519_public_key(self.secret()), message@, r@),
    {
        Signature(sign_message(&self.secret, message))
    }
}

/// A key signs for the account whose address is the first twenty bytes of the key's hash.
pub proof fn a_key_signs_for_one_account(key: PublicKey, a: Address)
    requires
        a@ == blake3_digest(key@).subrange(0, 20),
    ensures
        address_of(key) == a,
{
    assert(address_of(key)@ == blake3_digest(key@).take(20));
    assert(address_of(key).0 =~= a.0);
}

/// An address is written as four letters and forty digits, two for each byte.
pub proof fn how_an_address_is_written(a: Address, i: int)
    requires
        0 <= i < 20,
    ensures
        ({
            let text = address_text(a@);
            &&& text.len() == 44
            &&& text[0] == 'o' && text[1] == 'n' && text[2] == 'd' && text[3] == 'r'
            &&& text[4 + 2 * i] == "0123456789abcdef"@[a@[i] as int / 16]
            &&& text[5 + 2 * i] == "0123456789abcdef"@[a@[i] as int % 16]
        }),
{
    reveal_strlit("ondr");
    hex::bytes_are_written_as_two_digits(a@, i);
}

} // verus!
