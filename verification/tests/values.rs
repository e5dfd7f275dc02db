use ondris::block::merkle_root;
use ondris::chain::block_work;
use ondris::difficulty::{next_difficulty, target_for_difficulty};
use ondris::genesis::GenesisConfig;
use ondris::header::BlockHeader;
use ondris::hex;
use ondris::mining::{confirm_batch, dataset_for_work, fits_kernel, reported_nonce, search_nonces, Batch, Search};
use ondris::pow::{meets_target, ondris_hash, Dataset};
use ondris::primitives::{Address, Hash256, KeyPair, PublicKey, Signature};
use ondris::rpc_types::AccountInfo;
use ondris::state::Account;
use ondris::table::Table;
use ondris::text::push_decimal;
use ondris::transaction::Transaction;
use ondris::wallet::{password_is_long_enough, signed_transfer};

fn key(n: u8) -> KeyPair {
    KeyPair::from_secret([n; 32])
}

#[test]
fn targets_are_the_maximum_divided() {
    assert_eq!(target_for_difficulty(0), [0xff; 32]);
    assert_eq!(target_for_difficulty(1), [0xff; 32]);
    let mut half = [0xff; 32];
    half[0] = 0x7f;
    assert_eq!(target_for_difficulty(2), half);
    assert_eq!(target_for_difficulty(3), [0x55; 32]);
    let mut one_in_256 = [0xff; 32];
    one_in_256[0] = 0;
    assert_eq!(target_for_difficulty(256), one_in_256);
    let top = target_for_difficulty(u64::MAX);
    assert_eq!(&top[..], &[0, 0, 0, 0, 0, 0, 0, 1].repeat(4)[..]);
}

#[test]
fn difficulty_follows_the_block_time() {
    assert_eq!(next_difficulty(1000, 1800, 30, 60), 1000);
    assert_eq!(next_difficulty(1000, 900, 30, 60), 2000);
    assert_eq!(next_difficulty(1000, 3600, 30, 60), 500);
    // No more than four times either way.
    assert_eq!(next_difficulty(1000, 0, 30, 60), 4000);
    assert_eq!(next_difficulty(1000, 1_000_000, 30, 60), 250);
    // Never zero, and never too large.
    assert_eq!(next_difficulty(1, 1_000_000, 30, 60), 1);
    assert_eq!(next_difficulty(u64::MAX, 0, 30, 60), u64::MAX);
    assert_eq!(next_difficulty(5, 0, 0, 60), 1);
    assert_eq!(next_difficulty(7, u64::MAX, u64::MAX, u64::MAX), 7);
}

#[test]
fn work_is_difficulty() {
    assert_eq!(block_work(0), 0);
    assert_eq!(block_work(u64::MAX), 18446744073709551615u128);
}

#[test]
fn rewards_halve_and_end() {
    let mut g = GenesisConfig::testnet_default();
    assert_eq!(g.block_reward(0), 5_000_000_000);
    assert_eq!(g.block_reward(209_999), 5_000_000_000);
    assert_eq!(g.block_reward(210_000), 2_500_000_000);
    assert_eq!(g.block_reward(420_000), 1_250_000_000);
    assert_eq!(g.block_reward(210_000 * 64), 0);
    assert_eq!(g.block_reward(u64::MAX), 0);
    g.initial_reward = u64::MAX;
    assert_eq!(g.block_reward(210_000 * 63), 1);
    g.halving_interval = 0;
    assert_eq!(g.block_reward(3), u64::MAX >> 3);
}

#[test]
fn the_root_pairs_hashes() {
    let h: Vec<Hash256> = (0..5u8).map(|n| Hash256([n; 32])).collect();
    let pair = |a: &Hash256, b: &Hash256| Hash256::hash(&[&a.0[..], &b.0[..]].concat());
    assert_eq!(merkle_root(&[]), Hash256([0u8; 32]));
    assert_eq!(merkle_root(&h[..1]), h[0]);
    assert_eq!(merkle_root(&h[..2]), pair(&h[0], &h[1]));
    assert_eq!(merkle_root(&h[..3]), pair(&pair(&h[0], &h[1]), &pair(&h[2], &h[2])));
    let left = pair(&pair(&h[0], &h[1]), &pair(&h[2], &h[3]));
    let odd = pair(&h[4], &h[4]);
    assert_eq!(merkle_root(&h), pair(&left, &pair(&odd, &odd)));
}

#[test]
fn hex_goes_both_ways() {
    assert_eq!(hex::encode(&[0x00, 0x9a, 0xff]), "009aff");
    assert_eq!(hex::decode("009aff"), Some(vec![0x00, 0x9a, 0xff]));
    assert_eq!(hex::decode(""), Some(vec![]));
    assert_eq!(hex::decode("0"), None);
    assert_eq!(hex::decode("0g"), None);
    assert_eq!(hex::decode("FF"), None);
    assert_eq!(hex::decode("é"), None);
}

#[test]
fn addresses_are_written_and_read() {
    let a = Address([0xab; 20]);
    let text = a.to_text();
    assert_eq!(text, format!("ondr{}", "ab".repeat(20)));
    assert_eq!(Address::parse(&text), Some(a));
    assert_ne!(Address([0xac; 20]).to_text(), text);
    assert_eq!(Address::parse("ondr"), None);
    assert_eq!(Address::parse(&text[1..]), None);
    assert_eq!(Address::parse(&text.replace("ondr", "onda")), None);
    assert_eq!(Address::parse(&text.replace("ab", "aB")), None);
    assert_eq!(Address::parse(&"é".repeat(22)), None);
}

#[test]
fn addresses_come_from_public_keys() {
    let k = key(3);
    let digest = blake3::hash(&k.public().0);
    assert_eq!(k.address().0, digest.as_bytes()[..20]);
    assert_eq!(k.public().to_address(), k.address());
}

#[test]
fn keys_are_ed25519() {
    // The first test vector of RFC 8032.
    let secret = hex::decode("9d61b19deffd5a60ba844af492ec2cc44449c5697b326919703bac031cae7f60").unwrap();
    let public = hex::decode("d75a980182b10ab7d54bfed3c964073a0ee172f3daa62325af021a68f707511a").unwrap();
    let signature = hex::decode(
        "e5564300c360ac729086e2cc806e828a84877f1eb8e5d974d873e065224901555fb8821590a33bacc61e39701cf9b46bd25bf5f0595bbe24655141438e7a100b",
    )
    .unwrap();
    let k = KeyPair::from_secret(secret.try_into().unwrap());
    assert_eq!(k.public().0[..], public[..]);
    assert_eq!(k.sign(b"").0[..], signature[..]);
    assert!(k.public().verify(b"", &k.sign(b"")));
    assert!(!k.public().verify(b"x", &k.sign(b"")));
    assert!(!PublicKey([2u8; 32]).verify(b"", &Signature([1u8; 64])));
}

#[test]
fn hashes_are_blake3() {
    assert_eq!(Hash256::hash(b"abc").0, *blake3::hash(b"abc").as_bytes());
    assert_eq!(Hash256::hash(b"abc").to_u256_be(), *blake3::hash(b"abc").as_bytes());
}

#[test]
fn signing_covers_every_field_but_the_signature() {
    let k = key(1);
    let mut tx = Transaction::new_unsigned(k.public(), Address([2; 20]), 3, 4, 5);
    assert!(!tx.is_signature_valid());
    let bytes = tx.signing_bytes();
    assert_eq!(bytes.len(), 76);
    assert_eq!(&bytes[..32], &k.public().0[..]);
    assert_eq!(&bytes[32..52], &[2u8; 20][..]);
    assert_eq!(&bytes[52..60], &3u64.to_le_bytes()[..]);
    assert_eq!(&bytes[60..68], &4u64.to_le_bytes()[..]);
    assert_eq!(&bytes[68..], &5u64.to_le_bytes()[..]);
    tx.sign(&k);
    assert!(tx.is_signature_valid());
    assert_eq!(tx.signing_bytes(), bytes);
    let mut other = tx;
    other.amount += 1;
    assert!(!other.is_signature_valid());
}

#[test]
fn only_the_sender_signs() {
    let mut tx = Transaction::new_unsigned(key(1).public(), key(2).address(), 1, 0, 0);
    assert!(!tx.sign_if_owner(&key(2)));
    assert_eq!(tx.signature, None);
    assert!(tx.sign_if_owner(&key(1)));
    assert!(tx.is_signature_valid());
}

#[test]
fn transaction_hashes_are_of_their_json() {
    let mut tx = Transaction::new_unsigned(key(1).public(), Address([255; 20]), 0, 10, u64::MAX);
    let value = |signature: serde_json::Value| {
        let mut map = serde_json::Map::new();
        map.insert("from".to_string(), serde_json::Value::from(&key(1).public().0[..]));
        map.insert("to".to_string(), serde_json::Value::from(&[255u8; 20][..]));
        map.insert("amount".to_string(), serde_json::Value::from(0u64));
        map.insert("fee".to_string(), serde_json::Value::from(10u64));
        map.insert("account_nonce".to_string(), serde_json::Value::from(u64::MAX));
        map.insert("signature".to_string(), signature);
        serde_json::to_string(&map).unwrap()
    };
    let unsigned = value(serde_json::Value::Null);
    assert_eq!(tx.to_json(), unsigned);
    assert_eq!(tx.hash(), Hash256::hash(unsigned.as_bytes()));
    tx.sign(&key(1));
    let signed = value(serde_json::Value::from(&tx.signature.unwrap().0[..]));
    assert_eq!(tx.to_json(), signed);
    let mut other = tx;
    other.amount = 1;
    other.fee = 0;
    assert_ne!(other.to_json(), signed);
    assert_ne!(other.hash(), tx.hash());
    assert_eq!(tx.hash(), Hash256::hash(signed.as_bytes()));
}

#[test]
fn decimals_have_no_leading_zeroes() {
    let write = |n: u64| {
        let mut out = String::new();
        push_decimal(&mut out, n);
        out
    };
    assert_eq!(write(0), "0");
    assert_eq!(write(9), "9");
    assert_eq!(write(10), "10");
    assert_eq!(write(100200), "100200");
    assert_eq!(write(u64::MAX), "18446744073709551615");
}

fn header() -> BlockHeader {
    BlockHeader {
        height: 1,
        prev_hash: Hash256([2; 32]),
        tx_root: Hash256([3; 32]),
        timestamp: 4,
        difficulty: 5,
        miner: Address([6; 20]),
        nonce: 7,
    }
}

#[test]
fn header_bytes_leave_the_nonce_out() {
    let mut h = header();
    let bytes = h.bytes_for_pow();
    let mut expected = 1u64.to_le_bytes().to_vec();
    expected.extend([2u8; 32]);
    expected.extend([3u8; 32]);
    expected.extend(4u64.to_le_bytes());
    expected.extend(5u64.to_le_bytes());
    expected.extend([6u8; 20]);
    assert_eq!(bytes, expected);
    h.nonce = 8;
    assert_eq!(h.bytes_for_pow(), bytes);
    assert!(fits_kernel(bytes.len()));
    assert!(fits_kernel(136));
    assert!(!fits_kernel(137));
}

fn small() -> Dataset {
    Dataset::generate_with_sizes(0, Hash256::hash(b"small"), 256, 256)
}

#[test]
fn a_block_is_known_by_its_work() {
    let ds = small();
    let h = header();
    assert_eq!(h.id(&ds), ondris_hash(&h.bytes_for_pow(), 7, &ds));
}

#[test]
fn the_first_solving_nonce_is_found() {
    let ds = small();
    let bytes = header().bytes_for_pow();
    let target = target_for_difficulty(20);
    let hits = |n: u64| meets_target(&ondris_hash(&bytes, n, &ds), &target);
    let expected = (0..).map(|i: u64| 3 + 2 * i).find(|n| hits(*n)).unwrap();
    assert_eq!(search_nonces(&bytes, 3, 2, 100_000, &target, &ds), Search::Found(expected));
    let tries = (expected - 3) / 2;
    assert_eq!(search_nonces(&bytes, 3, 2, tries, &target, &ds), Search::GoOn(expected));
    assert_eq!(
        search_nonces(&bytes, u64::MAX, 2, 1, &[0u8; 32], &ds),
        Search::GoOn(1)
    );
}

#[test]
fn a_reported_nonce_is_checked() {
    let ds = small();
    let bytes = header().bytes_for_pow();
    let target = target_for_difficulty(4);
    let hits = |n: u64| meets_target(&ondris_hash(&bytes, n, &ds), &target);
    let good = (0..).find(|n| hits(*n)).unwrap();
    let bad = (0..).find(|n| !hits(*n)).unwrap();
    assert_eq!(confirm_batch(&bytes, 10, 5, Some(good), &target, &ds), Batch::Found(good));
    assert_eq!(confirm_batch(&bytes, 10, 5, Some(bad), &target, &ds), Batch::GoOn(15));
    assert_eq!(confirm_batch(&bytes, 10, 5, None, &target, &ds), Batch::GoOn(15));
    assert_eq!(confirm_batch(&bytes, u64::MAX - 5, 5, None, &target, &ds), Batch::GoOn(u64::MAX));
    assert_eq!(confirm_batch(&bytes, u64::MAX - 4, 5, Some(bad), &target, &ds), Batch::Exhausted);
    assert_eq!(confirm_batch(&bytes, u64::MAX - 4, 5, Some(good), &target, &ds), Batch::Found(good));
}

#[test]
fn passwords_are_counted_in_bytes() {
    assert!(!password_is_long_enough("1234567"));
    assert!(password_is_long_enough("12345678"));
    assert!(password_is_long_enough("éééé"));
}

#[test]
fn a_wallet_transfer_is_signed() {
    let tx = signed_transfer(&key(1), key(2).address(), 5, 1, 9);
    assert!(tx.is_signature_valid());
    assert_eq!((tx.amount, tx.fee, tx.account_nonce), (5, 1, 9));
    assert_eq!(tx.to, key(2).address());
    assert_eq!(tx.from, key(1).public());
}

#[test]
fn account_info_repeats_the_account() {
    let a = key(1).address();
    let info = AccountInfo::new(a, Account { balance: 4, nonce: 2 });
    assert_eq!((info.address, info.balance, info.nonce), (a, 4, 2));
}

#[test]
fn tables_keep_their_keys_in_order() {
    let mut t: Table<u64, u8> = Table::new();
    for (k, v) in [(5u64, 1u8), (2, 2), (9, 3), (2, 4), (7, 5)] {
        t.insert(k, v);
    }
    t.remove(&5);
    t.remove(&6);
    assert_eq!(t.len(), 3);
    let entries: Vec<(u64, u8)> = (0..t.len()).map(|i| (*t.at(i).0, *t.at(i).1)).collect();
    assert_eq!(entries, vec![(2, 4), (7, 5), (9, 3)]);
    assert_eq!(t.get(&2), Some(&4));
    assert_eq!(t.get(&5), None);
    assert!(t.contains(&9) && !t.contains(&1));
}

#[test]
fn a_kernel_report_is_a_flag_and_a_nonce() {
    let nonce = 0x0102_0304_0506_0708u64.to_le_bytes();
    assert_eq!(reported_nonce(&[0; 4], &nonce), None);
    assert_eq!(reported_nonce(&[1, 0, 0, 0], &nonce), Some(0x0102_0304_0506_0708));
    assert_eq!(reported_nonce(&[0, 0, 0, 0x80], &[0; 8]), Some(0));
}

#[test]
fn a_dataset_at_hand_is_used_for_its_epoch() {
    let small = Dataset::generate_with_sizes(4, Hash256::hash(b"small"), 256, 256);
    let small = std::sync::Arc::new(small);
    let mut at_hand = Some((4, small.clone()));
    let (dataset, is_new) = dataset_for_work(&mut at_hand, 4, None);
    assert!(!is_new);
    assert!(std::sync::Arc::ptr_eq(&dataset, &small));
    let (dataset, is_new) = dataset_for_work(&mut at_hand, 0, None);
    assert!(is_new);
    assert_eq!(dataset.epoch, 0);
    assert_eq!(dataset.len_bytes(), 64 * 1024 * 1024);
    assert_eq!(at_hand.unwrap().0, 0);
}
