use ondris::pow::{
    epoch_of, epoch_seed, fnv, meets_target, mix_and_fold, ondris_hash, ondris_hash_with_accesses, Dataset, ACCESSES,
};
use ondris::primitives::Hash256;

fn tiny_dataset() -> Dataset {
    Dataset::generate_with_sizes(0, Hash256::hash(b"test-seed"), 4096, 8192)
}

#[test]
fn deterministic_for_same_input() {
    let ds = tiny_dataset();
    let header = b"header-bytes";
    let a = ondris_hash_with_accesses(header, 42, &ds, 8);
    let b = ondris_hash_with_accesses(header, 42, &ds, 8);
    assert_eq!(a, b);
}

#[test]
fn different_nonce_changes_hash() {
    let ds = tiny_dataset();
    let header = b"header-bytes";
    let a = ondris_hash_with_accesses(header, 1, &ds, 8);
    let b = ondris_hash_with_accesses(header, 2, &ds, 8);
    assert_ne!(a, b);
}

#[test]
fn different_epoch_seed_changes_dataset() {
    let ds1 = Dataset::generate_with_sizes(0, Hash256::hash(b"seed-a"), 4096, 8192);
    let ds2 = Dataset::generate_with_sizes(0, Hash256::hash(b"seed-b"), 4096, 8192);
    let header = b"header-bytes";
    let a = ondris_hash_with_accesses(header, 1, &ds1, 8);
    let b = ondris_hash_with_accesses(header, 1, &ds2, 8);
    assert_ne!(a, b);
}

#[test]
fn more_accesses_still_deterministic_and_differs_from_fewer() {
    let ds = tiny_dataset();
    let header = b"header-bytes";
    let few = ondris_hash_with_accesses(header, 1, &ds, 4);
    let many = ondris_hash_with_accesses(header, 1, &ds, 64);
    assert_ne!(few, many, "different access counts should (almost always) diverge");
}

#[test]
fn meets_target_boundary() {
    let low = Hash256([0u8; 32]);
    let high = Hash256([0xff; 32]);
    let target = [0x00; 32];
    assert!(meets_target(&low, &target) || low.to_u256_be() == [0u8; 32]);
    assert!(!meets_target(&high, &target));
}

#[test]
fn target_comparison_is_big_endian_and_inclusive() {
    let mut target = [0u8; 32];
    target[0] = 1;
    let mut hash = [0xffu8; 32];
    hash[0] = 0;
    assert!(meets_target(&Hash256(hash), &target));
    assert!(meets_target(&Hash256(target), &target));
    let mut above = target;
    above[31] = 1;
    assert!(!meets_target(&Hash256(above), &target));
}

#[test]
fn epochs_change_every_2048_blocks() {
    assert_eq!(epoch_of(0), 0);
    assert_eq!(epoch_of(2047), 0);
    assert_eq!(epoch_of(2048), 1);
    assert_eq!(epoch_of(u64::MAX), 9007199254740991);
}

#[test]
fn epoch_seeds_are_hashes_of_their_source() {
    assert_eq!(epoch_seed(None).as_bytes(), blake3::hash(b"ONDRIS_GENESIS_EPOCH").as_bytes());
    let boundary = Hash256([7u8; 32]);
    assert_eq!(epoch_seed(Some(boundary)).as_bytes(), blake3::hash(&[7u8; 32]).as_bytes());
}

#[test]
fn dataset_items_are_cache_stretches_hashed_twice() {
    let seed = Hash256::hash(b"items");
    let ds = Dataset::generate_with_sizes(3, seed, 200, 1000);
    assert_eq!(ds.epoch, 3);
    assert_eq!(ds.len_bytes(), 896);
    let mut cache = vec![0u8; 200];
    blake3::Hasher::new().update(seed.as_bytes()).finalize_xof().fill(&mut cache);
    for i in 0..7usize {
        let at = (i * 128) % 73;
        let mut item = cache[at..at + 128].to_vec();
        for _ in 0..2 {
            let mut hasher = blake3::Hasher::new();
            hasher.update(&item);
            hasher.update(&(i as u64).to_le_bytes());
            hasher.finalize_xof().fill(&mut item);
        }
        assert_eq!(&ds.bytes()[i * 128..(i + 1) * 128], &item[..]);
    }
}

#[test]
fn fnv_multiplies_and_xors() {
    assert_eq!(fnv(0, 5), 5);
    assert_eq!(fnv(1, 0), 0x0100_0193);
    assert_eq!(fnv(0xffff_ffff, 0), 0xfeff_fe6d);
}

#[test]
fn mixing_without_accesses_folds_the_start() {
    let seed = [3u8; 32];
    let start: Vec<u8> = (0..128u32).map(|i| i as u8).collect();
    let out = mix_and_fold(&seed, &start, &[], 0);
    assert_eq!(&out[..32], &seed[..]);
    assert_eq!(out.len(), 64);
    let word = |i: usize| u32::from_le_bytes(start[i..i + 4].try_into().unwrap());
    for i in 0..8 {
        let folded = fnv(fnv(fnv(word(16 * i), word(16 * i + 4)), word(16 * i + 8)), word(16 * i + 12));
        assert_eq!(&out[32 + 4 * i..36 + 4 * i], &folded.to_le_bytes()[..]);
    }
}

#[test]
fn one_access_mixes_the_chosen_item() {
    let ds = tiny_dataset();
    let seed = [9u8; 32];
    let start: Vec<u8> = (0..128u32).map(|i| (3 * i) as u8).collect();
    let word = |b: &[u8], i: usize| u32::from_le_bytes(b[i..i + 4].try_into().unwrap());
    let p = (fnv(word(&seed, 0), word(&start, 0)) as usize % 64) * 128;
    let mut mixed = start.clone();
    for w in 0..32 {
        let m = fnv(word(&start, 4 * w), word(ds.bytes(), p + 4 * w));
        mixed[4 * w..4 * w + 4].copy_from_slice(&m.to_le_bytes());
    }
    assert_eq!(
        mix_and_fold(&seed, &start, ds.bytes(), 1),
        mix_and_fold(&seed, &mixed, ds.bytes(), 0)
    );
}

#[test]
fn the_default_number_of_accesses_is_used() {
    let ds = tiny_dataset();
    assert_eq!(ondris_hash(b"h", 5, &ds), ondris_hash_with_accesses(b"h", 5, &ds, ACCESSES));
}
