use ondris::blake3_ref::{compress, hash, merge_cv_stack, parent_cv, xof_from_32_bytes, CHUNK_LEN};
use rand::RngCore;

fn check(data: &[u8]) {
    let expected = blake3::hash(data);
    let got = hash(data);
    assert_eq!(got, *expected.as_bytes(), "mismatch for input length {}", data.len());
}

#[test]
fn matches_real_blake3_across_size_classes() {
    check(b"");
    check(b"a");
    check(b"ondris");

    let pattern: Vec<u8> = (0..).map(|i: u32| (i % 251) as u8).take(4096).collect();

    for &len in &[
        1usize, 32, 63, 64, 65, 100, 128, 200, 512, 1023, 1024, 1025, 1500, 2000, 2048, 2049, 3000, 4096,
    ] {
        check(&pattern[..len]);
    }
}

/// Exact chunk-count boundaries, including several exact powers of two.
#[test]
fn matches_real_blake3_at_exact_chunk_count_boundaries() {
    let pattern: Vec<u8> = (0..).map(|i: u32| (i % 251) as u8).take(20 * CHUNK_LEN).collect();
    for chunks in 1u64..=16 {
        let len = (chunks as usize) * CHUNK_LEN;
        check(&pattern[..len]);
        if len > 1 {
            check(&pattern[..len - 1]);
        }
    }
}

#[test]
fn matches_real_blake3_for_random_inputs() {
    let mut rng = rand::rngs::OsRng;
    for _ in 0..50 {
        let len = (rng.next_u32() % 8192) as usize;
        let mut buf = vec![0u8; len];
        rng.fill_bytes(&mut buf);
        check(&buf);
    }
}

#[test]
fn matches_real_blake3_for_large_multichunk_input() {
    let data: Vec<u8> = (0..2_000_000u32).map(|i| (i % 256) as u8).collect();
    check(&data);
    check(&data[..2_000_001.min(data.len())]);
}

#[test]
fn hash_of_nothing_is_the_published_one() {
    let expected: [u8; 32] = [
        0xaf, 0x13, 0x49, 0xb9, 0xf5, 0xf9, 0xa1, 0xa6, 0xa0, 0x40, 0x4d, 0xea, 0x36, 0xdc, 0xc9, 0x49, 0x9b, 0xcb,
        0x25, 0xc9, 0xad, 0xc1, 0x12, 0xb7, 0xcc, 0x9a, 0x93, 0xca, 0xe4, 0x1f, 0x32, 0x62,
    ];
    assert_eq!(hash(b""), expected);
}

#[test]
fn extendable_output_matches_real_blake3() {
    for first in [0u8, 1, 0x7f, 0xff] {
        let mut seed = [first; 32];
        seed[31] = 9;
        for len in [0usize, 1, 31, 32, 63, 64, 65, 127, 128, 129, 1000] {
            let mut expected = vec![0u8; len];
            blake3::Hasher::new().update(&seed).finalize_xof().fill(&mut expected);
            assert_eq!(xof_from_32_bytes(&seed, len), expected);
        }
    }
}

#[test]
fn the_stack_of_subtrees_counts_in_binary() {
    let cv = |n: u32| [n; 8];
    let join = |a: [u32; 8], b: [u32; 8]| parent_cv(&a, &b, false);
    let mut stack: Vec<[u32; 8]> = Vec::new();
    merge_cv_stack(&mut stack, cv(1), 1);
    assert_eq!(stack, vec![cv(1)]);
    merge_cv_stack(&mut stack, cv(2), 2);
    let two = join(cv(1), cv(2));
    assert_eq!(stack, vec![two]);
    merge_cv_stack(&mut stack, cv(3), 3);
    assert_eq!(stack, vec![two, cv(3)]);
    merge_cv_stack(&mut stack, cv(4), 4);
    let four = join(two, join(cv(3), cv(4)));
    assert_eq!(stack, vec![four]);
    for n in 5..=7u64 {
        merge_cv_stack(&mut stack, cv(n as u32), n);
        assert_eq!(stack.len(), n.count_ones() as usize);
        assert_eq!(stack[0], four);
    }
    merge_cv_stack(&mut stack, cv(8), 8);
    assert_eq!(stack, vec![join(four, join(join(cv(5), cv(6)), join(cv(7), cv(8))))]);
}

#[test]
fn flags_and_counter_reach_the_output() {
    assert_ne!(parent_cv(&[1; 8], &[2; 8], false), parent_cv(&[1; 8], &[2; 8], true));
    let out = xof_from_32_bytes(&[7u8; 32], 192);
    assert_ne!(out[..64], out[64..128]);
    assert_ne!(out[64..128], out[128..]);
    // The same chunk at two places, and the same bytes with another length.
    assert_ne!(hash(&[0u8; 63]), hash(&[0u8; 64]));
    assert_ne!(hash(&[0u8; 1024]), hash(&[0u8; 2048]));
}

#[test]
fn no_two_settings_compress_alike() {
    let settings = [
        (0, 64, 0),
        (1, 64, 0),
        (1u64 << 32, 64, 0),
        (0, 63, 0),
        (0, 64, 1),
        (0, 64, 2),
        (0, 64, 4),
        (0, 64, 8),
    ];
    let outputs: Vec<[u32; 16]> = settings
        .iter()
        .map(|&(counter, len, flags)| compress(&[5; 8], &[6; 16], counter, len, flags))
        .collect();
    for (i, a) in outputs.iter().enumerate() {
        for b in &outputs[..i] {
            assert_ne!(a, b);
        }
    }
}
