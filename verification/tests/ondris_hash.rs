use ondris::ondris_hash_ref::ondris_hash_with_accesses;
use ondris::pow;
use ondris::primitives::Hash256;

#[test]
fn matches_the_real_ondris_pow_crate() {
    let seed = Hash256::hash(b"gpu-validation-seed-v2");
    let dataset = pow::Dataset::generate_with_sizes(0, seed, 4096, 8192);

    for header in [&b"header-a"[..], b"a different, longer header value"] {
        for nonce in [0u64, 1, 42, u64::MAX, 123456789] {
            let expected = pow::ondris_hash_with_accesses(header, nonce, &dataset, 8);
            let got = ondris_hash_with_accesses(header, nonce, dataset.bytes(), 8);
            assert_eq!(got, *expected.as_bytes(), "mismatch for header={header:?} nonce={nonce}");
        }
    }
}

#[test]
fn matches_the_real_crate_at_default_sizes() {
    let seed = Hash256::hash(b"default-size-check-v2");
    let dataset = pow::Dataset::generate_with_sizes(0, seed, pow::CACHE_SIZE, pow::DATASET_SIZE);
    let header = b"a realistic-length header field for this check";
    let expected = pow::ondris_hash(header, 7, &dataset);
    let got = ondris_hash_with_accesses(header, 7, dataset.bytes(), pow::ACCESSES);
    assert_eq!(got, *expected.as_bytes());
}
