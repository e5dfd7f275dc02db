use ondris::xoshiro_ref::Xoshiro256StarStar;
use rand::{RngCore, SeedableRng};
use rand_xoshiro::Xoshiro256StarStar as RealXoshiro;

fn check(seed: [u8; 32]) {
    let mut ours = Xoshiro256StarStar::from_seed(seed);
    let mut real = RealXoshiro::from_seed(seed);
    for i in 0..1000 {
        let a = ours.next_u64();
        let b = real.next_u64();
        assert_eq!(a, b, "sequence diverged at step {i} for seed {seed:?}");
    }
}

#[test]
fn matches_real_rand_xoshiro_for_various_seeds() {
    // Deliberately NOT testing the all-zero seed here: `rand_xoshiro` special-cases it
    // (guarding against the degenerate all-zero state), so it diverges from a direct
    // byte mapping. The seed is always a BLAKE3 hash output in practice.
    check([0xffu8; 32]);
    let mut seed = [0u8; 32];
    for (i, b) in seed.iter_mut().enumerate() {
        *b = i as u8;
    }
    check(seed);

    for input in [&b""[..], b"ondris", b"a longer piece of test input for seeding"] {
        check(*blake3::hash(input).as_bytes());
    }
}

#[test]
fn matches_real_rand_xoshiro_for_random_seeds() {
    let mut rng = rand::rngs::OsRng;
    for _ in 0..20 {
        let mut seed = [0u8; 32];
        rng.fill_bytes(&mut seed);
        check(seed);
    }
}

#[test]
fn the_all_zero_seed_stays_at_zero() {
    let mut rng = Xoshiro256StarStar::from_seed([0u8; 32]);
    assert_eq!(rng.next_u64(), 0);
    assert_eq!(rng.next_u64(), 0);
}
