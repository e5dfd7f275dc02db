//! The xoshiro256** pseudo-random generator.

use crate::bytes::{le_value, read_u64_le};
use vstd::prelude::*;

verus! {

pub struct Xoshiro256StarStar {
    s: [u64; 4],
}

/// `x` rotated left by `n` bits, for `0 < n < 64`.
pub open spec fn rotl(x: u64, n: u64) -> u64 {
    (x << n) | (x >> ((64 - n) as u64))
}

/// The generator's output in state `s`.
pub open spec fn output(s: Seq<u64>) -> u64 {
    rotl(s[1].wrapping_mul(5), 7).wrapping_mul(9)
}

/// The state after `s`.
pub open spec fn next_state(s: Seq<u64>) -> Seq<u64> {
    seq![
        s[0] ^ (s[3] ^ s[1]),
        s[1] ^ (s[2] ^ s[0]),
        (s[2] ^ s[0]) ^ (s[1] << 17),
        rotl(s[3] ^ s[1], 45),
    ]
}

fn rotate_left(x: u64, n: u64) -> (r: u64)
    requires
        0 < n < 64,
    ensures
        r == rotl(x, n),
{
    (x << n) | (x >> (64 - n))
}

impl View for Xoshiro256StarStar {
    type V = Seq<u64>;

    closed spec fn view(&self) -> Seq<u64> {
        self.s@
    }
}

impl Xoshiro256StarStar {
    /// The 32-byte seed is taken directly as four little-endian words, with no
    /// expansion step.
    pub fn from_seed(seed: [u8; 32]) -> (r: Self)
        ensures
            r@.len() == 4,
            forall|i: int|
                0 <= i < 4 ==> (#[trigger] r@[i]) as nat == le_value(seed@.subrange(8 * i, 8 * i + 8)),
    {
        let s: [u64; 4] = [
            read_u64_le(&seed, 0),
            read_u64_le(&seed, 8),
            read_u64_le(&seed, 16),
            read_u64_le(&seed, 24),
        ];
        Xoshiro256StarStar { s }
    }

    /// Yields the next number and steps the state.
    pub fn next_u64(&mut self) -> (r: u64)
        ensures
            r == output(old(self)@),
            final(self)@ == next_state(old(self)@),
    {
        let s0 = self.s[0];
        let s1 = self.s[1];
        let s2 = self.s[2] ^ s0;
        let s3 = self.s[3] ^ s1;
        let result = rotate_left(s1.wrapping_mul(5), 7).wrapping_mul(9);
        let t = s1 << 17;
        self.s = [s0 ^ s3, s1 ^ s2, s2 ^ t, rotate_left(s3, 45)];
        assert(self@ =~= next_state(old(self)@));
        result
    }
}

} // verus!
