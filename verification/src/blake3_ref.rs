//! BLAKE3 in plain word arithmetic: hashing of a whole input at once, and the
//! extendable output of a 32-byte input. A GPU kernel follows this code step by
//! step; the chain itself hashes with the `blake3` crate.

use crate::bytes::{array32, le32, le_bytes, lemma_le_bytes_len, push_u32_le, read_u32_le, words_bytes};
use vstd::prelude::*;

verus! {

pub const IV: [u32; 8] = [
    0x6A09_E667,
    0xBB67_AE85,
    0x3C6E_F372,
    0xA54F_F53A,
    0x510E_527F,
    0x9B05_688C,
    0x1F83_D9AB,
    0x5BE0_CD19,
];

pub const MSG_PERMUTATION: [usize; 16] = [2, 6, 3, 10, 7, 0, 4, 13, 1, 11, 12, 5, 9, 14, 15, 8];

pub const CHUNK_START: u32 = 1;

pub const CHUNK_END: u32 = 2;

pub const PARENT: u32 = 4;

pub const ROOT: u32 = 8;

pub const CHUNK_LEN: usize = 1024;

pub const BLOCK_LEN: usize = 64;

// ---- the compression function ----

/// `x` rotated right by `n` bits, for `0 < n < 32`.
pub open spec fn rotr(x: u32, n: u32) -> u32 {
    (x >> n) | (x << ((32 - n) as u32))
}

/// One mixing step: the words at `a`, `b`, `c`, `d` stirred with two message words.
#[verifier::opaque]
pub open spec fn mix_step(s: Seq<u32>, a: int, b: int, c: int, d: int, mx: u32, my: u32) -> Seq<u32> {
    let a1 = s[a].wrapping_add(s[b]).wrapping_add(mx);
    let d1 = rotr(s[d] ^ a1, 16);
    let c1 = s[c].wrapping_add(d1);
    let b1 = rotr(s[b] ^ c1, 12);
    let a2 = a1.wrapping_add(b1).wrapping_add(my);
    let d2 = rotr(d1 ^ a2, 8);
    let c2 = c1.wrapping_add(d2);
    let b2 = rotr(b1 ^ c2, 7);
    s.update(a, a2).update(b, b2).update(c, c2).update(d, d2)
}

/// Columns, then diagonals.
pub open spec fn round(s: Seq<u32>, m: Seq<u32>) -> Seq<u32> {
    let s = mix_step(s, 0, 4, 8, 12, m[0], m[1]);
    let s = mix_step(s, 1, 5, 9, 13, m[2], m[3]);
    let s = mix_step(s, 2, 6, 10, 14, m[4], m[5]);
    let s = mix_step(s, 3, 7, 11, 15, m[6], m[7]);
    let s = mix_step(s, 0, 5, 10, 15, m[8], m[9]);
    let s = mix_step(s, 1, 6, 11, 12, m[10], m[11]);
    let s = mix_step(s, 2, 7, 8, 13, m[12], m[13]);
    mix_step(s, 3, 4, 9, 14, m[14], m[15])
}

pub open spec fn permuted(m: Seq<u32>) -> Seq<u32> {
    Seq::new(16, |i: int| m[MSG_PERMUTATION[i] as int])
}

/// `n` rounds, the message words permuted after each.
pub open spec fn rounds(s: Seq<u32>, m: Seq<u32>, n: nat) -> Seq<u32>
    decreases n,
{
    if n == 0 {
        s
    } else {
        rounds(round(s, m), permuted(m), (n - 1) as nat)
    }
}

/// The state that the rounds start from.
pub open spec fn initial_state(cv: Seq<u32>, counter: u64, block_len: u32, flags: u32) -> Seq<u32> {
    cv + seq![
        IV[0],
        IV[1],
        IV[2],
        IV[3],
        counter as u32,
        (counter >> 32) as u32,
        block_len,
        flags,
    ]
}

/// The sixteen output words of one compression.
pub open spec fn compressed(
    cv: Seq<u32>,
    block: Seq<u32>,
    counter: u64,
    block_len: u32,
    flags: u32,
) -> Seq<u32> {
    let s = rounds(initial_state(cv, counter, block_len, flags), block, 7);
    Seq::new(16, |i: int| if i < 8 { s[i] ^ s[i + 8] } else { s[i] ^ cv[i - 8] })
}

/// The eight words that a compression hands on.
pub open spec fn chained(
    cv: Seq<u32>,
    block: Seq<u32>,
    counter: u64,
    block_len: u32,
    flags: u32,
) -> Seq<u32> {
    compressed(cv, block, counter, block_len, flags).take(8)
}

fn rotate_right(x: u32, n: u32) -> (r: u32)
    requires
        0 < n < 32,
    ensures
        r == rotr(x, n),
{
    (x >> n) | (x << (32 - n))
}

fn g(state: &mut [u32; 16], a: usize, b: usize, c: usize, d: usize, mx: u32, my: u32)
    requires
        a < 16 && b < 16 && c < 16 && d < 16,
        a != b && a != c && a != d && b != c && b != d && c != d,
    ensures
        final(state)@ == mix_step(old(state)@, a as int, b as int, c as int, d as int, mx, my),
{
    reveal(mix_step);
    state[a] = state[a].wrapping_add(state[b]).wrapping_add(mx);
    state[d] = rotate_right(state[d] ^ state[a], 16);
    state[c] = state[c].wrapping_add(state[d]);
    state[b] = rotate_right(state[b] ^ state[c], 12);
    state[a] = state[a].wrapping_add(state[b]).wrapping_add(my);
    state[d] = rotate_right(state[d] ^ state[a], 8);
    state[c] = state[c].wrapping_add(state[d]);
    state[b] = rotate_right(state[b] ^ state[c], 7);
    assert(state@ =~= mix_step(old(state)@, a as int, b as int, c as int, d as int, mx, my));
}

fn permute(m: &[u32; 16]) -> (r: [u32; 16])
    ensures
        r@ == permuted(m@),
{
    let mut out = [0u32; 16];
    let mut i: usize = 0;
    while i < 16
        invariant
            i <= 16,
            forall|j: int| 0 <= j < i ==> out@[j] == m@[MSG_PERMUTATION[j] as int],
        decreases 16 - i,
    {
        let from: usize = MSG_PERMUTATION[i];
        assert(from < 16);
        out[i] = m[from];
        i += 1;
    }
    assert(out@ =~= permuted(m@));
    out
}

/// The core compression function. Returns all sixteen output words: the first
/// eight are the next chaining value, and all of them are output of a root.
pub fn compress(cv: &[u32; 8], block_words: &[u32; 16], counter: u64, block_len: u32, flags: u32) -> (r: [u32; 16])
    ensures
        r@ == compressed(cv@, block_words@, counter, block_len, flags),
{
    let mut state: [u32; 16] = [
        cv[0],
        cv[1],
        cv[2],
        cv[3],
        cv[4],
        cv[5],
        cv[6],
        cv[7],
        IV[0],
        IV[1],
        IV[2],
        IV[3],
        counter as u32,
        (counter >> 32) as u32,
        block_len,
        flags,
    ];
    assert(state@ =~= initial_state(cv@, counter, block_len, flags));
    let mut m: [u32; 16] = *block_words;
    let ghost init = state@;
    let mut done: usize = 0;
    while done < 7
        invariant
            done <= 7,
            rounds(init, block_words@, 7) == rounds(state@, m@, (7 - done) as nat),
        decreases 7 - done,
    {
        g(&mut state, 0, 4, 8, 12, m[0], m[1]);
        g(&mut state, 1, 5, 9, 13, m[2], m[3]);
        g(&mut state, 2, 6, 10, 14, m[4], m[5]);
        g(&mut state, 3, 7, 11, 15, m[6], m[7]);
        g(&mut state, 0, 5, 10, 15, m[8], m[9]);
        g(&mut state, 1, 6, 11, 12, m[10], m[11]);
        g(&mut state, 2, 7, 8, 13, m[12], m[13]);
        g(&mut state, 3, 4, 9, 14, m[14], m[15]);
        m = permute(&m);
        done += 1;
    }
    let ghost mixed = state@;
    let mut i: usize = 0;
    while i < 8
        invariant
            i <= 8,
            forall|j: int| 0 <= j < i ==> state@[j] == mixed[j] ^ mixed[j + 8],
            forall|j: int| 8 <= j < i + 8 ==> state@[j] == mixed[j] ^ cv@[j - 8],
            forall|j: int| i <= j < 8 ==> state@[j] == mixed[j],
            forall|j: int| i + 8 <= j < 16 ==> state@[j] == mixed[j],
        decreases 8 - i,
    {
        state[i] = state[i] ^ state[i + 8];
        state[i + 8] = state[i + 8] ^ cv[i];
        i += 1;
    }
    assert(state@ =~= compressed(cv@, block_words@, counter, block_len, flags));
    state
}

// ---- what reaches the output of a compression ----

proof fn lemma_rotr_injective(x: u32, y: u32)
    ensures
        rotr(x, 7) == rotr(y, 7) ==> x == y,
        rotr(x, 8) == rotr(y, 8) ==> x == y,
        rotr(x, 12) == rotr(y, 12) ==> x == y,
        rotr(x, 16) == rotr(y, 16) ==> x == y,
{
    assert((x >> 7u32) | (x << 25u32) == (y >> 7u32) | (y << 25u32) ==> x == y) by (bit_vector);
    assert((x >> 8u32) | (x << 24u32) == (y >> 8u32) | (y << 24u32) ==> x == y) by (bit_vector);
    assert((x >> 12u32) | (x << 20u32) == (y >> 12u32) | (y << 20u32) ==> x == y) by (bit_vector);
    assert((x >> 16u32) | (x << 16u32) == (y >> 16u32) | (y << 16u32) ==> x == y) by (bit_vector);
}

proof fn lemma_xor_cancels(x: u32, y: u32, z: u32)
    requires
        x ^ z == y ^ z,
    ensures
        x == y,
{
    assert(x ^ z == y ^ z ==> x == y) by (bit_vector);
}

/// A mixing step can be undone.
proof fn lemma_mix_step_injective(s: Seq<u32>, t: Seq<u32>, a: int, b: int, c: int, d: int, mx: u32, my: u32)
    requires
        s.len() == 16,
        t.len() == 16,
        0 <= a < 16 && 0 <= b < 16 && 0 <= c < 16 && 0 <= d < 16,
        a != b && a != c && a != d && b != c && b != d && c != d,
        mix_step(s, a, b, c, d, mx, my) == mix_step(t, a, b, c, d, mx, my),
    ensures
        s == t,
{
    reveal(mix_step);
    let (p, q) = (mix_step(s, a, b, c, d, mx, my), mix_step(t, a, b, c, d, mx, my));
    let a1 = s[a].wrapping_add(s[b]).wrapping_add(mx);
    let d1 = rotr(s[d] ^ a1, 16);
    let c1 = s[c].wrapping_add(d1);
    let b1 = rotr(s[b] ^ c1, 12);
    let x1 = t[a].wrapping_add(t[b]).wrapping_add(mx);
    let w1 = rotr(t[d] ^ x1, 16);
    let z1 = t[c].wrapping_add(w1);
    let y1 = rotr(t[b] ^ z1, 12);
    assert(p[a] == q[a] && p[b] == q[b] && p[c] == q[c] && p[d] == q[d]);
    lemma_rotr_injective(b1 ^ p[c], y1 ^ p[c]);
    lemma_xor_cancels(b1, y1, p[c]);
    assert(c1 == z1);
    lemma_rotr_injective(d1 ^ p[a], w1 ^ p[a]);
    lemma_xor_cancels(d1, w1, p[a]);
    assert(a1 == x1);
    lemma_rotr_injective(s[b] ^ c1, t[b] ^ c1);
    lemma_xor_cancels(s[b], t[b], c1);
    assert(s[c] == t[c]);
    lemma_rotr_injective(s[d] ^ a1, t[d] ^ a1);
    lemma_xor_cancels(s[d], t[d], a1);
    assert(s[a] == t[a]);
    assert forall|i: int| 0 <= i < 16 implies s[i] == t[i] by {
        if i != a && i != b && i != c && i != d {
            assert(p[i] == s[i] && q[i] == t[i]);
        }
    }
    assert(s =~= t);
}

/// A round can be undone.
proof fn lemma_round_injective(s: Seq<u32>, t: Seq<u32>, m: Seq<u32>)
    requires
        s.len() == 16,
        t.len() == 16,
        round(s, m) == round(t, m),
    ensures
        s == t,
{
    let s1 = mix_step(s, 0, 4, 8, 12, m[0], m[1]);
    let s2 = mix_step(s1, 1, 5, 9, 13, m[2], m[3]);
    let s3 = mix_step(s2, 2, 6, 10, 14, m[4], m[5]);
    let s4 = mix_step(s3, 3, 7, 11, 15, m[6], m[7]);
    let s5 = mix_step(s4, 0, 5, 10, 15, m[8], m[9]);
    let s6 = mix_step(s5, 1, 6, 11, 12, m[10], m[11]);
    let s7 = mix_step(s6, 2, 7, 8, 13, m[12], m[13]);
    let t1 = mix_step(t, 0, 4, 8, 12, m[0], m[1]);
    let t2 = mix_step(t1, 1, 5, 9, 13, m[2], m[3]);
    let t3 = mix_step(t2, 2, 6, 10, 14, m[4], m[5]);
    let t4 = mix_step(t3, 3, 7, 11, 15, m[6], m[7]);
    let t5 = mix_step(t4, 0, 5, 10, 15, m[8], m[9]);
    let t6 = mix_step(t5, 1, 6, 11, 12, m[10], m[11]);
    let t7 = mix_step(t6, 2, 7, 8, 13, m[12], m[13]);
    lemma_round_lens(s, m);
    lemma_round_lens(t, m);
    lemma_mix_step_injective(s7, t7, 3, 4, 9, 14, m[14], m[15]);
    lemma_mix_step_injective(s6, t6, 2, 7, 8, 13, m[12], m[13]);
    lemma_mix_step_injective(s5, t5, 1, 6, 11, 12, m[10], m[11]);
    lemma_mix_step_injective(s4, t4, 0, 5, 10, 15, m[8], m[9]);
    lemma_mix_step_injective(s3, t3, 3, 7, 11, 15, m[6], m[7]);
    lemma_mix_step_injective(s2, t2, 2, 6, 10, 14, m[4], m[5]);
    lemma_mix_step_injective(s1, t1, 1, 5, 9, 13, m[2], m[3]);
    lemma_mix_step_injective(s, t, 0, 4, 8, 12, m[0], m[1]);
}

/// Every state within a round has sixteen words.
proof fn lemma_round_lens(s: Seq<u32>, m: Seq<u32>)
    requires
        s.len() == 16,
    ensures
        ({
            let s1 = mix_step(s, 0, 4, 8, 12, m[0], m[1]);
            let s2 = mix_step(s1, 1, 5, 9, 13, m[2], m[3]);
            let s3 = mix_step(s2, 2, 6, 10, 14, m[4], m[5]);
            let s4 = mix_step(s3, 3, 7, 11, 15, m[6], m[7]);
            let s5 = mix_step(s4, 0, 5, 10, 15, m[8], m[9]);
            let s6 = mix_step(s5, 1, 6, 11, 12, m[10], m[11]);
            let s7 = mix_step(s6, 2, 7, 8, 13, m[12], m[13]);
            &&& s1.len() == 16 && s2.len() == 16 && s3.len() == 16 && s4.len() == 16
            &&& s5.len() == 16 && s6.len() == 16 && s7.len() == 16
            &&& round(s, m).len() == 16
        }),
{
    reveal(mix_step);
}

proof fn lemma_rounds_injective(s: Seq<u32>, t: Seq<u32>, m: Seq<u32>, n: nat)
    requires
        s.len() == 16,
        t.len() == 16,
        rounds(s, m, n) == rounds(t, m, n),
    ensures
        s == t,
    decreases n,
{
    if n > 0 {
        lemma_round_lens(s, m);
        lemma_round_lens(t, m);
        lemma_rounds_injective(round(s, m), round(t, m), permuted(m), (n - 1) as nat);
        lemma_round_injective(s, t, m);
    }
}

proof fn lemma_rounds_len(s: Seq<u32>, m: Seq<u32>, n: nat)
    requires
        s.len() == 16,
    ensures
        rounds(s, m, n).len() == 16,
    decreases n,
{
    if n > 0 {
        lemma_round_lens(s, m);
        lemma_rounds_len(round(s, m), permuted(m), (n - 1) as nat);
    }
}

/// For one chaining value and one block, no two choices of counter, block length and
/// flags have the same sixteen output words: both halves of the counter, the length
/// and every flag reach the output.
pub proof fn counter_length_and_flags_reach_the_output(
    cv: Seq<u32>,
    block: Seq<u32>,
    counter: u64,
    block_len: u32,
    flags: u32,
    other_counter: u64,
    other_len: u32,
    other_flags: u32,
)
    requires
        cv.len() == 8,
        compressed(cv, block, counter, block_len, flags) == compressed(
            cv,
            block,
            other_counter,
            other_len,
            other_flags,
        ),
    ensures
        counter == other_counter,
        block_len == other_len,
        flags == other_flags,
{
    let x = initial_state(cv, counter, block_len, flags);
    let y = initial_state(cv, other_counter, other_len, other_flags);
    let (s, t) = (rounds(x, block, 7), rounds(y, block, 7));
    let p = compressed(cv, block, counter, block_len, flags);
    let q = compressed(cv, block, other_counter, other_len, other_flags);
    lemma_rounds_len(x, block, 7);
    lemma_rounds_len(y, block, 7);
    assert forall|i: int| 8 <= i < 16 implies s[i] == t[i] by {
        assert(p[i] == s[i] ^ cv[i - 8] && q[i] == t[i] ^ cv[i - 8]);
        lemma_xor_cancels(s[i], t[i], cv[i - 8]);
    }
    assert forall|i: int| 0 <= i < 8 implies s[i] == t[i] by {
        assert(p[i] == s[i] ^ s[i + 8] && q[i] == t[i] ^ t[i + 8]);
        lemma_xor_cancels(s[i], t[i], s[i + 8]);
    }
    assert(s =~= t);
    lemma_rounds_injective(x, y, block, 7);
    assert(x[12] == y[12] && x[13] == y[13] && x[14] == y[14] && x[15] == y[15]);
    assert(counter as u32 == other_counter as u32 && (counter >> 32) as u32 == (other_counter >> 32) as u32 ==> counter
        == other_counter) by (bit_vector);
}

// ---- chunks ----

/// `block` filled up with zero bytes to 64, as sixteen words.
pub open spec fn block_words(block: Seq<u8>) -> Seq<u32> {
    let padded = block + Seq::new((64 - block.len()) as nat, |i: int| 0u8);
    Seq::new(16, |i: int| le32(padded, 4 * i))
}

/// The flags of one block of a chunk.
pub open spec fn chunk_flags(first: bool, last: bool, root: bool) -> u32 {
    ((if first { CHUNK_START } else { 0 }) + (if last { CHUNK_END } else { 0 })
        + (if last && root { ROOT } else { 0 })) as u32
}

/// The chaining value after all blocks of `data`, entered with `cv`; `first`
/// says whether the chunk starts here. A chunk has at least one block, if an
/// empty one.
pub open spec fn chunk_cv(cv: Seq<u32>, data: Seq<u8>, counter: u64, first: bool, root: bool) -> Seq<u32>
    decreases data.len(),
{
    if data.len() <= 64 {
        chained(cv, block_words(data), counter, data.len() as u32, chunk_flags(first, true, root))
    } else {
        let next = chained(cv, block_words(data.take(64)), counter, 64, chunk_flags(first, false, root));
        chunk_cv(next, data.skip(64), counter, false, root)
    }
}

fn words_from_le_bytes_padded(block: &[u8]) -> (r: [u32; 16])
    requires
        block@.len() <= 64,
    ensures
        r@ == block_words(block@),
{
    let mut padded: Vec<u8> = Vec::with_capacity(BLOCK_LEN);
    padded.extend_from_slice(block);
    while padded.len() < BLOCK_LEN
        invariant
            block@.len() <= padded@.len() <= 64,
            padded@ == block@ + Seq::new((padded@.len() - block@.len()) as nat, |i: int| 0u8),
        decreases 64 - padded@.len(),
    {
        padded.push(0);
        assert(padded@ =~= block@ + Seq::new((padded@.len() - block@.len()) as nat, |i: int| 0u8));
    }
    let mut words = [0u32; 16];
    let mut i: usize = 0;
    while i < 16
        invariant
            i <= 16,
            padded@.len() == 64,
            forall|j: int| 0 <= j < i ==> words@[j] == le32(padded@, 4 * j),
        decreases 16 - i,
    {
        words[i] = read_u32_le(&padded, 4 * i);
        i += 1;
    }
    assert(words@ =~= block_words(block@));
    words
}

fn chaining_value_of(cv: &[u32; 8], block_words: &[u32; 16], counter: u64, block_len: u32, flags: u32) -> (r: [u32; 8])
    ensures
        r@ == chained(cv@, block_words@, counter, block_len, flags),
{
    let out = compress(cv, block_words, counter, block_len, flags);
    let r: [u32; 8] = [out[0], out[1], out[2], out[3], out[4], out[5], out[6], out[7]];
    assert(r@ =~= out@.take(8));
    r
}

/// Hashes one chunk (up to 1024 bytes) of the input to its chaining value.
/// `root` holds only of a chunk that is the whole input.
fn hash_chunk(chunk: &[u8], chunk_counter: u64, root: bool) -> (r: [u32; 8])
    requires
        chunk@.len() <= 1024,
    ensures
        r@ == chunk_cv(IV@, chunk@, chunk_counter, true, root),
{
    let mut cv: [u32; 8] = IV;
    let mut offset: usize = 0;
    let n: usize = chunk.len();
    assert(chunk@.skip(0) =~= chunk@);
    while n - offset > BLOCK_LEN
        invariant
            offset <= n == chunk@.len() <= 1024,
            chunk_cv(IV@, chunk@, chunk_counter, true, root) == chunk_cv(
                cv@,
                chunk@.skip(offset as int),
                chunk_counter,
                offset == 0,
                root,
            ),
        decreases n - offset,
    {
        let block = &chunk[offset..offset + BLOCK_LEN];
        let flags: u32 = if offset == 0 { CHUNK_START } else { 0 };
        let ghost rest = chunk@.skip(offset as int);
        assert(rest.take(64) =~= block@);
        assert(rest.skip(64) =~= chunk@.skip(offset + 64));
        let words = words_from_le_bytes_padded(block);
        cv = chaining_value_of(&cv, &words, chunk_counter, BLOCK_LEN as u32, flags);
        offset += BLOCK_LEN;
    }
    let block = &chunk[offset..n];
    assert(chunk@.skip(offset as int) =~= block@);
    let first: u32 = if offset == 0 { CHUNK_START } else { 0 };
    let flags: u32 = first + CHUNK_END + (if root { ROOT } else { 0 });
    let words = words_from_le_bytes_padded(block);
    chaining_value_of(&cv, &words, chunk_counter, block.len() as u32, flags)
}

// ---- the tree ----

/// The chaining value of an inner node.
pub open spec fn parent(left: Seq<u32>, right: Seq<u32>, root: bool) -> Seq<u32> {
    chained(IV@, left + right, 0, 64, if root { (PARENT + ROOT) as u32 } else { PARENT })
}

/// The largest power of two below `n`, for `n >= 2`.
pub open spec fn pow2_below(n: nat) -> nat
    decreases n,
{
    if n <= 2 {
        1
    } else {
        2 * pow2_below((n + 1) / 2)
    }
}

/// How many chunks `len` bytes make up.
pub open spec fn chunk_count(len: nat) -> nat {
    (len + 1023) / 1024
}

/// The node over `data`, which begins at chunk `first` of the input: a chunk, or
/// a parent whose left side is the largest full subtree that leaves something
/// for the right.
pub open spec fn tree_cv(data: Seq<u8>, first: nat, root: bool) -> Seq<u32>
    decreases data.len(),
    via tree_cv_ends
{
    if data.len() <= 1024 {
        chunk_cv(IV@, data, first as u64, true, root)
    } else {
        let half = pow2_below(chunk_count(data.len()));
        parent(
            tree_cv(data.take((1024 * half) as int), first, false),
            tree_cv(data.skip((1024 * half) as int), first + half, false),
            root,
        )
    }
}

#[via_fn]
proof fn tree_cv_ends(data: Seq<u8>, first: nat, root: bool) {
    if data.len() > 1024 {
        lemma_pow2_below_bound(chunk_count(data.len()));
    }
}

pub proof fn lemma_pow2_below_bound(n: nat)
    requires
        n >= 2,
    ensures
        1 <= pow2_below(n) < n <= 2 * pow2_below(n),
    decreases n,
{
    if n > 2 {
        lemma_pow2_below_bound((n + 1) / 2);
    }
}

/// The 32-byte BLAKE3 hash of `data`.
pub open spec fn digest(data: Seq<u8>) -> Seq<u8> {
    words_bytes(tree_cv(data, 0, true))
}

fn words_to_le_bytes(words: &[u32; 8]) -> (r: [u8; 32])
    ensures
        r@ == words_bytes(words@),
{
    let mut out: Vec<u8> = Vec::with_capacity(32);
    let mut i: usize = 0;
    assert(words@.take(0) =~= Seq::empty());
    while i < 8
        invariant
            i <= 8,
            out@.len() == 4 * i,
            out@ == words_bytes(words@.take(i as int)),
        decreases 8 - i,
    {
        proof {
            assert(words@.take(i + 1).drop_last() =~= words@.take(i as int));
            lemma_le_bytes_len(words@[i as int] as nat, 4);
        }
        push_u32_le(&mut out, words[i]);
        i += 1;
    }
    assert(words@.take(8) =~= words@);
    array32(&out)
}

/// The chaining value of an inner node of the tree.
pub fn parent_cv(left: &[u32; 8], right: &[u32; 8], root: bool) -> (r: [u32; 8])
    ensures
        r@ == parent(left@, right@, root),
{
    let words: [u32; 16] = [
        left[0],
        left[1],
        left[2],
        left[3],
        left[4],
        left[5],
        left[6],
        left[7],
        right[0],
        right[1],
        right[2],
        right[3],
        right[4],
        right[5],
        right[6],
        right[7],
    ];
    assert(words@ =~= left@ + right@);
    let flags: u32 = if root { PARENT + ROOT } else { PARENT };
    let iv: [u32; 8] = IV;
    chaining_value_of(&iv, &words, 0, BLOCK_LEN as u32, flags)
}

// ---- the stack of pending subtrees ----

spec fn is_pow2(n: nat) -> bool
    decreases n,
{
    n == 1 || (n > 1 && n % 2 == 0 && is_pow2(n / 2))
}

/// The lowest set bit of `n`, for `n > 0`.
spec fn low_bit(n: nat) -> nat
    decreases n,
{
    if n % 2 == 1 || n == 0 {
        1
    } else {
        2 * low_bit(n / 2)
    }
}

/// The full subtree over `len` chunks from chunk `at` on.
spec fn node(data: Seq<u8>, at: nat, len: nat) -> Seq<u32> {
    tree_cv(data.subrange((1024 * at) as int, (1024 * (at + len)) as int), at, false)
}

/// The pending subtrees after `n` chunks: one for each set bit of `n`, the
/// widest at the bottom.
spec fn pending(stack: Seq<Seq<u32>>, data: Seq<u8>, n: nat) -> bool
    decreases n,
    via pending_ends
{
    if n == 0 {
        stack.len() == 0
    } else {
        let b = low_bit(n);
        &&& stack.len() > 0
        &&& stack.last() == node(data, (n - b) as nat, b)
        &&& pending(stack.drop_last(), data, (n - b) as nat)
    }
}

#[via_fn]
proof fn pending_ends(stack: Seq<Seq<u32>>, data: Seq<u8>, n: nat) {
    if n > 0 {
        lemma_low_bit_bound(n);
    }
}

proof fn lemma_low_bit_bound(n: nat)
    requires
        n > 0,
    ensures
        1 <= low_bit(n) <= n,
        is_pow2(low_bit(n)),
        n % low_bit(n) == 0,
        (n / low_bit(n)) % 2 == 1,
    decreases n,
{
    if n % 2 == 0 {
        let h = n / 2;
        lemma_low_bit_bound(h);
        let b = low_bit(h);
        assert(n == 2 * h);
        assert(h == b * (h / b)) by {
            vstd::arithmetic::div_mod::lemma_fundamental_div_mod(h as int, b as int);
        }
        let q = h / b;
        assert(n == (2 * b) * q) by (nonlinear_arith)
            requires
                n == 2 * h,
                h == b * q,
        ;
        vstd::arithmetic::div_mod::lemma_fundamental_div_mod_converse(n as int, (2 * b) as int, q as int, 0);
    }
}

/// An odd multiple of a power of two has that power as its lowest set bit.
proof fn lemma_low_bit_of_multiple(q: nat, b: nat)
    requires
        q % 2 == 1,
        is_pow2(b),
    ensures
        q * b > 0,
        low_bit(q * b) == b,
    decreases b,
{
    if b > 1 {
        let h = b / 2;
        lemma_low_bit_of_multiple(q, h);
        assert(q * b == 2 * (q * h)) by (nonlinear_arith)
            requires
                b == 2 * h,
        ;
    } else {
        assert(q * b == q) by (nonlinear_arith)
            requires
                b == 1,
        ;
    }
}

/// Clearing the lowest set bit leaves a number whose lowest set bit is higher.
proof fn lemma_low_bit_grows(n: nat)
    requires
        n > low_bit(n),
    ensures
        low_bit((n - low_bit(n)) as nat) >= 2 * low_bit(n),
    decreases n,
{
    if n % 2 == 1 {
        let m = (n - 1) as nat;
        lemma_low_bit_bound(m / 2);
    } else {
        lemma_low_bit_grows(n / 2);
        assert((n - low_bit(n)) as nat / 2 == n / 2 - low_bit(n / 2));
    }
}

/// A power of two and at least one, at most as many more: the power splits off.
proof fn lemma_pow2_below_sum(b: nat, r: nat)
    requires
        is_pow2(b),
        1 <= r <= b,
    ensures
        pow2_below(b + r) == b,
    decreases b,
{
    if b > 1 {
        lemma_pow2_below_sum(b / 2, (r + 1) / 2);
        assert((b + r + 1) / 2 == b / 2 + (r + 1) / 2);
    }
}

/// Two neighbouring full subtrees of one width are the halves of the next wider.
proof fn lemma_join_nodes(data: Seq<u8>, at: nat, len: nat)
    requires
        is_pow2(len),
        1024 * (at + 2 * len) <= data.len(),
    ensures
        parent(node(data, at, len), node(data, at + len, len), false) == node(data, at, 2 * len),
{
    let whole = data.subrange((1024 * at) as int, (1024 * (at + 2 * len)) as int);
    assert(chunk_count(whole.len()) == 2 * len);
    lemma_pow2_below_sum(len, len);
    assert(whole.take((1024 * len) as int) =~= data.subrange((1024 * at) as int, (1024 * (at + len)) as int));
    assert(whole.skip((1024 * len) as int) =~= data.subrange(
        (1024 * (at + len)) as int,
        (1024 * (at + len + len)) as int,
    ));
}

/// The lowest pending subtree and all that follows it join into what begins
/// where that subtree began.
proof fn lemma_join_tail(data: Seq<u8>, at: nat, len: nat, root: bool)
    requires
        is_pow2(len),
        1024 * (at + len) < data.len() <= 1024 * (at + 2 * len),
    ensures
        parent(node(data, at, len), tree_cv(data.skip((1024 * (at + len)) as int), at + len, false), root)
            == tree_cv(data.skip((1024 * at) as int), at, root),
{
    let whole = data.skip((1024 * at) as int);
    let r = (chunk_count(whole.len()) - len) as nat;
    assert(1 <= r <= len);
    lemma_pow2_below_sum(len, r);
    assert(whole.take((1024 * len) as int) =~= data.subrange((1024 * at) as int, (1024 * (at + len)) as int));
    assert(whole.skip((1024 * len) as int) =~= data.skip((1024 * (at + len)) as int));
}

/// The stack after the chaining value of chunk number `total` is folded in: one join
/// for each time that two divides `total`.
pub open spec fn merged(stack: Seq<Seq<u32>>, cv: Seq<u32>, total: nat) -> Seq<Seq<u32>>
    decreases total,
{
    if total == 0 || total % 2 == 1 {
        stack.push(cv)
    } else {
        merged(stack.drop_last(), parent(stack.last(), cv, false), total / 2)
    }
}

/// How often two divides `n`, for `n > 0`.
pub open spec fn trailing_zeros(n: nat) -> nat
    decreases n,
{
    if n == 0 || n % 2 == 1 {
        0
    } else {
        trailing_zeros(n / 2) + 1
    }
}

/// How many bits of `n` are set.
pub open spec fn set_bits(n: nat) -> nat
    decreases n,
{
    if n == 0 {
        0
    } else {
        n % 2 + set_bits(n / 2)
    }
}

/// `cv` joined with the `k` top entries of the stack, the topmost first.
pub open spec fn joined_with_top(stack: Seq<Seq<u32>>, cv: Seq<u32>, k: nat) -> Seq<u32>
    decreases k,
{
    if k == 0 {
        cv
    } else {
        joined_with_top(stack.drop_last(), parent(stack.last(), cv, false), (k - 1) as nat)
    }
}

/// The chaining values on a stack.
pub open spec fn cvs(stack: Seq<[u32; 8]>) -> Seq<Seq<u32>> {
    Seq::new(stack.len(), |i: int| stack[i]@)
}

/// A number has at least as many bits set as its successor has trailing zeroes.
proof fn lemma_room_for_joins(total: nat)
    requires
        total > 0,
    ensures
        set_bits(total) + trailing_zeros(total) == set_bits((total - 1) as nat) + 1,
    decreases total,
{
    let before = (total - 1) as nat;
    if total % 2 == 0 {
        lemma_room_for_joins(total / 2);
        assert(before / 2 == total / 2 - 1 && before % 2 == 1);
        assert(set_bits(before) == 1 + set_bits((total / 2 - 1) as nat));
    } else {
        assert(before / 2 == total / 2 && before % 2 == 0);
        if before == 0 {
            assert(total / 2 == 0 && set_bits(0) == 0);
        }
        assert(set_bits(before) == set_bits(total / 2));
    }
}

proof fn lemma_merged(stack: Seq<Seq<u32>>, cv: Seq<u32>, total: nat)
    requires
        total > 0,
        stack.len() >= trailing_zeros(total),
    ensures
        merged(stack, cv, total) == stack.take(stack.len() - trailing_zeros(total)).push(
            joined_with_top(stack, cv, trailing_zeros(total)),
        ),
    decreases total,
{
    let k = trailing_zeros(total);
    if total % 2 == 0 {
        let below = stack.drop_last();
        lemma_merged(below, parent(stack.last(), cv, false), total / 2);
        assert(below.take(stack.len() - k) =~= stack.take(stack.len() - k));
    } else {
        assert(stack.take(stack.len() as int) =~= stack);
    }
}

/// The stack counts in binary: on one entry for each set bit of the chunks before,
/// folding in the next chunk leaves one for each set bit of all chunks. The entries
/// below those that were joined stay, and the new top is the new value joined with
/// them, the topmost first.
pub proof fn the_stack_counts_in_binary(stack: Seq<Seq<u32>>, cv: Seq<u32>, total: nat)
    requires
        total > 0,
        stack.len() == set_bits((total - 1) as nat),
    ensures
        ({
            let k = trailing_zeros(total);
            let after = merged(stack, cv, total);
            &&& k <= stack.len()
            &&& after.len() == set_bits(total)
            &&& after.drop_last() == stack.take(stack.len() - k)
            &&& after.last() == joined_with_top(stack, cv, k)
        }),
{
    lemma_room_for_joins(total);
    lemma_set_bits_positive(total);
    lemma_merged(stack, cv, total);
    let k = trailing_zeros(total);
    assert(merged(stack, cv, total).drop_last() =~= stack.take(stack.len() - k));
}

proof fn lemma_set_bits_positive(n: nat)
    requires
        n > 0,
    ensures
        set_bits(n) > 0,
    decreases n,
{
    if n % 2 == 0 {
        lemma_set_bits_positive(n / 2);
    }
}

/// Folding in a chunk keeps the stack what it is for. `rest` counts the subtrees of
/// `width` chunks.
proof fn lemma_merged_pending(stack: Seq<Seq<u32>>, cv: Seq<u32>, data: Seq<u8>, total: nat, rest: nat, width: nat)
    requires
        0 < rest,
        is_pow2(width),
        rest * width == total,
        1024 * total <= data.len(),
        0 < width <= total,
        pending(stack, data, (total - width) as nat),
        cv == node(data, (total - width) as nat, width),
    ensures
        stack.len() >= trailing_zeros(rest),
        pending(merged(stack, cv, rest), data, total),
    decreases rest,
{
    if rest % 2 == 0 {
        let q = (rest - 1) as nat;
        let half = rest / 2;
        assert(total - width == q * width && total - 2 * width == (q - 1) * width) by (nonlinear_arith)
            requires
                rest * width == total,
                q == rest - 1,
        ;
        assert((q - 1) * width >= 0) by (nonlinear_arith)
            requires
                q >= 1,
                width > 0,
        ;
        lemma_low_bit_of_multiple(q, width);
        lemma_join_nodes(data, (total - 2 * width) as nat, width);
        assert(half * (2 * width) == total) by (nonlinear_arith)
            requires
                rest * width == total,
                rest == 2 * half,
        ;
        lemma_merged_pending(
            stack.drop_last(),
            parent(stack.last(), cv, false),
            data,
            total,
            half,
            2 * width,
        );
    } else {
        lemma_low_bit_of_multiple(rest, width);
        assert(stack.push(cv).drop_last() =~= stack);
    }
}

/// Folds the chaining value of chunk number `total_chunks` into the stack: as
/// with the carries of a binary counter, subtrees of one width join pairwise.
pub fn merge_cv_stack(stack: &mut Vec<[u32; 8]>, new_cv: [u32; 8], total_chunks: u64)
    requires
        0 < total_chunks,
        old(stack)@.len() >= trailing_zeros(total_chunks as nat),
    ensures
        cvs(final(stack)@) == merged(cvs(old(stack)@), new_cv@, total_chunks as nat),
{
    let mut cv: [u32; 8] = new_cv;
    let mut rest: u64 = total_chunks;
    while rest % 2 == 0
        invariant
            0 < rest,
            stack@.len() >= trailing_zeros(rest as nat),
            merged(cvs(stack@), cv@, rest as nat) == merged(cvs(old(stack)@), new_cv@, total_chunks as nat),
        decreases rest,
    {
        let ghost before = stack@;
        let left = stack.pop().unwrap();
        cv = parent_cv(&left, &cv, false);
        rest = rest / 2;
        assert(cvs(stack@) =~= cvs(before).drop_last());
    }
    let ghost below = stack@;
    stack.push(cv);
    assert(cvs(stack@) =~= cvs(below).push(cv@));
}

/// The BLAKE3 hash of `data`.
pub fn hash(data: &[u8]) -> (r: [u8; 32])
    ensures
        r@ == digest(data@),
{
    let len: usize = data.len();
    if len <= CHUNK_LEN {
        let cv = hash_chunk(data, 0, true);
        return words_to_le_bytes(&cv);
    }
    let mut stack: Vec<[u32; 8]> = Vec::new();
    assert(pending(cvs(stack@), data@, 0));
    let mut offset: usize = 0;
    let mut chunk_counter: u64 = 0;
    // Every chunk but the last goes through the stack, which never applies the
    // root flag. The last one is folded in below, where it is known which
    // compression is the final one of the whole hash.
    while len - offset > CHUNK_LEN
        invariant
            len == data@.len(),
            offset < len,
            offset == 1024 * chunk_counter,
            pending(cvs(stack@), data@, chunk_counter as nat),
        decreases len - offset,
    {
        let end: usize = offset + CHUNK_LEN;
        let chunk = &data[offset..end];
        let cv = hash_chunk(chunk, chunk_counter, false);
        proof {
            let at = chunk_counter as nat;
            assert(chunk@ =~= data@.subrange((1024 * at) as int, (1024 * (at + 1)) as int));
            lemma_merged_pending(cvs(stack@), cv@, data@, at + 1, at + 1, 1);
        }
        merge_cv_stack(&mut stack, cv, chunk_counter + 1);
        offset = end;
        chunk_counter += 1;
    }
    let last_chunk = &data[offset..len];
    let mut acc: [u32; 8] = hash_chunk(last_chunk, chunk_counter, stack.len() == 0);
    let ghost mut at: nat = chunk_counter as nat;
    proof {
        assert(last_chunk@ =~= data@.skip((1024 * at) as int));
        if at > 0 {
            lemma_low_bit_bound(at);
        }
    }
    while stack.len() > 0
        invariant
            pending(cvs(stack@), data@, at),
            1024 * at < data@.len(),
            at > 0 ==> data@.len() <= 1024 * (at + low_bit(at)),
            acc@ == tree_cv(data@.skip((1024 * at) as int), at, at == 0),
        decreases stack@.len(),
    {
        let ghost below = stack@;
        let popped = stack.pop();
        if let Some(left) = popped {
            let is_root: bool = stack.len() == 0;
            acc = parent_cv(&left, &acc, is_root);
            proof {
                let b = low_bit(at);
                lemma_low_bit_bound(at);
                let next = (at - b) as nat;
                assert(cvs(stack@) =~= cvs(below).drop_last());
                assert(pending(cvs(stack@), data@, next));
                lemma_join_tail(data@, next, b, is_root);
                if next > 0 {
                    lemma_low_bit_grows(at);
                }
                at = next;
            }
        }
    }
    assert(data@.skip(0) =~= data@);
    words_to_le_bytes(&acc)
}

// ---- extendable output ----

/// The first `n` 64-byte output blocks for the 32-byte input `seed`.
pub open spec fn xof_blocks(seed: Seq<u8>, n: nat) -> Seq<u8>
    decreases n,
{
    if n == 0 {
        Seq::empty()
    } else {
        let at = (n - 1) as nat;
        xof_blocks(seed, at) + words_bytes(
            compressed(IV@, block_words(seed), at as u64, 32, chunk_flags(true, true, true)),
        )
    }
}

/// The first `len` bytes of extendable output for the 32-byte input `seed`.
pub open spec fn xof(seed: Seq<u8>, len: nat) -> Seq<u8> {
    xof_blocks(seed, (len + 63) / 64).take(len as int)
}

/// `out_len` bytes of extendable output for a 32-byte input.
pub fn xof_from_32_bytes(seed: &[u8; 32], out_len: usize) -> (r: Vec<u8>)
    ensures
        r@.len() == out_len,
        r@ == xof(seed@, out_len as nat),
{
    let words = words_from_le_bytes_padded(seed);
    let iv: [u32; 8] = IV;
    let mut out: Vec<u8> = Vec::new();
    let mut done: u64 = 0;
    while out.len() < out_len
        invariant
            words@ == block_words(seed@),
            iv@ == IV@,
            out@.len() == 64 * done,
            64 * done < out_len + 64,
            out@ == xof_blocks(seed@, done as nat),
        decreases out_len + 64 - out@.len(),
    {
        let block = compress(&iv, &words, done, 32, CHUNK_START + CHUNK_END + ROOT);
        let ghost before = out@;
        let mut i: usize = 0;
        assert(block@.take(0) =~= Seq::empty());
        assert(out@ =~= before + words_bytes(block@.take(0)));
        while i < 16
            invariant
                i <= 16,
                out@.len() == before.len() + 4 * i,
                out@ == before + words_bytes(block@.take(i as int)),
            decreases 16 - i,
        {
            proof {
                assert(block@.take(i + 1).drop_last() =~= block@.take(i as int));
                lemma_le_bytes_len(block@[i as int] as nat, 4);
                assert(before + words_bytes(block@.take(i + 1)) =~= out@ + le_bytes(block@[i as int] as nat, 4));
            }
            push_u32_le(&mut out, block[i]);
            i += 1;
        }
        assert(block@.take(16) =~= block@);
        done += 1;
    }
    assert(done == (out_len + 63) / 64);
    out.truncate(out_len);
    assert(out@ =~= xof(seed@, out_len as nat));
    out
}

} // verus!
