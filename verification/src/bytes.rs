//! Integers as byte strings: little-endian words, and big-endian comparison of
//! byte strings of equal length.

use vstd::arithmetic::div_mod::lemma_div_denominator;
use vstd::arithmetic::power::{lemma_pow0, lemma_pow1, lemma_pow_adds, lemma_pow_positive, pow};
use vstd::prelude::*;

verus! {

/// The little-endian 32-bit word at `at`.
pub open spec fn le32(b: Seq<u8>, at: int) -> u32 {
    (b[at] + 0x100 * b[at + 1] + 0x1_0000 * b[at + 2] + 0x100_0000 * b[at + 3]) as u32
}

/// The `n` low bytes of `v`, least significant first.
pub open spec fn le_bytes(v: nat, n: nat) -> Seq<u8>
    decreases n,
{
    if n == 0 {
        Seq::empty()
    } else {
        seq![(v % 256) as u8] + le_bytes(v / 256, (n - 1) as nat)
    }
}

/// The integer that `s` spells, least significant byte first.
pub open spec fn le_value(s: Seq<u8>) -> nat
    decreases s.len(),
{
    if s.len() == 0 {
        0
    } else {
        s[0] as nat + 256 * le_value(s.skip(1))
    }
}

/// The integer that `s` spells, most significant byte first.
pub open spec fn be_value(s: Seq<u8>) -> nat
    decreases s.len(),
{
    if s.len() == 0 {
        0
    } else {
        256 * be_value(s.drop_last()) + s.last() as nat
    }
}

/// `256^n`.
pub open spec fn pow256(n: nat) -> nat
    decreases n,
{
    if n == 0 {
        1
    } else {
        256 * pow256((n - 1) as nat)
    }
}

/// The bytes of `words`, each least significant byte first.
pub open spec fn words_bytes(words: Seq<u32>) -> Seq<u8>
    decreases words.len(),
{
    if words.len() == 0 {
        Seq::empty()
    } else {
        words_bytes(words.drop_last()) + le_bytes(words.last() as nat, 4)
    }
}

pub proof fn lemma_le_bytes_len(v: nat, n: nat)
    ensures
        le_bytes(v, n).len() == n,
    decreases n,
{
    if n > 0 {
        lemma_le_bytes_len(v / 256, (n - 1) as nat);
    }
}

pub proof fn lemma_pow256_positive(n: nat)
    ensures
        pow256(n) > 0,
    decreases n,
{
    if n > 0 {
        lemma_pow256_positive((n - 1) as nat);
    }
}

/// Spelling an integer out and reading it back gives the integer.
pub proof fn lemma_le_round_trip(v: nat, n: nat)
    requires
        v < pow256(n),
    ensures
        le_bytes(v, n).len() == n,
        le_value(le_bytes(v, n)) == v,
    decreases n,
{
    lemma_le_bytes_len(v, n);
    if n > 0 {
        let m = (n - 1) as nat;
        lemma_le_round_trip(v / 256, m);
        assert(le_bytes(v, n).skip(1) =~= le_bytes(v / 256, m));
    }
}

pub proof fn lemma_u64_le_round_trip(v: u64)
    ensures
        le_bytes(v as nat, 8).len() == 8,
        le_value(le_bytes(v as nat, 8)) == v as nat,
{
    reveal_with_fuel(pow256, 9);
    lemma_le_round_trip(v as nat, 8);
}

/// Among strings of one length, the little-endian value determines the string.
pub proof fn lemma_le_value_injective(a: Seq<u8>, b: Seq<u8>)
    requires
        a.len() == b.len(),
        le_value(a) == le_value(b),
    ensures
        a == b,
    decreases a.len(),
{
    if a.len() > 0 {
        lemma_le_value_injective(a.skip(1), b.skip(1));
        assert(a =~= seq![a[0]] + a.skip(1));
        assert(b =~= seq![b[0]] + b.skip(1));
    } else {
        assert(a =~= b);
    }
}

/// Byte number `i` of an integer spelled out is its digit of worth `256^i`.
pub proof fn le_bytes_are_digits(v: nat, n: nat, i: nat)
    requires
        i < n,
    ensures
        le_bytes(v, n).len() == n,
        le_bytes(v, n)[i as int] == (v as int / pow(256, i)) % 256,
    decreases n,
{
    lemma_le_bytes_len(v, n);
    if i == 0 {
        lemma_pow0(256);
    } else {
        let (m, j) = ((n - 1) as nat, (i - 1) as nat);
        lemma_le_bytes_len(v / 256, m);
        le_bytes_are_digits(v / 256, m, j);
        lemma_pow_positive(256, j);
        lemma_pow1(256);
        lemma_pow_adds(256, 1, j);
        lemma_div_denominator(v as int, 256, pow(256, j));
        assert(le_bytes(v, n)[i as int] == le_bytes(v / 256, m)[j as int]);
    }
}

/// The first byte of a big-endian string is worth the most: `256` to the number of the
/// bytes that follow.
pub proof fn be_value_weighs_the_first_byte_most(s: Seq<u8>)
    requires
        s.len() > 0,
    ensures
        be_value(s) == s[0] * pow(256, (s.len() - 1) as nat) + be_value(s.skip(1)),
    decreases s.len(),
{
    if s.len() == 1 {
        lemma_pow0(256);
        assert(s.drop_last() =~= Seq::empty() && s.skip(1) =~= Seq::empty());
    } else {
        let front = s.drop_last();
        let n = (front.len() - 1) as nat;
        be_value_weighs_the_first_byte_most(front);
        assert(front.skip(1) =~= s.skip(1).drop_last());
        assert(s.skip(1).last() == s.last());
        lemma_pow1(256);
        lemma_pow_adds(256, 1, n);
        assert(256 * (s[0] * pow(256, n)) == s[0] * (256 * pow(256, n))) by (nonlinear_arith);
    }
}

/// The little-endian word at a place is the integer that its four bytes spell.
pub proof fn le32_reads_four_bytes(b: Seq<u8>, at: int)
    requires
        0 <= at,
        at + 4 <= b.len(),
    ensures
        le32(b, at) == le_value(b.subrange(at, at + 4)),
{
    let s = b.subrange(at, at + 4);
    reveal_with_fuel(le_value, 5);
    assert(s.skip(1).skip(1) =~= s.skip(2));
    assert(s.skip(2).skip(1) =~= s.skip(3));
    assert(s.skip(3).skip(1) =~= s.skip(4));
}

/// Words written out are read back, each at its place.
pub proof fn words_are_read_back(words: Seq<u32>, i: int)
    requires
        0 <= i < words.len(),
    ensures
        words_bytes(words).len() == 4 * words.len(),
        le32(words_bytes(words), 4 * i) == words[i],
    decreases words.len(),
{
    lemma_words_bytes_len(words);
    let (front, last) = (words.drop_last(), words.last());
    lemma_words_bytes_len(front);
    let (whole, head) = (words_bytes(words), words_bytes(front));
    lemma_le_bytes_len(last as nat, 4);
    if i < front.len() {
        words_are_read_back(front, i);
        assert(whole[4 * i] == head[4 * i] && whole[4 * i + 1] == head[4 * i + 1] && whole[4 * i + 2] == head[4 * i + 2]
            && whole[4 * i + 3] == head[4 * i + 3]);
    } else {
        le32_reads_four_bytes(whole, 4 * i);
        assert(whole.subrange(4 * i, 4 * i + 4) =~= le_bytes(last as nat, 4));
        reveal_with_fuel(pow256, 5);
        lemma_le_round_trip(last as nat, 4);
    }
}

proof fn lemma_words_bytes_len(words: Seq<u32>)
    ensures
        words_bytes(words).len() == 4 * words.len(),
    decreases words.len(),
{
    if words.len() > 0 {
        lemma_words_bytes_len(words.drop_last());
        lemma_le_bytes_len(words.last() as nat, 4);
    }
}

/// Equal-length strings that first differ at `i` compare as their bytes there.
proof fn lemma_be_first_difference(a: Seq<u8>, b: Seq<u8>, i: int, n: int)
    requires
        0 <= i < n <= a.len(),
        n <= b.len(),
        a.take(i) == b.take(i),
        a[i] < b[i],
    ensures
        be_value(a.take(n)) < be_value(b.take(n)),
    decreases n,
{
    assert(a.take(n).drop_last() =~= a.take(n - 1));
    assert(b.take(n).drop_last() =~= b.take(n - 1));
    if n > i + 1 {
        lemma_be_first_difference(a, b, i, n - 1);
    }
}

/// Among strings of one length, the value determines the string.
pub proof fn lemma_be_injective(a: Seq<u8>, b: Seq<u8>)
    requires
        a.len() == b.len(),
        be_value(a) == be_value(b),
    ensures
        a == b,
    decreases a.len(),
{
    if a.len() > 0 {
        lemma_be_injective(a.drop_last(), b.drop_last());
        assert(a =~= a.drop_last().push(a.last()));
        assert(b =~= b.drop_last().push(b.last()));
    } else {
        assert(a =~= b);
    }
}

/// Whether two byte strings are the same.
pub fn same_bytes(a: &[u8], b: &[u8]) -> (r: bool)
    ensures
        r == (a@ == b@),
{
    if a.len() != b.len() {
        return false;
    }
    let mut i: usize = 0;
    while i < a.len()
        invariant
            i <= a.len(),
            a.len() == b.len(),
            forall|j: int| 0 <= j < i ==> a@[j] == b@[j],
        decreases a.len() - i,
    {
        if a[i] != b[i] {
            return false;
        }
        i += 1;
    }
    assert(a@ =~= b@);
    true
}

/// Big-endian `<` on byte strings of one length.
pub fn be_less(a: &[u8], b: &[u8]) -> (r: bool)
    requires
        a@.len() == b@.len(),
    ensures
        r == (be_value(a@) < be_value(b@)),
{
    let mut i: usize = 0;
    while i < a.len()
        invariant
            i <= a.len(),
            a@.len() == b@.len(),
            a@.take(i as int) == b@.take(i as int),
        decreases a.len() - i,
    {
        proof {
            assert(a@.take(a@.len() as int) =~= a@);
            assert(b@.take(b@.len() as int) =~= b@);
        }
        if a[i] < b[i] {
            proof {
                lemma_be_first_difference(a@, b@, i as int, a@.len() as int);
            }
            return true;
        }
        if b[i] < a[i] {
            proof {
                lemma_be_first_difference(b@, a@, i as int, a@.len() as int);
            }
            return false;
        }
        assert(a@.take(i + 1) =~= a@.take(i as int).push(a@[i as int]));
        assert(b@.take(i + 1) =~= b@.take(i as int).push(b@[i as int]));
        i += 1;
    }
    assert(a@.take(i as int) =~= a@);
    assert(b@.take(i as int) =~= b@);
    false
}

/// The 32 bytes of `bytes` as an array.
pub fn array32(bytes: &[u8]) -> (r: [u8; 32])
    requires
        bytes@.len() == 32,
    ensures
        r@ == bytes@,
{
    let mut out = [0u8; 32];
    let mut i: usize = 0;
    while i < 32
        invariant
            i <= 32,
            bytes@.len() == 32,
            forall|j: int| 0 <= j < i ==> out@[j] == bytes@[j],
        decreases 32 - i,
    {
        out[i] = bytes[i];
        i += 1;
    }
    assert(out@ =~= bytes@);
    out
}

/// Reads the little-endian word at `offset`.
pub fn read_u32_le(bytes: &[u8], offset: usize) -> (r: u32)
    requires
        offset + 4 <= bytes@.len(),
    ensures
        r == le32(bytes@, offset as int),
{
    let b0 = bytes[offset] as u32;
    let b1 = bytes[offset + 1] as u32;
    let b2 = bytes[offset + 2] as u32;
    let b3 = bytes[offset + 3] as u32;
    b0 + 0x100 * b1 + 0x1_0000 * b2 + 0x100_0000 * b3
}

/// Reads the little-endian 64-bit word at `offset`.
pub fn read_u64_le(bytes: &[u8], offset: usize) -> (r: u64)
    requires
        offset + 8 <= bytes@.len(),
    ensures
        r == le_value(bytes@.subrange(offset as int, offset + 8)),
{
    assert(bytes.len() <= usize::MAX);
    let low = read_u32_le(bytes, offset) as u64;
    let high = read_u32_le(bytes, offset + 4) as u64;
    proof {
        let s = bytes@.subrange(offset as int, offset + 8);
        reveal_with_fuel(le_value, 9);
        assert(s.skip(1).skip(1) =~= s.skip(2));
        assert(s.skip(2).skip(1) =~= s.skip(3));
        assert(s.skip(3).skip(1) =~= s.skip(4));
        assert(s.skip(4).skip(1) =~= s.skip(5));
        assert(s.skip(5).skip(1) =~= s.skip(6));
        assert(s.skip(6).skip(1) =~= s.skip(7));
        assert(s.skip(7).skip(1) =~= s.skip(8));
    }
    low + 0x1_0000_0000 * high
}

/// Appends the four bytes of `value`, least significant first.
pub fn push_u32_le(buf: &mut Vec<u8>, value: u32)
    ensures
        final(buf)@ == old(buf)@ + le_bytes(value as nat, 4),
{
    reveal_with_fuel(le_bytes, 5);
    buf.push((value % 0x100) as u8);
    buf.push((value / 0x100 % 0x100) as u8);
    buf.push((value / 0x1_0000 % 0x100) as u8);
    buf.push((value / 0x100_0000 % 0x100) as u8);
    assert(buf@ =~= old(buf)@ + le_bytes(value as nat, 4));
}

/// Appends the eight bytes of `value`, least significant first.
pub fn push_u64_le(buf: &mut Vec<u8>, value: u64)
    ensures
        final(buf)@ == old(buf)@ + le_bytes(value as nat, 8),
{
    let mut rest: u64 = value;
    let mut i: usize = 0;
    while i < 8
        invariant
            i <= 8,
            buf@ + le_bytes(rest as nat, (8 - i) as nat) == old(buf)@ + le_bytes(value as nat, 8),
        decreases 8 - i,
    {
        proof {
            let tail = le_bytes((rest / 256) as nat, (7 - i) as nat);
            assert(buf@.push((rest % 256) as u8) + tail =~= buf@ + (seq![(rest % 256) as u8] + tail));
        }
        buf.push((rest % 256) as u8);
        rest = rest / 256;
        i += 1;
    }
    assert(buf@ + le_bytes(rest as nat, 0) =~= buf@);
}

} // verus!
