//! Lower-case hexadecimal text.

use vstd::prelude::*;
use vstd::string::*;
use vstd::utf8::*;

verus! {

/// `std::string::String::push` appends one character.
pub assume_specification[ String::push ](s: &mut String, ch: char)
    ensures
        final(s)@ == old(s)@.push(ch),
;

/// The digit that stands for `n`, for `0 <= n < 16`.
pub open spec fn digit(n: int) -> char {
    if n < 10 {
        (0x30 + n) as char
    } else {
        (0x57 + n) as char
    }
}

/// Two digits per byte, the high one first.
pub open spec fn encoded(bytes: Seq<u8>) -> Seq<char> {
    Seq::new(
        2 * bytes.len(),
        |i: int| digit(if i % 2 == 0 { bytes[i / 2] as int / 16 } else { bytes[i / 2] as int % 16 }),
    )
}

proof fn lemma_digit_injective(m: int, n: int)
    requires
        0 <= m < 16,
        0 <= n < 16,
        digit(m) == digit(n),
    ensures
        m == n,
{
    assert(digit(m) as int == if m < 10 { 0x30 + m } else { 0x57 + m });
}

/// No two byte strings have the same text.
pub proof fn encoding_is_injective(a: Seq<u8>, b: Seq<u8>)
    requires
        encoded(a) == encoded(b),
    ensures
        a == b,
{
    assert(encoded(a).len() == 2 * a.len() && encoded(b).len() == 2 * b.len());
    assert forall|i: int| 0 <= i < a.len() implies a[i] == b[i] by {
        assert((2 * i) / 2 == i && (2 * i + 1) / 2 == i);
        assert((2 * i) % 2 == 0 && (2 * i + 1) % 2 == 1);
        assert(encoded(a)[2 * i] == digit(a[i] as int / 16) && encoded(b)[2 * i] == digit(b[i] as int / 16));
        assert(encoded(a)[2 * i + 1] == digit(a[i] as int % 16));
        assert(encoded(b)[2 * i + 1] == digit(b[i] as int % 16));
        lemma_digit_injective(a[i] as int / 16, b[i] as int / 16);
        lemma_digit_injective(a[i] as int % 16, b[i] as int % 16);
    }
    assert(a =~= b);
}

fn hex_digit(n: u8) -> (r: char)
    requires
        n < 16,
    ensures
        r == digit(n as int),
{
    if n < 10 {
        (0x30 + n) as char
    } else {
        (0x57 + n) as char
    }
}

fn digit_value(c: u8) -> (r: Option<u8>)
    ensures
        match r {
            Some(n) => n < 16 && c as char == digit(n as int),
            None => forall|n: int| 0 <= n < 16 ==> c as char != #[trigger] digit(n),
        },
{
    if 0x30 <= c && c <= 0x39 {
        Some(c - 0x30)
    } else if 0x61 <= c && c <= 0x66 {
        Some(c - 0x57)
    } else {
        None
    }
}

pub fn encode(bytes: &[u8]) -> (r: String)
    ensures
        r@ == encoded(bytes@),
{
    let mut out: String = String::new();
    let mut i: usize = 0;
    assert(out@ =~= encoded(bytes@.take(0)));
    while i < bytes.len()
        invariant
            i <= bytes@.len(),
            out@ == encoded(bytes@.take(i as int)),
        decreases bytes@.len() - i,
    {
        let ghost before = out@;
        out.push(hex_digit(bytes[i] / 16));
        out.push(hex_digit(bytes[i] % 16));
        assert(out@ =~= encoded(bytes@.take(i + 1)));
        i += 1;
    }
    assert(bytes@.take(i as int) =~= bytes@);
    out
}

/// The bytes that `text` spells, or `None` where it spells none.
pub fn decode(text: &str) -> (r: Option<Vec<u8>>)
    ensures
        match r {
            Some(bytes) => encoded(bytes@) == text@,
            None => forall|bytes: Seq<u8>| #[trigger] encoded(bytes) != text@,
        },
{
    if !text.is_ascii() {
        assert forall|bytes: Seq<u8>| #[trigger] encoded(bytes) != text@ by {
            assert(is_ascii_chars(encoded(bytes)));
        }
        return None;
    }
    let chars = text.as_bytes();
    proof {
        is_ascii_spec_bytes(text);
        assert forall|i: int| 0 <= i < text@.len() implies chars@[i] as char == text@[i] by {}
    }
    let n: usize = chars.len();
    if n % 2 == 1 {
        assert forall|bytes: Seq<u8>| #[trigger] encoded(bytes) != text@ by {
            assert(encoded(bytes).len() == 2 * bytes.len());
        }
        return None;
    }
    let mut out: Vec<u8> = Vec::new();
    let mut i: usize = 0;
    assert(encoded(out@) =~= text@.take(0));
    while i < n
        invariant
            i <= n == chars@.len() == text@.len(),
            i % 2 == 0,
            n % 2 == 0,
            forall|j: int| 0 <= j < n ==> chars@[j] as char == text@[j],
            encoded(out@) == text@.take(i as int),
        decreases n - i,
    {
        let high = digit_value(chars[i]);
        let low = digit_value(chars[i + 1]);
        match (high, low) {
            (Some(h), Some(l)) => {
                let ghost before = out@;
                out.push(16 * h + l);
                proof {
                    assert(encoded(before).len() == 2 * before.len() == i);
                    assert forall|j: int| 0 <= j < i + 2 implies encoded(out@)[j] == text@[j] by {
                        if j < i {
                            assert(encoded(before)[j] == text@.take(i as int)[j]);
                        }
                    }
                    assert(encoded(out@) =~= text@.take(i + 2));
                }
            },
            _ => {
                assert forall|bytes: Seq<u8>| #[trigger] encoded(bytes) != text@ by {
                    if encoded(bytes) == text@ {
                        assert(encoded(bytes)[i as int] == text@[i as int]);
                        assert(encoded(bytes)[i + 1] == text@[i + 1]);
                    }
                }
                return None;
            },
        }
        i += 2;
    }
    assert(text@.take(i as int) =~= text@);
    Some(out)
}

/// Each byte is written as two of the sixteen digits, the one for its high half first.
pub proof fn bytes_are_written_as_two_digits(bytes: Seq<u8>, i: int)
    requires
        0 <= i < bytes.len(),
    ensures
        encoded(bytes).len() == 2 * bytes.len(),
        encoded(bytes)[2 * i] == "0123456789abcdef"@[bytes[i] as int / 16],
        encoded(bytes)[2 * i + 1] == "0123456789abcdef"@[bytes[i] as int % 16],
{
    reveal_strlit("0123456789abcdef");
    assert((2 * i) / 2 == i && (2 * i + 1) / 2 == i && (2 * i) % 2 == 0 && (2 * i + 1) % 2 == 1);
}

} // verus!
