//! Numbers and byte strings as text.

use vstd::prelude::*;
use vstd::string::*;

verus! {

/// `n` in decimal, without leading zeroes.
pub open spec fn decimal(n: nat) -> Seq<char>
    decreases n,
{
    if n < 10 {
        seq![(0x30 + n) as char]
    } else {
        decimal(n / 10).push((0x30 + n % 10) as char)
    }
}

/// The items of a JSON array of numbers, with the commas between them.
pub open spec fn json_items(bytes: Seq<u8>) -> Seq<char>
    decreases bytes.len(),
{
    if bytes.len() == 0 {
        Seq::empty()
    } else if bytes.len() == 1 {
        decimal(bytes[0] as nat)
    } else {
        json_items(bytes.drop_last()).push(',') + decimal(bytes.last() as nat)
    }
}

/// `bytes` as a JSON array of numbers.
pub open spec fn json_array(bytes: Seq<u8>) -> Seq<char> {
    seq!['['] + json_items(bytes) + seq![']']
}

/// Whether a text does not begin with a digit.
pub open spec fn no_digit_first(text: Seq<char>) -> bool {
    text.len() > 0 ==> !('0' <= text[0] <= '9')
}

proof fn lemma_decimal_digits(n: nat)
    ensures
        decimal(n).len() > 0,
        forall|i: int| 0 <= i < decimal(n).len() ==> '0' <= #[trigger] decimal(n)[i] <= '9',
    decreases n,
{
    if n >= 10 {
        lemma_decimal_digits(n / 10);
    }
}

proof fn lemma_decimal_injective(m: nat, n: nat)
    requires
        decimal(m) == decimal(n),
    ensures
        m == n,
    decreases m,
{
    lemma_decimal_digits(m / 10);
    lemma_decimal_digits(n / 10);
    if m >= 10 && n >= 10 {
        assert(decimal(m).drop_last() =~= decimal(m / 10));
        assert(decimal(n).drop_last() =~= decimal(n / 10));
        lemma_decimal_injective(m / 10, n / 10);
        assert(decimal(m).last() as int == 0x30 + m % 10 && decimal(n).last() as int == 0x30 + n % 10);
    } else if m < 10 && n < 10 {
        assert(decimal(m)[0] as int == 0x30 + m && decimal(n)[0] as int == 0x30 + n);
    } else {
        assert(decimal(m).len() == if m < 10 { 1 } else { decimal(m / 10).len() + 1 });
        assert(decimal(n).len() == if n < 10 { 1 } else { decimal(n / 10).len() + 1 });
    }
}

/// A number is read off the front of a text in one way only.
pub proof fn lemma_decimal_read(m: nat, n: nat, after_m: Seq<char>, after_n: Seq<char>)
    requires
        decimal(m) + after_m == decimal(n) + after_n,
        no_digit_first(after_m),
        no_digit_first(after_n),
    ensures
        m == n,
        after_m == after_n,
{
    lemma_decimal_digits(m);
    lemma_decimal_digits(n);
    let (x, y) = (decimal(m), decimal(n));
    let (s, t) = (x + after_m, y + after_n);
    if x.len() < y.len() {
        assert(t[x.len() as int] == y[x.len() as int]);
        assert(s[x.len() as int] == after_m[0]);
    } else if y.len() < x.len() {
        assert(s[y.len() as int] == x[y.len() as int]);
        assert(t[y.len() as int] == after_n[0]);
    }
    assert(s.take(x.len() as int) =~= x && t.take(y.len() as int) =~= y);
    assert(s.skip(x.len() as int) =~= after_m && t.skip(y.len() as int) =~= after_n);
    lemma_decimal_injective(m, n);
}

/// The items of an array are read off the front of a text in one way only, where
/// their number is known.
proof fn lemma_items_read(a: Seq<u8>, b: Seq<u8>, after_a: Seq<char>, after_b: Seq<char>)
    requires
        a.len() == b.len(),
        json_items(a) + after_a == json_items(b) + after_b,
        no_digit_first(after_a),
        no_digit_first(after_b),
    ensures
        a == b,
        after_a == after_b,
    decreases a.len(),
{
    if a.len() == 0 {
        assert(json_items(a) + after_a =~= after_a && json_items(b) + after_b =~= after_b);
        assert(a =~= b);
    } else if a.len() == 1 {
        lemma_decimal_read(a[0] as nat, b[0] as nat, after_a, after_b);
        assert(a =~= b);
    } else {
        let x = seq![','] + (decimal(a.last() as nat) + after_a);
        let y = seq![','] + (decimal(b.last() as nat) + after_b);
        assert(json_items(a) + after_a =~= json_items(a.drop_last()) + x);
        assert(json_items(b) + after_b =~= json_items(b.drop_last()) + y);
        lemma_items_read(a.drop_last(), b.drop_last(), x, y);
        assert(x.skip(1) =~= decimal(a.last() as nat) + after_a && y.skip(1) =~= decimal(b.last() as nat) + after_b);
        lemma_decimal_read(a.last() as nat, b.last() as nat, after_a, after_b);
        assert(a =~= a.drop_last().push(a.last()) && b =~= b.drop_last().push(b.last()));
    }
}

/// An array of a known length is read off the front of a text in one way only.
pub proof fn lemma_array_read(a: Seq<u8>, b: Seq<u8>, after_a: Seq<char>, after_b: Seq<char>)
    requires
        a.len() == b.len(),
        json_array(a) + after_a == json_array(b) + after_b,
    ensures
        a == b,
        after_a == after_b,
{
    let (s, t) = (json_array(a) + after_a, json_array(b) + after_b);
    let (x, y) = (seq![']'] + after_a, seq![']'] + after_b);
    assert(s.skip(1) =~= json_items(a) + x && t.skip(1) =~= json_items(b) + y);
    lemma_items_read(a, b, x, y);
    assert(x.skip(1) =~= after_a && y.skip(1) =~= after_b);
}

/// A literal at the front of two texts can be left out.
pub proof fn lemma_literal_read(literal: Seq<char>, after_a: Seq<char>, after_b: Seq<char>)
    requires
        literal + after_a == literal + after_b,
    ensures
        after_a == after_b,
{
    assert((literal + after_a).skip(literal.len() as int) =~= after_a);
    assert((literal + after_b).skip(literal.len() as int) =~= after_b);
}

/// Appends `n` in decimal.
pub fn push_decimal(out: &mut String, n: u64)
    ensures
        final(out)@ == old(out)@ + decimal(n as nat),
    decreases n,
{
    if n >= 10 {
        push_decimal(out, n / 10);
    }
    out.push((0x30 + (n % 10) as u8) as char);
    assert(out@ =~= old(out)@ + decimal(n as nat));
}

/// Calls `serde_json::to_string` on a byte slice, which writes the bytes as a JSON
/// array of decimal numbers without spaces.
#[verifier::external_body]
pub(crate) fn json_of_bytes(bytes: &[u8]) -> (r: String)
    ensures
        r@ == json_array(bytes@),
{
    serde_json::to_string(bytes).expect("a byte slice serialises")
}

/// The number that a text of decimal digits stands for.
pub open spec fn decimal_value(text: Seq<char>) -> int
    decreases text.len(),
{
    if text.len() == 0 {
        0
    } else {
        10 * decimal_value(text.drop_last()) + (text.last() as int - '0' as int)
    }
}

/// A number is written in digits that stand for it, and without a leading zero but for
/// zero itself.
pub proof fn decimal_digits_stand_for_the_number(n: nat)
    ensures
        decimal_value(decimal(n)) == n,
        decimal(n).len() > 0,
        forall|i: int| 0 <= i < decimal(n).len() ==> '0' <= #[trigger] decimal(n)[i] <= '9',
        n > 0 ==> decimal(n)[0] != '0',
    decreases n,
{
    lemma_decimal_digits(n);
    if n >= 10 {
        decimal_digits_stand_for_the_number(n / 10);
        assert(decimal(n).drop_last() =~= decimal(n / 10));
        assert(decimal(n)[0] == decimal(n / 10)[0]);
        assert(decimal(n).last() as int == 0x30 + n % 10);
    } else {
        assert(decimal(n).drop_last() =~= Seq::<char>::empty());
        assert(decimal_value(Seq::empty()) == 0);
        assert(decimal(n).last() as int == 0x30 + n);
    }
}

} // verus!
