//! The target that a difficulty stands for, and how difficulty follows the time
//! that blocks take.

use crate::bytes::{be_value, lemma_pow256_positive, pow256};
use vstd::arithmetic::div_mod::{
    lemma_div_is_ordered_by_denominator, lemma_fundamental_div_mod, lemma_fundamental_div_mod_converse,
};
use vstd::prelude::*;

verus! {

/// A difficulty of zero counts as one.
pub open spec fn divisor(difficulty: u64) -> nat {
    if difficulty == 0 {
        1
    } else {
        difficulty as nat
    }
}

/// The largest 256-bit integer divided by the difficulty.
pub open spec fn target_value(difficulty: u64) -> nat {
    ((pow256(32) - 1) as nat) / divisor(difficulty)
}

/// The time that a retarget window should take, as far as 64 bits hold it.
pub open spec fn expected_timespan(target_block_time: u64, window: u64) -> nat {
    if target_block_time * window > u64::MAX {
        u64::MAX as nat
    } else {
        (target_block_time * window) as nat
    }
}

/// The measured time, kept within a factor of four of the expected time and at
/// least one second.
pub open spec fn clamped_timespan(actual: u64, expected: nat) -> nat {
    let t = if actual < expected / 4 {
        expected / 4
    } else if actual > 4 * expected {
        4 * expected
    } else {
        actual as nat
    };
    if t == 0 {
        1
    } else {
        t
    }
}

/// The difficulty scaled by how much faster than expected the window went, at
/// least one and at most what 64 bits hold.
pub open spec fn retargeted(current: u64, actual: u64, target_block_time: u64, window: u64) -> u64 {
    let expected = expected_timespan(target_block_time, window);
    let scaled = (current as nat * expected) / clamped_timespan(actual, expected);
    if scaled == 0 {
        1
    } else if scaled > u64::MAX {
        u64::MAX
    } else {
        scaled as u64
    }
}

/// The target of a difficulty, as a 256-bit big-endian integer.
pub fn target_for_difficulty(difficulty: u64) -> (r: [u8; 32])
    ensures
        be_value(r@) == target_value(difficulty),
{
    let d: u128 = if difficulty == 0 {
        1
    } else {
        difficulty as u128
    };
    let mut out = [0u8; 32];
    let mut rest: u128 = 0;
    let mut i: usize = 0;
    assert(out@.take(0) =~= Seq::empty());
    assert(be_value(out@.take(0)) * d == 0) by (nonlinear_arith)
        requires
            be_value(out@.take(0)) == 0,
    ;
    while i < 32
        invariant
            i <= 32,
            d == divisor(difficulty),
            0 < d <= u64::MAX,
            rest < d,
            pow256(i as nat) - 1 == be_value(out@.take(i as int)) * d + rest,
        decreases 32 - i,
    {
        let ghost q = be_value(out@.take(i as int));
        let dividend: u128 = rest * 256 + 255;
        let quotient: u128 = dividend / d;
        let remainder: u128 = dividend % d;
        proof {
            assert(quotient < 256 && dividend == quotient * d + remainder) by (nonlinear_arith)
                requires
                    d > 0,
                    rest < d,
                    dividend == rest * 256 + 255,
                    quotient == dividend / d,
                    remainder == dividend % d,
            ;
        }
        let ghost before = out@;
        out[i] = quotient as u8;
        rest = remainder;
        proof {
            assert(out@.take(i + 1).drop_last() =~= before.take(i as int));
            assert(be_value(out@.take(i + 1)) == 256 * q + quotient);
            assert((256 * q + quotient) * d == 256 * (q * d) + quotient * d) by (nonlinear_arith);
        }
        i += 1;
    }
    proof {
        assert(out@.take(32) =~= out@);
        lemma_pow256_positive(32);
        lemma_fundamental_div_mod_converse(pow256(32) - 1, d as int, be_value(out@) as int, rest as int);
    }
    out
}

/// The difficulty after a window that took `actual_timespan` seconds.
pub fn next_difficulty(current: u64, actual_timespan: u64, target_block_time: u64, window: u64) -> (r: u64)
    ensures
        r == retargeted(current, actual_timespan, target_block_time, window),
{
    assert(target_block_time * window <= u64::MAX * u64::MAX) by (nonlinear_arith)
        requires
            target_block_time <= u64::MAX,
            window <= u64::MAX,
    ;
    let product: u128 = target_block_time as u128 * window as u128;
    let expected: u128 = if product > u64::MAX as u128 {
        u64::MAX as u128
    } else {
        product
    };
    let actual: u128 = actual_timespan as u128;
    let clamped: u128 = if actual < expected / 4 {
        expected / 4
    } else if actual > 4 * expected {
        4 * expected
    } else {
        actual
    };
    let timespan: u128 = if clamped == 0 {
        1
    } else {
        clamped
    };
    assert(current * expected <= u64::MAX * u64::MAX) by (nonlinear_arith)
        requires
            current <= u64::MAX,
            expected <= u64::MAX,
    ;
    let scaled: u128 = current as u128 * expected / timespan;
    if scaled == 0 {
        1
    } else if scaled > u64::MAX as u128 {
        u64::MAX
    } else {
        scaled as u64
    }
}

/// A higher difficulty never has a higher target.
pub proof fn target_falls_with_difficulty(a: u64, b: u64)
    requires
        a <= b,
    ensures
        target_value(b) <= target_value(a),
{
    lemma_pow256_positive(32);
    lemma_div_is_ordered_by_denominator(pow256(32) - 1, divisor(a) as int, divisor(b) as int);
}

/// A slower window never gives a higher difficulty.
pub proof fn slower_blocks_never_raise_difficulty(current: u64, fast: u64, slow: u64, target_block_time: u64, window: u64)
    requires
        fast <= slow,
    ensures
        retargeted(current, slow, target_block_time, window) <= retargeted(current, fast, target_block_time, window),
{
    let expected = expected_timespan(target_block_time, window);
    let scaled = (current as nat * expected) as int;
    assert(scaled >= 0) by (nonlinear_arith)
        requires
            scaled == current * expected,
            current >= 0,
            expected >= 0,
    ;
    lemma_div_is_ordered_by_denominator(
        scaled,
        clamped_timespan(fast, expected) as int,
        clamped_timespan(slow, expected) as int,
    );
}

/// A window that took exactly the expected time leaves the difficulty as it is.
pub proof fn difficulty_stays_on_schedule(current: u64, actual: u64, target_block_time: u64, window: u64)
    requires
        current > 0,
        actual > 0,
        actual == target_block_time * window,
    ensures
        retargeted(current, actual, target_block_time, window) == current,
{
    assert((current * actual) / (actual as int) == current) by (nonlinear_arith)
        requires
            actual > 0,
    ;
}

/// One retarget raises the difficulty at most fourfold where the expected time is
/// a multiple of four seconds, and lowers it at most to a quarter.
pub proof fn one_retarget_is_bounded(current: u64, actual: u64, target_block_time: u64, window: u64)
    requires
        current > 0,
        0 < target_block_time * window <= u64::MAX,
        (target_block_time * window) % 4 == 0,
    ensures
        retargeted(current, actual, target_block_time, window) <= 4 * current,
        retargeted(current, actual, target_block_time, window) >= current / 4,
{
    let expected = expected_timespan(target_block_time, window) as int;
    let t = clamped_timespan(actual, expected as nat) as int;
    let scaled = current * expected;
    let quotient = scaled / t;
    assert(expected / 4 <= t <= 4 * expected);
    assert(scaled == quotient * t + scaled % t && 0 <= scaled % t < t) by (nonlinear_arith)
        requires
            t > 0,
            quotient == scaled / t,
    ;
    assert(quotient <= 4 * current) by (nonlinear_arith)
        requires
            t > 0,
            4 * t >= expected,
            scaled == current * expected,
            scaled == quotient * t + scaled % t,
            0 <= scaled % t,
            current > 0,
    ;
    assert(quotient + 1 > current / 4) by (nonlinear_arith)
        requires
            0 < t <= 4 * expected,
            scaled == current * expected,
            scaled == quotient * t + scaled % t,
            scaled % t < t,
            current > 0,
            expected > 0,
    ;
}

/// The target is what the largest 256-bit integer leaves when it is shared out evenly:
/// times the difficulty it does not exceed that integer, and one more would. A difficulty
/// of zero counts as one.
pub proof fn target_times_difficulty_fills_256_bits(difficulty: u64, largest: Seq<u8>)
    requires
        largest.len() == 32,
        forall|i: int| 0 <= i < 32 ==> #[trigger] largest[i] == 255,
    ensures
        target_value(difficulty) * (if difficulty == 0 {
            1
        } else {
            difficulty as int
        }) <= be_value(largest),
        (target_value(difficulty) + 1) * (if difficulty == 0 {
            1
        } else {
            difficulty as int
        }) > be_value(largest),
        target_value(0) == be_value(largest),
        target_value(1) == be_value(largest),
{
    lemma_all_ones(largest);
    lemma_pow256_positive(32);
    let d = divisor(difficulty) as int;
    let all = pow256(32) - 1;
    lemma_fundamental_div_mod(all, d);
    let (q, m) = (all / d, all % d);
    assert(q * d <= all && (q + 1) * d > all) by (nonlinear_arith)
        requires
            all == d * q + m,
            0 <= m < d,
    ;
}

proof fn lemma_all_ones(s: Seq<u8>)
    requires
        forall|i: int| 0 <= i < s.len() ==> #[trigger] s[i] == 255,
    ensures
        be_value(s) == pow256(s.len()) - 1,
    decreases s.len(),
{
    if s.len() > 0 {
        let front = s.drop_last();
        assert forall|i: int| 0 <= i < front.len() implies #[trigger] front[i] == 255 by {
            assert(front[i] == s[i]);
        }
        lemma_all_ones(front);
        assert(s[s.len() - 1] == 255);
    }
}

/// The new difficulty is to the old one as the expected time is to the measured one,
/// rounded down: times the measured time it does not exceed the old one times the expected
/// time, and one more would. This is where the measured time is within a factor of four of
/// the expected one, and the result between one and the largest difficulty.
pub proof fn difficulty_scales_with_the_time_taken(current: u64, actual: u64, target_block_time: u64, window: u64)
    requires
        target_block_time * window <= u64::MAX,
        (target_block_time * window) / 4 <= actual <= 4 * (target_block_time * window),
        0 < actual <= current * (target_block_time * window),
        current * (target_block_time * window) < 0x1_0000_0000_0000_0000 * actual,
    ensures
        ({
            let r = retargeted(current, actual, target_block_time, window);
            &&& r * actual <= current * (target_block_time * window)
            &&& (r + 1) * actual > current * (target_block_time * window)
        }),
{
    let expected = target_block_time * window;
    let scaled = current * expected;
    let t = actual as int;
    assert(clamped_timespan(actual, expected as nat) == t);
    lemma_fundamental_div_mod(scaled, t);
    let (q, m) = (scaled / t, scaled % t);
    assert(q * t <= scaled && (q + 1) * t > scaled) by (nonlinear_arith)
        requires
            scaled == t * q + m,
            0 <= m < t,
    ;
    assert(q >= 1) by (nonlinear_arith)
        requires
            scaled >= t,
            (q + 1) * t > scaled,
            t > 0,
    ;
    assert(q <= 0xffff_ffff_ffff_ffff) by (nonlinear_arith)
        requires
            q * t <= scaled,
            scaled < 0x1_0000_0000_0000_0000 * t,
            t > 0,
    ;
}

/// A window counts as no faster than a quarter of the expected time and as no slower than
/// four times that; the result is at least one.
pub proof fn one_window_counts_for_a_factor_of_four(current: u64, actual: u64, target_block_time: u64, window: u64)
    requires
        4 * (target_block_time * window) <= u64::MAX,
    ensures
        ({
            let expected = target_block_time * window;
            let r = retargeted(current, actual, target_block_time, window);
            &&& r >= 1
            &&& actual < expected / 4 ==> r == retargeted(current, (expected / 4) as u64, target_block_time, window)
            &&& actual > 4 * expected ==> r == retargeted(current, (4 * expected) as u64, target_block_time, window)
        }),
{
    assert(target_block_time * window >= 0) by (nonlinear_arith);
}

/// What happens at the limits: the difficulty stops at the largest there is and at one, an
/// expected time that 64 bits do not hold counts as the largest that they do, and no time
/// at all counts as one second where a quarter of the expected time is none.
pub proof fn difficulty_stops_at_its_limits(current: u64, actual: u64, target_block_time: u64, window: u64)
    requires
        0 < actual,
    ensures
        ({
            let expected = target_block_time * window;
            let within = expected <= u64::MAX && expected / 4 <= actual <= 4 * expected;
            let r = retargeted(current, actual, target_block_time, window);
            &&& within && current * expected >= 0x1_0000_0000_0000_0000 * actual ==> r == u64::MAX
            &&& within && current * expected < actual ==> r == 1
            &&& expected > u64::MAX ==> r == retargeted(current, actual, u64::MAX, 1)
            &&& expected < 4 ==> retargeted(current, 0, target_block_time, window) == retargeted(
                current,
                1,
                target_block_time,
                window,
            )
        }),
{
    let expected = target_block_time * window;
    assert(expected >= 0) by (nonlinear_arith)
        requires
            expected == target_block_time * window,
    ;
    let scaled = current * expected;
    assert(scaled >= 0) by (nonlinear_arith)
        requires
            scaled == current * expected,
            expected >= 0,
    ;
    if expected <= u64::MAX && expected / 4 <= actual <= 4 * expected {
        let t = actual as int;
        assert(clamped_timespan(actual, expected as nat) == t);
        lemma_fundamental_div_mod(scaled, t);
        let (q, m) = (scaled / t, scaled % t);
        if scaled >= 0x1_0000_0000_0000_0000 * t {
            assert(q >= 0x1_0000_0000_0000_0000) by (nonlinear_arith)
                requires
                    scaled == t * q + m,
                    0 <= m < t,
                    scaled >= 0x1_0000_0000_0000_0000 * t,
            ;
        }
        if scaled < t {
            assert(q == 0) by (nonlinear_arith)
                requires
                    scaled == t * q + m,
                    0 <= m < t,
                    0 <= scaled < t,
            ;
        }
    }
}

} // verus!
