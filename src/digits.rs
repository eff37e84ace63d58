//! Counting the digits of an unsigned value, and the decimal digits themselves.

use vstd::arithmetic::div_mod::lemma_div_denominator;
use vstd::prelude::*;

verus! {

/// ASCII `'0'`.
pub const ASCII_ZERO: u8 = 48;

/// ASCII `'9'`.
pub const ASCII_NINE: u8 = 57;

/// `10^k`.
pub open spec fn pow10(k: nat) -> nat
    decreases k,
{
    if k == 0 {
        1
    } else {
        10 * pow10((k - 1) as nat)
    }
}

/// `16^k`.
pub open spec fn pow16(k: nat) -> nat
    decreases k,
{
    if k == 0 {
        1
    } else {
        16 * pow16((k - 1) as nat)
    }
}

/// Number of decimal digits of `n`; zero is a one-digit number.
pub open spec fn digit_count(n: nat) -> nat
    decreases n,
{
    if n > 9 {
        1 + digit_count(n / 10)
    } else {
        1
    }
}

/// Number of hexadecimal digits of `n`; zero is a one-digit number.
pub open spec fn hex_digit_count(n: nat) -> nat
    decreases n,
{
    if n > 15 {
        1 + hex_digit_count(n / 16)
    } else {
        1
    }
}

/// The ASCII decimal digits of `n`, most significant first.
pub open spec fn decimal_digits(n: nat) -> Seq<u8>
    decreases n,
{
    if n > 9 {
        decimal_digits(n / 10).push((ASCII_ZERO as nat + n % 10) as u8)
    } else {
        seq![(ASCII_ZERO as nat + n) as u8]
    }
}

/// An ASCII decimal digit.
pub open spec fn is_digit(c: u8) -> bool {
    ASCII_ZERO <= c <= ASCII_NINE
}

/// `digit_count(n)` is the usual count: the least `k >= 1` with `n < 10^k`.
pub proof fn lemma_digit_count_bounds(n: nat)
    ensures
        digit_count(n) >= 1,
        n < pow10(digit_count(n)),
        digit_count(n) > 1 ==> pow10((digit_count(n) - 1) as nat) <= n,
    decreases n,
{
    if n > 9 {
        lemma_digit_count_bounds(n / 10);
        let k = digit_count(n / 10);
        assert(pow10(k + 1) == 10 * pow10(k));
        if k > 1 {
            assert(pow10(k) == 10 * pow10((k - 1) as nat));
        }
    } else {
        assert(pow10(1) == 10) by {
            reveal_with_fuel(pow10, 2);
        }
    }
}

/// Below `10^k` a value has at most `k` digits.
pub proof fn lemma_digit_count_le(n: nat, k: nat)
    requires
        k >= 1,
        n < pow10(k),
    ensures
        digit_count(n) <= k,
    decreases n,
{
    if n > 9 {
        assert(k > 1) by {
            reveal_with_fuel(pow10, 2);
        }
        let j = (k - 1) as nat;
        assert(pow10(k) == 10 * pow10(j));
        assert(n / 10 < pow10(j));
        lemma_digit_count_le(n / 10, j);
    }
}

/// `digit_count(n)` digits, each an ASCII decimal digit.
pub proof fn lemma_decimal_digits(n: nat)
    ensures
        decimal_digits(n).len() == digit_count(n),
        forall|i: int| 0 <= i < decimal_digits(n).len() ==> is_digit(#[trigger] decimal_digits(n)[i]),
    decreases n,
{
    if n > 9 {
        lemma_decimal_digits(n / 10);
    }
}

/// Every value of 32 bits has at most ten decimal digits.
pub proof fn lemma_digit_count_u32(n: u32)
    ensures
        1 <= digit_count(n as nat) <= 10,
{
    assert(pow10(10) == 10000000000) by {
        reveal_with_fuel(pow10, 11);
    }
    lemma_digit_count_le(n as nat, 10);
    lemma_digit_count_bounds(n as nat);
}

/// Counts the decimal digits of `n`; `0` has one digit.
pub fn num_length(n: u32) -> (r: usize)
    ensures
        r == digit_count(n as nat),
        1 <= r <= 10,
        (n as nat) < pow10(r as nat),
        r > 1 ==> pow10((r - 1) as nat) <= n,
    decreases n,
{
    proof {
        lemma_digit_count_u32(n);
        lemma_digit_count_bounds(n as nat);
    }
    if n > 9 {
        num_length(n / 10) + 1
    } else {
        1
    }
}

/// Below `16^k` a value has at most `k` hexadecimal digits.
pub proof fn lemma_hex_digit_count_le(n: nat, k: nat)
    requires
        k >= 1,
        n < pow16(k),
    ensures
        hex_digit_count(n) >= 1,
        hex_digit_count(n) <= k,
    decreases n,
{
    if n > 15 {
        assert(k > 1) by {
            reveal_with_fuel(pow16, 2);
        }
        let j = (k - 1) as nat;
        assert(pow16(k) == 16 * pow16(j));
        assert(n / 16 < pow16(j));
        lemma_hex_digit_count_le(n / 16, j);
    }
}

/// Counts the hexadecimal digits of `n`; `0` has one digit.
pub fn num_length_hex(n: u32) -> (r: usize)
    ensures
        r == hex_digit_count(n as nat),
        1 <= r <= 8,
    decreases n,
{
    proof {
        assert(pow16(8) == 0x1_0000_0000) by {
            reveal_with_fuel(pow16, 9);
        }
        lemma_hex_digit_count_le(n as nat, 8);
    }
    if n > 15 {
        let q = n >> 4;
        assert(q == n / 16) by (bit_vector)
            requires
                q == n >> 4,
        ;
        num_length_hex(q) + 1
    } else {
        1
    }
}

/// `10^k` is positive.
pub proof fn lemma_pow10_pos(k: nat)
    ensures
        pow10(k) > 0,
    decreases k,
{
    if k > 0 {
        lemma_pow10_pos((k - 1) as nat);
    }
}

/// Dropping the last digit of `n / 10^k` gives `n / 10^(k+1)`.
pub proof fn lemma_div_pow10_step(n: nat, k: nat)
    ensures
        n / pow10(k) / 10 == n / pow10(k + 1),
{
    lemma_pow10_pos(k);
    lemma_div_denominator(n as int, pow10(k) as int, 10);
    assert(pow10(k + 1) == pow10(k) * 10);
}

/// The digit `i` places from the end of `decimal_digits(n)` is `(n / 10^i) % 10`.
pub proof fn lemma_digit_at(n: nat, i: nat)
    requires
        i < digit_count(n),
    ensures
        decimal_digits(n).len() == digit_count(n),
        decimal_digits(n)[digit_count(n) - 1 - i] == (ASCII_ZERO as nat + (n / pow10(i)) % 10) as u8,
    decreases i,
{
    lemma_decimal_digits(n);
    if i == 0 {
        assert(pow10(0) == 1);
    } else {
        assert(n > 9);
        let j = (i - 1) as nat;
        lemma_digit_at(n / 10, j);
        assert(n / 10 / pow10(j) == n / pow10(i)) by {
            lemma_pow10_pos(j);
            lemma_div_denominator(n as int, 10, pow10(j) as int);
        }
    }
}

} // verus!
