//! The text form of a value: ASCII decimal digits.

use vstd::prelude::*;

verus! {

/// The delimiter that is written behind each value of a staging bucket and of
/// the result: a space.
pub const DELIMITER: u8 = 0x20;

/// Whether a byte delimits tokens: the ASCII whitespace bytes do, which are space,
/// tab, line feed, form feed and carriage return.
pub open spec fn is_delimiter(b: u8) -> bool {
    b == 0x20 || b == 0x09 || b == 0x0a || b == 0x0c || b == 0x0d
}

/// Tells whether a byte delimits tokens.
pub fn delimits(b: u8) -> (r: bool)
    ensures
        r == is_delimiter(b),
{
    b == 0x20 || b == 0x09 || b == 0x0a || b == 0x0c || b == 0x0d
}

/// The sign that a token may carry in front of its digits.
pub const PLUS: u8 = 0x2b;

/// The digit zero; the other digits follow it in order.
pub const ZERO: u8 = 0x30;

/// The digit nine.
pub const NINE: u8 = 0x39;

/// Whether a byte is one of the digits `0` to `9`.
pub open spec fn is_digit(b: u8) -> bool {
    ZERO <= b <= NINE
}

/// Whether every byte is a digit.
pub open spec fn all_digits(d: Seq<u8>) -> bool {
    forall|i: int| 0 <= i < d.len() ==> is_digit(#[trigger] d[i])
}

/// The number that a string of digits denotes, most significant digit first.
pub open spec fn digits_value(d: Seq<u8>) -> nat
    decreases d.len(),
{
    if d.len() == 0 {
        0
    } else {
        digits_value(d.drop_last()) * 10 + (d.last() - ZERO) as nat
    }
}

/// The digits of a token: the token without its optional leading `+`.
pub open spec fn token_digits(t: Seq<u8>) -> Seq<u8> {
    if t.len() > 0 && t[0] == PLUS {
        t.skip(1)
    } else {
        t
    }
}

/// The value of a token, if it is the decimal text of an unsigned 64-bit value:
/// an optional `+`, then one or more digits that denote a number up to `u64::MAX`.
/// Leading zeros are allowed.
pub open spec fn token_value(t: Seq<u8>) -> Option<u64> {
    let d = token_digits(t);
    if d.len() > 0 && all_digits(d) && digits_value(d) <= u64::MAX {
        Some(digits_value(d) as u64)
    } else {
        None
    }
}

/// The canonical text of a number: its decimal digits without sign or leading zeros.
pub open spec fn decimal(n: nat) -> Seq<u8>
    decreases n,
{
    if n < 10 {
        seq![(ZERO + n) as u8]
    } else {
        decimal(n / 10).push((ZERO + n % 10) as u8)
    }
}

/// A prefix of a string of digits denotes no more than the whole string.
pub proof fn lemma_digits_value_prefix(d: Seq<u8>, k: int)
    requires
        all_digits(d),
        0 <= k <= d.len(),
    ensures
        digits_value(d.take(k)) <= digits_value(d),
    decreases d.len(),
{
    if k == d.len() {
        assert(d.take(k) =~= d);
    } else {
        lemma_digits_value_prefix(d.drop_last(), k);
        assert(d.drop_last().take(k) =~= d.take(k));
    }
}

/// The canonical text of a number is a non-empty string of digits that denotes it.
pub proof fn lemma_decimal_digits(n: nat)
    ensures
        decimal(n).len() > 0,
        all_digits(decimal(n)),
        digits_value(decimal(n)) == n,
    decreases n,
{
    if n < 10 {
        let d = decimal(n);
        assert(digits_value(d.drop_last()) == 0);
    } else {
        lemma_decimal_digits(n / 10);
        let d = decimal(n);
        assert(d.drop_last() =~= decimal(n / 10));
    }
}

/// Reading the canonical text of a value gives the value back.
pub proof fn lemma_decimal_round_trip(x: u64)
    ensures
        token_value(decimal(x as nat)) == Some(x),
{
    lemma_decimal_digits(x as nat);
}

/// Reads a token as a value.
pub fn parse_token(token: &[u8]) -> (r: Option<u64>)
    ensures
        r == token_value(token@),
{
    let n: usize = token.len();
    let start: usize = if n > 0 && token[0] == PLUS { 1 } else { 0 };
    let ghost digits = token_digits(token@);
    if start == n {
        return None;
    }
    let mut value: u64 = 0;
    let mut i: usize = start;
    while i < n
        invariant
            start <= i <= n,
            n == token.len(),
            digits == token@.subrange(start as int, n as int),
            digits == token_digits(token@),
            all_digits(digits.take(i - start)),
            value == digits_value(digits.take(i - start)),
        decreases n - i,
    {
        let b: u8 = token[i];
        if b < ZERO || b > NINE {
            assert(!is_digit(digits[i - start]));
            return None;
        }
        let digit: u64 = (b - ZERO) as u64;
        assert(digits.take(i - start + 1).drop_last() =~= digits.take(i - start));
        if value > (u64::MAX - digit) / 10 {
            proof {
                if all_digits(digits) {
                    lemma_digits_value_prefix(digits, i - start + 1);
                }
            }
            return None;
        }
        value = value * 10 + digit;
        i = i + 1;
    }
    assert(digits.take(n - start) =~= digits);
    Some(value)
}

/// Appends the canonical text of a value to a buffer.
pub fn push_decimal(out: &mut Vec<u8>, x: u64)
    ensures
        final(out)@ == old(out)@ + decimal(x as nat),
{
    // The digits, least significant first.
    let mut low_first: Vec<u8> = Vec::new();
    let mut rest: u64 = x / 10;
    low_first.push(ZERO + (x % 10) as u8);
    while rest > 0
        invariant
            low_first@.len() > 0,
            decimal(x as nat) == leading(rest as nat) + low_first@.reverse(),
        decreases rest,
    {
        low_first.push(ZERO + (rest % 10) as u8);
        rest = rest / 10;
    }
    let mut k: usize = low_first.len();
    while k > 0
        invariant
            k <= low_first@.len(),
            out@ == old(out)@ + low_first@.reverse().take(low_first@.len() - k),
        decreases k,
    {
        k = k - 1;
        out.push(low_first[k]);
    }
}

/// The digits in front of the last digits that were split off: none when nothing is left.
spec fn leading(rest: nat) -> Seq<u8> {
    if rest == 0 {
        Seq::empty()
    } else {
        decimal(rest)
    }
}

} // verus!
