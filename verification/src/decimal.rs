//! Unsigned numbers in decimal ASCII, read and written.

use btoi::btou;
use btoi::ParseIntegerError;
use vstd::prelude::*;

verus! {

/// The byte is one of `0` to `9`.
pub open spec fn is_digit(c: u8) -> bool {
    48 <= c <= 57
}

/// Every byte of `s` is a digit.
pub open spec fn all_digits(s: Seq<u8>) -> bool {
    forall|i: int| 0 <= i < s.len() ==> is_digit(#[trigger] s[i])
}

/// The number that the digits `s` write, most significant digit first.
pub open spec fn decimal_value(s: Seq<u8>) -> nat
    decreases s.len(),
{
    if s.len() == 0 {
        0
    } else {
        10 * decimal_value(s.drop_last()) + (s.last() - 48) as nat
    }
}

/// `s` writes a number that a `u32` holds.
pub open spec fn is_decimal_u32(s: Seq<u8>) -> bool {
    s.len() > 0 && all_digits(s) && decimal_value(s) <= u32::MAX
}

/// The digits that write `n`, without leading zeros.
pub open spec fn decimal_digits(n: nat) -> Seq<u8>
    decreases n,
{
    if n < 10 {
        seq![(48 + n) as u8]
    } else {
        decimal_digits(n / 10).push((48 + n % 10) as u8)
    }
}

/// Computes [`is_digit`].
pub fn is_digit_byte(c: u8) -> (b: bool)
    ensures
        b == is_digit(c),
{
    48 <= c && c <= 57
}

#[verifier::external_type_specification]
#[verifier::external_body]
pub struct ExParseIntegerError(ParseIntegerError);

/// `btoi::btou`, asked for a `u32`, is trusted to return the number that
/// `digits` write when they are one or more ASCII digits whose number a
/// `u32` holds, and an error for every other input.
#[verifier::external_body]
fn ascii_to_u32(digits: &[u8]) -> (parsed: Result<u32, ParseIntegerError>)
    ensures
        match parsed {
            Ok(n) => is_decimal_u32(digits@) && n == decimal_value(digits@),
            Err(_) => !is_decimal_u32(digits@),
        },
{
    btou(digits)
}

/// Reads `digits` as a number: `Some` exactly when they are one or more
/// digits that write a number a `u32` holds.
pub fn read_decimal_u32(digits: &[u8]) -> (n: Option<u32>)
    ensures
        match n {
            Some(v) => is_decimal_u32(digits@) && v == decimal_value(digits@),
            None => !is_decimal_u32(digits@),
        },
{
    match ascii_to_u32(digits) {
        Ok(v) => Some(v),
        Err(_) => None,
    }
}

/// Appends the decimal digits of `n`.
pub fn push_decimal(out: &mut Vec<u8>, n: u64)
    ensures
        final(out)@ == old(out)@ + decimal_digits(n as nat),
    decreases n,
{
    if n >= 10 {
        push_decimal(out, n / 10);
    }
    let digit: u8 = (n % 10) as u8;
    out.push(48 + digit);
}

/// Writing a number and reading the digits back gives the number: the
/// digits written are digits, at least one, and their value is `n`.
pub proof fn lemma_decimal_round_trip(n: nat)
    ensures
        decimal_digits(n).len() > 0,
        all_digits(decimal_digits(n)),
        decimal_value(decimal_digits(n)) == n,
    decreases n,
{
    if n < 10 {
        let s = decimal_digits(n);
        assert(s.drop_last() =~= Seq::<u8>::empty());
        assert(decimal_value(s.drop_last()) == 0);
    } else {
        lemma_decimal_round_trip(n / 10);
        let s = decimal_digits(n);
        assert(s.drop_last() =~= decimal_digits(n / 10));
    }
}

} // verus!
