//! Numbers written out in digits.

use vstd::prelude::*;

verus! {

/// The character for a digit below sixteen: `0` to `9`, then `a` to `f`.
pub open spec fn digit_char(digit: int) -> char {
    "0123456789abcdef"@[digit]
}

/// A number written in decimal digits, without leading zeros.
pub open spec fn decimal_text(number: nat) -> Seq<char>
    decreases number,
{
    if number < 10 {
        seq![digit_char(number as int)]
    } else {
        decimal_text(number / 10).push(digit_char((number % 10) as int))
    }
}

/// The last `digits` hexadecimal digits of a number, in lower case and
/// with leading zeros.
pub open spec fn hex_text(number: nat, digits: nat) -> Seq<char>
    decreases digits,
{
    if digits == 0 {
        Seq::<char>::empty()
    } else {
        hex_text(number / 16, (digits - 1) as nat).push(digit_char((number % 16) as int))
    }
}

/// `u64::to_string`: the number in decimal digits.
#[verifier::external_body]
pub(crate) fn number_text(number: u64) -> (text: String)
    ensures
        text@ == decimal_text(number as nat),
{
    number.to_string()
}

} // verus!
