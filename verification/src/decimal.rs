//! Decimal numbers as the `rust_decimal` crate holds them, and the calls
//! into that crate.

use std::str::FromStr;
use vstd::arithmetic::power::pow;
use vstd::prelude::*;

verus! {

/// What a 96-bit decimal number holds: the three 32-bit words of its
/// magnitude, its sign, and how many of its digits stand behind the
/// point.
#[derive(Clone, Copy, Debug, PartialEq, Eq, Structural)]
pub struct DecimalParts {
    pub lo: u32,
    pub mid: u32,
    pub hi: u32,
    pub negative: bool,
    pub scale: u32,
}

impl DecimalParts {
    /// The number without its sign and its point.
    pub open spec fn magnitude(self) -> int {
        self.lo + self.mid * 0x1_0000_0000 + self.hi * 0x1_0000_0000_0000_0000
    }

    /// The power of ten that the magnitude is to be divided by.
    pub open spec fn divisor(self) -> int {
        pow(10, self.scale as nat)
    }

    /// At most 28 digits stand behind the point.
    pub open spec fn wf(self) -> bool {
        self.scale <= 28
    }

    /// Whether the number is zero.
    pub fn is_zero(&self) -> (zero: bool)
        ensures
            zero == (self.magnitude() == 0),
    {
        self.lo == 0 && self.mid == 0 && self.hi == 0
    }

    /// The whole number `n` as a decimal number: nothing behind the point.
    pub open spec fn whole(n: u128) -> DecimalParts {
        DecimalParts {
            lo: (n % 0x1_0000_0000) as u32,
            mid: ((n / 0x1_0000_0000) % 0x1_0000_0000) as u32,
            hi: (n / 0x1_0000_0000_0000_0000) as u32,
            negative: false,
            scale: 0,
        }
    }

    /// The whole number `n` as a decimal number, if it fits in 96 bits.
    pub fn from_u128(n: u128) -> (parts: Option<DecimalParts>)
        ensures
            parts == (if n < 0x1_0000_0000_0000_0000_0000_0000 {
                Some(DecimalParts::whole(n))
            } else {
                None
            }),
            parts matches Some(p) ==> p.magnitude() == n && p.wf(),
    {
        if n >= 0x1_0000_0000_0000_0000_0000_0000 {
            None
        } else {
            Some(
                DecimalParts {
                    lo: (n % 0x1_0000_0000) as u32,
                    mid: ((n / 0x1_0000_0000) % 0x1_0000_0000) as u32,
                    hi: (n / 0x1_0000_0000_0000_0000) as u32,
                    negative: false,
                    scale: 0,
                },
            )
        }
    }
}

/// The decimal number that `rust_decimal` reads out of a text, if it reads
/// one.
pub uninterp spec fn decimal_from_str(text: Seq<char>) -> Option<DecimalParts>;

/// The product of two decimal numbers as `rust_decimal` computes it, rounded
/// where it has to be; `None` where it is too large.
pub uninterp spec fn decimal_product(a: DecimalParts, b: DecimalParts) -> Option<DecimalParts>;

/// The error type of `rust_decimal`.
#[verifier::external_type_specification]
#[verifier::external_body]
pub struct ExDecimalError(rust_decimal::Error);

/// `Decimal::from_str`, with the number taken apart by `Decimal::unpack`.
/// Which texts are read as which numbers is left to the crate.
#[verifier::external_body]
pub(crate) fn decimal_parse(text: &str) -> (parsed: Result<DecimalParts, rust_decimal::Error>)
    ensures
        match parsed {
            Ok(parts) => decimal_from_str(text@) == Some(parts) && parts.wf(),
            Err(_) => decimal_from_str(text@) is None,
        },
{
    let u = rust_decimal::Decimal::from_str(text)?.unpack();
    Ok(DecimalParts { lo: u.lo, mid: u.mid, hi: u.hi, negative: u.negative, scale: u.scale })
}

/// The text of an error of `rust_decimal`, as its `Display` gives it.
/// Nothing is claimed of the text.
#[verifier::external_body]
pub(crate) fn decimal_error_text(error: rust_decimal::Error) -> String {
    error.to_string()
}

/// `Decimal::checked_mul`, on numbers put together by `Decimal::from_parts`
/// and with the product taken apart by `Decimal::unpack`. How the crate
/// rounds a product that does not fit is left to the crate.
#[verifier::external_body]
pub(crate) fn decimal_checked_mul(a: DecimalParts, b: DecimalParts) -> (product: Option<
    DecimalParts,
>)
    requires
        a.wf(),
        b.wf(),
    ensures
        product == decimal_product(a, b),
        product matches Some(parts) ==> parts.wf(),
{
    let x = rust_decimal::Decimal::from_parts(a.lo, a.mid, a.hi, a.negative, a.scale);
    let y = rust_decimal::Decimal::from_parts(b.lo, b.mid, b.hi, b.negative, b.scale);
    let u = x.checked_mul(y)?.unpack();
    Some(DecimalParts { lo: u.lo, mid: u.mid, hi: u.hi, negative: u.negative, scale: u.scale })
}

/// `Decimal::fract`, on a number put together by `Decimal::from_parts` and
/// with the result taken apart by `Decimal::unpack`: what stands behind the
/// point of the number. The result has the value of the remainder of the
/// magnitude by the divisor, over the divisor; its sign is left open.
#[verifier::external_body]
pub(crate) fn decimal_fract(a: DecimalParts) -> (fraction: DecimalParts)
    requires
        a.wf(),
    ensures
        fraction.wf(),
        fraction.magnitude() * a.divisor() == (a.magnitude() % a.divisor()) * fraction.divisor(),
{
    let x = rust_decimal::Decimal::from_parts(a.lo, a.mid, a.hi, a.negative, a.scale);
    let u = x.fract().unpack();
    DecimalParts { lo: u.lo, mid: u.mid, hi: u.hi, negative: u.negative, scale: u.scale }
}

/// `ToPrimitive::to_u64` of `Decimal`, on a number put together by
/// `Decimal::from_parts`: the number without what stands behind its point,
/// if it is not negative and that fits in 64 bits. `from_parts` takes a
/// zero for positive whatever its sign.
#[verifier::external_body]
pub(crate) fn decimal_to_u64(a: DecimalParts) -> (whole: Option<u64>)
    requires
        a.wf(),
    ensures
        whole == (if (a.negative && a.magnitude() != 0) || a.magnitude() / a.divisor()
            > u64::MAX {
            None
        } else {
            Some((a.magnitude() / a.divisor()) as u64)
        }),
{
    let x = rust_decimal::Decimal::from_parts(a.lo, a.mid, a.hi, a.negative, a.scale);
    rust_decimal::prelude::ToPrimitive::to_u64(&x)
}

} // verus!
