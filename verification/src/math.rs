//! Fixed-point arithmetic: what a trade costs, and amounts and prices read
//! from decimal text.

use crate::decimal::{
    decimal_checked_mul, decimal_error_text, decimal_fract, decimal_from_str, decimal_parse,
    decimal_product, decimal_to_u64, DecimalParts,
};
use vstd::arithmetic::power::lemma_pow_positive;
use vstd::prelude::*;

verus! {

/// Satoshis in one BTC.
pub const SATS_PER_BTC: u128 = 100_000_000;

/// Micro-USDC in one USDC.
pub const MICRO_USDC: u128 = 1_000_000;

/// How many digits an amount of BTC may have behind the point.
pub const BTC_DECIMALS: u32 = 8;

/// How many digits an amount of USDC, and a price, may have behind the
/// point.
pub const USDC_DECIMALS: u32 = 6;

/// Cost in micro-USDC of `qty` satoshis at `price` micro-USDC per BTC:
/// the product divided by the number of satoshis in a BTC, rounded down.
pub open spec fn cost(price: int, qty: int) -> int {
    (price * qty) / 100_000_000
}

/// The cost of nothing is nothing, and a cost is never negative.
pub proof fn lemma_cost_bounds(price: int, qty: int)
    requires
        0 <= price,
        0 <= qty,
    ensures
        0 <= cost(price, qty),
        cost(price, 0) == 0,
        cost(0, qty) == 0,
{
    assert(0 <= price * qty) by (nonlinear_arith)
        requires
            0 <= price,
            0 <= qty,
    ;
    assert(price * 0 == 0) by (nonlinear_arith);
    assert(0 * qty == 0) by (nonlinear_arith);
}

/// Cost grows with the price and with the quantity.
pub proof fn lemma_cost_monotonic(price: int, quantity: int, higher: int, more: int)
    requires
        0 <= price <= higher,
        0 <= quantity <= more,
    ensures
        cost(price, quantity) <= cost(higher, more),
{
    assert(price * quantity <= higher * more) by (nonlinear_arith)
        requires
            0 <= price <= higher,
            0 <= quantity <= more,
    ;
}

/// Splitting a quantity in two loses at most one micro-USDC to rounding,
/// and never gains any.
pub proof fn lemma_cost_split(price: int, first: int, second: int)
    requires
        0 <= price,
        0 <= first,
        0 <= second,
    ensures
        cost(price, first) + cost(price, second) <= cost(price, first + second),
        cost(price, first + second) <= cost(price, first) + cost(price, second) + 1,
{
    assert(price * (first + second) == price * first + price * second) by (nonlinear_arith);
    assert(0 <= price * first) by (nonlinear_arith)
        requires
            0 <= price,
            0 <= first,
    ;
    assert(0 <= price * second) by (nonlinear_arith)
        requires
            0 <= price,
            0 <= second,
    ;
}

/// Cost of `qty_sats` at `price_micro`, computed in 128 bits; `None` where it
/// does not fit in 64 bits.
pub fn calculate_cost_usdc_micro(price_micro: u64, qty_sats: u64) -> (r: Option<u64>)
    ensures
        r == (if cost(price_micro as int, qty_sats as int) <= u64::MAX {
            Some(cost(price_micro as int, qty_sats as int) as u64)
        } else {
            None
        }),
{
    let p = price_micro as u128;
    let q = qty_sats as u128;
    assert(p * q <= u128::MAX) by (nonlinear_arith)
        requires
            p <= u64::MAX,
            q <= u64::MAX,
    ;
    let total: u128 = p * q;
    let cost: u128 = total / SATS_PER_BTC;
    if cost > u64::MAX as u128 {
        None
    } else {
        Some(cost as u64)
    }
}

/// Why a decimal number is no amount in whole units.
#[derive(Clone, Copy, Debug, PartialEq, Eq, Structural)]
pub enum ConversionError {
    /// The number times the unit is too large for a decimal number.
    Overflow,
    /// The number has more digits behind the point than the unit has, be
    /// they zeros or not.
    TooPrecise,
    /// The amount is below zero or does not fit in 64 bits.
    OutOfRange,
}

/// The amount that a product of a number and a unit stands for: the
/// product, where it is a whole number that is not below zero and fits in
/// 64 bits.
pub open spec fn whole_units_of(product: Option<DecimalParts>) -> Result<u64, ConversionError> {
    match product {
        None => Err(ConversionError::Overflow),
        Some(p) => if p.magnitude() % p.divisor() != 0 {
            Err(ConversionError::TooPrecise)
        } else if (p.negative && p.magnitude() != 0) || p.magnitude() / p.divisor() > u64::MAX {
            Err(ConversionError::OutOfRange)
        } else {
            Ok((p.magnitude() / p.divisor()) as u64)
        },
    }
}

/// The amount in whole units that `number` stands for, with `unit` units
/// to one. A number with more than `decimals` digits behind the point
/// stands for none.
pub open spec fn scaled(number: DecimalParts, unit: u128, decimals: u32) -> Result<
    u64,
    ConversionError,
> {
    if number.scale > decimals {
        Err(ConversionError::TooPrecise)
    } else {
        whole_units_of(decimal_product(number, DecimalParts::whole(unit)))
    }
}

/// What stands behind the point of a number is zero exactly where the
/// divisor divides the magnitude.
proof fn lemma_fraction_zero(fraction: int, divisor: int, rest: int, other: int)
    by (nonlinear_arith)
    requires
        fraction * divisor == rest * other,
        divisor > 0,
        other > 0,
    ensures
        fraction == 0 <==> rest == 0,
{
}

/// The amount that a product of a number and a unit stands for.
pub fn whole_units(product: Option<DecimalParts>) -> (amount: Result<u64, ConversionError>)
    requires
        product matches Some(p) ==> p.wf(),
    ensures
        amount == whole_units_of(product),
{
    match product {
        None => Err(ConversionError::Overflow),
        Some(p) => {
            let fraction = decimal_fract(p);
            proof {
                lemma_pow_positive(10, p.scale as nat);
                lemma_pow_positive(10, fraction.scale as nat);
                lemma_fraction_zero(
                    fraction.magnitude(),
                    p.divisor(),
                    p.magnitude() % p.divisor(),
                    fraction.divisor(),
                );
            }
            if !fraction.is_zero() {
                Err(ConversionError::TooPrecise)
            } else {
                match decimal_to_u64(p) {
                    Some(amount) => Ok(amount),
                    None => Err(ConversionError::OutOfRange),
                }
            }
        },
    }
}

/// The amount in whole units that `number` stands for, with `unit` units
/// to one. Refused where the number has more than `decimals` digits behind
/// the point, where its product with the unit is too large for a decimal
/// number, and where the amount is below zero or does not fit in 64 bits.
pub fn scale_number(number: DecimalParts, unit: u128, decimals: u32) -> (amount: Result<
    u64,
    ConversionError,
>)
    requires
        number.wf(),
        unit < 0x1_0000_0000_0000_0000_0000_0000,
    ensures
        amount == scaled(number, unit, decimals),
{
    if number.scale > decimals {
        return Err(ConversionError::TooPrecise);
    }
    match DecimalParts::from_u128(unit) {
        Some(unit) => whole_units(decimal_checked_mul(number, unit)),
        None => Err(ConversionError::Overflow),
    }
}

/// What `btc_to_sats_str` says of an amount that it refuses.
pub open spec fn btc_wording(error: ConversionError) -> Seq<char> {
    match error {
        ConversionError::Overflow => "overflow converting BTC to sats"@,
        ConversionError::TooPrecise => "BTC amount has more than 8 decimals"@,
        ConversionError::OutOfRange => "overflow converting sats to u64"@,
    }
}

/// What `usdc_to_micro_usdc` says of an amount that it refuses.
pub open spec fn usdc_wording(error: ConversionError) -> Seq<char> {
    match error {
        ConversionError::Overflow => "overflow converting to micro usdc"@,
        ConversionError::TooPrecise => "USDC amount has more than  6 decimals"@,
        ConversionError::OutOfRange => "overflow converting micro to u64"@,
    }
}

/// What `price_to_micro_str` says of a price that it refuses.
pub open spec fn price_wording(error: ConversionError) -> Seq<char> {
    match error {
        ConversionError::Overflow => "overflow converting price to micro"@,
        ConversionError::TooPrecise => "price has more than 6 decimals"@,
        ConversionError::OutOfRange => "overflow converting price to u64"@,
    }
}

/// Whether `amount` is what a conversion is to make of `text`: the amount
/// in whole units that the number in `text` stands for, with `unit` units
/// to one and at most `decimals` digits behind the point. A text that is
/// no decimal number is refused in the parser's own words, any other in
/// those that `wording` gives.
pub open spec fn converts(
    text: Seq<char>,
    unit: u128,
    decimals: u32,
    wording: spec_fn(ConversionError) -> Seq<char>,
    amount: Result<u64, String>,
) -> bool {
    match decimal_from_str(text) {
        None => amount is Err,
        Some(number) => match scaled(number, unit, decimals) {
            Ok(units) => amount == Ok::<u64, String>(units),
            Err(error) => amount matches Err(message) && message@ == wording(error),
        },
    }
}

/// An amount of BTC, written as a decimal number, in satoshis. Refused
/// where the text is no decimal number, where the number has more than 8
/// digits behind the point, be they zeros or not, and where the amount is
/// below zero or too large.
pub fn btc_to_sats_str(s: &str) -> (sats: Result<u64, String>)
    ensures
        converts(
            s@,
            SATS_PER_BTC,
            BTC_DECIMALS,
            |error: ConversionError| btc_wording(error),
            sats,
        ),
{
    let number = match decimal_parse(s) {
        Ok(number) => number,
        Err(error) => {
            return Err(decimal_error_text(error));
        },
    };
    match scale_number(number, SATS_PER_BTC, BTC_DECIMALS) {
        Ok(sats) => Ok(sats),
        Err(ConversionError::Overflow) => Err("overflow converting BTC to sats".to_string()),
        Err(ConversionError::TooPrecise) => Err("BTC amount has more than 8 decimals".to_string()),
        Err(ConversionError::OutOfRange) => Err("overflow converting sats to u64".to_string()),
    }
}

/// An amount of USDC, written as a decimal number, in micro-USDC. Refused
/// where the text is no decimal number, where the number has more than 6
/// digits behind the point, be they zeros or not, and where the amount is
/// below zero or too large.
pub fn usdc_to_micro_usdc(s: &str) -> (micro: Result<u64, String>)
    ensures
        converts(
            s@,
            MICRO_USDC,
            USDC_DECIMALS,
            |error: ConversionError| usdc_wording(error),
            micro,
        ),
{
    let number = match decimal_parse(s) {
        Ok(number) => number,
        Err(error) => {
            return Err(decimal_error_text(error));
        },
    };
    match scale_number(number, MICRO_USDC, USDC_DECIMALS) {
        Ok(micro) => Ok(micro),
        Err(ConversionError::Overflow) => Err("overflow converting to micro usdc".to_string()),
        Err(ConversionError::TooPrecise) => Err(
            "USDC amount has more than  6 decimals".to_string(),
        ),
        Err(ConversionError::OutOfRange) => Err("overflow converting micro to u64".to_string()),
    }
}

/// A price in USDC per BTC, written as a decimal number, in micro-USDC per
/// BTC. Refused where the text is no decimal number, where the number has
/// more than 6 digits behind the point, be they zeros or not, and where
/// the price is below zero or too large.
pub fn price_to_micro_str(s: &str) -> (micro: Result<u64, String>)
    ensures
        converts(
            s@,
            MICRO_USDC,
            USDC_DECIMALS,
            |error: ConversionError| price_wording(error),
            micro,
        ),
{
    let number = match decimal_parse(s) {
        Ok(number) => number,
        Err(error) => {
            return Err(decimal_error_text(error));
        },
    };
    match scale_number(number, MICRO_USDC, USDC_DECIMALS) {
        Ok(micro) => Ok(micro),
        Err(ConversionError::Overflow) => Err("overflow converting price to micro".to_string()),
        Err(ConversionError::TooPrecise) => Err("price has more than 6 decimals".to_string()),
        Err(ConversionError::OutOfRange) => Err("overflow converting price to u64".to_string()),
    }
}

} // verus!
