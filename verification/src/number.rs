//! The physical type of a JSON number.
//!
//! A number arrives as its text. It is written as an integer where it is
//! one of 64 bits, else as a decimal where it has an exact decimal form,
//! else as a double; a text that is no JSON number is written as none of
//! them. Reading the text is left to `serde_json` and `rust_decimal`; which
//! of the three applies, and how each is laid out, is decided here.

use vstd::prelude::*;
use std::str::FromStr;

verus! {

/// Whether `serde_json::Number::from_str` reads `text` as a number, and
/// what `serde_json::Number::as_i64` returns for that number: `None` where
/// the text is not read as a number, `Some(None)` where the number is no
/// integer of 64 bits.
pub uninterp spec fn integer_value(text: Seq<char>) -> Option<Option<i64>>;

/// The mantissa and the scale of the decimal that
/// `rust_decimal::Decimal::from_str_exact` reads from `text`; `None` where
/// it reads none. A decimal of `rust_decimal` has an unscaled value of at
/// most 96 bits and at most 28 fractional digits, so a number with more of
/// either is no decimal here.
pub uninterp spec fn decimal_value(text: Seq<char>) -> Option<(i128, u32)>;

/// The bits of the double that `serde_json::Number::as_f64` returns for the
/// number that `serde_json::Number::from_str` reads from `text`; `None`
/// where the text is not read as a number or the double is not finite.
pub uninterp spec fn double_value(text: Seq<char>) -> Option<u64>;

/// `serde_json::Number::from_str`, then `serde_json::Number::as_i64`:
/// whether the text is a JSON number, and the number as an integer of 64
/// bits, if it is one. Nothing is claimed of the result but that it depends
/// on the text alone.
#[verifier::external_body]
fn read_integer(text: &str) -> (value: Option<Option<i64>>)
    ensures
        value == integer_value(text@),
{
    match serde_json::Number::from_str(text) {
        Ok(number) => Some(number.as_i64()),
        Err(_) => None,
    }
}

/// `rust_decimal::Decimal::from_str_exact`, then `Decimal::mantissa` and
/// `Decimal::scale`: the number as an unscaled value and a count of
/// fractional digits. The scale is kept in eight bits of the decimal's
/// flags, so it is at most 255; nothing else is claimed of the result but
/// that it depends on the text alone.
#[verifier::external_body]
fn read_decimal(text: &str) -> (value: Option<(i128, u32)>)
    ensures
        value == decimal_value(text@),
        value matches Some((_, scale)) ==> scale <= 0xFF,
{
    match rust_decimal::Decimal::from_str_exact(text) {
        Ok(decimal) => Some((decimal.mantissa(), decimal.scale())),
        Err(_) => None,
    }
}

/// `serde_json::Number::from_str`, then `serde_json::Number::as_f64`: the
/// number as a finite double, handed out as its 64 bits. Nothing is claimed
/// of the result but that it depends on the text alone.
#[verifier::external_body]
fn read_double(text: &str) -> (bits: Option<u64>)
    ensures
        bits == double_value(text@),
{
    match serde_json::Number::from_str(text) {
        Ok(number) => match number.as_f64() {
            Some(double) => Some(double.to_bits()),
            None => None,
        },
        Err(_) => None,
    }
}

/// A number, read as the physical type that it is written as.
#[derive(Debug, Clone, Copy, PartialEq, Eq, Structural)]
pub enum Number {
    /// An integer of 64 bits.
    Int(i64),
    /// A decimal: the unscaled value and the number of fractional digits.
    Decimal(i128, u8),
    /// A double, as its bits.
    Double(u64),
}

/// Chooses among what the three readings of a text gave. A text that is no
/// number is none; of a number the integer is taken first, then the
/// decimal, then the double.
pub open spec fn choose_number(
    integer: Option<Option<i64>>,
    decimal: Option<(i128, u32)>,
    double: Option<u64>,
) -> Option<Number> {
    match integer {
        None => None,
        Some(Some(i)) => Some(Number::Int(i)),
        Some(None) => match decimal {
            Some((unscaled, scale)) => Some(Number::Decimal(unscaled, (scale % 0x100) as u8)),
            None => match double {
                Some(bits) => Some(Number::Double(bits)),
                None => None,
            },
        },
    }
}

/// The physical type of the number written as `text`; `None` where the text
/// is no number or can be read in none of the three ways.
pub open spec fn classified(text: Seq<char>) -> Option<Number> {
    choose_number(integer_value(text), decimal_value(text), double_value(text))
}

/// Chooses among what the three readings of a text gave.
pub fn select_number(
    integer: Option<Option<i64>>,
    decimal: Option<(i128, u32)>,
    double: Option<u64>,
) -> (number: Option<Number>)
    ensures
        number == choose_number(integer, decimal, double),
{
    match integer {
        None => None,
        Some(Some(i)) => Some(Number::Int(i)),
        Some(None) => match decimal {
            Some((unscaled, scale)) => Some(Number::Decimal(unscaled, (scale % 0x100) as u8)),
            None => match double {
                Some(bits) => Some(Number::Double(bits)),
                None => None,
            },
        },
    }
}

/// Reads the number written as `text`. The text is read as a decimal only
/// where it is a number and no integer, and as a double only where it is
/// neither.
pub fn classify(text: &str) -> (number: Option<Number>)
    ensures
        number == classified(text@),
{
    let integer = read_integer(text);
    match integer {
        Some(None) => {},
        _ => {
            return select_number(integer, None, None);
        },
    }
    let decimal = read_decimal(text);
    if decimal.is_some() {
        return select_number(integer, decimal, None);
    }
    select_number(integer, None, read_double(text))
}

} // verus!
