//! Division with precision handling for fixed-point values.

use vstd::prelude::*;

use crate::{pow10, FinancialError, FinancialResult};

verus! {

/// Division that first scales the numerator by `10^scale` so the
/// quotient keeps `scale` decimal places of precision.
pub fn precise_divide(numerator: u128, denominator: u128, scale: u32) -> (r: FinancialResult<u128>)
    requires
        scale <= 38,
        numerator * pow10(scale as nat) <= u128::MAX,
    ensures
        denominator == 0 ==> r == FinancialResult::<u128>::Err(FinancialError::DivisionByZero),
        denominator != 0 ==> r == FinancialResult::<u128>::Ok(
            (numerator * pow10(scale as nat) / denominator as int) as u128,
        ),
{
    if denominator == 0 {
        return Err(FinancialError::DivisionByZero);
    }

    let multiplier = crate::pow10_u128(scale);
    proof {
        crate::lemma_pow10_positive(scale as nat);
    }
    let scaled_numerator = numerator * multiplier;
    Ok(scaled_numerator / denominator)
}

/// Division that falls back to a default value for a zero divisor.
pub fn safe_divide_with_default(numerator: u128, denominator: u128, default: u128) -> (r: u128)
    ensures
        denominator == 0 ==> r == default,
        denominator != 0 ==> r == numerator as int / denominator as int,
{
    if denominator == 0 {
        return default;
    }
    numerator / denominator
}

} // verus!
