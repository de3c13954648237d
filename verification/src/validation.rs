//! Validation of fixed-point values and scale parameters.

use vstd::prelude::*;

use crate::{FinancialError, FinancialResult};

verus! {

/// Every `u128` is a valid fixed-point value; the function exists so
/// callers have a single place where bounds could be tightened.
pub fn validate_fixed_point_bounds(value: u128, _scale: u32) -> (r: FinancialResult<u128>)
    ensures
        r == FinancialResult::<u128>::Ok(value),
{
    Ok(value)
}

/// A scale must be positive; scale zero is rejected with
/// `InvalidScale`.
pub fn validate_scale(scale: u32) -> (r: FinancialResult<u32>)
    ensures
        scale == 0 ==> r == FinancialResult::<u32>::Err(FinancialError::InvalidScale),
        scale != 0 ==> r == FinancialResult::<u32>::Ok(scale),
{
    if scale == 0 {
        return Err(FinancialError::InvalidScale);
    }
    Ok(scale)
}

} // verus!
