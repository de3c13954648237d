//! Fixed-point arithmetic with overflow protection.
//!
//! All operations act on scaled unsigned integers. Fallible operations
//! return a typed error instead of wrapping or panicking.

use vstd::prelude::*;

use crate::{pow10, FinancialError, FinancialResult};

verus! {

/// What `safe_add` returns: the sum when it fits, `Overflow` otherwise.
pub open spec fn spec_safe_add(a: u128, b: u128) -> FinancialResult<u128> {
    if a + b <= u128::MAX {
        Ok((a + b) as u128)
    } else {
        Err(FinancialError::Overflow)
    }
}

/// What `safe_subtract` returns: the difference when `a >= b`,
/// `Overflow` otherwise.
pub open spec fn spec_safe_subtract(a: u128, b: u128) -> FinancialResult<u128> {
    if a >= b {
        Ok((a - b) as u128)
    } else {
        Err(FinancialError::Overflow)
    }
}

/// What `safe_multiply` returns: the product when it fits, `Overflow`
/// otherwise.
pub open spec fn spec_safe_multiply(a: u128, b: u128) -> FinancialResult<u128> {
    if a * b <= u128::MAX {
        Ok((a * b) as u128)
    } else {
        Err(FinancialError::Overflow)
    }
}

/// What `safe_divide` returns: the truncated quotient, or
/// `DivisionByZero` for a zero divisor.
pub open spec fn spec_safe_divide(a: u128, b: u128) -> FinancialResult<u128> {
    if b == 0 {
        Err(FinancialError::DivisionByZero)
    } else {
        Ok((a as int / b as int) as u128)
    }
}

/// Safe addition with overflow protection.
pub fn safe_add(a: u128, b: u128) -> (r: FinancialResult<u128>)
    ensures
        r == spec_safe_add(a, b),
{
    match a.checked_add(b) {
        Some(v) => Ok(v),
        None => Err(FinancialError::Overflow),
    }
}

/// Safe subtraction with underflow protection.
pub fn safe_subtract(a: u128, b: u128) -> (r: FinancialResult<u128>)
    ensures
        r == spec_safe_subtract(a, b),
{
    match a.checked_sub(b) {
        Some(v) => Ok(v),
        None => Err(FinancialError::Overflow),
    }
}

/// Safe multiplication with overflow protection.
pub fn safe_multiply(a: u128, b: u128) -> (r: FinancialResult<u128>)
    ensures
        r == spec_safe_multiply(a, b),
{
    match a.checked_mul(b) {
        Some(v) => Ok(v),
        None => Err(FinancialError::Overflow),
    }
}

/// Safe division with zero check.
pub fn safe_divide(a: u128, b: u128) -> (r: FinancialResult<u128>)
    ensures
        r == spec_safe_divide(a, b),
{
    if b == 0 {
        return Err(FinancialError::DivisionByZero);
    }
    Ok(a / b)
}

/// Addition is commutative, also in its overflow behaviour.
pub proof fn lemma_safe_add_commutes(a: u128, b: u128)
    ensures
        spec_safe_add(a, b) == spec_safe_add(b, a),
{
}

/// Addition is associative on inputs whose total fits in a `u128`:
/// both orders of bracketing succeed and agree.
pub proof fn lemma_safe_add_associates(a: u128, b: u128, c: u128)
    requires
        a + b + c <= u128::MAX,
    ensures
        spec_safe_add(a, b) is Ok,
        spec_safe_add(b, c) is Ok,
        spec_safe_add(spec_safe_add(a, b)->Ok_0, c) == spec_safe_add(
            a,
            spec_safe_add(b, c)->Ok_0,
        ),
{
}

/// Mid price `bid + (ask - bid) / 2`: never overflows, and rounds the
/// midpoint of an odd spread downward.
pub fn calculate_mid_price(bid: u128, ask: u128) -> (r: u128)
    requires
        bid <= ask,
    ensures
        r == bid + (ask - bid) / 2,
{
    bid + (ask - bid) / 2
}

/// Spread `ask - bid`, saturating at zero so a crossed book never
/// underflows.
pub fn calculate_spread(ask: u128, bid: u128) -> (r: u128)
    ensures
        ask >= bid ==> r == ask - bid,
        ask < bid ==> r == 0,
{
    ask.saturating_sub(bid)
}

/// Multiply two quantities safely.
pub fn multiply_quantities(qty1: u128, qty2: u128) -> (r: FinancialResult<u128>)
    ensures
        r == spec_safe_multiply(qty1, qty2),
{
    safe_multiply(qty1, qty2)
}

/// Divide two quantities safely.
pub fn divide_quantities(numerator: u128, denominator: u128) -> (r: FinancialResult<u128>)
    ensures
        r == spec_safe_divide(numerator, denominator),
{
    safe_divide(numerator, denominator)
}

/// Add two amounts. The precision argument does not change the result;
/// both amounts must already carry the same scale.
pub fn add_amounts(amount1: u128, amount2: u128, _precision: u32) -> (r: FinancialResult<u128>)
    ensures
        r == spec_safe_add(amount1, amount2),
{
    safe_add(amount1, amount2)
}

/// Percentage change `|new - old| * 10^4 / old` at 4 decimal places.
/// The sign is returned out of band: the boolean is true exactly when
/// the value decreased (`new < old`).
pub fn calculate_percentage_change(old_value: u128, new_value: u128) -> (r: FinancialResult<
    (u128, bool),
>)
    ensures
        old_value == 0 ==> r == FinancialResult::<(u128, bool)>::Err(
            FinancialError::DivisionByZero,
        ),
        old_value != 0 && abs_diff(old_value, new_value) * 10000 > u128::MAX ==> r
            == FinancialResult::<(u128, bool)>::Err(FinancialError::Overflow),
        old_value != 0 && abs_diff(old_value, new_value) * 10000 <= u128::MAX ==> r
            == FinancialResult::<(u128, bool)>::Ok(
            (
                (abs_diff(old_value, new_value) * 10000 / old_value as int) as u128,
                new_value < old_value,
            ),
        ),
{
    if old_value == 0 {
        return Err(FinancialError::DivisionByZero);
    }

    let diff = if new_value > old_value {
        new_value - old_value
    } else {
        old_value - new_value
    };

    match diff.checked_mul(10_000) {
        Some(scaled) => Ok((scaled / old_value, new_value < old_value)),
        None => Err(FinancialError::Overflow),
    }
}

/// The absolute difference of two scaled values.
pub open spec fn abs_diff(a: u128, b: u128) -> int {
    if a >= b {
        a - b
    } else {
        b - a
    }
}

/// Compound change `new * 10^4 / old - 10^4`, clamped at zero for
/// decreases, at 4 decimal places.
pub fn calculate_compound_change(old_value: u128, new_value: u128) -> (r: FinancialResult<u128>)
    ensures
        old_value == 0 ==> r == FinancialResult::<u128>::Err(FinancialError::DivisionByZero),
        old_value != 0 && new_value * 10000 > u128::MAX ==> r == FinancialResult::<u128>::Err(
            FinancialError::Overflow,
        ),
        old_value != 0 && new_value * 10000 <= u128::MAX ==> r == FinancialResult::<u128>::Ok(
            {
                let ratio = new_value * 10000 / old_value as int;
                if ratio >= 10000 {
                    (ratio - 10000) as u128
                } else {
                    0u128
                }
            },
        ),
{
    if old_value == 0 {
        return Err(FinancialError::DivisionByZero);
    }

    match new_value.checked_mul(10_000) {
        Some(scaled) => {
            let ratio = scaled / old_value;
            Ok(ratio.saturating_sub(10_000))
        },
        None => Err(FinancialError::Overflow),
    }
}

/// A 4-decimal fraction expressed in basis points (`v / 100`).
pub fn to_basis_points(decimal: u128) -> (r: u128)
    ensures
        r == decimal / 100,
{
    decimal / 100
}

/// Basis points expressed as a 4-decimal fraction (`bp * 100`).
pub fn from_basis_points(basis_points: u128) -> (r: u128)
    requires
        basis_points * 100 <= u128::MAX,
    ensures
        r == basis_points * 100,
{
    basis_points * 100
}

/// Half-to-even rounding of `value` to a multiple of `divisor`: round
/// to the nearest multiple; at the midpoint, round so the quotient is
/// even.
pub open spec fn spec_bankers_round(value: u128, divisor: nat) -> int {
    let rem = value as int % divisor as int;
    let base = value - rem;
    if rem > divisor / 2 {
        base + divisor
    } else if rem == divisor / 2 {
        if (base / divisor as int) % 2 == 0 {
            base
        } else {
            base + divisor
        }
    } else {
        base
    }
}

/// Round a scaled value to `target_decimals` decimal places with
/// half-to-even rounding; a target at or above the current scale is the
/// identity.
pub fn financial_round(value: u128, current_scale: u32, target_decimals: u32) -> (r: u128)
    requires
        target_decimals < current_scale ==> current_scale - target_decimals <= 38
            && spec_bankers_round(value, pow10((current_scale - target_decimals) as nat))
            <= u128::MAX,
    ensures
        target_decimals >= current_scale ==> r == value,
        target_decimals < current_scale ==> r == spec_bankers_round(
            value,
            pow10((current_scale - target_decimals) as nat),
        ),
{
    if target_decimals >= current_scale {
        return value;
    }

    let divisor = crate::pow10_u128(current_scale - target_decimals);
    proof {
        crate::lemma_pow10_positive((current_scale - target_decimals) as nat);
    }
    let remainder = value % divisor;
    proof {
        assert(remainder <= value) by (nonlinear_arith)
            requires
                divisor > 0,
                remainder == value % divisor,
        ;
    }

    let threshold = divisor / 2;
    if remainder > threshold {
        value - remainder + divisor
    } else if remainder == threshold {
        let base = value - remainder;
        if (base / divisor) % 2 == 0 {
            base
        } else {
            base + divisor
        }
    } else {
        value - remainder
    }
}

/// Absolute value; scaled values are unsigned, so this is the identity.
pub fn calculate_abs(value: u128) -> (r: u128)
    ensures
        r == value,
{
    value
}

} // verus!
