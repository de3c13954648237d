//! Fixed-point financial arithmetic and a verified limit order book.
//!
//! Prices and quantities are scaled unsigned integers: a real value `x`
//! at scale `s` is stored as `x * 10^s`, rounded to an integer. The order
//! book is an ordered mapping from scaled price keys to passive levels,
//! with verified contracts for ingest, best-bid/ask, spread, mid price,
//! band sums, depth metrics and the health report.

use vstd::prelude::*;

pub mod arithmetic;
pub mod big_arithmetic;
pub mod decimal;
pub mod division;
pub mod orderbook;
pub mod statistics;
pub mod types;
pub mod validation;
pub mod zones;

pub use arithmetic::{
    add_amounts, calculate_abs, calculate_compound_change, calculate_mid_price,
    calculate_percentage_change, calculate_spread, divide_quantities, financial_round,
    from_basis_points, multiply_quantities, safe_add, safe_divide, safe_multiply, safe_subtract,
    to_basis_points,
};
pub use big_arithmetic::{
    big_absolute_difference, big_compare, big_is_zero, big_safe_add, big_safe_divide,
    big_safe_multiply, big_safe_subtract, safe_convert_to_big, string_to_u128, u128_to_string,
};
pub use division::{precise_divide, safe_divide_with_default};
pub use statistics::{
    calculate_max, calculate_mean, calculate_median, calculate_min, calculate_percentile,
    calculate_std_dev, calculate_variance, integer_sqrt,
};
pub use validation::{validate_fixed_point_bounds, validate_scale};
pub use zones::{
    calculate_support_resistance, calculate_zone, calculate_zone_boundaries, is_price_in_zone,
    normalize_price_to_tick, price_to_zone,
};

verus! {

/// Error taxonomy for every fallible financial operation.
#[derive(Debug, Clone, Copy, PartialEq, Eq, Structural)]
pub enum FinancialError {
    /// Arithmetic overflow or out-of-range conversion.
    Overflow,
    /// Division by zero, including a zero tick size.
    DivisionByZero,
    /// Scale zero where a positive scale is required.
    InvalidScale,
    /// A negative value where a non-negative one is required.
    NegativeValue,
    /// Malformed input: empty sequence, out-of-range percentile,
    /// or an unparsable decimal string.
    InvalidValue,
}

pub type FinancialResult<T> = Result<T, FinancialError>;

/// `10^e`, the multiplier of a fixed-point scale.
pub open spec fn pow10(e: nat) -> nat
    decreases e,
{
    if e == 0 {
        1
    } else {
        10 * pow10((e - 1) as nat)
    }
}

/// `10^e` grows with `e`.
pub proof fn lemma_pow10_increases(e1: nat, e2: nat)
    requires
        e1 <= e2,
    ensures
        pow10(e1) <= pow10(e2),
    decreases e2,
{
    if e1 < e2 {
        lemma_pow10_increases(e1, (e2 - 1) as nat);
    }
}

/// The largest power of ten that fits in a `u128` is `10^38`.
pub proof fn lemma_pow10_38_fits()
    ensures
        pow10(38) <= u128::MAX,
{
    reveal_with_fuel(pow10, 40);
    assert(pow10(38) == 100000000000000000000000000000000000000);
}

/// Powers of ten multiply by adding exponents.
pub proof fn lemma_pow10_adds(a: nat, b: nat)
    ensures
        pow10(a + b) == pow10(a) * pow10(b),
    decreases a,
{
    if a == 0 {
        assert(pow10(0 + b) == 1 * pow10(b));
    } else {
        lemma_pow10_adds((a - 1) as nat, b);
        assert(pow10(((a - 1) + b) as nat) == pow10((a - 1) as nat) * pow10(b));
        assert(pow10(a + b) == 10 * pow10(((a - 1) + b) as nat));
        assert(10 * (pow10((a - 1) as nat) * pow10(b)) == (10 * pow10((a - 1) as nat)) * pow10(b))
            by (nonlinear_arith);
    }
}

/// `10^e` is positive.
pub proof fn lemma_pow10_positive(e: nat)
    ensures
        pow10(e) >= 1,
    decreases e,
{
    if e > 0 {
        lemma_pow10_positive((e - 1) as nat);
    }
}

/// Computes `10^e` exactly. Exponents above 38 would overflow a `u128`.
pub fn pow10_u128(e: u32) -> (r: u128)
    requires
        e <= 38,
    ensures
        r == pow10(e as nat),
{
    proof {
        lemma_pow10_38_fits();
    }
    let mut acc: u128 = 1;
    let mut i: u32 = 0;
    while i < e
        invariant
            i <= e <= 38,
            acc == pow10(i as nat),
        decreases e - i,
    {
        proof {
            lemma_pow10_increases((i + 1) as nat, 38);
            lemma_pow10_38_fits();
        }
        acc = acc * 10;
        i = i + 1;
    }
    acc
}

/// Fixed-point scales for the different financial quantities.
#[derive(Debug, Clone, Copy, PartialEq, Eq, Structural)]
pub enum Scale {
    /// Price scale (typically 8 decimal places).
    Price(u32),
    /// Quantity scale (typically 8 decimal places).
    Quantity(u32),
    /// Percentage scale (typically 4 decimal places).
    Percentage(u32),
    /// Any other scale.
    Custom(u32),
}

impl Scale {
    /// The number of decimal places of this scale.
    pub open spec fn spec_value(self) -> u32 {
        match self {
            Scale::Price(s) => s,
            Scale::Quantity(s) => s,
            Scale::Percentage(s) => s,
            Scale::Custom(s) => s,
        }
    }

    /// Get the scale value.
    #[verifier::when_used_as_spec(spec_value)]
    pub fn value(self) -> (r: u32)
        ensures
            r == self.spec_value(),
    {
        match self {
            Scale::Price(s) => s,
            Scale::Quantity(s) => s,
            Scale::Percentage(s) => s,
            Scale::Custom(s) => s,
        }
    }

    /// Get the multiplier for this scale (`10^scale`).
    pub fn multiplier(self) -> (r: u128)
        requires
            self.spec_value() <= 38,
        ensures
            r == pow10(self.spec_value() as nat),
    {
        pow10_u128(self.value())
    }
}

/// A fixed-point value together with its number of decimal places.
#[derive(Debug, Clone, Copy, PartialEq, Eq, Structural)]
pub struct FinancialValue {
    /// The scaled integer value.
    pub value: u128,
    /// The number of decimal places.
    pub scale: u32,
}

impl FinancialValue {
    /// Create a new financial value.
    pub fn new(value: u128, scale: u32) -> (r: Self)
        ensures
            r == (FinancialValue { value, scale }),
    {
        FinancialValue { value, scale }
    }

    /// Create from a price at the default price scale of 8.
    pub fn from_price(value: u128) -> (r: Self)
        ensures
            r == (FinancialValue { value, scale: 8u32 }),
    {
        FinancialValue { value, scale: 8 }
    }

    /// Create from a quantity at the default quantity scale of 8.
    pub fn from_quantity(value: u128) -> (r: Self)
        ensures
            r == (FinancialValue { value, scale: 8u32 }),
    {
        FinancialValue { value, scale: 8 }
    }

    /// Get the multiplier for this value's scale.
    pub fn multiplier(&self) -> (r: u128)
        requires
            self.scale <= 38,
        ensures
            r == pow10(self.scale as nat),
    {
        pow10_u128(self.scale)
    }

    /// Convert to a different scale: scaling up multiplies (and can
    /// overflow), scaling down divides (dropping the lowest digits).
    pub fn to_scale(&self, new_scale: u32) -> (r: FinancialResult<Self>)
        requires
            self.scale <= new_scale + 38,
            new_scale <= self.scale + 38,
        ensures
            match r {
                Ok(v) => {
                    &&& v.scale == new_scale
                    &&& if new_scale >= self.scale {
                        v.value == self.value * pow10((new_scale - self.scale) as nat)
                    } else {
                        v.value == self.value / pow10((self.scale - new_scale) as nat) as u128
                    }
                },
                Err(e) => {
                    &&& e == FinancialError::Overflow
                    &&& new_scale > self.scale
                    &&& self.value * pow10((new_scale - self.scale) as nat) > u128::MAX
                },
            },
    {
        if new_scale == self.scale {
            proof {
                assert(pow10(0) == 1);
                assert(self.value * pow10(0) == self.value);
            }
            return Ok(*self);
        }

        if new_scale > self.scale {
            let multiplier = pow10_u128(new_scale - self.scale);
            match self.value.checked_mul(multiplier) {
                Some(v) => Ok(FinancialValue { value: v, scale: new_scale }),
                None => Err(FinancialError::Overflow),
            }
        } else {
            let divisor = pow10_u128(self.scale - new_scale);
            proof {
                lemma_pow10_positive((self.scale - new_scale) as nat);
            }
            Ok(FinancialValue { value: self.value / divisor, scale: new_scale })
        }
    }
}

} // verus!

