use orderbook::{
    add_amounts, calculate_abs, calculate_compound_change, calculate_mid_price,
    calculate_percentage_change, calculate_spread, divide_quantities, financial_round,
    from_basis_points, multiply_quantities, safe_add, safe_divide, safe_multiply, safe_subtract,
    to_basis_points,
};

#[test]
fn test_safe_arithmetic() {
    // Addition
    assert_eq!(safe_add(100, 50).unwrap(), 150);
    assert!(safe_add(u128::MAX, 1).is_err()); // Overflow

    // Subtraction
    assert_eq!(safe_subtract(100, 50).unwrap(), 50);
    assert!(safe_subtract(50, 100).is_err()); // Underflow

    // Multiplication
    assert_eq!(safe_multiply(100, 2).unwrap(), 200);
    assert!(safe_multiply(u128::MAX / 2 + 1, 2).is_err()); // Overflow

    // Division
    assert_eq!(safe_divide(100, 2).unwrap(), 50);
    assert!(safe_divide(100, 0).is_err()); // Division by zero
}

#[test]
fn test_financial_calculations() {
    // Mid price
    let bid = 100_000_000u128; // 100.00000000
    let ask = 101_000_000u128; // 101.00000000
    let mid = calculate_mid_price(bid, ask);
    assert_eq!(mid, 100_500_000u128); // 100.50000000

    // Spread
    assert_eq!(calculate_spread(ask, bid), 1_000_000u128); // 1.00000000

    // Quantity operations: plain checked multiply and truncating divide
    assert_eq!(
        multiply_quantities(10_000_000, 5_000_000).unwrap(),
        50_000_000_000_000
    );
    assert_eq!(divide_quantities(100_000_000, 4_000_000).unwrap(), 25);
}

#[test]
fn test_percentage_calculations() {
    let old_value = 100_000_000u128; // 100.00000000
    let new_value = 110_000_000u128; // 110.00000000

    // Percentage change: +10%, reported as (magnitude, decreased?)
    let change = calculate_percentage_change(old_value, new_value).unwrap();
    assert_eq!(change, (1000u128, false));

    // Compound change: +10%
    let compound = calculate_compound_change(old_value, new_value).unwrap();
    assert_eq!(compound, 1000u128);
}

#[test]
fn test_basis_points() {
    let decimal = 1_5000u128; // 1.5000
    let bps = to_basis_points(decimal);
    assert_eq!(bps, 150u128); // 150 basis points

    let back_to_decimal = from_basis_points(bps);
    assert_eq!(back_to_decimal, 15_000u128); // 150 * 100 = 15000
}

#[test]
fn test_financial_rounding() {
    let value = 123_4567_8901u128; // 123.45678901

    // Round to 2 decimal places
    let rounded = financial_round(value, 8, 2);
    assert_eq!(rounded, 123_4600_0000u128); // 123.46

    // Round to 4 decimal places
    let rounded4 = financial_round(value, 8, 4);
    assert_eq!(rounded4, 123_4568_0000u128); // 123.4568
}

#[test]
fn arithmetic_test_edge_cases() {
    // Zero operations
    assert_eq!(safe_add(0, 0).unwrap(), 0);
    assert_eq!(calculate_mid_price(0, 0), 0);
    assert_eq!(calculate_spread(0, 0), 0);

    // Maximum values
    assert_eq!(calculate_abs(u128::MAX), u128::MAX);

    // Division edge cases
    assert!(safe_divide(100, 0).is_err());
    assert_eq!(safe_divide(0, 100).unwrap(), 0);
}

#[test]
fn test_add_amounts_matches_safe_add() {
    assert_eq!(add_amounts(100_500_000, 50_250_000, 8).unwrap(), 150_750_000);
}

#[test]
fn test_percentage_change_sign_and_errors() {
    // Decreases carry the out-of-band sign flag
    let change = calculate_percentage_change(110_000_000, 100_000_000).unwrap();
    assert_eq!(change, (909, true)); // 10_000_000 * 10000 / 110_000_000

    // Division by zero
    assert_eq!(
        calculate_percentage_change(0, 1),
        Err(orderbook::FinancialError::DivisionByZero)
    );

    // Overflow of the scaled difference
    assert_eq!(
        calculate_percentage_change(1, u128::MAX),
        Err(orderbook::FinancialError::Overflow)
    );
}

#[test]
fn test_financial_rounding_half_to_even() {
    // Midpoint rounds toward the even quotient
    assert_eq!(financial_round(2_500, 3, 0), 2_000); // 2.5 -> 2
    assert_eq!(financial_round(3_500, 3, 0), 4_000); // 3.5 -> 4
    // Target at or above the current scale is the identity
    assert_eq!(financial_round(1234, 4, 6), 1234);
}
