use orderbook::{precise_divide, safe_divide_with_default, FinancialError};

#[test]
fn test_precise_divide() {
    let result = precise_divide(100_000_000, 2_000_000, 8).unwrap();
    assert_eq!(result, 5_000_000_000); // 50.000000 with 8 decimal places

    // Division by zero
    assert!(precise_divide(100, 0, 8).is_err());
}

#[test]
fn test_safe_divide_with_default() {
    assert_eq!(safe_divide_with_default(100, 2, 0), 50);
    assert_eq!(safe_divide_with_default(100, 0, 999), 999); // Returns default
}

#[test]
fn test_precise_divide_error_kind() {
    assert_eq!(
        precise_divide(100, 0, 8),
        Err(FinancialError::DivisionByZero)
    );
}
