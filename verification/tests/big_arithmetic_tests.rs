use orderbook::{
    big_absolute_difference, big_compare, big_is_zero, big_safe_add, big_safe_divide,
    big_safe_multiply, big_safe_subtract, safe_convert_to_big, string_to_u128, u128_to_string,
    FinancialError,
};

#[test]
fn test_big_safe_add() {
    // Small numbers
    assert_eq!(big_safe_add("100", "50").unwrap(), "150");

    // Large numbers
    let a = "1000000000000000000000000000000";
    let b = "500000000000000000000000000000";
    let expected = "1500000000000000000000000000000";
    assert_eq!(big_safe_add(a, b).unwrap(), expected);
}

#[test]
fn test_big_safe_subtract() {
    // Normal subtraction
    assert_eq!(big_safe_subtract("100", "50").unwrap(), "50");

    // Large numbers
    let a = "1000000000000000000000000000000";
    let b = "500000000000000000000000000000";
    let expected = "500000000000000000000000000000";
    assert_eq!(big_safe_subtract(a, b).unwrap(), expected);

    // Underflow protection
    assert!(big_safe_subtract("50", "100").is_err());
}

#[test]
fn test_big_safe_multiply() {
    // Small numbers
    assert_eq!(big_safe_multiply("100", "50").unwrap(), "5000");

    // Large numbers
    let a = "1000000000000000000";
    let b = "2000000000000000000";
    let expected = "2000000000000000000000000000000000000";
    assert_eq!(big_safe_multiply(a, b).unwrap(), expected);
}

#[test]
fn test_big_absolute_difference() {
    assert_eq!(big_absolute_difference("100", "50").unwrap(), "50");
    assert_eq!(big_absolute_difference("50", "100").unwrap(), "50");
    assert_eq!(big_absolute_difference("100", "100").unwrap(), "0");
}

#[test]
fn test_big_compare() {
    assert_eq!(big_compare("100", "50").unwrap(), 1);
    assert_eq!(big_compare("50", "100").unwrap(), -1);
    assert_eq!(big_compare("100", "100").unwrap(), 0);
}

#[test]
fn test_conversion_functions() {
    let value = 12345678901234567890u128;
    let string_val = u128_to_string(value);
    assert_eq!(string_val, "12345678901234567890");

    let back_to_u128 = string_to_u128(&string_val).unwrap();
    assert_eq!(back_to_u128, value);

    // Test overflow detection
    let big_value = "1000000000000000000000000000000000000000";
    assert!(string_to_u128(big_value).is_err());
}

#[test]
fn test_safe_convert_to_big() {
    // Small number that fits in u128
    let (is_u128, value) = safe_convert_to_big("12345678901234567890");
    assert_eq!(is_u128, true);
    assert_eq!(value, "12345678901234567890");

    // Large number that doesn't fit in u128
    let big_num = "1000000000000000000000000000000000000000";
    let (is_u128, value) = safe_convert_to_big(big_num);
    assert_eq!(is_u128, false);
    assert_eq!(value, big_num);
}

#[test]
fn test_big_division_and_zero() {
    assert_eq!(big_safe_divide("100", "7").unwrap(), "14");
    assert_eq!(
        big_safe_divide("100", "0"),
        Err(FinancialError::DivisionByZero)
    );
    assert!(big_is_zero("0"));
    assert!(big_is_zero(""));
    assert!(!big_is_zero("00"));
    assert!(!big_is_zero("10"));
}

#[test]
fn test_big_invalid_inputs() {
    assert_eq!(big_safe_add("12a", "1"), Err(FinancialError::InvalidValue));
    assert_eq!(big_safe_multiply("", "1"), Err(FinancialError::InvalidValue));
    assert_eq!(big_compare("-1", "1"), Err(FinancialError::InvalidValue));
    assert_eq!(string_to_u128("12a"), Err(FinancialError::Overflow));
    assert_eq!(
        big_safe_subtract("50", "100"),
        Err(FinancialError::NegativeValue)
    );
}
