use orderbook::{FinancialValue, Scale};

#[test]
fn test_financial_value_creation() {
    let price = FinancialValue::from_price(123_4567_8900); // 123.45678900
    assert_eq!(price.value, 123_4567_8900u128);
    assert_eq!(price.scale, 8);
    assert_eq!(price.multiplier(), 100_000_000u128);
}

#[test]
fn test_scale_conversion() {
    let value = FinancialValue::new(123_4567_8900, 8); // 123.45678900

    // Scale up to 10 decimal places
    let scaled_up = value.to_scale(10).unwrap();
    assert_eq!(scaled_up.value, 123_4567_8900_00u128);
    assert_eq!(scaled_up.scale, 10);

    // Scale down to 6 decimal places
    let scaled_down = value.to_scale(6).unwrap();
    assert_eq!(scaled_down.value, 123_4567_89u128);
    assert_eq!(scaled_down.scale, 6);
}

#[test]
fn test_scale_enum() {
    assert_eq!(Scale::Price(8).value(), 8);
    assert_eq!(Scale::Quantity(8).multiplier(), 100_000_000u128);
    assert_eq!(Scale::Percentage(4).multiplier(), 10_000u128);
    assert_eq!(Scale::Custom(0).multiplier(), 1u128);
}

#[test]
fn test_scale_conversion_overflow() {
    let value = FinancialValue::new(u128::MAX, 0);
    assert!(value.to_scale(2).is_err());
}
