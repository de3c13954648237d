use orderbook::{
    calculate_mid_price, calculate_spread, normalize_price_to_tick, safe_divide_with_default,
};

#[test]
fn financial_math_test_normalize_price_to_tick() {
    let price = 500_0012_3000u128; // 500.00123
    let tick_size = 10_0000u128; // 0.001
    let normalized = normalize_price_to_tick(price, tick_size).unwrap();
    assert_eq!(normalized, 500_0010_0000u128); // 500.001
}

#[test]
fn test_calculate_spread() {
    let ask = 500_0100_0000u128; // 500.01
    let bid = 500_0000_0000u128; // 500.00
    let spread = calculate_spread(ask, bid);
    assert_eq!(spread, 100_0000u128); // 0.01
}

#[test]
fn test_calculate_mid_price() {
    let bid = 500_0000_0000u128; // 500.00
    let ask = 500_0200_0000u128; // 500.02
    let mid = calculate_mid_price(bid, ask);
    assert_eq!(mid, 500_0100_0000u128); // 500.01
}

#[test]
fn test_safe_divide() {
    let result = safe_divide_with_default(10, 2, 0);
    assert_eq!(result, 5);

    let zero_result = safe_divide_with_default(10, 0, 42);
    assert_eq!(zero_result, 42);
}
