use orderbook::{
    calculate_support_resistance, calculate_zone, calculate_zone_boundaries, is_price_in_zone,
    normalize_price_to_tick, price_to_zone, validate_fixed_point_bounds, validate_scale,
    FinancialError,
};

#[test]
fn zones_test_normalize_price_to_tick() {
    // Basic rounding
    let price = 123_4567_8901u128; // 123.45678901
    let tick_size = 1_0000u128; // 0.010000
    let normalized = normalize_price_to_tick(price, tick_size).unwrap();
    assert_eq!(normalized, 123_4568_0000u128); // 123.45680000

    // Round up case
    let price2 = 123_4567_8906u128; // 123.45678906
    let normalized2 = normalize_price_to_tick(price2, tick_size).unwrap();
    assert_eq!(normalized2, 123_4568_0000u128); // 123.45680000

    // Zero tick size should fail
    assert!(normalize_price_to_tick(price, 0).is_err());
}

#[test]
fn test_calculate_zone() {
    let price = 123_4567_8900u128; // 123.45678900
    let zone_ticks = 10_0000u128; // 10.0000 tick zone
    let zone = calculate_zone(price, zone_ticks, 8).unwrap();
    // Zone should be multiple of zone_ticks from origin
    assert_eq!(zone % (zone_ticks * 10u128.pow(8)), 0);
}

#[test]
fn test_price_in_zone() {
    let price = 100_5000_0000u128; // 100.50000000
    let zone_min = 100_0000_0000u128; // 100.00000000
    let zone_max = 101_0000_0000u128; // 101.00000000

    assert!(is_price_in_zone(price, zone_min, zone_max));
    assert!(!is_price_in_zone(99_0000_0000, zone_min, zone_max));
    assert!(!is_price_in_zone(102_0000_0000, zone_min, zone_max));
}

#[test]
fn test_zone_boundaries() {
    let price = 100_5000_0000u128; // 100.50000000
    let zone_size = 1_0000_0000u128; // 1.00000000

    let (min, max) = calculate_zone_boundaries(price, zone_size).unwrap();
    assert_eq!(min, 100_0000_0000u128); // 100.00000000
    assert_eq!(max, 101_0000_0000u128); // 101.00000000

    assert!(is_price_in_zone(price, min, max));

    // Zero zone size should fail
    assert!(calculate_zone_boundaries(price, 0).is_err());
}

#[test]
fn test_support_resistance() {
    let prices = vec![
        100_0000_0000, // 100.00
        101_0000_0000, // 101.00 (local max)
        99_0000_0000,  // 99.00 (local min)
        102_0000_0000, // 102.00 (local max)
        98_0000_0000,  // 98.00 (local min)
    ];

    let levels = calculate_support_resistance(&prices, 2).unwrap();
    assert!(!levels.is_empty());
    assert!(levels.len() <= 2);

    // Empty prices should fail
    assert!(calculate_support_resistance(&Vec::new(), 1).is_err());
}

#[test]
fn test_normalize_bankers_ties() {
    // A tie at the midpoint rounds to the even tick multiple
    assert_eq!(
        normalize_price_to_tick(100_0050_0000, 1_000_000).unwrap(),
        100_0000_0000
    ); // 100.005 at tick 0.01 -> 100.00 (quotient 10000, even)
    assert_eq!(
        normalize_price_to_tick(100_0150_0000, 1_000_000).unwrap(),
        100_0200_0000
    ); // 100.015 at tick 0.01 -> 100.02 (quotient 10002, even)
}

#[test]
fn test_normalize_idempotent_example() {
    let tick = 1_0000u128;
    let once = normalize_price_to_tick(123_4567_8901, tick).unwrap();
    let twice = normalize_price_to_tick(once, tick).unwrap();
    assert_eq!(once, twice);
}

#[test]
fn test_price_to_zone_alias() {
    assert_eq!(
        price_to_zone(123_4567_8901, 1_0000).unwrap(),
        normalize_price_to_tick(123_4567_8901, 1_0000).unwrap()
    );
}

#[test]
fn test_scale_validation() {
    assert!(validate_scale(1).is_ok());
    assert!(validate_scale(8).is_ok());
    assert!(validate_scale(18).is_ok());
    assert!(validate_scale(0).is_err());
}

#[test]
fn test_fixed_point_bounds_and_scale_error() {
    assert_eq!(validate_fixed_point_bounds(100_000_000, 8).unwrap(), 100_000_000);
    assert_eq!(validate_fixed_point_bounds(u128::MAX, 8).unwrap(), u128::MAX);
    assert_eq!(validate_scale(0), Err(FinancialError::InvalidScale));
}

#[test]
fn test_support_resistance_smallest_distinct() {
    // Extrema are 101 (max), 99 (min), 102 (max); the two smallest
    // distinct extrema come back in ascending order.
    let prices = vec![
        100_0000_0000u128,
        101_0000_0000,
        99_0000_0000,
        102_0000_0000,
        98_0000_0000,
    ];
    let levels = calculate_support_resistance(&prices, 2).unwrap();
    assert_eq!(levels, vec![99_0000_0000u128, 101_0000_0000]);
}

#[test]
fn test_calculate_zone_exact() {
    // One whole tick at 8 decimals is 10^8 scaled units, so 123.456789
    // floors to the zone starting at 123.0.
    let zone = calculate_zone(123_4567_8900, 1, 8).unwrap();
    assert_eq!(zone, 123_0000_0000);
    let zone2 = calculate_zone(123_4567_8900, 0, 8);
    assert_eq!(zone2, Err(FinancialError::InvalidValue));
}
