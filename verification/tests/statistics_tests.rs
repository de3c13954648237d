use orderbook::{
    calculate_max, calculate_mean, calculate_median, calculate_min, calculate_percentile,
    calculate_std_dev, calculate_variance, integer_sqrt, FinancialError,
};

#[test]
fn test_calculate_mean() {
    let values = vec![100_000_000, 110_000_000, 90_000_000];
    let mean = calculate_mean(&values).unwrap();
    assert_eq!(mean, 100_000_000); // (100 + 110 + 90) / 3 = 100

    // Empty array should fail
    assert!(calculate_mean(&Vec::new()).is_err());
}

#[test]
fn test_calculate_median() {
    let values = vec![90_000_000, 100_000_000, 110_000_000];
    let median = calculate_median(&values).unwrap();
    assert_eq!(median, 100_000_000); // Middle value for odd count

    let values2 = vec![90_000_000, 100_000_000, 110_000_000, 120_000_000];
    let median2 = calculate_median(&values2).unwrap();
    assert_eq!(median2, 105_000_000); // (100 + 110) / 2 = 105
}

#[test]
fn test_calculate_percentile() {
    let values = vec![90_000_000, 100_000_000, 110_000_000, 120_000_000];

    let p25 = calculate_percentile(&values, 25).unwrap();
    assert_eq!(p25, 97_500_000); // 25th percentile with interpolation

    let p75 = calculate_percentile(&values, 75).unwrap();
    assert_eq!(p75, 112_500_000); // 75th percentile with interpolation

    let p100 = calculate_percentile(&values, 100).unwrap();
    assert_eq!(p100, 120_000_000); // Maximum value
}

#[test]
fn test_min_max() {
    let values = vec![110_000_000, 90_000_000, 100_000_000];

    let min = calculate_min(&values).unwrap();
    assert_eq!(min, 90_000_000);

    let max = calculate_max(&values).unwrap();
    assert_eq!(max, 110_000_000);

    // Empty array should fail
    assert!(calculate_min(&Vec::new()).is_err());
    assert!(calculate_max(&Vec::new()).is_err());
}

#[test]
fn test_integer_sqrt() {
    // Test perfect squares
    assert_eq!(integer_sqrt(0).unwrap(), 0);
    assert_eq!(integer_sqrt(1).unwrap(), 1);
    assert_eq!(integer_sqrt(4).unwrap(), 2);
    assert_eq!(integer_sqrt(9).unwrap(), 3);
    assert_eq!(integer_sqrt(16).unwrap(), 4);

    // Test non-perfect squares (should round down)
    assert_eq!(integer_sqrt(2).unwrap(), 1);
    assert_eq!(integer_sqrt(10).unwrap(), 3);
    assert_eq!(integer_sqrt(15).unwrap(), 3);
}

#[test]
fn test_variance_and_std_dev() {
    let values = vec![100_000_000u128, 110_000_000, 90_000_000];
    let mean = calculate_mean(&values).unwrap();
    // Squared deviations: 0, 1e14, 1e14; sample variance = 2e14 / 2
    let variance = calculate_variance(&values, mean).unwrap();
    assert_eq!(variance, 100_000_000_000_000);
    // Standard deviation: floor(sqrt(1e14)) = 1e7
    let std_dev = calculate_std_dev(&values).unwrap();
    assert_eq!(std_dev, 10_000_000);

    // Fewer than two values fail
    assert_eq!(
        calculate_variance(&vec![1], 1),
        Err(FinancialError::InvalidValue)
    );
    assert_eq!(
        calculate_std_dev(&vec![1]),
        Err(FinancialError::InvalidValue)
    );
}

#[test]
fn test_percentile_bounds() {
    let values = vec![5u128, 1, 3];
    assert_eq!(calculate_percentile(&values, 0).unwrap(), 1);
    assert_eq!(calculate_percentile(&values, 100).unwrap(), 5);
    assert_eq!(
        calculate_percentile(&values, 101),
        Err(FinancialError::InvalidValue)
    );
    assert_eq!(
        calculate_percentile(&Vec::new(), 50),
        Err(FinancialError::InvalidValue)
    );
    // A single value is its own percentile
    assert_eq!(calculate_percentile(&vec![42], 73).unwrap(), 42);
}
