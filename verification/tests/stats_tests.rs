use statistical::{
    mean, median, population_variance, sum_square_deviations, variance, Degree, StatsError,
};

#[test]
fn test_median() {
    let vec: Vec<i64> = vec![1, 3];
    assert_eq!(median(&vec), Ok(2));
    let vec: Vec<i64> = vec![1, 3, 5];
    assert_eq!(median(&vec), Ok(3));
    let vec: Vec<i64> = vec![1, 3, 5, 7];
    assert_eq!(median(&vec), Ok(4));
}

#[test]
fn test_median_unordered() {
    let vec: Vec<i64> = vec![7, 1, 5, 3];
    assert_eq!(median(&vec), Ok(4));
    let original = vec.clone();
    let _ = median(&vec);
    assert_eq!(vec, original);
}

#[test]
fn test_median_empty() {
    let vec: Vec<i64> = vec![];
    assert_eq!(median(&vec), Err(StatsError::TooFewSamples));
}

#[test]
fn test_median_negative_truncates_toward_zero() {
    let vec: Vec<i64> = vec![-2, -3];
    assert_eq!(median(&vec), Ok(-2));
}

#[test]
fn test_mean_basic() {
    let vec: Vec<i64> = vec![2, 4];
    assert_eq!(mean(&vec), Ok(3));
    let vec: Vec<i64> = vec![1, 2, 3, 4, 5];
    assert_eq!(mean(&vec), Ok(3));
}

#[test]
fn test_mean_empty() {
    let vec: Vec<i64> = vec![];
    assert_eq!(mean(&vec), Err(StatsError::TooFewSamples));
}

#[test]
fn test_mean_truncates_toward_zero() {
    let vec: Vec<i64> = vec![-3, -2];
    assert_eq!(mean(&vec), Ok(-2));
    let vec: Vec<i64> = vec![3, 2];
    assert_eq!(mean(&vec), Ok(2));
}

#[test]
fn test_mean_within_extremes() {
    let vec: Vec<i64> = vec![i64::MAX, i64::MAX, i64::MAX];
    assert_eq!(mean(&vec), Ok(i64::MAX));
    let vec: Vec<i64> = vec![i64::MIN, i64::MIN];
    assert_eq!(mean(&vec), Ok(i64::MIN));
}

#[test]
fn test_sum_square_deviations() {
    let vec: Vec<i64> = vec![1, 3];
    assert_eq!(sum_square_deviations(&vec, None), Ok(2));
    assert_eq!(sum_square_deviations(&vec, Some(0)), Ok(10));
    let empty: Vec<i64> = vec![];
    assert_eq!(sum_square_deviations(&empty, Some(5)), Ok(0));
    assert_eq!(
        sum_square_deviations(&empty, None),
        Err(StatsError::TooFewSamples)
    );
}

#[test]
fn test_variance() {
    let vec: Vec<i64> = vec![0, 2, 4, 6];
    assert_eq!(variance(&vec, None), Ok(6));
    assert_eq!(population_variance(&vec, None), Ok(5));
}

#[test]
fn test_variance_supplied_center() {
    let vec: Vec<i64> = vec![0, 2, 4, 6];
    assert_eq!(variance(&vec, Some(0)), Ok(18));
    assert_eq!(population_variance(&vec, Some(0)), Ok(14));
}

#[test]
fn test_variance_too_small() {
    let empty: Vec<i64> = vec![];
    assert_eq!(variance(&empty, None), Err(StatsError::TooFewSamples));
    let one: Vec<i64> = vec![7];
    assert_eq!(variance(&one, None), Err(StatsError::TooFewSamples));
}

#[test]
fn test_population_variance_too_small() {
    let empty: Vec<i64> = vec![];
    assert_eq!(
        population_variance(&empty, None),
        Err(StatsError::TooFewSamples)
    );
    let one: Vec<i64> = vec![7];
    assert_eq!(population_variance(&one, None), Ok(0));
}

#[test]
fn test_degree_exponent() {
    assert_eq!(Degree::One.exponent(), 1);
    assert_eq!(Degree::Two.exponent(), 2);
    assert_eq!(Degree::Three.exponent(), 3);
    assert_eq!(Degree::Four.exponent(), 4);
}
