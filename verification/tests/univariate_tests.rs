use statistical::{average_deviation, mode, StatsError};

#[test]
fn test_mode() {
    let vec: Vec<i64> = vec![2, 4, 3, 5, 4, 6, 1, 1, 6, 4, 0, 0];
    assert_eq!(mode(&vec), Some(4));
    let vec: Vec<i64> = vec![1];
    assert_eq!(mode(&vec), Some(1));
    let vec: Vec<i64> = vec![2, 4, 3, 5, 4, 6, 1, 1, 6, 4, 0, 0];
    assert_eq!(mode(&vec), Some(4));
    let vec: Vec<i64> = vec![1, 1, 1, 4];
    let tail: Vec<i64> = vec[3..].to_vec();
    assert_eq!(mode(&tail), Some(4));
}

#[test]
fn test_mode_of_colors() {
    // colors as small codes: blue, green, yellow
    let blue: i64 = 0;
    let green: i64 = 1;
    let yellow: i64 = 2;
    let vec: Vec<i64> = vec![blue, green, yellow, green];
    assert_eq!(mode(&vec), Some(green));
}

#[test]
fn test_mode_count_is_maximal() {
    let vec: Vec<i64> = vec![2, 4, 3, 5, 4, 6, 1, 1, 6, 4, 0, 0];
    let m = mode(&vec).unwrap();
    let count = vec.iter().filter(|&&x| x == m).count();
    assert_eq!(count, 3);
    for &y in &vec {
        assert!(vec.iter().filter(|&&x| x == y).count() <= count);
    }
}

#[test]
fn test_mode_empty() {
    let vec: Vec<i64> = vec![];
    assert_eq!(mode(&vec), None);
}

#[test]
fn test_mode_tie_has_maximal_count() {
    // two values share the highest count; whichever comes back must be one
    // of them
    let vec: Vec<i64> = vec![5, 5, 9, 9, 1];
    let m = mode(&vec).unwrap();
    assert!(m == 5 || m == 9);
}

#[test]
fn test_average_deviation() {
    let vec: Vec<i64> = vec![2, 4, 6];
    assert_eq!(average_deviation(&vec, None), Ok(1));
    assert_eq!(average_deviation(&vec, Some(2)), Ok(2));
}

#[test]
fn test_average_deviation_empty() {
    let empty: Vec<i64> = vec![];
    assert_eq!(
        average_deviation(&empty, None),
        Err(StatsError::TooFewSamples)
    );
    assert_eq!(
        average_deviation(&empty, Some(3)),
        Err(StatsError::TooFewSamples)
    );
}
