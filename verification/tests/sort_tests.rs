use statistical::quicksort;

#[test]
fn test_qsort_empty() {
    let mut vec: Vec<i64> = vec![];
    quicksort(&mut vec);
    assert_eq!(vec, vec![]);
}

#[test]
fn test_qsort_small() {
    let len = 10;
    let mut vec = Vec::with_capacity(len);
    for _ in 0..len {
        vec.push(rand::random::<i64>());
    }
    quicksort(&mut vec);
    for i in 0..(len - 1) {
        assert!(vec[i] < vec[i + 1], "sorted vectors must be monotonically increasing");
    }
}

#[test]
fn test_qsort_large() {
    let len = 1_000_000;
    let mut vec = Vec::with_capacity(len);
    for _ in 0..len {
        vec.push(rand::random::<i64>());
    }
    quicksort(&mut vec);
    for i in 0..(len - 1) {
        assert!(vec[i] < vec[i + 1], "sorted vectors must be monotonically increasing");
    }
}

#[test]
fn test_qsort_sorted() {
    let len = 1_000;
    let mut vec: Vec<i64> = Vec::with_capacity(len);
    for n in 0..len {
        vec.push(n as i64);
    }
    quicksort(&mut vec);
    for i in 0..(len - 1) {
        assert!(vec[i] < vec[i + 1], "sorted vectors must be monotonically increasing");
    }
}

#[test]
fn test_qsort_reverse_sorted() {
    let len = 1_000;
    let mut vec: Vec<i64> = Vec::with_capacity(len);
    for n in 0..len {
        vec.push((len - n) as i64);
    }
    quicksort(&mut vec);
    for i in 0..(len - 1) {
        assert!(vec[i] < vec[i + 1], "sorted vectors must be monotonically increasing");
    }
}

#[test]
fn test_qsort_duplicates() {
    let mut vec: Vec<i64> = vec![5, 1, 4, 1, 5, 9, 2, 6, 5, 3, 5];
    quicksort(&mut vec);
    assert_eq!(vec, vec![1, 1, 2, 3, 4, 5, 5, 5, 5, 6, 9]);
}

#[test]
fn test_qsort_idempotent() {
    let mut vec: Vec<i64> = vec![3, -7, 3, 0, 12, -7, 5];
    quicksort(&mut vec);
    let once = vec.clone();
    quicksort(&mut vec);
    assert_eq!(vec, once);
}

#[test]
fn test_qsort_negative_values() {
    let mut vec: Vec<i64> = vec![0, -1, i64::MIN, i64::MAX, 17];
    quicksort(&mut vec);
    assert_eq!(vec, vec![i64::MIN, -1, 0, 17, i64::MAX]);
}
