use algo_lib::binary_search::{BinarySearch, BinarySearchExt};

#[test]
fn test_binary_search() {
    let xs = vec![1, 2, 2, 2, 2, 2, 3, 4, 5];
    assert_eq!(xs.lower_bound(&2), 1);
    assert_eq!(xs.upper_bound(&2), 6);
    assert_eq!(xs.lower_bound(&8), xs.len());
    let mut bs = BinarySearch {
        f: |i: i64| xs[i as usize] >= 2,
        ok: xs.len() as i64,
        ng: -1,
    };
    assert_eq!(bs.search(), 1);
    let mut bs = BinarySearch {
        f: |i: i64| xs[i as usize] > 2,
        ok: xs.len() as i64,
        ng: -1,
    };
    assert_eq!(bs.search(), 6);
}

#[test]
fn binary_search_empty_slice() {
    let xs: Vec<i64> = vec![];
    assert_eq!(xs.lower_bound(&3), 0);
    assert_eq!(xs.upper_bound(&3), 0);
}

#[test]
fn binary_search_ends() {
    let xs: Vec<i64> = vec![1, 3, 5];
    assert_eq!(xs.lower_bound(&0), 0);
    assert_eq!(xs.upper_bound(&5), 3);
    assert_eq!(xs.lower_bound(&4), 2);
    assert_eq!(xs.upper_bound(&3), 2);
}

#[test]
fn binary_search_descending_direction() {
    let mut bs = BinarySearch { f: |i: i64| i * i <= 50, ok: 0, ng: 100 };
    assert_eq!(bs.search(), 7);
}
