use sort_stats::sort::vec_sort;
use sort_stats::stats::{compute_statistics, frequency_table, median, mode, Mode, StatsError};

#[test]
fn median_of_seven_sorted_values() {
    let v = vec![19, 19, 32, 37, 38, 50, 102];
    assert_eq!(median(&v), Some(37));
}

#[test]
fn mode_of_seven_values() {
    let v = vec![19, 19, 32, 37, 38, 50, 102];
    assert_eq!(mode(&v), Ok(Mode { value: 19, count: 2 }));
}

#[test]
fn mode_of_unsorted_values() {
    let v = vec![50, 38, 32, 37, 19, 19, 102];
    assert_eq!(mode(&v), Ok(Mode { value: 19, count: 2 }));
}

#[test]
fn empty_boundary() {
    let v: Vec<i32> = vec![];
    assert_eq!(mode(&v), Err(StatsError::EmptyInput));
    assert_eq!(median(&v), None);
}

#[test]
fn single_element_boundary() {
    let v = vec![5];
    assert_eq!(median(&v), Some(5));
    assert_eq!(mode(&v), Ok(Mode { value: 5, count: 1 }));
}

#[test]
fn even_length_has_no_median() {
    let mut v = vec![4, 2, 7, 1];
    vec_sort(&mut v);
    assert_eq!(median(&v), None);
}

#[test]
fn mode_with_tie_is_one_of_the_most_frequent() {
    let v = vec![1, 2, 2, 1, 3];
    let m = mode(&v).unwrap();
    assert_eq!(m.count, 2);
    assert!(m.value == 1 || m.value == 2);
}

#[test]
fn mode_of_all_equal() {
    let v = vec![-4, -4, -4];
    assert_eq!(mode(&v), Ok(Mode { value: -4, count: 3 }));
}

#[test]
fn frequency_table_counts_each_value_once() {
    let v = vec![3, 1, 3, 2, 3, 1];
    let t = frequency_table(&v);
    let mut e = t.entries().clone();
    e.sort();
    assert_eq!(e, vec![(1, 2), (2, 1), (3, 3)]);
}

#[test]
fn frequency_table_of_empty_is_empty() {
    let v: Vec<i32> = vec![];
    let t = frequency_table(&v);
    assert!(t.entries().is_empty());
    assert_eq!(t.most_frequent(), None);
}

#[test]
fn most_frequent_keeps_first_of_equal_counts() {
    let v = vec![7, 8, 8, 7];
    let t = frequency_table(&v);
    let first = t.entries()[0];
    assert_eq!(t.most_frequent(), Some(Mode { value: first.0, count: 2 }));
}

#[test]
fn statistics_of_seven_values() {
    let mut v = vec![50, 38, 32, 37, 19, 19, 102];
    let st = compute_statistics(&mut v).unwrap();
    assert_eq!(v, vec![19, 19, 32, 37, 38, 50, 102]);
    assert_eq!(st.median, Some(37));
    assert_eq!(st.mode, Mode { value: 19, count: 2 });
}

#[test]
fn statistics_of_even_length() {
    let mut v = vec![4, 2, 7, 1];
    let st = compute_statistics(&mut v).unwrap();
    assert_eq!(v, vec![1, 2, 4, 7]);
    assert_eq!(st.median, None);
    assert_eq!(st.mode.count, 1);
}

#[test]
fn statistics_of_empty() {
    let mut v: Vec<i32> = vec![];
    assert_eq!(compute_statistics(&mut v), Err(StatsError::EmptyInput));
    assert!(v.is_empty());
}
