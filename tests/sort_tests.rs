use sort_stats::sort::vec_sort;

fn is_ascending(v: &[i32]) -> bool {
    v.windows(2).all(|w| w[0] <= w[1])
}

fn sorted_copy(v: &[i32]) -> Vec<i32> {
    let mut c = v.to_vec();
    c.sort();
    c
}

#[test]
fn sort_puts_adjacent_pairs_in_order() {
    let mut v = vec![50, 38, 32, 37, 19, 19, 102];
    vec_sort(&mut v);
    assert!(is_ascending(&v));
    assert_eq!(v, vec![19, 19, 32, 37, 38, 50, 102]);
}

#[test]
fn sort_keeps_the_same_elements() {
    let original = vec![3, -1, 3, 0, -7, 12, 3, 0];
    let mut v = original.clone();
    vec_sort(&mut v);
    assert_eq!(v, sorted_copy(&original));
}

#[test]
fn sort_twice_equals_sort_once() {
    let mut v = vec![9, 8, 7, 6, 5, 4, 3, 2, 1, 0];
    vec_sort(&mut v);
    let once = v.clone();
    vec_sort(&mut v);
    assert_eq!(v, once);
}

#[test]
fn sort_empty() {
    let mut v: Vec<i32> = vec![];
    vec_sort(&mut v);
    assert_eq!(v, Vec::<i32>::new());
}

#[test]
fn sort_single() {
    let mut v = vec![5];
    vec_sort(&mut v);
    assert_eq!(v, vec![5]);
}

#[test]
fn sort_even_length() {
    let mut v = vec![4, 2, 7, 1];
    vec_sort(&mut v);
    assert_eq!(v, vec![1, 2, 4, 7]);
}

#[test]
fn sort_reverse_sorted() {
    let mut v = vec![6, 5, 4, 3, 2, 1];
    vec_sort(&mut v);
    assert_eq!(v, vec![1, 2, 3, 4, 5, 6]);
}

#[test]
fn sort_extreme_values() {
    let mut v = vec![i32::MAX, 0, i32::MIN, -1, i32::MAX, i32::MIN];
    vec_sort(&mut v);
    assert_eq!(v, vec![i32::MIN, i32::MIN, -1, 0, i32::MAX, i32::MAX]);
}

#[test]
fn sort_all_equal() {
    let mut v = vec![2, 2, 2, 2];
    vec_sort(&mut v);
    assert_eq!(v, vec![2, 2, 2, 2]);
}
