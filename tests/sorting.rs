use mergesort::{merge, merge_sort};

fn counts(v: &[i32]) -> std::collections::BTreeMap<i32, usize> {
    let mut m = std::collections::BTreeMap::new();
    for x in v {
        *m.entry(*x).or_insert(0) += 1;
    }
    m
}

#[test]
fn sorts_the_program_input() {
    assert_eq!(
        merge_sort(vec![38, 27, 43, 3, 9, 82, 10]),
        vec![3, 9, 10, 27, 38, 43, 82]
    );
}

#[test]
fn empty_input_stays_empty() {
    assert_eq!(merge_sort(vec![]), Vec::<i32>::new());
}

#[test]
fn single_element_is_unchanged() {
    assert_eq!(merge_sort(vec![7]), vec![7]);
    assert_eq!(merge_sort(vec![-3]), vec![-3]);
    assert_eq!(merge_sort(vec![i32::MIN]), vec![i32::MIN]);
}

#[test]
fn merges_interleaved_sorted_halves() {
    assert_eq!(merge(vec![1, 3, 5], vec![2, 4, 6]), vec![1, 2, 3, 4, 5, 6]);
}

#[test]
fn merge_with_an_empty_side() {
    assert_eq!(merge(vec![], vec![2, 4]), vec![2, 4]);
    assert_eq!(merge(vec![1, 3], vec![]), vec![1, 3]);
    assert_eq!(merge(vec![], vec![]), Vec::<i32>::new());
}

#[test]
fn merge_with_equal_elements() {
    assert_eq!(merge(vec![1, 2, 2], vec![2, 3]), vec![1, 2, 2, 2, 3]);
}

#[test]
fn merge_of_unsorted_inputs_keeps_every_element() {
    let l = vec![5, 1, 4];
    let r = vec![3, 9, 0];
    let out = merge(l.clone(), r.clone());
    assert_eq!(out.len(), 6);
    let mut both = l;
    both.extend(r);
    assert_eq!(counts(&out), counts(&both));
}

#[test]
fn sorts_with_duplicates() {
    assert_eq!(merge_sort(vec![5, 3, 5, 1, 3]), vec![1, 3, 3, 5, 5]);
}

#[test]
fn already_sorted_input() {
    assert_eq!(merge_sort(vec![1, 2, 3, 4]), vec![1, 2, 3, 4]);
}

#[test]
fn reverse_sorted_input() {
    assert_eq!(merge_sort(vec![4, 3, 2, 1]), vec![1, 2, 3, 4]);
}

#[test]
fn sorts_negative_numbers() {
    assert_eq!(merge_sort(vec![-5, 3, -1, 0]), vec![-5, -1, 0, 3]);
}

#[test]
fn sorts_extreme_values() {
    assert_eq!(
        merge_sort(vec![i32::MAX, 0, i32::MIN, -1, i32::MAX]),
        vec![i32::MIN, -1, 0, i32::MAX, i32::MAX]
    );
}

#[test]
fn all_equal_elements() {
    assert_eq!(merge_sort(vec![2, 2, 2, 2, 2]), vec![2, 2, 2, 2, 2]);
}

#[test]
fn adjacent_pairs_are_ordered() {
    let out = merge_sort(vec![9, -2, 7, 7, 0, 13, -8, 4, 1]);
    for w in out.windows(2) {
        assert!(w[0] <= w[1]);
    }
}

#[test]
fn result_is_a_permutation() {
    let input = vec![9, -2, 7, 7, 0, 13, -8, 4, 1, 7];
    let out = merge_sort(input.clone());
    assert_eq!(out.len(), input.len());
    assert_eq!(counts(&out), counts(&input));
}

#[test]
fn sorting_twice_changes_nothing() {
    let once = merge_sort(vec![6, -1, 6, 3, 0, 2, -7]);
    let twice = merge_sort(once.clone());
    assert_eq!(twice, once);
    assert_eq!(once, vec![-7, -1, 0, 2, 3, 6, 6]);
}

#[test]
fn larger_input_matches_std_sort() {
    let mut input = Vec::new();
    let mut x: i64 = 12345;
    for _ in 0..1000 {
        x = (x * 1103515245 + 12345) % 2147483648;
        input.push((x % 2001 - 1000) as i32);
    }
    let mut expected = input.clone();
    expected.sort();
    assert_eq!(merge_sort(input), expected);
}
