use sum3_solver::order::sort_numbers;

#[test]
fn numbers_come_out_ascending() {
    assert_eq!(sort_numbers(&vec![3, 1, 2]), vec![1, 2, 3]);
    assert_eq!(sort_numbers(&vec![4_000_000, 1_000_000, 3_000_000, 2_000_000]), vec![
        1_000_000, 2_000_000, 3_000_000, 4_000_000
    ]);
}

#[test]
fn equal_numbers_stay_as_many() {
    assert_eq!(sort_numbers(&vec![2, 1, 2, 1, 2]), vec![1, 1, 2, 2, 2]);
}

#[test]
fn negative_and_extreme_numbers_are_ordered() {
    assert_eq!(sort_numbers(&vec![0, i64::MAX, -1, i64::MIN, 1]), vec![
        i64::MIN,
        -1,
        0,
        1,
        i64::MAX
    ]);
}

#[test]
fn nothing_and_one_number_stay() {
    assert_eq!(sort_numbers(&vec![]), Vec::<i64>::new());
    assert_eq!(sort_numbers(&vec![7]), vec![7]);
}

#[test]
fn sorting_agrees_with_the_standard_sort() {
    let mut numbers: Vec<i64> = Vec::new();
    let mut state: u64 = 12345;
    for _ in 0..1000 {
        state = state.wrapping_mul(6364136223846793005).wrapping_add(1442695040888963407);
        numbers.push((state >> 33) as i64 - (1 << 30));
    }
    let mut expected = numbers.clone();
    expected.sort();
    assert_eq!(sort_numbers(&numbers), expected);
}
