use sum3_solver::paths::SearchBounds;
use sum3_solver::pruning::is_out_of_reach;

#[test]
fn sum_above_the_window_is_out_of_reach_among_positive_numbers() {
    let numbers: Vec<i64> = vec![1, 2, 3, 4];
    let bounds = SearchBounds { target: 5, tolerance: 0, max_length: 4 };
    assert!(is_out_of_reach(&numbers, &bounds, 3, 2, 6));
    assert!(!is_out_of_reach(&numbers, &bounds, 3, 2, 5));
    assert!(!is_out_of_reach(&numbers, &bounds, 3, 2, 1));
}

#[test]
fn sum_that_cannot_climb_to_the_window_is_out_of_reach() {
    let numbers: Vec<i64> = vec![1, 2, 3, 4];
    let bounds = SearchBounds { target: 20, tolerance: 1, max_length: 3 };
    assert!(is_out_of_reach(&numbers, &bounds, 1, 1, 1));
    assert!(is_out_of_reach(&numbers, &bounds, 2, 1, 10));
    assert!(!is_out_of_reach(&numbers, &bounds, 2, 1, 11));
    assert!(is_out_of_reach(&numbers, &bounds, 3, 2, 14));
    assert!(!is_out_of_reach(&numbers, &bounds, 3, 2, 15));
}

#[test]
fn negative_numbers_to_come_keep_a_high_sum_in_reach() {
    let numbers: Vec<i64> = vec![-5, -4, 10];
    let bounds = SearchBounds { target: 1, tolerance: 0, max_length: 3 };
    assert!(!is_out_of_reach(&numbers, &bounds, 0, 0, 0));
    let numbers: Vec<i64> = vec![-5, -4, 10, 20];
    assert!(!is_out_of_reach(&numbers, &bounds, 1, 1, 9));
    assert!(is_out_of_reach(&numbers, &bounds, 1, 1, 10));
    assert!(is_out_of_reach(&numbers, &bounds, 2, 1, 2));
}

#[test]
fn path_with_no_number_left_is_judged_by_its_sum() {
    let numbers: Vec<i64> = vec![-5, 10];
    let bounds = SearchBounds { target: 5, tolerance: 1, max_length: 5 };
    assert!(!is_out_of_reach(&numbers, &bounds, 2, 2, 5));
    assert!(!is_out_of_reach(&numbers, &bounds, 2, 2, 6));
    assert!(is_out_of_reach(&numbers, &bounds, 2, 2, 7));
    assert!(is_out_of_reach(&numbers, &bounds, 2, 2, 3));
}

#[test]
fn length_bound_limits_the_reach() {
    let numbers: Vec<i64> = vec![1, 1, 1, 1, 1, 1];
    let bounds = SearchBounds { target: 6, tolerance: 0, max_length: 6 };
    assert!(!is_out_of_reach(&numbers, &bounds, 1, 1, 1));
    let bounds = SearchBounds { target: 6, tolerance: 0, max_length: 5 };
    assert!(is_out_of_reach(&numbers, &bounds, 1, 1, 1));
}
