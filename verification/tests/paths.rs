use sum3_solver::cache::ResultCache;
use sum3_solver::engine::append_up_to_limit;
use sum3_solver::paths::{holds_result_set, MAX_RESULTS};

#[test]
fn result_set_holds_at_most_a_thousand_paths() {
    assert_eq!(MAX_RESULTS, 1000);
    assert!(holds_result_set(&vec![vec![1]; 1000]));
    assert!(!holds_result_set(&vec![vec![1]; 1001]));
}

#[test]
fn result_set_holds_no_empty_path() {
    assert!(holds_result_set(&vec![]));
    assert!(holds_result_set(&vec![vec![1, 2], vec![3]]));
    assert!(!holds_result_set(&vec![vec![1, 2], vec![], vec![3]]));
    assert!(!holds_result_set(&vec![vec![]]));
}

#[test]
fn valid_result_set_can_be_stored() {
    let mut cache = ResultCache::new(2).unwrap();
    let results = vec![vec![1, 2], vec![3]];
    assert!(holds_result_set(&results));
    cache.put(3, 0, results.clone());
    assert_eq!(cache.get(3, 0), Some(results));
}

#[test]
fn appending_stops_at_the_limit() {
    let mut paths: Vec<Vec<i64>> = vec![vec![7]; 998];
    append_up_to_limit(&mut paths, &vec![vec![1], vec![2], vec![3]]);
    assert_eq!(paths.len(), 1000);
    assert_eq!(paths[997], vec![7]);
    assert_eq!(paths[998], vec![1]);
    assert_eq!(paths[999], vec![2]);
    append_up_to_limit(&mut paths, &vec![vec![4]]);
    assert_eq!(paths.len(), 1000);
}

#[test]
fn appending_keeps_the_order() {
    let mut paths: Vec<Vec<i64>> = vec![vec![1]];
    append_up_to_limit(&mut paths, &vec![vec![2, 3], vec![4]]);
    append_up_to_limit(&mut paths, &vec![]);
    assert_eq!(paths, vec![vec![1], vec![2, 3], vec![4]]);
}
