use sum3_solver::progress::{
    closing_report, estimated_total, report_due, Progress, MAX_ESTIMATE, REPORT_INTERVAL,
};

#[test]
fn estimate_is_the_square_of_the_count() {
    assert_eq!(estimated_total(1), 1);
    assert_eq!(estimated_total(4), 16);
    assert_eq!(estimated_total(10), 100);
    assert_eq!(estimated_total(316), 99_856);
}

#[test]
fn estimate_is_held_at_its_maximum() {
    assert_eq!(MAX_ESTIMATE, 100_000);
    assert_eq!(estimated_total(317), 100_000);
    assert_eq!(estimated_total(1_000_000), 100_000);
    assert_eq!(estimated_total(usize::MAX), 100_000);
}

#[test]
fn estimate_for_nothing_is_one() {
    assert_eq!(estimated_total(0), 1);
}

#[test]
fn report_is_due_at_every_hundredth_attempt() {
    assert_eq!(REPORT_INTERVAL, 100);
    assert_eq!(report_due(0, 1000), None);
    assert_eq!(report_due(1, 1000), None);
    assert_eq!(report_due(99, 1000), None);
    assert_eq!(report_due(100, 1000), Some(Progress { done: 100, total: 1000 }));
    assert_eq!(report_due(101, 1000), None);
    assert_eq!(report_due(700, 1000), Some(Progress { done: 700, total: 1000 }));
    assert_eq!(report_due(1000, 1000), Some(Progress { done: 1000, total: 1000 }));
}

#[test]
fn report_is_held_at_one() {
    assert_eq!(report_due(200, 150), Some(Progress { done: 150, total: 150 }));
    assert_eq!(
        report_due(18_446_744_073_709_551_600, 100_000),
        Some(Progress { done: 100_000, total: 100_000 })
    );
}

#[test]
fn reports_never_go_back() {
    let mut last = 0.0f64;
    for attempts in 0..2_000u64 {
        if let Some(report) = report_due(attempts, 1_500) {
            let fraction = report.done as f64 / report.total as f64;
            assert!(0.0 <= fraction && fraction <= 1.0);
            assert!(fraction >= last);
            last = fraction;
        }
    }
    assert_eq!(last, 1.0);
}

#[test]
fn closing_report_is_one() {
    assert_eq!(closing_report(16), Progress { done: 16, total: 16 });
}
