use std::sync::atomic::{AtomicBool, Ordering};

use crossbeam_channel::unbounded;
use sum3_solver::progress::Progress;
use sum3_solver::signals::{new_counter, new_counts, report_to, Monitor};

#[test]
fn signal_is_polled() {
    let attempts = new_counter();
    let signal = AtomicBool::new(false);
    let monitor = Monitor {
        cancel: Some(&signal),
        sink: None,
        attempts: &attempts,
        total: 10,
        found_by: None,
        branch: 0,
    };
    assert!(!monitor.cancelled());
    assert!(!monitor.must_stop());
    signal.store(true, Ordering::Relaxed);
    assert!(monitor.cancelled());
    assert!(monitor.must_stop());
}

#[test]
fn search_without_signal_is_never_cancelled() {
    let attempts = new_counter();
    let monitor = Monitor {
        cancel: None,
        sink: None,
        attempts: &attempts,
        total: 10,
        found_by: None,
        branch: 0,
    };
    assert!(!monitor.cancelled());
    assert!(!monitor.must_stop());
    assert!(!monitor.full_without_us());
}

#[test]
fn counter_starts_at_zero_and_counts_up() {
    let attempts = new_counter();
    assert_eq!(attempts.load(Ordering::Relaxed), 0);
    let monitor = Monitor {
        cancel: None,
        sink: None,
        attempts: &attempts,
        total: 10,
        found_by: None,
        branch: 0,
    };
    monitor.tick();
    monitor.tick();
    monitor.tick();
    assert_eq!(attempts.load(Ordering::Relaxed), 3);
}

#[test]
fn hundredth_tick_sends_a_report() {
    let attempts = new_counter();
    let (sender, receiver) = unbounded::<Progress>();
    let monitor = Monitor {
        cancel: None,
        sink: Some(&sender),
        attempts: &attempts,
        total: 250,
        found_by: None,
        branch: 0,
    };
    for _ in 0..99 {
        monitor.tick();
    }
    assert!(receiver.try_recv().is_err());
    monitor.tick();
    assert_eq!(receiver.try_recv(), Ok(Progress { done: 100, total: 250 }));
    for _ in 0..100 {
        monitor.tick();
    }
    assert_eq!(receiver.try_recv(), Ok(Progress { done: 200, total: 250 }));
    for _ in 0..100 {
        monitor.tick();
    }
    assert_eq!(receiver.try_recv(), Ok(Progress { done: 250, total: 250 }));
    assert!(receiver.try_recv().is_err());
    monitor.close();
    assert_eq!(receiver.try_recv(), Ok(Progress { done: 250, total: 250 }));
}

#[test]
fn report_goes_to_the_sink_if_there_is_one() {
    let (sender, receiver) = unbounded::<Progress>();
    report_to(Some(&sender), Progress { done: 3, total: 7 });
    assert_eq!(receiver.try_recv(), Ok(Progress { done: 3, total: 7 }));
    report_to(None, Progress { done: 4, total: 7 });
    assert!(receiver.try_recv().is_err());
}

#[test]
fn report_to_a_closed_channel_is_dropped() {
    let (sender, receiver) = unbounded::<Progress>();
    drop(receiver);
    report_to(Some(&sender), Progress { done: 3, total: 7 });
}

#[test]
fn counts_of_the_branches_before_decide() {
    let attempts = new_counter();
    let counts = new_counts(3);
    assert_eq!(counts.len(), 3);
    let monitor = Monitor {
        cancel: None,
        sink: None,
        attempts: &attempts,
        total: 9,
        found_by: Some(&counts),
        branch: 0,
    };
    let third = monitor.for_branch(2);
    assert_eq!(third.branch, 2);
    assert!(!third.full_without_us());
    counts[0].store(400, Ordering::Relaxed);
    counts[1].store(599, Ordering::Relaxed);
    assert!(!third.full_without_us());
    counts[1].store(600, Ordering::Relaxed);
    assert!(third.full_without_us());
    assert!(third.must_stop());
    assert!(!monitor.for_branch(1).full_without_us());
    assert!(!third.without_counts().full_without_us());
    counts[0].store(usize::MAX, Ordering::Relaxed);
    assert!(monitor.for_branch(1).full_without_us());
    assert!(!monitor.full_without_us());
}

#[test]
fn found_paths_are_counted_for_the_own_branch() {
    let attempts = new_counter();
    let counts = new_counts(3);
    let monitor = Monitor {
        cancel: None,
        sink: None,
        attempts: &attempts,
        total: 9,
        found_by: Some(&counts),
        branch: 1,
    };
    monitor.count_found();
    monitor.count_found();
    assert_eq!(counts[0].load(Ordering::Relaxed), 0);
    assert_eq!(counts[1].load(Ordering::Relaxed), 2);
    monitor.for_branch(7).count_found();
    monitor.without_counts().count_found();
    assert_eq!(counts[1].load(Ordering::Relaxed), 2);
}

#[test]
fn branch_without_counts_before_it_goes_on() {
    let attempts = new_counter();
    let none = new_counts(0);
    let monitor = Monitor {
        cancel: None,
        sink: None,
        attempts: &attempts,
        total: 9,
        found_by: Some(&none),
        branch: 5,
    };
    assert!(!monitor.full_without_us());
    assert!(!monitor.must_stop());
    let counts = new_counts(2);
    counts[0].store(5000, Ordering::Relaxed);
    counts[1].store(5000, Ordering::Relaxed);
    let first = Monitor {
        cancel: None,
        sink: None,
        attempts: &attempts,
        total: 9,
        found_by: Some(&counts),
        branch: 0,
    };
    assert!(!first.full_without_us());
    assert!(!first.must_stop());
    assert!(first.for_branch(1).must_stop());
}

#[test]
fn first_attempt_is_counted_as_one() {
    let attempts = new_counter();
    let (sender, receiver) = unbounded::<Progress>();
    let monitor = Monitor {
        cancel: None,
        sink: Some(&sender),
        attempts: &attempts,
        total: 1,
        found_by: None,
        branch: 0,
    };
    monitor.tick();
    assert_eq!(attempts.load(Ordering::Relaxed), 1);
    assert!(receiver.try_recv().is_err());
}
