use resource_scrambler::timer::{total, StepTimer};
use std::time::{Duration, Instant};

#[test]
fn a_disabled_timer_measures_nothing() {
    let mut timer = StepTimer::new(false);
    timer.start("a");
    timer.end();
    assert!(!timer.has_summary());
    assert!(timer.entries().is_empty());
}

#[test]
fn steps_are_measured_in_order() {
    let mut timer = StepTimer::new(true);
    assert!(!timer.has_summary());
    timer.end();
    timer.start("a");
    timer.end();
    timer.start("lost");
    timer.start("b");
    timer.end();
    timer.end();
    let labels: Vec<&str> = timer.entries().iter().map(|e| e.0.as_str()).collect();
    assert_eq!(labels, vec!["a", "b"]);
    assert!(timer.has_summary());
}

#[test]
fn given_times_are_kept() {
    let mut timer = StepTimer::new(true);
    timer.start_at("a", Instant::now());
    timer.end_after(Duration::from_micros(7));
    assert_eq!(*timer.entries(), vec![("a".to_string(), Duration::from_micros(7))]);
}

#[test]
fn time_goes_by() {
    let mut timer = StepTimer::new(true);
    timer.start("a");
    let begin = Instant::now();
    while begin.elapsed() < Duration::from_millis(2) {}
    timer.end();
    assert!(timer.entries()[0].1 >= Duration::from_millis(2));
}

#[test]
fn totals() {
    assert_eq!(total(&[]), Some(0));
    assert_eq!(total(&[1, 2, 3]), Some(6));
    assert_eq!(total(&[u128::MAX, 1]), None);
}
