use disk_scan::throttle::{Throttle, DEFAULT_EMIT_INTERVAL};

const SECOND: u64 = 1_000_000_000;

#[test]
fn default_interval_is_five_seconds() {
    assert_eq!(DEFAULT_EMIT_INTERVAL, 5 * SECOND);
}

#[test]
fn new_throttle_counts_from_its_start() {
    let throttle = Throttle::new(7 * SECOND, DEFAULT_EMIT_INTERVAL);
    assert_eq!(throttle.last_emit, 7 * SECOND);
    assert_eq!(throttle.interval, 5 * SECOND);
}

#[test]
fn polls_one_second_apart_emit_once() {
    let mut throttle = Throttle::new(0, DEFAULT_EMIT_INTERVAL);
    let mut emitted = 0;
    for now in [5 * SECOND, 6 * SECOND] {
        if throttle.poll(now) {
            emitted += 1;
        }
    }
    assert_eq!(emitted, 1);
    assert_eq!(throttle.last_emit, 5 * SECOND);
}

#[test]
fn polls_six_seconds_apart_emit_twice() {
    let mut throttle = Throttle::new(0, DEFAULT_EMIT_INTERVAL);
    let mut emitted = 0;
    for now in [5 * SECOND, 11 * SECOND] {
        if throttle.poll(now) {
            emitted += 1;
        }
    }
    assert_eq!(emitted, 2);
    assert_eq!(throttle.last_emit, 11 * SECOND);
}

#[test]
fn poll_is_due_exactly_at_the_interval() {
    let mut throttle = Throttle::new(100, 50);
    assert!(!throttle.poll(149));
    assert_eq!(throttle.last_emit, 100);
    assert!(throttle.poll(150));
    assert_eq!(throttle.last_emit, 150);
}

#[test]
fn suppressed_poll_keeps_the_last_emission() {
    let mut throttle = Throttle::new(0, 5 * SECOND);
    assert!(!throttle.poll(4 * SECOND));
    assert!(!throttle.poll(4 * SECOND + 999_999_999));
    assert_eq!(throttle.last_emit, 0);
    assert!(throttle.poll(5 * SECOND));
}

#[test]
fn clock_before_last_emission_counts_as_no_time_passed() {
    let mut throttle = Throttle::new(10 * SECOND, 5 * SECOND);
    assert!(!throttle.poll(3 * SECOND));
    assert_eq!(throttle.last_emit, 10 * SECOND);
}

#[test]
fn zero_interval_always_emits() {
    let mut throttle = Throttle::new(10, 0);
    assert!(throttle.poll(10));
    assert!(throttle.poll(10));
    assert!(throttle.poll(3));
    assert_eq!(throttle.last_emit, 3);
}

#[test]
fn poll_at_largest_time_does_not_overflow() {
    let mut throttle = Throttle::new(0, u64::MAX);
    assert!(!throttle.poll(u64::MAX - 1));
    assert!(throttle.poll(u64::MAX));
    assert_eq!(throttle.last_emit, u64::MAX);
}
