use sendit::throttle::{Pacer, Throttle};
use std::time::{Duration, Instant};

#[test]
fn throttle_once_per_interval() {
    let interval = Duration::from_millis(50);
    let mut t = Throttle::new(interval.as_nanos() as u64);
    assert!(t.is_free());
    assert!(!t.is_free());
    let start = Instant::now();
    while start.elapsed() < interval {}
    assert!(t.is_free());
    assert!(!t.is_free());
}

#[test]
fn throttle_zero_interval_always_free() {
    let mut t = Throttle::new(0);
    assert!(t.is_free());
    assert!(t.is_free());
}

#[test]
fn throttle_long_interval_stays_shut() {
    let mut t = Throttle::new(3_600_000_000_000);
    assert!(t.is_free());
    let start = Instant::now();
    while start.elapsed() < Duration::from_millis(5) {}
    assert!(!t.is_free());
}

#[test]
fn pacer_gates_by_time() {
    let mut p = Pacer::new(100);
    assert!(p.pass_at(1000));
    assert!(!p.pass_at(1050));
    assert!(!p.pass_at(1099));
    assert!(p.pass_at(1100));
    // A burst after a long idle opens once.
    assert!(p.pass_at(5000));
    assert!(!p.pass_at(5000));
    // A reading before the last opening counts as no time.
    assert!(!p.pass_at(10));
}
