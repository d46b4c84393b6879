use thttpd::circuit::{Breaker, COOL_OFF};
use thttpd::migrate::State;

/// Records an outcome the way the proxy does: the window's error rate is
/// compared with the threshold once it holds enough requests.
fn record(b: &mut Breaker, success: bool, now: u64, threshold: f64) {
    b.record(success, now, |errors, total| errors as f64 / total as f64 > threshold);
}

fn breaker(min_requests: u32) -> Breaker {
    Breaker::new(30, min_requests, 0)
}

#[test]
fn below_min_requests_does_not_trip() {
    let mut b = breaker(20);
    for _ in 0..5 {
        record(&mut b, false, 1, 0.5);
    }
    assert_eq!(b.state(), State::Closed);
    assert!(b.allows(1));
}

#[test]
fn error_rate_above_threshold_trips() {
    let mut b = breaker(10);
    for _ in 0..4 {
        record(&mut b, true, 1, 0.5);
    }
    for _ in 0..6 {
        record(&mut b, false, 1, 0.5);
    }
    assert_eq!(b.state(), State::Open);
    assert!(!b.allows(1));
}

#[test]
fn low_error_rate_does_not_trip() {
    let mut b = breaker(10);
    for _ in 0..9 {
        record(&mut b, true, 1, 0.5);
    }
    record(&mut b, false, 1, 0.5);
    assert_eq!(b.state(), State::Closed);
}

#[test]
fn half_open_probe_recovers() {
    let mut b = breaker(5);
    for _ in 0..6 {
        record(&mut b, false, 1, 0.5);
    }
    assert_eq!(b.state(), State::Open);
    let later = 1 + COOL_OFF + 10;
    assert!(b.allows(later));
    assert_eq!(b.state(), State::HalfOpen);
    record(&mut b, true, later, 0.5);
    assert_eq!(b.state(), State::Closed);
}

#[test]
fn half_open_probe_failure_reopens() {
    let mut b = breaker(5);
    for _ in 0..6 {
        record(&mut b, false, 1, 0.5);
    }
    let later = 1 + COOL_OFF + 10;
    let _ = b.allows(later);
    assert_eq!(b.state(), State::HalfOpen);
    record(&mut b, false, later, 0.5);
    assert_eq!(b.state(), State::Open);
}

#[test]
fn half_open_admits_only_one_probe() {
    let mut b = breaker(5);
    for _ in 0..6 {
        record(&mut b, false, 1, 0.5);
    }
    let later = 1 + COOL_OFF + 10;
    assert!(b.allows(later), "first caller claims the single probe");
    assert_eq!(b.state(), State::HalfOpen);
    for _ in 0..50 {
        assert!(!b.allows(later), "half-open must not admit a second probe");
    }
    record(&mut b, true, later, 0.5);
    assert_eq!(b.state(), State::Closed);
    assert!(b.allows(later), "closed breaker admits traffic again");
}

#[test]
fn can_route_is_non_mutating_on_cooled_open() {
    let mut b = breaker(5);
    for _ in 0..6 {
        record(&mut b, false, 1, 0.5);
    }
    assert_eq!(b.state(), State::Open);
    let cooled = 1 + COOL_OFF + 10;
    assert!(!b.probe_claimed(), "no probe claimed yet");
    assert!(b.can_route(cooled), "cooled-open breaker is a routing candidate");
    assert_eq!(b.state(), State::Open, "can_route must not promote to HalfOpen");
    assert!(!b.probe_claimed(), "can_route must not claim a probe");
    for _ in 0..10 {
        assert!(b.can_route(cooled));
    }
    assert_eq!(b.state(), State::Open);
    assert!(!b.probe_claimed());
    assert!(b.try_admit(cooled), "admit claims the probe");
    assert_eq!(b.state(), State::HalfOpen);
    assert!(b.probe_claimed());
    assert!(!b.can_route(cooled));
    record(&mut b, true, cooled, 0.5);
    assert_eq!(b.state(), State::Closed);
}

#[test]
fn open_breaker_waits_for_cool_off() {
    let mut b = breaker(1);
    record(&mut b, false, 100, 0.5);
    assert_eq!(b.state(), State::Open);
    assert!(!b.can_route(100 + COOL_OFF - 1));
    assert!(!b.try_admit(100 + COOL_OFF - 1));
    assert!(b.can_route(100 + COOL_OFF));
}

#[test]
fn window_starts_afresh_when_stale() {
    let mut b = breaker(3);
    record(&mut b, false, 0, 0.5);
    record(&mut b, false, 0, 0.5);
    assert_eq!(b.total(), 2);
    // 31 s later the old window is dropped.
    record(&mut b, true, 31_000, 0.5);
    assert_eq!(b.total(), 1);
    assert_eq!(b.errors(), 0);
    assert_eq!(b.state(), State::Closed);
}

#[test]
fn tripping_a_half_open_breaker_releases_its_probe() {
    let mut b = breaker(1);
    record(&mut b, false, 1, 0.5);
    assert_eq!(b.state(), State::Open);
    assert!(b.try_admit(1 + COOL_OFF));
    assert_eq!(b.state(), State::HalfOpen);
    assert!(b.probe_claimed());
    b.trip(2 + COOL_OFF);
    assert_eq!(b.state(), State::Open);
    assert!(!b.probe_claimed());
    assert!(!b.can_route(3 + COOL_OFF));
    assert!(b.can_route(2 + 2 * COOL_OFF));
    assert!(b.try_admit(2 + 2 * COOL_OFF));
}
