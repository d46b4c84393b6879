use thttpd::health::{update_health, BackendHealth};
use thttpd::migrate::{Health, HealthConfig};

fn cfg() -> HealthConfig {
    HealthConfig { interval_ms: 1000, timeout_ms: 500, failure_threshold: 3, success_threshold: 2 }
}

#[test]
fn three_consecutive_failures_marks_unhealthy() {
    let mut b = BackendHealth::new();
    let cfg = cfg();
    for _ in 0..3 {
        update_health(&mut b, &cfg, false);
    }
    assert_eq!(b.health, Health::Unhealthy);
}

#[test]
fn two_consecutive_successes_marks_healthy() {
    let mut b = BackendHealth::new();
    let cfg = cfg();
    for _ in 0..3 {
        update_health(&mut b, &cfg, false);
    }
    assert_eq!(b.health, Health::Unhealthy);
    for _ in 0..2 {
        update_health(&mut b, &cfg, true);
    }
    assert_eq!(b.health, Health::Healthy);
}

#[test]
fn intermittent_failures_do_not_flip() {
    let mut b = BackendHealth::new();
    let cfg = cfg();
    update_health(&mut b, &cfg, false);
    update_health(&mut b, &cfg, false);
    update_health(&mut b, &cfg, true);
    update_health(&mut b, &cfg, false);
    update_health(&mut b, &cfg, false);
    assert_eq!(b.health, Health::Healthy);
    assert!(b.is_routable());
    assert_eq!(b.consecutive_failures, 2);
    assert_eq!(b.consecutive_successes, 0);
}
