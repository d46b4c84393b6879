use thttpd::forwarder::{shadow_breaker_record, shadow_failure_divergence, ShadowOutcome};
use thttpd::migrate::{Field, RequestContext};

fn ctx() -> RequestContext {
    RequestContext { path: "/p".into(), method: "POST".into(), request_id: "id".into() }
}

#[test]
fn not_routable_is_not_charged_to_the_shadow() {
    let o = ShadowOutcome::NotRoutable;
    assert_eq!(shadow_breaker_record(&o), None);
    let d = shadow_failure_divergence(&o, &ctx()).unwrap();
    assert_eq!(d.field, Field::ConnectionLifecycle);
    assert_eq!(d.expected, "ok");
    assert_eq!(d.actual, "error: backend not routable");
    assert_eq!(d.path, "/p");
    assert_eq!(d.method, "POST");
    assert!(!d.truncated);
}

#[test]
fn failed_request_counts_as_a_breaker_failure() {
    let o = ShadowOutcome::RequestFailed("connection refused".into());
    assert_eq!(shadow_breaker_record(&o), Some(false));
    let d = shadow_failure_divergence(&o, &ctx()).unwrap();
    assert_eq!(d.field, Field::ConnectionLifecycle);
    assert_eq!(d.actual, "error: backend request failed: connection refused");
}

#[test]
fn body_read_error_is_a_lifecycle_divergence() {
    let o = ShadowOutcome::BodyFailed(200, "reset".into());
    assert_eq!(shadow_breaker_record(&o), Some(false));
    let d = shadow_failure_divergence(&o, &ctx()).unwrap();
    assert_eq!(d.expected, "complete response body");
    assert_eq!(d.actual, "body read error: reset");
}

#[test]
fn answers_count_by_status_and_are_compared() {
    assert_eq!(shadow_breaker_record(&ShadowOutcome::Answered(404)), Some(true));
    assert_eq!(shadow_breaker_record(&ShadowOutcome::Answered(503)), Some(false));
    assert!(shadow_failure_divergence(&ShadowOutcome::Answered(503), &ctx()).is_none());
}
