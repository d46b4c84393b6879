use thttpd::migrate::{
    effective_log_level, is_excluded, is_timestamp, split_host_port, ControlResponse, Divergence,
    Field, Health, RequestContext, State, PROTOCOL_VERSION, HealthConfig, MetricsConfig,
};

#[test]
fn exact_path_excluded() {
    let patterns = vec!["/metrics".to_string()];
    assert!(is_excluded("/metrics", &patterns));
    assert!(!is_excluded("/metricsx", &patterns));
}

#[test]
fn prefix_path_excluded() {
    let patterns = vec!["/internal/*".to_string()];
    assert!(is_excluded("/internal/secret", &patterns));
    assert!(is_excluded("/internal/", &patterns));
    assert!(!is_excluded("/internal", &patterns));
    assert!(!is_excluded("/public", &patterns));
}

#[test]
fn timestamp_recognition() {
    assert!(is_timestamp("Tue, 09 Jun 2026 03:20:35 GMT"));
    assert!(!is_timestamp("not a date"));
    assert!(!is_timestamp("Tue, 9 Jun 2026 03:20:35 GMT"));
}

#[test]
fn effective_log_level_cli_overrides_config() {
    assert_eq!(effective_log_level(Some("debug"), "info"), "debug");
    assert_eq!(effective_log_level(Some("error"), "debug"), "error");
}

#[test]
fn effective_log_level_uses_config_when_cli_absent() {
    assert_eq!(effective_log_level(None, "warn"), "warn");
    assert_eq!(effective_log_level(None, "debug"), "debug");
}

#[test]
fn health_and_state_numbers() {
    assert_eq!(Health::from_u8(0), Health::Healthy);
    assert_eq!(Health::from_u8(1), Health::Degraded);
    assert_eq!(Health::from_u8(7), Health::Unhealthy);
    assert_eq!(Health::from_u8(Health::Degraded.to_u8()), Health::Degraded);
    assert_eq!(State::from_u8(2), State::HalfOpen);
    assert_eq!(State::from_u8(State::Open.to_u8()), State::Open);
}

#[test]
fn host_and_port() {
    assert_eq!(split_host_port("127.0.0.1:8081"), ("127.0.0.1".to_string(), Some("8081".to_string())));
    assert_eq!(split_host_port("[::1]:8080"), ("[::1]".to_string(), Some("8080".to_string())));
    assert_eq!(split_host_port("example.com"), ("example.com".to_string(), None));
    assert_eq!(split_host_port("[::1]"), ("[::1]".to_string(), None));
}

#[test]
fn control_replies() {
    let ok = ControlResponse::ok("done".to_string(), None);
    assert!(ok.ok);
    assert_eq!(ok.version, PROTOCOL_VERSION);
    let err = ControlResponse::err("bad".to_string());
    assert!(!err.ok);
    assert_eq!(err.message, "bad");
}

#[test]
fn divergence_fields() {
    let ctx = RequestContext { path: "/a".into(), method: "GET".into(), request_id: "1".into() };
    let d = Divergence::new(Field::Body, "x".into(), "y".into(), &ctx);
    assert_eq!(d.field.as_str(), "body");
    assert_eq!(d.path, "/a");
    assert!(!d.truncated);
    assert_eq!(Field::ContentLength.as_str(), "content_length");
}

#[test]
fn config_defaults() {
    let h = HealthConfig::default();
    assert_eq!(h.interval().as_millis(), 1000);
    assert_eq!(h.timeout().as_millis(), 500);
    let m = MetricsConfig::default();
    assert_eq!(m.path, "/metrics");
}

#[test]
fn formatted_dates_are_timestamps() {
    assert!(is_timestamp(&thttpd::tdate::format_http_date(784111777)));
}

#[test]
fn only_slash_star_patterns_match_prefixes() {
    let s = vec!["/foo*".to_string()];
    assert!(!is_excluded("/foobar", &s));
    assert!(is_excluded("/foo*", &s));
    assert!(!is_excluded("/x", &[]));
}
