use thttpd::migrate::{BackendConfig, RoutingConfig, RoutingMode};
use thttpd::proxy_config::{validate, validate_backend_address};

fn backend(address: &str, weight: u32) -> BackendConfig {
    BackendConfig { address: address.to_string(), weight, health_path: "/".to_string() }
}

fn one(address: &str, weight: u32) -> Vec<(String, BackendConfig)> {
    vec![("a".to_string(), backend(address, weight))]
}

fn two() -> Vec<(String, BackendConfig)> {
    vec![("a".to_string(), backend("127.0.0.1:8081", 1)), ("b".to_string(), backend("127.0.0.1:8082", 1))]
}

fn active() -> RoutingConfig {
    RoutingConfig::default()
}

#[test]
fn parses_two_backend_config() {
    let backends = vec![
        ("c-thttpd".to_string(), backend("127.0.0.1:8081", 95)),
        ("rust-thttpd".to_string(), backend("127.0.0.1:8082", 5)),
    ];
    let routing = RoutingConfig {
        mode: RoutingMode::ActiveActive,
        primary_backend: Some("c-thttpd".into()),
        shadow_backend: Some("rust-thttpd".into()),
        exclude_paths: vec!["/metrics".into()],
    };
    validate(&backends, &routing, None, None).unwrap();
    assert_eq!(routing.mode, RoutingMode::ActiveActive);
}

#[test]
fn rejects_empty_backends() {
    let err = validate(&[], &active(), None, None).unwrap_err();
    assert!(err.contains("at least one backend"), "{err}");
}

#[test]
fn rejects_zero_total_weight() {
    let err = validate(&one("127.0.0.1:8081", 0), &active(), None, None).unwrap_err();
    assert!(err.contains("weight > 0"), "{err}");
}

#[test]
fn shadow_requires_primary_and_shadow_backends() {
    let routing = RoutingConfig { mode: RoutingMode::Shadow, ..Default::default() };
    let err = validate(&two(), &routing, None, None).unwrap_err();
    assert!(err.contains("primary_backend"), "{err}");
}

#[test]
fn rejects_unknown_primary_or_shadow_backend() {
    let routing = RoutingConfig {
        mode: RoutingMode::Shadow,
        primary_backend: Some("a".into()),
        shadow_backend: Some("nope".into()),
        exclude_paths: Vec::new(),
    };
    let err = validate(&two(), &routing, None, None).unwrap_err();
    assert!(err.contains("unknown backend"), "{err}");
}

#[test]
fn rejects_bad_listen_address() {
    // What parsing ":8080" as a socket address reports.
    let listen_error = Some("invalid socket address syntax".to_string());
    let err = validate(&one("127.0.0.1:8081", 1), &active(), listen_error, None).unwrap_err();
    assert!(err.contains("listen must be host:port"), "{err}");
}

#[test]
fn rejects_full_url_backend_address() {
    let err = validate(&one("http://127.0.0.1:8081", 1), &active(), None, None).unwrap_err();
    assert!(err.contains("backends.a.address"), "{err}");
    assert!(err.contains("scheme") || err.contains("host:port"), "{err}");
}

#[test]
fn rejects_backend_address_with_path() {
    let err = validate(&one("127.0.0.1:8081/vhost", 1), &active(), None, None).unwrap_err();
    assert!(err.contains("backends.a.address"), "{err}");
    assert!(err.contains("path"), "{err}");
}

#[test]
fn rejects_non_numeric_backend_port() {
    let err = validate(&one("127.0.0.1:notaport", 1), &active(), None, None).unwrap_err();
    assert!(err.contains("backends.a.address"), "{err}");
    assert!(err.contains("numeric"), "{err}");
}

#[test]
fn accepts_ipv6_backend_address() {
    validate(&one("[::1]:8081", 1), &active(), None, None)
        .expect("[::1]:8081 is a valid host:port authority");
}

#[test]
fn rejects_portless_backend_address() {
    let err = validate(&one("127.0.0.1", 1), &active(), None, None).unwrap_err();
    assert!(err.contains("backends.a.address"), "{err}");
    assert!(err.contains("port"), "{err}");
}

#[test]
fn address_messages_are_exact() {
    assert_eq!(validate_backend_address(""), Err("address is empty".to_string()));
    assert_eq!(
        validate_backend_address("a b:1"),
        Err("address must not contain whitespace".to_string())
    );
    assert_eq!(validate_backend_address(":80"), Err("address must include a host".to_string()));
    assert_eq!(
        validate_backend_address("host:"),
        Err("address port must be numeric, got 'host:'".to_string())
    );
    assert!(validate_backend_address("example.com:8080").is_ok());
    // The URI probe rejects what the shape checks let through.
    let err = validate_backend_address("bad^host:80").unwrap_err();
    assert!(err.starts_with("invalid host:port 'bad^host:80': "), "{err}");
    assert_eq!(
        validate(&one("127.0.0.1:8081", 1), &active(), None, Some("oops".into())),
        Err("metrics.listen must be host:port, e.g. 127.0.0.1:9100: oops".to_string())
    );
}
