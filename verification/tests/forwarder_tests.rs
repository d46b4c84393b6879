use thttpd::forwarder::{
    backend_request_headers, backend_uri, forwarded_headers, is_hop_by_hop, shadow_headers_for_body,
    strip_hop_by_hop, backend_succeeded, with_request_id,
};

fn block(pairs: &[(&str, &str)]) -> Vec<(String, Option<String>)> {
    pairs.iter().map(|(k, v)| (k.to_string(), Some(v.to_string()))).collect()
}

#[test]
fn connection_listed_headers_not_forwarded() {
    let map = block(&[("connection", "X-Hop, keep-alive"), ("x-hop", "leak-me"), ("x-end", "keep-me")]);
    let fwd = forwarded_headers(&map);
    let names: Vec<&str> = fwd.iter().map(|(k, _)| k.as_str()).collect();
    assert!(!names.iter().any(|n| n.eq_ignore_ascii_case("connection")), "connection stripped");
    assert!(!names.iter().any(|n| n.eq_ignore_ascii_case("x-hop")), "connection-listed X-Hop stripped");
    assert!(names.iter().any(|n| n.eq_ignore_ascii_case("x-end")), "end-to-end header kept");

    let mut resp_map = block(&[("connection", "X-Hop"), ("x-hop", "leak-me"), ("x-end", "keep-me")]);
    strip_hop_by_hop(&mut resp_map);
    assert!(!resp_map.iter().any(|(k, _)| k == "connection"), "response connection stripped");
    assert!(!resp_map.iter().any(|(k, _)| k == "x-hop"), "response connection-listed stripped");
    assert!(resp_map.iter().any(|(k, _)| k == "x-end"), "response end-to-end kept");
}

#[test]
fn preserves_inbound_host_header() {
    let h = backend_request_headers(&[("host".into(), "vhost1.example.com".into())], "127.0.0.1:8081");
    let host: Vec<&str> = h.iter().filter(|(k, _)| k == "host").map(|(_, v)| v.as_str()).collect();
    assert_eq!(host, vec!["vhost1.example.com"], "inbound Host must be preserved for virtual-host backends");
}

#[test]
fn synthesizes_host_when_absent() {
    let h = backend_request_headers(&[], "127.0.0.1:8081");
    assert_eq!(h, vec![("host".to_string(), "127.0.0.1:8081".to_string())], "absent Host must fall back to the backend address");
}

#[test]
fn shadow_headers_reconcile_content_length_with_capped_body() {
    let orig = vec![
        ("host".into(), "example.com".into()),
        ("content-length".into(), "5000".into()),
        ("content-type".into(), "text/plain".into()),
        ("transfer-encoding".into(), "chunked".into()),
    ];
    let sh = shadow_headers_for_body(orig, 100);
    let cls: Vec<&str> = sh.iter().filter(|(k, _)| k.eq_ignore_ascii_case("content-length")).map(|(_, v)| v.as_str()).collect();
    assert_eq!(cls, vec!["100"], "Content-Length must match the capped body");
    assert!(sh.iter().all(|(k, _)| !k.eq_ignore_ascii_case("transfer-encoding")), "Transfer-Encoding must be stripped");
    assert_eq!(sh.iter().find(|(k, _)| k == "host").map(|(_, v)| v.as_str()), Some("example.com"));
    assert_eq!(sh.iter().find(|(k, _)| k == "content-type").map(|(_, v)| v.as_str()), Some("text/plain"));
}

#[test]
fn hop_by_hop_names_ignore_ascii_case() {
    assert!(is_hop_by_hop("Connection"));
    assert!(is_hop_by_hop("TRANSFER-ENCODING"));
    assert!(is_hop_by_hop("te"));
    assert!(!is_hop_by_hop("x-test"));
    assert!(!is_hop_by_hop("host"));
}

#[test]
fn forwarded_headers_keep_order_and_blank_non_text_values() {
    let map = vec![
        ("x-a".to_string(), Some("1".to_string())),
        ("keep-alive".to_string(), Some("timeout=5".to_string())),
        ("x-b".to_string(), None),
        ("x-c".to_string(), Some("3".to_string())),
    ];
    let fwd = forwarded_headers(&map);
    assert_eq!(
        fwd,
        vec![
            ("x-a".to_string(), "1".to_string()),
            ("x-b".to_string(), String::new()),
            ("x-c".to_string(), "3".to_string()),
        ]
    );
}

#[test]
fn backend_request_drops_hop_by_hop_and_uri_joins_path() {
    let h = backend_request_headers(
        &[("connection".into(), "keep-alive".into()), ("x-test".into(), "kept".into())],
        "10.0.0.1:80",
    );
    assert_eq!(h, vec![("x-test".to_string(), "kept".to_string()), ("host".to_string(), "10.0.0.1:80".to_string())]);
    assert_eq!(backend_uri("10.0.0.1:80", Some("/a?b=1")), "http://10.0.0.1:80/a?b=1");
    assert_eq!(backend_uri("10.0.0.1:80", None), "http://10.0.0.1:80/");
}

#[test]
fn stripping_twice_equals_stripping_once() {
    let mut once = block(&[("connection", "x-a"), ("x-a", "1"), ("upgrade", "h2c"), ("x-b", "2")]);
    strip_hop_by_hop(&mut once);
    let mut twice = once.clone();
    strip_hop_by_hop(&mut twice);
    assert_eq!(once, twice);
    assert_eq!(once, vec![("x-b".to_string(), Some("2".to_string()))]);
}

#[test]
fn request_id_replaces_inbound_ones_and_server_errors_fail() {
    let h = with_request_id(
        &[("X-Request-Id".into(), "old".into()), ("set-cookie".into(), "a=1".into()), ("set-cookie".into(), "b=2".into())],
        "abc",
    );
    assert_eq!(
        h,
        vec![
            ("set-cookie".to_string(), "a=1".to_string()),
            ("set-cookie".to_string(), "b=2".to_string()),
            ("x-request-id".to_string(), "abc".to_string()),
        ]
    );
    assert!(backend_succeeded(404));
    assert!(!backend_succeeded(502));
    assert!(backend_succeeded(600));
}
