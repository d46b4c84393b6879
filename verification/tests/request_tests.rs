use thttpd::request::{early_refusal, MAX_URL_LENGTH};
use thttpd::request::{
    assemble_response, auth_realm, body_range, cgi_body_complete, cgi_matches, file_gate,
    fill_range_end, first_forwarded_for, is_one_one, not_modified, parse_content_length,
    parse_range, pathinfo_step, prepend_pathinfo, refuse_bad_path, relative_file_path,
    split_query, stat_failure, FileGate,
};

#[test]
fn test_x_forwarded_for_first_ip() {
    let xff = "192.0.2.42, 10.0.0.1";
    assert_eq!(first_forwarded_for(xff), "192.0.2.42");
}

#[test]
fn test_x_forwarded_for_whitespace_only() {
    assert_eq!(first_forwarded_for("   "), "");
}

#[test]
fn content_length_values() {
    assert_eq!(parse_content_length(" 42 "), Some(42));
    assert_eq!(parse_content_length("-1"), None);
    assert_eq!(parse_content_length("abc"), None);
    assert_eq!(parse_content_length("0"), Some(0));
}

#[test]
fn range_values() {
    assert_eq!(parse_range("bytes=0-99"), Some((0, Some(99))));
    assert_eq!(parse_range("bytes=100-"), Some((100, None)));
    assert_eq!(parse_range("bytes=0-1,5-6"), None);
    assert_eq!(parse_range("bytes"), None);
    assert_eq!(parse_range("bytes=-5"), None);
}

#[test]
fn protocol_and_query() {
    assert!(!is_one_one(Some("HTTP/1.0")));
    assert!(!is_one_one(Some("http/1.0")));
    assert!(is_one_one(Some("HTTP/1.1")));
    let (path, query) = split_query("/cgi-bin/x?a=1?b");
    assert_eq!(path, "/cgi-bin/x");
    assert_eq!(query.as_deref(), Some("a=1?b"));
    assert_eq!(split_query("/plain").1, None);
}

#[test]
fn paths_and_refusals() {
    assert_eq!(relative_file_path("/"), "index.html");
    assert_eq!(relative_file_path("/a/b.html"), "a/b.html");
    assert_eq!(refuse_bad_path("//etc").0, 400);
    assert_eq!(refuse_bad_path("/../etc").0, 404);
    assert_eq!(stat_failure(true, false).0, 404);
    assert_eq!(stat_failure(false, true).0, 500);
    assert_eq!(stat_failure(false, false).0, 403);
}

#[test]
fn cgi_selection_and_path_info() {
    assert!(cgi_matches("**.cgi", "/cgi-bin/x.cgi"));
    assert!(cgi_matches("**.cgi", "/cgi-bin/x.cgi/extra/info"));
    assert!(!cgi_matches("**.cgi", "/index.html"));
    assert_eq!(pathinfo_step("/a/b/c"), Some(("/a/b".to_string(), "c".to_string())));
    assert_eq!(pathinfo_step("/a"), None);
    assert_eq!(prepend_pathinfo("b", "/c"), "/b/c");
    assert!(cgi_body_complete(Some(10), 5, 15));
    assert!(!cgi_body_complete(Some(10), 5, 14));
    assert!(cgi_body_complete(None, 5, 0));
}

#[test]
fn realm_gate_and_ranges() {
    assert_eq!(auth_realm("/private/docs/file.html"), "private/docs");
    assert_eq!(auth_realm("noslash"), "");
    assert_eq!(file_gate(true, 0, false), FileGate::Listing);
    assert_eq!(file_gate(false, 0o600, false), FileGate::NotReadable);
    assert_eq!(file_gate(false, 0o755, false), FileGate::ExecutableNotCgi);
    assert_eq!(file_gate(false, 0o644, true), FileGate::PathInfoNotCgi);
    assert_eq!(file_gate(false, 0o644, false), FileGate::Pass);
    assert_eq!(fill_range_end(true, -1, 100), 99);
    assert_eq!(fill_range_end(true, 500, 100), 99);
    assert_eq!(fill_range_end(false, -1, 100), -1);
    assert!(not_modified(Some(10), 10));
    assert!(!not_modified(Some(9), 10));
    assert!(!not_modified(None, 10));
    assert_eq!(body_range(2, 4, 10), (2, 5));
    assert_eq!(body_range(2, 40, 10), (0, 10));
    assert_eq!(assemble_response(true, b"H".to_vec(), b"B".to_vec()), b"HB".to_vec());
    assert_eq!(assemble_response(false, b"H".to_vec(), b"B".to_vec()), b"B".to_vec());
}

#[test]
fn extract_header_is_case_insensitive_trims_and_takes_first() {
    let h = b"Host: example.com \r\nuser-agent:  curl/8\r\nHOST: other\r\n\r\n";
    assert_eq!(thttpd::request::extract_header(h, "Host"), Some("example.com".to_string()));
    assert_eq!(thttpd::request::extract_header(h, "User-Agent"), Some("curl/8".to_string()));
    assert_eq!(thttpd::request::extract_header(h, "Referer"), None);
    // A name must be followed by a colon.
    assert_eq!(thttpd::request::extract_header(b"Hostname: x\n", "Host"), None);
    assert_eq!(thttpd::request::extract_header(b"Range:bytes=1-2", "Range"), Some("bytes=1-2".to_string()));
}

#[test]
fn request_line_words_stop_at_carriage_return() {
    let (m, u, v) = thttpd::request::request_line_words(b"GET /a%20b HTTP/1.1\r\nHost: x\r\n\r\n");
    assert_eq!(m.as_deref(), Some("GET"));
    assert_eq!(u.as_deref(), Some("/a%20b"));
    assert_eq!(v.as_deref(), Some("HTTP/1.1"));
    let (m, u, v) = thttpd::request::request_line_words(b"GET /\r\n\r\n");
    assert_eq!(m.as_deref(), Some("GET"));
    assert_eq!(u.as_deref(), Some("/"));
    assert_eq!(v, None);
    let (m, u, v) = thttpd::request::request_line_words(b"");
    assert!(m.is_none() && u.is_none() && v.is_none());
}

#[test]
fn header_block_starts_after_first_newline() {
    assert_eq!(thttpd::request::header_block(b"GET / HTTP/1.0\r\nHost: a\r\n"), b"Host: a\r\n".to_vec());
    assert_eq!(thttpd::request::header_block(b"no newline"), b"no newline".to_vec());
}

#[test]
fn early_refusals_in_order() {
    assert_eq!(early_refusal(true, true, true, 20000).unwrap().0, 400);
    assert_eq!(early_refusal(true, false, true, 20000).unwrap().0, 501);
    assert_eq!(early_refusal(false, true, false, MAX_URL_LENGTH + 1).unwrap().0, 500);
    assert!(early_refusal(false, true, false, MAX_URL_LENGTH).is_none());
}

#[test]
fn vhost_filename_lowercases_host() {
    assert_eq!(thttpd::request::vhost_filename("WWW.Example.COM", "/index.html"), "/www.example.com/index.html");
}
