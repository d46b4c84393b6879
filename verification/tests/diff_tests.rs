use thttpd::diff::{
    bytes_to_latin1, diff_responses, latin1_to_bytes, normalize_body_bytes, normalize_cgi_output,
    normalize_paths, normalize_pwd, normalize_value, regex_replace, Tail,
};
use thttpd::migrate::{is_timestamp, Field, RequestContext};

fn ctx() -> RequestContext {
    RequestContext { path: "/x".into(), method: "GET".into(), request_id: "r1".into() }
}

fn hdrs(pairs: &[(&str, &str)]) -> Vec<(String, String)> {
    pairs.iter().map(|(k, v)| (k.to_string(), v.to_string())).collect()
}

#[test]
fn timestamp_headers_match_format_only() {
    let d = diff_responses(
        200, &hdrs(&[("date", "Tue, 09 Jun 2026 03:20:35 GMT")]), b"", false,
        200, &hdrs(&[("date", "Wed, 10 Jun 2026 04:00:00 GMT")]), b"", false, &ctx(), 1024,
    );
    assert!(d.is_empty(), "format-matching timestamps must not diverge: {}", d.len());
}

#[test]
fn status_mismatch_caught() {
    let d = diff_responses(200, &[], b"", false, 500, &[], b"", false, &ctx(), 1024);
    assert!(d.iter().any(|x| x.field == Field::Status));
    assert_eq!(d[0].expected, "200");
    assert_eq!(d[0].actual, "500");
    assert_eq!(d[0].path, "/x");
}

#[test]
fn headers_mismatch_caught() {
    let d = diff_responses(
        200, &hdrs(&[("content-type", "text/html")]), b"", false,
        200, &hdrs(&[("content-type", "text/plain")]), b"", false, &ctx(), 1024,
    );
    assert!(d.iter().any(|x| x.field == Field::Headers));
}

#[test]
fn duplicate_header_mismatch_caught_even_when_last_value_matches() {
    let d = diff_responses(
        200,
        &hdrs(&[("set-cookie", "session=abc; Path=/"), ("set-cookie", "theme=light; Path=/")]),
        b"", false,
        200,
        &hdrs(&[("set-cookie", "session=def; Path=/"), ("set-cookie", "theme=light; Path=/")]),
        b"", false, &ctx(), 1024,
    );
    assert!(d.iter().any(|x| x.field == Field::Headers));
}

#[test]
fn repeated_timestamp_headers_match_format_only() {
    let d = diff_responses(
        200,
        &hdrs(&[("date", "Tue, 09 Jun 2026 03:20:35 GMT"), ("date", "Wed, 10 Jun 2026 04:00:00 GMT")]),
        b"", false,
        200,
        &hdrs(&[("date", "Thu, 11 Jun 2026 05:00:00 GMT"), ("date", "Fri, 12 Jun 2026 06:00:00 GMT")]),
        b"", false, &ctx(), 1024,
    );
    assert!(d.is_empty());
}

#[test]
fn identical_duplicate_headers_ignore_order() {
    let d = diff_responses(
        200,
        &hdrs(&[("set-cookie", "session=abc; Path=/"), ("set-cookie", "theme=light; Path=/")]),
        b"", false,
        200,
        &hdrs(&[("set-cookie", "theme=light; Path=/"), ("set-cookie", "session=abc; Path=/")]),
        b"", false, &ctx(), 1024,
    );
    assert!(d.is_empty());
}

#[test]
fn body_mismatch_caught() {
    let d = diff_responses(200, &[], b"hello", false, 200, &[], b"world", false, &ctx(), 1024);
    assert!(d.iter().any(|x| x.field == Field::Body && !x.truncated));
}

#[test]
fn normalizers_composed_no_false_divergence() {
    let d = diff_responses(
        200, &hdrs(&[("x-cgi", "SERVER_PORT=8081")]), b"", false,
        200, &hdrs(&[("x-cgi", "SERVER_PORT=8082")]), b"", false, &ctx(), 1024,
    );
    assert!(d.is_empty());
}

#[test]
fn normalize_paths_is_utf8_safe() {
    let multibyte = "café — /tmp/thttpd_golden_abc/日本語.txt";
    let n1 = normalize_value(multibyte);
    let n2 = normalize_value(multibyte);
    assert_eq!(n1, n2);
    assert_eq!(n1, "café — /tmp/thttpd_NORMALIZED/日本語.txt");
    let _ = normalize_value("PWD=/var/日本語 SERVER_PORT=8081");
}

#[test]
fn identical_responses_no_divergence() {
    let d = diff_responses(
        200, &hdrs(&[("content-type", "text/plain")]), b"same", false,
        200, &hdrs(&[("content-type", "text/plain")]), b"same", false, &ctx(), 1024,
    );
    assert!(d.is_empty());
}

#[test]
fn temp_path_substitution() {
    let d = diff_responses(
        200, &[], b"/tmp/pytest-abc123/index.html", false,
        200, &[], b"/tmp/pytest_NORMALIZED/index.html", false, &ctx(), 1024,
    );
    assert!(d.is_empty());
}

#[test]
fn cgi_port_substitution() {
    let d = diff_responses(
        200, &[], b"SERVER_PORT=8081\nHTTP_HOST=127.0.0.1:8081", false,
        200, &[], b"SERVER_PORT=PORT\nHTTP_HOST=127.0.0.1:PORT", false, &ctx(), 1024,
    );
    assert!(d.is_empty());
}

#[test]
fn truncation_records_divergence() {
    let d = diff_responses(200, &[], b"partial", true, 200, &[], b"partial", false, &ctx(), 1024);
    assert!(d.iter().any(|x| x.field == Field::Body && x.truncated));
}

#[test]
fn timestamp_shapes_are_recognized() {
    assert!(is_timestamp("Tue, 09 Jun 2026 03:20:35 GMT"));
    assert!(!is_timestamp("not a date"));
    assert!(!is_timestamp("Tue, 9 Jun 2026 03:20:35 GMT"));
}

#[test]
fn distinct_invalid_byte_sequences_stay_distinct() {
    let a = normalize_body_bytes(&[0x80]);
    let b = normalize_body_bytes(&[0x81]);
    assert_ne!(a, b);
    assert_eq!(a, vec![0x80]);
    assert_eq!(b, vec![0x81]);
    let d = diff_responses(200, &[], &[0x80], false, 200, &[], &[0x81], false, &ctx(), 1024);
    assert!(d.iter().any(|x| x.field == Field::Body && !x.truncated));
}

#[test]
fn latin1_roundtrip_preserves_bytes() {
    let all: Vec<u8> = (0u8..=255).collect();
    let rt = latin1_to_bytes(&bytes_to_latin1(&all));
    assert_eq!(rt, all);
}

#[test]
fn replacement_rules() {
    assert_eq!(regex_replace("SERVER_PORT=", "SERVER_PORT=", Tail::Digits, "X"), "SERVER_PORT=");
    assert_eq!(regex_replace("a=1 a=22 a=", "a=", Tail::Digits, "a=N"), "a=N a=N a=");
    assert_eq!(regex_replace("k: v\nk: w", "k: ", Tail::NotNewline, "k: _"), "k: _\nk: _");
    assert_eq!(regex_replace("xx.*yy", "x", Tail::Any, "Z"), "Z");
    assert_eq!(regex_replace("abab", "ab", Tail::Nothing, "c"), "cc");
    assert_eq!(normalize_cgi_output("Host: 127.0.0.1:9\nHost=127.0.0.1:10"), "Host: 127.0.0.1:PORT\nHost=127.0.0.1:PORT");
    assert_eq!(normalize_pwd("PWD=/srv/cgi-bin"), "PWD=NORMALIZED");
    assert_eq!(normalize_pwd("PWD=/var/www/cgi-bin\nX=1"), "PWD=NORMALIZED\nX=1");
    assert_eq!(normalize_pwd("PWD=relative"), "PWD=relative");
    assert_eq!(normalize_paths("/tmp/thttpd_diff_ab_c9/x /tmp/pytest-7/y"), "/tmp/thttpd_NORMALIZED/x /tmp/pytest_NORMALIZED/y");
    assert_eq!(normalize_paths("/tmp/thttpd_diff_xy/z"), "/tmp/thttpd_NORMALIZED/z");
    assert_eq!(normalize_paths("/tmp/thttpd_diff_/z"), "/tmp/thttpd_NORMALIZED/z");
    // Multibyte text right after a prefix is kept whole.
    assert_eq!(normalize_paths("/tmp/thttpd_diff_a日本"), "/tmp/thttpd_NORMALIZED日本");
    assert_eq!(normalize_paths("/tmp/thttpd_diff_日本"), "/tmp/thttpd_NORMALIZED日本");
}

#[test]
fn status_and_body_drift_flagged_first_and_last() {
    let d = diff_responses(200, &[], b"abc", false, 404, &[], b"abd", false, &ctx(), 1024);
    assert_eq!(d.first().map(|x| x.field.clone()), Some(Field::Status));
    assert_eq!(d.last().map(|x| x.field.clone()), Some(Field::Body));
}

#[test]
fn normalizers_take_any_text() {
    assert_eq!(normalize_value("SERVER_PORT=8081"), normalize_value("SERVER_PORT=8082"));
    let _ = normalize_value("café — /tmp/thttpd_golden_abc/日本語.txt");
    let _ = normalize_value("/tmp/thttpd_diff_x日本語 /tmp/pytest-日本/z");
}
