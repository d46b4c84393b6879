use thttpd::serving::{
    build_error_response, cgi_status_from_headers, entity_bytes_sent, extract_cgi_status,
    header_end_offset, logged_status_code, status_code_from_response, throttle_match_path,
};

#[test]
fn throttle_match_path_strips_a_single_leading_slash() {
    assert_eq!(throttle_match_path("/index.html"), "index.html");
    assert_eq!(throttle_match_path("/cgi-bin/foo"), "cgi-bin/foo");
    assert_eq!(throttle_match_path("index.html"), "index.html");
    assert_eq!(throttle_match_path("/"), "");
}

#[test]
fn header_end_prefers_crlf() {
    assert_eq!(header_end_offset(b"HTTP/1.0 200 OK\r\n\r\nbody"), Some(19));
    assert_eq!(header_end_offset(b"a\n\nb"), Some(3));
    assert_eq!(header_end_offset(b"abc"), None);
}

#[test]
fn entity_bytes_exclude_headers() {
    assert_eq!(entity_bytes_sent(100, 40), 60);
    assert_eq!(entity_bytes_sent(10, 40), 0);
}

#[test]
fn status_line_code() {
    assert_eq!(status_code_from_response(b"HTTP/1.0 404 Not Found\r\n\r\n"), Some(404));
    assert_eq!(status_code_from_response(b"XTTP/1.0 404 Not Found\r\n"), None);
    assert_eq!(status_code_from_response(b"HTTP/1.0 404"), None);
}

#[test]
fn error_response_has_length() {
    let r = build_error_response(400, "Bad Request", "", None);
    let s = String::from_utf8(r).unwrap();
    assert!(s.starts_with("HTTP/1.0 400 Bad Request\r\nContent-Type: text/html\r\nContent-Length: "));
    let end = header_end_offset(s.as_bytes()).unwrap();
    let len: usize = s[..end].lines().find(|l| l.starts_with("Content-Length: ")).unwrap()["Content-Length: ".len()..].parse().unwrap();
    assert_eq!(len, s.len() - end);
}

#[test]
fn cgi_status_defaults_and_overrides() {
    assert_eq!(extract_cgi_status(b"Content-Type: text/html\r\n\r\nbody"), (200, "OK".to_string()));
    assert_eq!(extract_cgi_status(b"no blank line yet\r\n"), (200, "OK".to_string()));
    assert_eq!(
        extract_cgi_status(b"Status: 404 Not Found\r\nContent-Type: text/plain\r\n\r\n"),
        (404, "Not Found".to_string())
    );
    assert_eq!(extract_cgi_status(b"Location: /x\n\nbody"), (302, "Found".to_string()));
    assert_eq!(
        extract_cgi_status(b"Location: /x\r\nStatus: 301\r\n\r\n"),
        (301, "Something".to_string())
    );
    assert_eq!(
        extract_cgi_status(b"Status: 503\r\nLocation: /x\r\n\r\n"),
        (503, "Service Unavailable".to_string())
    );
    assert_eq!(cgi_status_from_headers(" STATUS : abc\nstatus:  401xyz"), (401, "Unauthorized".to_string()));
    assert_eq!(cgi_status_from_headers("Status: 99999"), (200, "OK".to_string()));
}

#[test]
fn logged_status_prefers_recorded_code() {
    assert_eq!(logged_status_code(404, b"HTTP/1.0 200 OK\r\n"), 404);
    assert_eq!(logged_status_code(0, b"HTTP/1.0 206 Partial\r\n"), 206);
    assert_eq!(logged_status_code(0, b"garbage"), 0);
}

#[test]
fn cgi_status_line_gives_the_status() {
    let out = b"HTTP/1.0 404 Not Found\r\nContent-Type: text/html\r\n\r\nbody";
    assert_eq!(thttpd::serving::extract_cgi_status(out), (404, "Not Found".to_string()));
    // A status line wins over a Location header.
    let out2 = b"HTTP/1.1 200 OK\nLocation: /x\n\n";
    assert_eq!(thttpd::serving::extract_cgi_status(out2), (200, "OK".to_string()));
    // A status line without a code falls back to the header scan.
    let out3 = b"HTTP/1.0 abc\nStatus: 403\n\n";
    assert_eq!(thttpd::serving::extract_cgi_status(out3).0, 403);
}
