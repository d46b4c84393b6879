use thttpd::cgi::{build_envp, is_nph_script, CgiContext};

fn ctx() -> CgiContext {
    CgiContext {
        server_software: "thttpd/2.27".into(),
        server_name: "localhost".into(),
        gateway_interface: "CGI/1.1".into(),
        server_protocol: "HTTP/1.0".into(),
        server_port: 80,
        request_method: "GET".into(),
        script_name: "/test.cgi".into(),
        query_string: "".into(),
        remote_addr: "127.0.0.1".into(),
        content_type: None,
        content_length: None,
        http_headers: Vec::new(),
        path_info: None,
        path_translated: None,
        remote_user: None,
        auth_type: None,
    }
}

#[test]
fn test_nph_detection() {
    assert!(is_nph_script("nph-test.cgi"));
    assert!(!is_nph_script("test.cgi"));
}

#[test]
fn test_env_order() {
    let env = build_envp(&ctx(), "/test.cgi", "**.cgi");
    assert_eq!(env[0].0, "PATH");
    assert_eq!(env[0].1, "/usr/local/bin:/usr/ucb:/bin:/usr/bin");
}

#[test]
fn nph_uses_the_file_name() {
    assert!(is_nph_script("/srv/cgi-bin/nph-x"));
    assert!(!is_nph_script("/srv/nph-dir/x.cgi"));
    assert!(!is_nph_script("/"));
}

#[test]
fn env_carries_port_and_request() {
    let env = build_envp(&ctx(), "/test.cgi", "**.cgi");
    assert!(env.iter().any(|(k, v)| k == "SERVER_PORT" && v == "80"));
    assert!(env.iter().any(|(k, v)| k == "REQUEST_METHOD" && v == "GET"));
}

#[test]
fn cgi_remote_addr_prefers_forwarded_and_cleans_peer() {
    use_cgi_addr_checks();
}

fn use_cgi_addr_checks() {
    assert_eq!(thttpd::cgi::cgi_remote_addr("203.0.113.9", "127.0.0.1:5555"), "203.0.113.9");
    assert_eq!(thttpd::cgi::cgi_remote_addr("", "127.0.0.1:5555"), "127.0.0.1");
    assert_eq!(thttpd::cgi::cgi_remote_addr("", "[::1]:8080"), "::1");
    assert_eq!(thttpd::cgi::cgi_remote_addr("", "[::ffff:10.0.0.7]:443"), "10.0.0.7");
    assert_eq!(thttpd::cgi::host_without_port("example.com:8080"), "example.com");
    assert_eq!(thttpd::cgi::host_without_port("example.com"), "example.com");
}

#[test]
fn cgi_response_prefixes_status_line_unless_nph() {
    let out = b"Status: 404 Not Found\r\nContent-Type: text/plain\r\n\r\nnope".to_vec();
    let r = thttpd::serving::cgi_response(false, out.clone());
    let mut want = b"HTTP/1.0 404 Not Found\r\n".to_vec();
    want.extend_from_slice(&out);
    assert_eq!(r, want);
    assert_eq!(thttpd::serving::cgi_response(true, out.clone()), out);
    let moved = b"Location: /x\n\n".to_vec();
    assert!(thttpd::serving::cgi_response(false, moved).starts_with(b"HTTP/1.0 302 Found\r\n"));
}

#[test]
fn nph_is_read_from_the_last_component() {
    assert!(is_nph_script("/cgi-bin/nph-test"));
    assert!(is_nph_script("/cgi-bin/nph-test/"));
    assert!(is_nph_script("/cgi-bin/./nph-x/."));
    assert!(!is_nph_script("/cgi-bin/nph-dir/script"));
    assert!(!is_nph_script("/cgi-bin/nph-x/.."));
    assert!(!is_nph_script("/"));
}
