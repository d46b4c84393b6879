use thttpd::answer::{
    begin_send, cgi_admission, cgi_context, cgi_post_body, cgi_refusal, long_component, request_dispatch,
    request_facts, request_route, static_answer, target_path, within_root, CgiRequest, Dispatch, FileStat, Quote,
    RouteStart, StaticAnswer, StaticFacts,
};
use thttpd::connection::ConnThrottle;
use thttpd::method::Method;
use thttpd::throttle::{ThrottleEntry, ThrottleTable};

fn facts() -> StaticFacts {
    StaticFacts {
        symlink_check: true,
        root: Some("/srv/www".into()),
        file_path: "/srv/www/a.html".into(),
        canonical: Some("/srv/www/a.html".into()),
        stat: Some(FileStat { is_dir: false, mode: 0o644, size: 100, mtime: 1000 }),
        not_found: false,
        unauthorized: false,
        has_path_info: false,
        method: Method::Get,
        if_modified_since: None,
        got_range: false,
        last_byte_index: -1,
    }
}

fn answer(f: &StaticFacts) -> StaticAnswer {
    let mut t = None;
    let mut c = ConnThrottle::new();
    static_answer(f, "/a.html", &mut t, &mut c)
}

fn refusal(a: StaticAnswer) -> (u16, Quote) {
    match a {
        StaticAnswer::Refuse { status, quote, .. } => (status, quote),
        _ => panic!("expected a refusal"),
    }
}

#[test]
fn within_root_compares_whole_components() {
    assert!(within_root("/srv/www", "/srv/www"));
    assert!(within_root("/srv/www", "/srv/www/a"));
    assert!(!within_root("/srv/www", "/srv/wwwx/a"));
    assert!(!within_root("/srv/www", "/etc/passwd"));
    assert!(within_root("/", "/etc"));
    assert!(within_root("/srv/www/", "/srv//www/./a"));
    assert!(!within_root("srv/www", "/srv/www/a"));
    assert!(!within_root("/srv/www/a", "/srv/www"));
}

#[test]
fn long_components_are_found() {
    let long = "x".repeat(256);
    assert!(long_component(&format!("/a/{long}/b")));
    assert!(!long_component(&format!("/a/{}/b", "x".repeat(255))));
}

#[test]
fn static_answers_in_order() {
    let mut f = facts();
    f.root = None;
    assert_eq!(refusal(answer(&f)), (500, Quote::Dir));
    let mut f = facts();
    f.canonical = Some("/etc/passwd".into());
    assert_eq!(refusal(answer(&f)), (403, Quote::Url));
    let mut f = facts();
    f.stat = None;
    f.not_found = true;
    assert_eq!(refusal(answer(&f)), (404, Quote::Url));
    let mut f = facts();
    f.unauthorized = true;
    assert!(matches!(answer(&f), StaticAnswer::Unauthorized));
    let mut f = facts();
    f.stat = Some(FileStat { is_dir: true, mode: 0o755, size: 0, mtime: 7 });
    assert!(matches!(answer(&f), StaticAnswer::Listing { mtime: 7 }));
    let mut f = facts();
    f.stat = Some(FileStat { is_dir: false, mode: 0o600, size: 1, mtime: 1 });
    assert_eq!(refusal(answer(&f)), (403, Quote::Url));
    let mut f = facts();
    f.method = Method::Head;
    assert!(matches!(answer(&f), StaticAnswer::HeadOnly { status: 200, length: 100, .. }));
    let mut f = facts();
    f.if_modified_since = Some(1000);
    assert!(matches!(answer(&f), StaticAnswer::HeadOnly { status: 304, length: -1, .. }));
    let mut f = facts();
    f.got_range = true;
    assert!(matches!(answer(&f), StaticAnswer::File { status: 206, last_byte_index: 99, .. }));
    match answer(&facts()) {
        StaticAnswer::File { status, mime_type, encoding, .. } => {
            assert_eq!(status, 200);
            assert_eq!(mime_type, "text/html");
            assert_eq!(encoding, None);
        }
        _ => panic!("expected the file"),
    }
}

#[test]
fn static_answer_checks_the_throttle_rules() {
    let mut entry = ThrottleEntry::new("*.html".into(), 1000, 0);
    entry.rate = 5000;
    let mut t = Some(ThrottleTable { entries: vec![entry] });
    let mut c = ConnThrottle::new();
    let a = static_answer(&facts(), "/a.html", &mut t, &mut c);
    assert_eq!(refusal(a), (503, Quote::RequestPath));
    assert!(c.checked);
    let mut t = Some(ThrottleTable { entries: vec![ThrottleEntry::new("*.html".into(), 1000, 0)] });
    let mut c = ConnThrottle::new();
    let a = static_answer(&facts(), "/a.html", &mut t, &mut c);
    assert!(matches!(a, StaticAnswer::File { .. }));
    assert_eq!(c.tnums, vec![0]);
    assert_eq!(c.max_limit, 1000);
    assert_eq!(t.unwrap().entries()[0].num_sending, 1);
}

#[test]
fn target_is_the_canonical_path_when_links_are_checked() {
    assert_eq!(target_path(true, "/a", Some("/b")), "/b");
    assert_eq!(target_path(false, "/a", Some("/b")), "/a");
    assert_eq!(target_path(true, "/a", None), "/a");
}

#[test]
fn cgi_refusals_in_order() {
    assert_eq!(cgi_refusal(None, 50, true, false).map(|r| r.0), Some(503));
    assert_eq!(cgi_refusal(None, 49, true, false), None);
    assert_eq!(cgi_refusal(Some(0), 1000, true, false), None);
    assert_eq!(cgi_refusal(Some(2), 2, false, false).map(|r| r.0), Some(503));
    assert_eq!(cgi_refusal(None, 0, false, false).map(|r| r.0), Some(404));
    assert_eq!(cgi_refusal(None, 0, true, true).map(|r| r.0), Some(404));
    let mut entry = ThrottleEntry::new("cgi-bin/*".into(), 1000, 0);
    entry.rate = 5000;
    let mut t = Some(ThrottleTable { entries: vec![entry] });
    let mut c = ConnThrottle::new();
    let r = cgi_admission(None, 0, true, false, "/cgi-bin/x", &mut t, &mut c);
    assert_eq!(r.map(|r| r.0), Some(503));
}

fn cgi_request() -> CgiRequest {
    CgiRequest {
        method: Method::Post,
        query: "a=1".into(),
        content_type: "text/plain".into(),
        content_length: Some(3),
        host: "example.com:8080".into(),
        user_agent: "ua".into(),
        referer: String::new(),
        accept: "*/*".into(),
        accept_encoding: String::new(),
        accept_language: String::new(),
        cookie: "k=v".into(),
        x_forwarded_for: String::new(),
        peer: "10.0.0.1".into(),
    }
}

#[test]
fn cgi_context_values() {
    let ctx = cgi_context(&cgi_request(), 8080, "host".into(), "/srv/www", "/cgi-bin/t", "/x/y");
    assert_eq!(ctx.request_method, "POST");
    assert_eq!(ctx.server_protocol, "HTTP/1.0");
    assert_eq!(ctx.remote_addr, "10.0.0.1");
    assert_eq!(ctx.path_info.as_deref(), Some("/x/y"));
    assert_eq!(ctx.path_translated.as_deref(), Some("/srv/www/x/y"));
    assert_eq!(ctx.content_type.as_deref(), Some("text/plain"));
    let names: Vec<&str> = ctx.http_headers.iter().map(|(k, _)| k.as_str()).collect();
    assert_eq!(names, vec!["Host", "User-Agent", "Accept", "Cookie"]);
    assert_eq!(ctx.http_headers[0].1, "example.com");
    let ctx = cgi_context(&cgi_request(), 80, "h".into(), "/srv/www", "/t", "");
    assert_eq!(ctx.path_info, None);
    assert_eq!(ctx.path_translated, None);
}

#[test]
fn cgi_body_is_taken_when_complete() {
    let buf = b"HEADxyz".to_vec();
    assert_eq!(cgi_post_body(Some(3), 4, &buf), Some(b"xyz".to_vec()));
    assert_eq!(cgi_post_body(Some(4), 4, &buf), None);
    assert_eq!(cgi_post_body(None, 4, &buf), None);
}

#[test]
fn request_facts_and_route() {
    let buf = b"GET /a%20b?q=1 HTTP/1.1\r\nHost: Example.COM\r\nRange: bytes=5-\r\nUser-Agent: t\r\nX-Forwarded-For: 1.2.3.4, 5.6.7.8\r\n\r\n".to_vec();
    let f = request_facts(&buf, buf.len());
    assert_eq!(f.method, Method::Get);
    assert_eq!(f.encoded_url, "/a%20b?q=1");
    assert_eq!(f.decoded_url, "/a b");
    assert_eq!(f.query, "q=1");
    assert!(f.mime_flag && f.one_one);
    assert_eq!(f.host, "Example.COM");
    assert!(f.got_range);
    assert_eq!((f.first_byte_index, f.last_byte_index), (5, -1));
    assert_eq!(f.user_agent, "t");
    assert_eq!(f.x_forwarded_for, "1.2.3.4");
    assert!(!f.date_unreadable);
    match request_route(&f, true) {
        RouteStart::Proceed { orig_filename, vhost_dir, search_path_info } => {
            assert_eq!(orig_filename, "/example.com/a b");
            assert_eq!(vhost_dir, "example.com");
            assert!(!search_path_info);
        }
        _ => panic!("expected to proceed"),
    }
    match request_route(&f, false) {
        RouteStart::Proceed { orig_filename, search_path_info, .. } => {
            assert_eq!(orig_filename, "/a b");
            assert!(search_path_info);
        }
        _ => panic!("expected to proceed"),
    }
    let buf = b"GET / HTTP/1.1\r\n\r\n".to_vec();
    let f = request_facts(&buf, buf.len());
    assert!(matches!(request_route(&f, false), RouteStart::Refuse { status: 400, quote: Quote::Version, with_user_agent: false, .. }));
    let buf = b"BREW / HTTP/1.0\r\n\r\n".to_vec();
    let f = request_facts(&buf, buf.len());
    assert!(matches!(request_route(&f, false), RouteStart::Refuse { status: 501, quote: Quote::MethodWord, .. }));
    let buf = b"GET /../x HTTP/1.0\r\n\r\n".to_vec();
    let f = request_facts(&buf, buf.len());
    assert!(matches!(request_route(&f, false), RouteStart::Refuse { quote: Quote::DecodedUrl, with_user_agent: true, .. }));
}

#[test]
fn dispatch_by_pattern_and_path_info() {
    assert_eq!(request_dispatch(Some("**.cgi"), "/x/t.cgi", true), Dispatch::Cgi);
    assert_eq!(request_dispatch(Some("**.cgi"), "/x/t.html", true), Dispatch::PathInfoNotCgi);
    assert_eq!(request_dispatch(None, "/x/t.cgi", false), Dispatch::Static);
}

#[test]
fn begin_send_refuses_over_bandwidth_transfers() {
    let mut entry = ThrottleEntry::new("*.html".into(), 1000, 0);
    entry.rate = 5000;
    let mut t = Some(ThrottleTable { entries: vec![entry] });
    let mut c = ConnThrottle::new();
    assert!(!begin_send(false, "/a.html", 10, 5, &mut t, &mut c));
    let mut t = Some(ThrottleTable { entries: vec![ThrottleEntry::new("*.html".into(), 1000, 0)] });
    let mut c = ConnThrottle::new();
    assert!(begin_send(false, "/a.html", 10, 5, &mut t, &mut c));
    assert_eq!(c.started_at, Some(5));
    assert_eq!(c.header_len, 10);
    let mut c = ConnThrottle::new();
    assert!(begin_send(true, "/a.html", 10, 5, &mut t, &mut c));
    assert_eq!(c.started_at, None);
}
