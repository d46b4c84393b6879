use thttpd::method::Method;
use thttpd::parse::{got_request, parse_method};
use thttpd::parse_state::{GotRequest, ParseState};

#[test]
fn test_simple_get() {
    let buf = b"GET / HTTP/1.0\r\n\r\n";
    let (result, _, _) = got_request(buf, 0, buf.len(), ParseState::FirstWord);
    assert_eq!(result, GotRequest::GotRequest);
}

#[test]
fn test_incomplete_request() {
    let buf = b"GET / HTTP/1.0\r\n";
    let (result, _, _) = got_request(buf, 0, buf.len(), ParseState::FirstWord);
    assert_eq!(result, GotRequest::NoRequest);
}

#[test]
fn test_http09_two_word() {
    let buf = b"GET /\r\n";
    let (result, _, _) = got_request(buf, 0, buf.len(), ParseState::FirstWord);
    assert_eq!(result, GotRequest::GotRequest);
}

#[test]
fn test_bad_request() {
    let buf = b"GET / HTTP/1.0\r\n\rX";
    let (_result, _, _) = got_request(buf, 0, buf.len(), ParseState::FirstWord);
    let buf2 = b"\rGET / HTTP/1.0\r\n\r\n";
    let (result2, _, _) = got_request(buf2, 0, buf2.len(), ParseState::FirstWord);
    assert_eq!(result2, GotRequest::BadRequest);
}

#[test]
fn test_headers_with_body() {
    let buf = b"GET / HTTP/1.0\r\nHost: localhost\r\n\r\n";
    let (result, _, _) = got_request(buf, 0, buf.len(), ParseState::FirstWord);
    assert_eq!(result, GotRequest::GotRequest);
}

#[test]
fn test_incremental_byte_by_byte() {
    let buf = b"GET / HTTP/1.0\r\n\r\n";
    let mut checked_idx = 0;
    let mut state = ParseState::FirstWord;
    for i in 0..buf.len() {
        let (result, new_checked, new_state) = got_request(buf, checked_idx, i + 1, state.clone());
        checked_idx = new_checked;
        state = new_state;
        if i < buf.len() - 1 {
            assert_eq!(result, GotRequest::NoRequest, "should not complete at byte {}", i);
        } else {
            assert_eq!(result, GotRequest::GotRequest, "should complete at last byte");
        }
    }
}

#[test]
fn test_parse_method() {
    assert_eq!(parse_method(b"GET / HTTP/1.0\r\n", 14), Method::Get);
    assert_eq!(parse_method(b"POST / HTTP/1.0\r\n", 15), Method::Post);
    assert_eq!(parse_method(b"HEAD / HTTP/1.0\r\n", 15), Method::Head);
}

#[test]
fn test_crlfcr_cr_terminator() {
    let buf = b"GET / HTTP/1.0\r\n\r\r";
    let (result, _, _) = got_request(buf, 0, buf.len(), ParseState::FirstWord);
    assert_eq!(result, GotRequest::GotRequest);
}

#[test]
fn test_cr_cr_terminator() {
    let buf = b"GET / HTTP/1.0\r\r";
    let (result, _, _) = got_request(buf, 0, buf.len(), ParseState::FirstWord);
    assert_eq!(result, GotRequest::GotRequest);
}

#[test]
fn test_lf_cr_not_end() {
    let buf = b"GET / HTTP/1.0\n\r\n";
    let (result, _, _) = got_request(buf, 0, buf.len(), ParseState::FirstWord);
    assert_eq!(result, GotRequest::NoRequest);
}

#[test]
fn test_lf_lf_terminator() {
    let buf = b"GET / HTTP/1.0\n\n";
    let (result, _, _) = got_request(buf, 0, buf.len(), ParseState::FirstWord);
    assert_eq!(result, GotRequest::GotRequest);
}

#[test]
fn test_firstws_cr_is_bad() {
    let buf = b"GET \r\n\r\n";
    let (result, _, _) = got_request(buf, 0, buf.len(), ParseState::FirstWord);
    assert_eq!(result, GotRequest::BadRequest);
}

#[test]
fn test_secondws_cr_is_bad() {
    let buf = b"GET / \r\n\r\n";
    let (result, _, _) = got_request(buf, 0, buf.len(), ParseState::FirstWord);
    assert_eq!(result, GotRequest::BadRequest);
}

#[test]
fn test_thirdws_garbage_is_bad() {
    let buf = b"GET / HTTP/1.0 X\r\n\r\n";
    let (result, _, _) = got_request(buf, 0, buf.len(), ParseState::FirstWord);
    assert_eq!(result, GotRequest::BadRequest);
}

#[test]
fn split_arrival_equals_whole_arrival() {
    let buf = b"GET /x HTTP/1.0\r\nHost: a\r\n\r\n";
    let (whole, _, _) = got_request(buf, 0, buf.len(), ParseState::initial());
    let (first, idx, st) = got_request(buf, 0, 10, ParseState::initial());
    assert_eq!(first, GotRequest::NoRequest);
    let (second, _, _) = got_request(buf, idx, buf.len(), st);
    assert_eq!(whole, second);
}

#[test]
fn method_names_round_trip() {
    assert_eq!(Method::parse("GET"), Method::Get);
    assert_eq!(Method::parse(Method::Post.as_str()), Method::Post);
    assert!(!ParseState::initial().is_terminal());
}

#[test]
fn method_names_parse_back() {
    for m in [Method::Get, Method::Head, Method::Post, Method::Unknown] {
        assert_eq!(Method::parse(m.as_str()), m);
    }
    assert_eq!(Method::parse("get"), Method::Unknown);
    assert_eq!(Method::parse("PUT"), Method::Unknown);
}
