use thttpd::response::{defang, error_page, ResponseBuilder, SERVER_SOFTWARE};

#[test]
fn test_response_builder() {
    let resp = ResponseBuilder::new()
        .status(200, "OK")
        .header("Content-Type", "text/html")
        .header("Content-Length", "5")
        .body(b"hello".to_vec())
        .build();
    let s = String::from_utf8(resp).unwrap();
    assert!(s.starts_with("HTTP/1.0 200 OK\r\n"));
    assert!(s.contains("Content-Type: text/html\r\n"));
    assert!(s.contains("Content-Length: 5\r\n"));
}

#[test]
fn test_header_order_preserved() {
    let resp = ResponseBuilder::new()
        .status(200, "OK")
        .header("Date", "now")
        .header("Server", "thttpd")
        .header("Content-Type", "text/html")
        .build();
    let s = String::from_utf8(resp).unwrap();
    let date_pos = s.find("Date:").unwrap();
    let server_pos = s.find("Server:").unwrap();
    let ct_pos = s.find("Content-Type:").unwrap();
    assert!(date_pos < server_pos);
    assert!(server_pos < ct_pos);
}

#[test]
fn test_error_page_404() {
    let html = error_page(404, "Not Found", "The requested URL '%.80s' was not found on this server.\n", "/nonexistent.html", None);
    let s = String::from_utf8(html).unwrap();
    assert!(s.contains("<TITLE>404 Not Found</TITLE>"));
    assert!(s.contains("<H2>404 Not Found</H2>"));
    assert!(s.contains("was not found on this server"));
    assert!(s.contains("<HR>"));
    assert!(s.contains("<ADDRESS>"));
    assert!(s.contains(SERVER_SOFTWARE));
    assert!(!s.contains("Padding so that MSIE"));
}

#[test]
fn test_error_page_msie_padding() {
    let html = error_page(404, "Not Found", "not found\n", "x",
        Some("Mozilla/4.0 (compatible; MSIE 6.0; Windows NT 5.1)"));
    let s = String::from_utf8(html).unwrap();
    assert!(s.contains("<!--\n"));
    assert!(s.contains("-->\n"));
    let pad_count = s.matches("Padding so that MSIE deigns to show this error").count();
    assert_eq!(pad_count, 6, "MSIE padding must have exactly 6 lines");
    assert!(s.contains("Padding so that MSIE deigns to show this error instead of its own canned one.\n"));
}

#[test]
fn test_error_page_no_msie_no_padding() {
    let html = error_page(404, "Not Found", "not found\n", "x",
        Some("Mozilla/5.0 (X11; Linux x86_64) Firefox/100.0"));
    let s = String::from_utf8(html).unwrap();
    assert!(!s.contains("Padding so that MSIE"));
    assert!(!s.contains("<!--"));
}

#[test]
fn test_defang() {
    assert_eq!(defang("<script>"), "&lt;script&gt;");
    assert_eq!(defang("normal"), "normal");
}

#[test]
fn built_response_is_exact() {
    let resp = ResponseBuilder::new().status(404, "Not Found").header("A", "b").body(b"x".to_vec()).build();
    assert_eq!(resp, b"HTTP/1.0 404 Not Found\r\nA: b\r\n\r\nx".to_vec());
    let default = ResponseBuilder::default().build();
    assert_eq!(default, b"HTTP/1.0 200 OK\r\n\r\n".to_vec());
}

#[test]
fn error_page_escapes_and_cuts_the_argument() {
    let arg = "<".repeat(30);
    let html = error_page(400, "Bad Request", "[%.80s]", &arg, None);
    let s = String::from_utf8(html).unwrap();
    let expected_arg = "&lt;".repeat(20);
    assert!(s.contains(&format!("[{}]", expected_arg)));
}

#[test]
fn error_page_exact_text() {
    let html = error_page(500, "Oops", "msg\n", "", None);
    let s = String::from_utf8(html).unwrap();
    assert_eq!(
        s,
        "<HTML>\n<HEAD><TITLE>500 Oops</TITLE></HEAD>\n<BODY BGCOLOR=\"#cc9999\" TEXT=\"#000000\" LINK=\"#2020ff\" VLINK=\"#4040cc\">\n<H2>500 Oops</H2>\nmsg\n<HR>\n<ADDRESS><A HREF=\"http://localhost\">sthttpd/2.27.0 03oct2014</A></ADDRESS>\n</BODY>\n</HTML>\n"
    );
}

fn http09_ctx(mime_flag: bool) -> thttpd::response::ResponseContext {
    thttpd::response::ResponseContext {
        mime_flag,
        http_version: String::new(),
        got_range: false,
        first_byte_index: 0,
        last_byte_index: -1,
        range_if: None,
    }
}

const NOW: i64 = 1_700_000_000;

#[test]
fn test_build_full_response_headers() {
    let ctx = http09_ctx(true);
    let resp = thttpd::response::build_full_response(&ctx, 200, "OK", "text/html", 69, 1000000, &[], NOW);
    let s = String::from_utf8(resp).unwrap();
    assert!(s.starts_with("HTTP/1.0 200 OK\r\n"));
    assert!(s.contains("Server: sthttpd/2.27.0 03oct2014\r\n"));
    assert!(s.contains("Content-Type: text/html; charset=iso-8859-1\r\n"));
    assert!(s.contains("Accept-Ranges: bytes\r\n"));
    assert!(s.contains("Connection: close\r\n"));
    assert!(s.contains("Content-Length: 69\r\n"));
    assert!(!s.contains("Cache-Control"));
}

#[test]
fn test_build_full_response_error() {
    let ctx = http09_ctx(true);
    let resp = thttpd::response::build_full_response(&ctx, 404, "Not Found", "text/html", -1, 0, &[], NOW);
    let s = String::from_utf8(resp).unwrap();
    assert!(s.contains("Cache-Control: no-cache,no-store\r\n"));
    assert!(!s.contains("Content-Length"));
}

#[test]
fn test_build_full_response_0_9() {
    let ctx = http09_ctx(false);
    let resp = thttpd::response::build_full_response(&ctx, 200, "OK", "text/html", 13, 0, &[], NOW);
    assert!(resp.is_empty());
}

#[test]
fn builder_last_status_and_body_win_headers_keep_order() {
    let r = ResponseBuilder::new()
        .status(404, "Not Found")
        .header("A", "1")
        .body(b"first".to_vec())
        .header("A", "2")
        .status(201, "Created")
        .body(b"second".to_vec())
        .build();
    assert_eq!(r, b"HTTP/1.0 201 Created\r\nA: 1\r\nA: 2\r\n\r\nsecond".to_vec());
}
