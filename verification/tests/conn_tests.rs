use thttpd::conn::{HttpConn, READ_BUF_SIZE};
use thttpd::connection::ConnState;
use thttpd::method::Method;

#[test]
fn test_x_forwarded_for_field_init() {
    let conn = HttpConn::new();
    assert!(conn.x_forwarded_for.is_empty());
}

#[test]
fn test_x_forwarded_for_reset() {
    let mut conn = HttpConn::new();
    conn.x_forwarded_for = "192.0.2.42".to_string();
    conn.reset();
    assert!(conn.x_forwarded_for.is_empty());
}

#[test]
fn reset_returns_every_field_but_the_buffer() {
    let mut conn = HttpConn::new();
    assert_eq!(conn.read_buf.len(), READ_BUF_SIZE);
    conn.read_buf[0] = 7;
    conn.read_idx = 12;
    conn.method = Method::Post;
    conn.charset = "utf-8".into();
    conn.last_byte_index = 99;
    conn.mime_flag = false;
    conn.headers.push(("A".into(), "1".into()));
    conn.state = ConnState::Sending;
    conn.keep_alive = true;
    conn.reset();
    assert_eq!(conn.read_buf[0], 7);
    assert_eq!(conn.read_idx, 0);
    assert_eq!(conn.method, Method::Unknown);
    assert_eq!(conn.charset, "iso-8859-1");
    assert_eq!(conn.last_byte_index, -1);
    assert!(conn.mime_flag);
    assert!(conn.headers.is_empty());
    assert_eq!(conn.state, ConnState::Reading);
    assert!(!conn.keep_alive);
}
