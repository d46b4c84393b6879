use thttpd::url::{from_hex, normalize_path, percent_decode};

#[test]
fn test_percent_decode_simple() {
    assert_eq!(percent_decode("hello%20world"), "hello world");
}

#[test]
fn test_percent_decode_plus() {
    assert_eq!(percent_decode("a+b"), "a b");
}

#[test]
fn test_percent_decode_hex() {
    assert_eq!(percent_decode("%41%42%43"), "ABC");
}

#[test]
fn test_percent_decode_malformed_no_panic() {
    assert_eq!(percent_decode("foo%"), "foo%");
    assert_eq!(percent_decode("foo%4"), "foo%4");
    assert_eq!(percent_decode("%ZZ"), "%ZZ");
    assert_eq!(percent_decode("%4Z"), "%4Z");
    assert_eq!(percent_decode("100%done"), "100%done");
}

#[test]
fn test_percent_decode_multibyte_no_panic() {
    let input = "%é";
    assert_eq!(percent_decode(input), "%é");
}

#[test]
fn test_normalize_simple() {
    assert_eq!(normalize_path("/foo/bar"), Some("/foo/bar".to_string()));
}

#[test]
fn test_normalize_dotdot() {
    assert_eq!(normalize_path("/foo/../bar"), Some("/bar".to_string()));
}

#[test]
fn test_normalize_traversal() {
    assert_eq!(normalize_path("/../../etc/passwd"), None);
}

#[test]
fn test_normalize_double_slash() {
    assert_eq!(normalize_path("//test.txt"), None);
    assert_eq!(normalize_path("/foo//bar"), None);
}

#[test]
fn hex_digits_decode() {
    assert_eq!(from_hex(b'0'), Some(0));
    assert_eq!(from_hex(b'a'), Some(10));
    assert_eq!(from_hex(b'F'), Some(15));
    assert_eq!(from_hex(b'g'), None);
}

#[test]
fn invalid_utf8_escape_is_replaced() {
    assert_eq!(percent_decode("%FF"), "\u{FFFD}");
}

#[test]
fn normalized_components_are_plain() {
    assert_eq!(normalize_path("/a/./b"), Some("/a/b".to_string()));
    assert_eq!(normalize_path("/a/b/.."), Some("/a".to_string()));
}

#[test]
fn normalizing_twice_changes_nothing() {
    for p in ["/a/./b/../c", "/", "/x/y/", "/a/b/c/../../d", "a/b"] {
        let once = normalize_path(p).unwrap();
        assert_eq!(normalize_path(&once), Some(once.clone()));
        assert!(once.starts_with('/'));
        assert!(!once.contains("//"));
    }
    assert_eq!(normalize_path("/.."), None);
    assert_eq!(normalize_path("/a//b"), None);
}
