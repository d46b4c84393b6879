use thttpd::auth::{check_htpasswd, htpasswd_lookup, parse_basic_auth, verified_result, AuthResult, PasswordCheck};

#[test]
fn test_parse_basic_auth_valid() {
    let result = parse_basic_auth("Basic YWxpY2U6c2VjcmV0");
    assert_eq!(result, Some(("alice".to_string(), "secret".to_string())));
}

#[test]
fn test_parse_basic_auth_with_password_colon() {
    let result = parse_basic_auth("Basic Ym9iOnBhc3M6d2l0aDpjb2xvbnM=");
    assert_eq!(result, Some(("bob".to_string(), "pass:with:colons".to_string())));
}

#[test]
fn test_parse_basic_auth_wrong_scheme() {
    assert_eq!(parse_basic_auth("Bearer abc"), None);
}

#[test]
fn test_parse_basic_auth_empty() {
    assert_eq!(parse_basic_auth(""), None);
}

#[test]
fn test_parse_basic_auth_no_colon_in_decoded() {
    let result = parse_basic_auth("Basic bm9jb2xvbg==");
    assert_eq!(result, None);
}

#[test]
fn parse_basic_auth_trims_and_rejects_bad_base64() {
    assert_eq!(
        parse_basic_auth("  Basic   YWxpY2U6c2VjcmV0 \r\n"),
        Some(("alice".to_string(), "secret".to_string()))
    );
    assert_eq!(parse_basic_auth("Basic !!!!"), None);
    assert_eq!(parse_basic_auth("basic YWxpY2U6c2VjcmV0"), None);
    // base64("\xff:x") is not UTF-8
    assert_eq!(parse_basic_auth("Basic /zp4"), None);
}

const HTPASSWD: &str = "alice:$1$abcd$Oy8OD9LGKv7H9yIMreLNV1\n";

#[test]
fn htpasswd_lookup_takes_first_matching_line() {
    let text = "\n  \nmalformed\nbob:hash1\r\nbob:hash2\nalice:$1$x:y  \n";
    assert_eq!(htpasswd_lookup(text, "bob"), Some("hash1".to_string()));
    assert_eq!(htpasswd_lookup(text, "alice"), Some("$1$x:y".to_string()));
    assert_eq!(htpasswd_lookup(text, "carol"), None);
    assert_eq!(htpasswd_lookup("", "bob"), None);
}

#[test]
fn check_htpasswd_denies_without_credentials() {
    assert!(matches!(check_htpasswd("", Some(HTPASSWD)), PasswordCheck::Deny));
}

#[test]
fn check_htpasswd_denies_unknown_user() {
    // base64("bob:secret")
    assert!(matches!(check_htpasswd("Basic Ym9iOnNlY3JldA==", Some(HTPASSWD)), PasswordCheck::Deny));
}

#[test]
fn check_htpasswd_denies_unreadable_file() {
    assert!(matches!(check_htpasswd("Basic YWxpY2U6c2VjcmV0", None), PasswordCheck::Deny));
}

#[test]
fn check_htpasswd_verifies_known_user() {
    match check_htpasswd("Basic YWxpY2U6c2VjcmV0", Some(HTPASSWD)) {
        PasswordCheck::Verify { password, hash } => {
            assert_eq!(password, "secret");
            assert_eq!(hash, "$1$abcd$Oy8OD9LGKv7H9yIMreLNV1");
        }
        PasswordCheck::Deny => panic!("expected a password check"),
    }
    assert_eq!(verified_result(true), AuthResult::Authorized);
    assert_eq!(verified_result(false), AuthResult::Unauthorized);
}
