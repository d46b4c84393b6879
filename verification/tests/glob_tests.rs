use thttpd::glob::match_pattern;

#[test]
fn test_star_match() {
    assert!(match_pattern("*.html", "index.html"));
    assert!(!match_pattern("*.html", "image.png"));
}

#[test]
fn test_double_star() {
    assert!(match_pattern("**.cgi", "/cgi-bin/test.cgi"));
}

#[test]
fn test_alternation() {
    assert!(match_pattern("*.cgi|*.sh", "test.cgi"));
    assert!(match_pattern("*.cgi|*.sh", "test.sh"));
    assert!(!match_pattern("*.cgi|*.sh", "test.html"));
}

#[test]
fn test_question_mark() {
    assert!(match_pattern("test?.cgi", "test1.cgi"));
    assert!(!match_pattern("test?.cgi", "test.cgi"));
}

#[test]
fn test_star_no_cross_slash() {
    assert!(match_pattern("*.cgi", "test.cgi"));
    assert!(!match_pattern("*.cgi", "sub/test.cgi"));
}

#[test]
fn test_empty_pattern() {
    assert!(match_pattern("", ""));
    assert!(!match_pattern("", "file"));
}

#[test]
fn test_cgi_pattern() {
    assert!(match_pattern("/cgi-bin/*|/jef/**", "/cgi-bin/hello"));
    assert!(match_pattern("/cgi-bin/*|/jef/**", "/jef/sub/deep/file"));
}

#[test]
fn test_exact_match() {
    assert!(match_pattern("index.html", "index.html"));
    assert!(!match_pattern("index.html", "other.html"));
}

#[test]
fn test_non_ascii_wildcards_no_panic() {
    assert!(match_pattern("caf*", "café"));
    assert!(match_pattern("*é", "café"));
    assert!(match_pattern("**", "café/naïve/file"));
    assert!(match_pattern("*.html", "résumé.html"));
    assert!(!match_pattern("café", "caff"));
    assert!(!match_pattern("*é", "café/naïve"));
}

#[test]
fn double_star_matches_any_path() {
    assert!(match_pattern("**", ""));
    assert!(match_pattern("**", "/a/b/c"));
}

#[test]
fn single_star_stays_in_one_segment() {
    assert!(match_pattern("*", "abc"));
    assert!(!match_pattern("*", "a/b"));
}

#[test]
fn alternation_takes_either_side() {
    assert!(match_pattern("a|b", "b"));
    assert!(match_pattern("a|b", "a"));
    assert!(!match_pattern("a|b", "c"));
}

#[test]
fn alternation_is_disjunction_for_any_alternatives() {
    let a = "*.cgi|*.sh";
    let b = "/jef/**|x";
    let joined = format!("{a}|{b}");
    for f in ["t.sh", "t.cgi", "/jef/q/r", "x", "y.html"] {
        assert_eq!(match_pattern(&joined, f), match_pattern(a, f) || match_pattern(b, f));
    }
}
