use thttpd::dirlist::{days_to_ymd, format_ls_time, is_leap, truncate_to_80, url_encode, render_listing, ListingEntry};

#[test]
fn test_format_ls_time() {
    let t = format_ls_time(1749478915, 1749478915 + 3600);
    assert!(t.starts_with("Jun"));
}

#[test]
fn test_url_encode() {
    assert_eq!(url_encode("hello.txt"), "hello.txt");
    assert_eq!(url_encode("foo bar"), "foo%20bar");
    assert_eq!(url_encode("test<file>"), "test%3Cfile%3E");
}

#[test]
fn calendar_helpers() {
    assert!(is_leap(2000));
    assert!(!is_leap(1900));
    assert!(is_leap(2024));
    assert_eq!(days_to_ymd(0), (1970, 1, 1));
    assert_eq!(days_to_ymd(59), (1970, 3, 1));
    assert_eq!(truncate_to_80("short"), "short");
    assert_eq!(truncate_to_80(&"x".repeat(100)).len(), 80);
}

fn entry(name: &str, is_dir: bool, is_symlink: bool, mode_bits: u32, size: i64, link_target: Option<&str>) -> ListingEntry {
    ListingEntry {
        name: name.to_string(),
        is_dir,
        is_symlink,
        mode_bits,
        nlink: if is_dir { 2 } else { 1 },
        lstat_size: if is_dir { 4096 } else { size },
        target_is_dir: is_dir,
        target_size: if is_dir { 4096 } else { size },
        mtime: 1749478915,
        link_target: link_target.map(|t| t.to_string()),
    }
}

#[test]
fn test_generate_listing() {
    let entries = vec![entry("test.txt", false, false, 0o644, 5, None), entry("subdir", true, false, 0o755, 0, None)];
    let html = render_listing("/testdir/", &entries, 1749478915);
    let s = String::from_utf8(html).unwrap();
    assert!(s.contains("<TITLE>Index of /testdir/</TITLE>"));
    assert!(s.contains("test.txt"));
    assert!(s.contains("subdir"));
    assert!(s.contains("<PRE>"));
    assert!(s.contains("mode  links  bytes  last-changed  name"));
}

#[test]
fn test_broken_symlink_renders() {
    let entries = vec![
        entry("real.txt", false, false, 0o644, 5, None),
        entry("dangling", false, true, 0o777, 19, Some("/nonexistent/target")),
        entry("goodlink", false, true, 0o777, 5, Some("real.txt")),
    ];
    let html = render_listing("/d/", &entries, 1749478915);
    let s = String::from_utf8(html).unwrap();
    assert!(s.contains("real.txt"));
    assert!(s.contains("dangling"));
    assert!(s.contains("goodlink"));
    assert!(s.contains("-&gt; "));
}

#[test]
fn listing_rows_are_sorted_case_insensitively_and_stably() {
    let entries = vec![
        entry("beta", false, false, 0o644, 1, None),
        entry("Alpha", false, false, 0o644, 2, None),
        entry("BETA", false, false, 0o644, 3, None),
        entry("alpha2", false, false, 0o644, 4, None),
    ];
    let s = String::from_utf8(render_listing("/x", &entries, 1749478915)).unwrap();
    let a = s.find(">Alpha<").unwrap();
    let a2 = s.find(">alpha2<").unwrap();
    let b1 = s.find(">beta<").unwrap();
    let b2 = s.find(">BETA<").unwrap();
    assert!(a < a2 && a2 < b1 && b1 < b2);
    assert!(s.contains("<A HREF=\"//x/beta\">"));
}

#[test]
fn listing_row_has_exact_ls_layout() {
    let entries = vec![entry("run me", false, false, 0o755, 1234, None)];
    let s = String::from_utf8(render_listing("/bin/", &entries, 1749478915)).unwrap();
    let expected = "-r-x   1        1234  Jun  9 14:21  <A HREF=\"//bin/run%20me\">run me</A>*\n";
    assert!(s.contains(expected), "{s}");
    assert!(s.ends_with("</PRE></BODY>\n</HTML>\n"));
    let dirs = vec![entry("sub", true, false, 0o755, 0, None)];
    let d = String::from_utf8(render_listing("/", &dirs, 1749478915 + 200 * 86400)).unwrap();
    assert!(d.contains("dr-x   2        4096  Jun  9  2025  <A HREF=\"//sub/\">sub</A>/\n"), "{d}");
}

#[test]
fn listing_links_decode_back_to_names() {
    for name in ["plain.txt", "a b+c%d", "ünïcode ☃", "100%", "~x_y-z."] {
        assert_eq!(thttpd::url::percent_decode(&url_encode(name)), name);
    }
}
