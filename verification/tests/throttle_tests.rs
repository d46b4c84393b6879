use thttpd::throttle::{parse_line, ThrottleDecision, ThrottleEntry, ThrottleTable, THROTTLE_NOLIMIT};

#[test]
fn test_rolling_average() {
    let mut entry = ThrottleEntry {
        pattern: "*.html".into(),
        max_limit: 10000,
        min_limit: 1000,
        rate: 5000,
        bytes_since_avg: 4000,
        num_sending: 1,
    };
    ThrottleTable::update_rate(&mut entry);
    assert_eq!(entry.rate, 4000);
}

#[test]
fn test_fair_share() {
    assert_eq!(ThrottleTable::fair_share(10000, 2), 5000);
    assert_eq!(ThrottleTable::fair_share(10000, 1), 10000);
}

#[test]
fn test_parse_line_single_rate() {
    let entry = parse_line("*.html 1000000").unwrap();
    assert_eq!(entry.pattern, "*.html");
    assert_eq!(entry.max_limit, 1000000);
    assert_eq!(entry.min_limit, 0);
}

#[test]
fn test_parse_line_min_max() {
    let entry = parse_line("*.html 1000-1000000").unwrap();
    assert_eq!(entry.pattern, "*.html");
    assert_eq!(entry.max_limit, 1000000);
    assert_eq!(entry.min_limit, 1000);
}

#[test]
fn test_parse_line_strips_leading_slash() {
    let entry = parse_line("/cgi-bin/** 1000-10000").unwrap();
    assert_eq!(entry.pattern, "cgi-bin/**");
}

#[test]
fn test_parse_line_replaces_slash_pipe() {
    let entry = parse_line("|/*.html 1000").unwrap();
    assert_eq!(entry.pattern, "|*.html");
}

#[test]
fn test_parse_line_unparsable() {
    assert!(parse_line("*.html").is_none());
    assert!(parse_line("just some text here").is_none());
}

#[test]
fn test_check_throttles_match() {
    let entry = ThrottleEntry::new("*.html".into(), 1000, 0);
    let table = ThrottleTable {
        entries: vec![entry],
    };
    let (max, _min) = table.check_throttles("page.html");
    assert_eq!(max, 1000);
}

#[test]
fn test_check_throttles_no_match() {
    let entry = ThrottleEntry::new("*.html".into(), 1000, 0);
    let table = ThrottleTable {
        entries: vec![entry],
    };
    let (max, min) = table.check_throttles("page.png");
    assert_eq!(max, THROTTLE_NOLIMIT);
    assert_eq!(min, THROTTLE_NOLIMIT);
}

#[test]
fn test_check_throttles_empty_table() {
    let table = ThrottleTable::new();
    let (max, min) = table.check_throttles("anything");
    assert_eq!(max, THROTTLE_NOLIMIT);
    assert_eq!(min, THROTTLE_NOLIMIT);
}

#[test]
fn check_request_admits_and_bumps_num_sending() {
    let mut table = ThrottleTable {
        entries: vec![ThrottleEntry::new("*.html".into(), 10000, 0)],
    };
    let dec = table.check_request("page.html");
    let ThrottleDecision::Allow {
        tnums, max_limit, ..
    } = dec
    else {
        panic!("expected Allow, got {dec:?}");
    };
    assert_eq!(tnums, vec![0]);
    assert_eq!(max_limit, 10000);
    assert_eq!(table.entries()[0].num_sending, 1);
}

#[test]
fn check_request_rejects_when_rate_far_exceeds_limit() {
    let mut entry = ThrottleEntry::new("*.html".into(), 1000, 0);
    entry.rate = 5000;
    let mut table = ThrottleTable {
        entries: vec![entry],
    };
    assert_eq!(table.check_request("page.html"), ThrottleDecision::Reject);
    assert_eq!(table.entries()[0].num_sending, 0);
}

#[test]
fn check_request_rejects_when_below_min_limit() {
    let mut entry = ThrottleEntry::new("*.html".into(), 1000000, 5000);
    entry.rate = 100;
    let mut table = ThrottleTable {
        entries: vec![entry],
    };
    assert_eq!(table.check_request("page.html"), ThrottleDecision::Reject);
}

#[test]
fn clear_decrements_num_sending() {
    let mut table = ThrottleTable {
        entries: vec![ThrottleEntry::new("*.html".into(), 10000, 0)],
    };
    let ThrottleDecision::Allow { tnums, .. } = table.check_request("page.html") else {
        unreachable!();
    };
    assert_eq!(table.entries()[0].num_sending, 1);
    table.clear(&tnums);
    assert_eq!(table.entries()[0].num_sending, 0);
}

#[test]
fn fair_share_splits_bandwidth_across_senders() {
    let mut table = ThrottleTable {
        entries: vec![ThrottleEntry::new("*.html".into(), 10000, 0)],
    };
    let a = table.check_request("a.html");
    let b = table.check_request("b.html");
    let tnums_a = match a {
        ThrottleDecision::Allow { tnums, .. } => tnums,
        _ => unreachable!(),
    };
    assert_eq!(table.fair_share_for(&tnums_a), 5000);
    let tnums_b = match b {
        ThrottleDecision::Allow { tnums, .. } => tnums,
        _ => unreachable!(),
    };
    table.clear(&tnums_b);
    assert_eq!(table.fair_share_for(&tnums_a), 10000);
}

#[test]
fn update_averages_matches_c_formula() {
    let mut table = ThrottleTable {
        entries: vec![ThrottleEntry {
            pattern: "*.html".into(),
            max_limit: 10000,
            min_limit: 0,
            rate: 5000,
            bytes_since_avg: 4000,
            num_sending: 1,
        }],
    };
    table.update_averages();
    assert_eq!(table.entries()[0].rate, 4000);
    assert_eq!(table.entries()[0].bytes_since_avg, 0);
}

#[test]
fn unmatched_request_is_unlimited() {
    let mut table = ThrottleTable {
        entries: vec![ThrottleEntry::new("*.html".into(), 10000, 0)],
    };
    assert_eq!(table.check_request("a.png"), ThrottleDecision::Unlimited);
    assert!(ThrottleTable::new().is_empty());
}

#[test]
fn reject_rolls_back_earlier_rules() {
    let mut slow = ThrottleEntry::new("*.html".into(), 1000000, 5000);
    slow.rate = 100;
    let mut table = ThrottleTable {
        entries: vec![ThrottleEntry::new("**".into(), 10000, 0), slow],
    };
    assert_eq!(table.check_request("a.html"), ThrottleDecision::Reject);
    assert_eq!(table.entries()[0].num_sending, 0);
    assert_eq!(table.entries()[1].num_sending, 0);
}

#[test]
fn admission_takes_smallest_max_and_largest_min() {
    let mut busy = ThrottleEntry::new("**".into(), 9000, 10);
    busy.rate = 10;
    let mut table = ThrottleTable {
        entries: vec![busy, ThrottleEntry::new("*.html".into(), 4000, 0)],
    };
    assert_eq!(
        ThrottleTable { entries: vec![ThrottleEntry::new("**".into(), 9000, 10)] }.check_request("a"),
        ThrottleDecision::Reject
    );
    let d = table.check_request("a.html");
    assert_eq!(d, ThrottleDecision::Allow { tnums: vec![0, 1], max_limit: 4000, min_limit: 10 });
    table.add_bytes(&[0, 1, 1], 7);
    assert_eq!(table.entries()[0].bytes_since_avg, 7);
    assert_eq!(table.entries()[1].bytes_since_avg, 14);
    table.clear(&[0, 1, 5]);
    assert_eq!(table.entries()[0].num_sending, 0);
}

#[test]
fn quoted_pattern_and_negative_average() {
    let entry = parse_line("\"/a b/*\" 5").unwrap();
    assert_eq!(entry.pattern, "a b/*");
    assert_eq!(entry.max_limit, 5);
    let mut e = ThrottleEntry::new("x".into(), 1, 0);
    e.rate = -7;
    e.bytes_since_avg = -3;
    ThrottleTable::update_rate(&mut e);
    assert_eq!(e.rate, (2 * -7 + -3 / 2) / 3);
}

#[test]
fn empty_pattern_line_is_unparsable() {
    assert!(parse_line("/// 100").is_none());
    assert!(parse_line("*.html 10-x").is_none());
}

#[test]
fn test_load_skips_comments_and_blanks() {
    let text = "# This is a comment\n\n*.html 1000000\n# Another comment\n*.png 500-5000\ngarbage line without numbers\n";
    let (table, bad) = ThrottleTable::load_text(text);
    assert_eq!(table.entries().len(), 2);
    assert_eq!(table.entries()[0].pattern, "*.html");
    assert_eq!(table.entries()[0].max_limit, 1000000);
    assert_eq!(table.entries()[1].pattern, "*.png");
    assert_eq!(table.entries()[1].min_limit, 500);
    assert_eq!(bad, vec![(6, "garbage line without numbers".to_string())]);
}

#[test]
fn load_text_reports_crlf_lines_without_carriage_return_and_cuts_comments() {
    let text = "*.gif 10 # small images\r\nnot a rule\r\n   # indented comment\r\n";
    let (table, bad) = ThrottleTable::load_text(text);
    assert_eq!(table.entries().len(), 1);
    assert_eq!(table.entries()[0].pattern, "*.gif");
    assert_eq!(table.entries()[0].max_limit, 10);
    assert_eq!(table.entries()[0].min_limit, 0);
    assert_eq!(bad, vec![(2, "not a rule".to_string())]);
}
