use thttpd::config::ServerConfig;
use thttpd::logging::{cern_date, format_cern_line, is_file_backed, log_target_kind, truncate, LogEntry, LogTargetKind};

fn entry<'a>() -> LogEntry<'a> {
    LogEntry {
        remote_addr: "127.0.0.1",
        remote_user: "",
        method: "GET",
        url: "/index.html",
        protocol: "HTTP/1.0",
        status: 200,
        bytes_sent: 1234,
        referer: "",
        user_agent: "test-agent",
    }
}

#[test]
fn cern_line_format_matches_legacy_layout() {
    let line = format_cern_line(&entry(), "10/Oct/2000:13:55:36 -0700");
    assert!(line.contains("127.0.0.1 - - ["), "addr and user: {line}");
    assert!(
        line.contains("] \"GET /index.html HTTP/1.0\" 200 1234"),
        "{line}"
    );
    assert!(
        line.contains("\"\" \"test-agent\""),
        "empty referer + user agent: {line}"
    );
    assert!(line.ends_with('\n'));
}

#[test]
fn truncate_matches_precision() {
    assert_eq!(truncate("abcdefgh", 3), "abc");
    assert_eq!(truncate("ab", 5), "ab");
    assert_eq!(truncate("", 5), "");
}

#[test]
fn cern_line_exact() {
    let mut e = entry();
    e.remote_user = "bob";
    e.bytes_sent = -1;
    let line = format_cern_line(&e, "D");
    assert_eq!(line, "127.0.0.1 - bob [D] \"GET /index.html HTTP/1.0\" 200 - \"\" \"test-agent\"\n");
    assert_eq!(truncate("héllo", 2), "hé");
}

#[test]
fn dev_null_disables_logging() {
    let cfg = ServerConfig {
        logfile: Some("/dev/null".to_string()),
        ..ServerConfig::default()
    };
    let kind = log_target_kind(cfg.logfile.as_deref());
    assert!(!is_file_backed(kind));
    assert_eq!(kind, LogTargetKind::Disabled);
}

#[test]
fn dash_selects_stdout_target() {
    let cfg = ServerConfig {
        logfile: Some("-".to_string()),
        ..ServerConfig::default()
    };
    let kind = log_target_kind(cfg.logfile.as_deref());
    assert!(!is_file_backed(kind));
    assert!(matches!(kind, LogTargetKind::Stdout));
}

#[test]
fn plain_path_is_file_backed_and_none_is_syslog() {
    assert!(is_file_backed(log_target_kind(Some("/var/log/thttpd.log"))));
    assert_eq!(log_target_kind(None), LogTargetKind::Syslog);
}

#[test]
fn cern_date_formats_day_month_time_and_zone() {
    assert_eq!(cern_date(10, 9, 100, 13, 55, 36, -7 * 3600), "10/Oct/2000:13:55:36 -0700");
    assert_eq!(cern_date(1, 0, 124, 0, 0, 0, 19800), "01/Jan/2024:00:00:00 +0530");
}
