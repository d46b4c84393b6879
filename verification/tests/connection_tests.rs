use thttpd::connection::{account_write, send_step, sending_header_len, start_sending, SendStep};
use thttpd::connection::{
    next_pause_deadline, next_throttle_deadline, ready_to_resume, ConnState, ConnThrottle,
    ServerStats, NOLIMIT,
};

#[test]
fn throttle_deadline_included_when_throttles_configured() {
    let deadline = next_throttle_deadline(true, 0);
    assert!(deadline.is_some(), "throttle deadline must be present");
    let d = deadline.unwrap();
    assert!(d <= 2_000, "deadline {d:?} must not exceed THROTTLE_TIME");
    assert!(d > 0, "deadline {d:?} should still have time remaining");
}

#[test]
fn throttle_deadline_clamps_to_zero_when_overdue() {
    assert_eq!(next_throttle_deadline(true, 120_000), Some(0));
}

#[test]
fn throttle_deadline_absent_when_no_throttle_table() {
    assert!(next_throttle_deadline(false, 0).is_none());
}

#[test]
fn pause_deadline_is_the_earliest_paused_wakeup() {
    let slots = vec![
        (ConnState::Pausing, Some(150)),
        (ConnState::Sending, Some(101)),
        (ConnState::Pausing, Some(120)),
        (ConnState::Pausing, None),
    ];
    assert_eq!(next_pause_deadline(&slots, 100), Some(20));
    assert_eq!(next_pause_deadline(&slots, 130), Some(0));
    assert_eq!(next_pause_deadline(&[(ConnState::Reading, Some(5))], 0), None);
    assert!(ready_to_resume(None, 0));
    assert!(ready_to_resume(Some(10), 10));
    assert!(!ready_to_resume(Some(11), 10));
}

#[test]
fn throttle_record_resets() {
    let mut t = ConnThrottle::new();
    assert!(!t.is_throttled());
    t.tnums.push(3);
    t.max_limit = 1000;
    t.pause_until = Some(7);
    t.checked = true;
    assert!(t.is_throttled());
    t.reset();
    assert!(!t.is_throttled());
    assert_eq!(t.max_limit, NOLIMIT);
    assert_eq!(t.pause_until, None);
    assert!(!t.checked);
    let s = ServerStats::default();
    assert_eq!((s.connections, s.requests, s.bytes_sent), (0, 0, 0));
}

#[test]
fn send_step_paces_throttled_body_and_pauses_when_spent() {
    let mut t = ConnThrottle::new();
    // Unthrottled: the rest in one go.
    assert_eq!(send_step(&t, 10, 100, 5000), SendStep::Write { limit: 90 });
    assert_eq!(send_step(&t, 100, 100, 5000), SendStep::Done);
    // Throttled at 50 bytes/s with a 20-byte head.
    t.tnums = vec![0];
    t.max_limit = 50;
    start_sending(&mut t, 20, 1000);
    assert_eq!(send_step(&t, 0, 1000, 1500), SendStep::Write { limit: 70 });
    assert_eq!(account_write(&mut t, 0, 70, 1500), 50);
    assert_eq!(t.body_bytes, 50);
    assert_eq!(t.active_at, Some(1500));
    assert_eq!(send_step(&t, 70, 1000, 1900), SendStep::Pause { until: 2900 });
    // Two whole seconds in: another 50 allowed.
    assert_eq!(send_step(&t, 70, 1000, 3000), SendStep::Write { limit: 50 });
    // A write inside the head is not charged.
    let mut u = ConnThrottle::new();
    u.tnums = vec![1];
    start_sending(&mut u, 20, 0);
    assert_eq!(account_write(&mut u, 0, 15, 10), 0);
    assert_eq!(u.body_bytes, 0);
}

#[test]
fn sending_header_len_finds_head_of_non_cgi_responses() {
    let resp = b"HTTP/1.0 404 Not Found\r\nContent-Type: text/html\r\n\r\n<HTML>";
    assert_eq!(sending_header_len(false, true, 0, resp), 51);
    assert_eq!(sending_header_len(true, true, 0, resp), 0);
    assert_eq!(sending_header_len(false, false, 0, resp), 0);
    assert_eq!(sending_header_len(false, true, 7, resp), 7);
}
