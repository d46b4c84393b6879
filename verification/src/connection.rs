//! Connection bookkeeping: the states of a connection, its throttle state,
//! the server's counters, and the wake-up deadlines of the event loop.
//! Time points and durations are milliseconds on the caller's clock.

use vstd::prelude::*;
use crate::throttle::THROTTLE_TIME;

verus! {

/// Connection state machine.
#[derive(Debug, Clone, Copy, PartialEq, Eq, Structural)]
pub enum ConnState {
    Free,
    Reading,
    Sending,
    Pausing,
    Lingering,
}

/// Sentinel meaning "no throttle limit".
pub const NOLIMIT: i64 = -1;

/// Per-connection throttle bookkeeping. A connection that matched no
/// throttle rule has no indexes and is unthrottled.
#[derive(Debug, Clone)]
pub struct ConnThrottle {
    /// Matched throttle-table indexes.
    pub tnums: Vec<usize>,
    /// Effective fair-share maximum (bytes/sec; `NOLIMIT` = none).
    pub max_limit: i64,
    /// Effective minimum (bytes/sec; `NOLIMIT` = none).
    pub min_limit: i64,
    /// Where the body begins in the response (past the head).
    pub header_len: usize,
    /// Body bytes sent so far.
    pub body_bytes: i64,
    /// When sending started.
    pub started_at: Option<u64>,
    /// Last time the connection made progress.
    pub active_at: Option<u64>,
    /// When a paused connection may write again.
    pub pause_until: Option<u64>,
    /// The admission check was already made upstream.
    pub checked: bool,
}

/// The state of a fresh or reset throttle record.
pub open spec fn is_fresh(t: ConnThrottle) -> bool {
    &&& t.tnums@.len() == 0
    &&& t.max_limit == NOLIMIT
    &&& t.min_limit == NOLIMIT
    &&& t.header_len == 0
    &&& t.body_bytes == 0
    &&& t.started_at is None
    &&& t.active_at is None
    &&& t.pause_until is None
    &&& !t.checked
}

impl ConnThrottle {
    pub fn new() -> (r: Self)
        ensures
            is_fresh(r),
    {
        ConnThrottle {
            tnums: Vec::new(),
            max_limit: NOLIMIT,
            min_limit: NOLIMIT,
            header_len: 0,
            body_bytes: 0,
            started_at: None,
            active_at: None,
            pause_until: None,
            checked: false,
        }
    }

    /// True when the connection matched at least one throttle rule.
    pub fn is_throttled(&self) -> (r: bool)
        ensures
            r == (self.tnums@.len() > 0),
    {
        self.tnums.len() > 0
    }

    /// Back to the fresh state, for the next request on the slot.
    pub fn reset(&mut self)
        ensures
            is_fresh(*final(self)),
    {
        self.tnums.clear();
        self.max_limit = NOLIMIT;
        self.min_limit = NOLIMIT;
        self.header_len = 0;
        self.body_bytes = 0;
        self.started_at = None;
        self.active_at = None;
        self.pause_until = None;
        self.checked = false;
    }
}

impl Default for ConnThrottle {
    fn default() -> (r: Self)
        ensures
            is_fresh(r),
    {
        Self::new()
    }
}

/// Server statistics.
#[derive(Debug)]
pub struct ServerStats {
    pub connections: u64,
    pub requests: u64,
    pub bytes_sent: u64,
}

impl Default for ServerStats {
    fn default() -> (r: Self)
        ensures
            r.connections == 0 && r.requests == 0 && r.bytes_sent == 0,
    {
        ServerStats { connections: 0, requests: 0, bytes_sent: 0 }
    }
}

/// `a - b`, or zero when `b` is past `a`.
pub open spec fn sat_sub(a: u64, b: u64) -> u64 {
    if a <= b { 0 } else { (a - b) as u64 }
}

/// Time until the next throttle-average update is due: the update period
/// less the time since the last update, clamped at zero; `None` when no
/// throttle table is configured.
pub fn next_throttle_deadline(has_throttles: bool, since_last_update: u64) -> (r: Option<u64>)
    ensures
        has_throttles ==> r == Some(sat_sub((THROTTLE_TIME * 1000) as u64, since_last_update)),
        !has_throttles ==> r is None,
{
    if has_throttles {
        let period: u64 = 2000;
        Some(period.saturating_sub(since_last_update))
    } else {
        None
    }
}

/// The earliest wake-up among the paused connections of `slots[k..]`, as a
/// time from `now` clamped at zero.
pub open spec fn pause_deadline_from(slots: Seq<(ConnState, Option<u64>)>, now: u64, k: int) -> Option<u64>
    decreases slots.len() - k,
{
    if k < 0 || k >= slots.len() {
        None
    } else {
        let rest = pause_deadline_from(slots, now, k + 1);
        match (slots[k].0, slots[k].1) {
            (ConnState::Pausing, Some(d)) => {
                let t = sat_sub(d, now);
                match rest {
                    Some(m) => Some(if t <= m { t } else { m }),
                    None => Some(t),
                }
            },
            _ => rest,
        }
    }
}

/// The time until the earliest paused connection may resume; each slot is
/// its state and its `pause_until`.
pub fn next_pause_deadline(slots: &[(ConnState, Option<u64>)], now: u64) -> (r: Option<u64>)
    ensures
        r == pause_deadline_from(slots@, now, 0),
{
    let mut best: Option<u64> = None;
    let mut i: usize = slots.len();
    while i > 0
        invariant
            i <= slots@.len(),
            best == pause_deadline_from(slots@, now, i as int),
        decreases i,
    {
        i -= 1;
        let (state, until) = slots[i];
        match (state, until) {
            (ConnState::Pausing, Some(d)) => {
                let t = d.saturating_sub(now);
                best = match best {
                    Some(m) => Some(if t <= m { t } else { m }),
                    None => Some(t),
                };
            },
            _ => {},
        }
    }
    best
}

/// Whether a paused connection may resume: its pause is over, or it has no
/// pause time at all.
pub fn ready_to_resume(pause_until: Option<u64>, now: u64) -> (r: bool)
    ensures
        r == match pause_until {
            Some(d) => now >= d,
            None => true,
        },
{
    match pause_until {
        Some(d) => now >= d,
        None => true,
    }
}

// ---------------------------------------------------------------- sending

pub open spec fn max0(x: int) -> int {
    if x < 0 { 0 } else { x }
}

/// Whole seconds since sending started, at least one (one when the start
/// is unknown).
pub open spec fn elapsed_secs(t: ConnThrottle, now: u64) -> int {
    match t.started_at {
        Some(s) => {
            let e = sat_sub(now, s) / 1000;
            if e < 1 { 1 } else { e as int }
        },
        None => 1,
    }
}

/// A throttled connection with a maximum rate.
pub open spec fn rate_limited(t: ConnThrottle) -> bool {
    t.tnums@.len() > 0 && t.max_limit > 0
}

/// The body bytes the rate allows by now beyond those sent.
pub open spec fn body_allowance(t: ConnThrottle, now: u64) -> int {
    t.max_limit * elapsed_secs(t, now) - t.body_bytes
}

/// The bytes a rate-limited connection may write now: what is left of its
/// head, and the body bytes its rate allows.
pub open spec fn throttled_allowance(t: ConnThrottle, bytes_sent: int, now: u64) -> int {
    max0(t.header_len - bytes_sent) + max0(body_allowance(t, now))
}

/// The arithmetic of the allowance stays in range: the products and sums
/// below fit in `i64`.
pub open spec fn allowance_fits(t: ConnThrottle, bytes_sent: i64, now: u64) -> bool {
    rate_limited(t) ==> {
        &&& i64::MIN <= t.max_limit * elapsed_secs(t, now) <= i64::MAX
        &&& i64::MIN <= body_allowance(t, now) <= i64::MAX
        &&& throttled_allowance(t, bytes_sent as int, now) <= usize::MAX
    }
}

/// The next step of a connection that is sending its response.
#[derive(Debug, Clone, Copy, PartialEq, Eq)]
pub enum SendStep {
    /// All of the response is sent: linger, then close.
    Done,
    /// The rate allows nothing now: pause until the given time.
    Pause { until: u64 },
    /// Write at most this many bytes.
    Write { limit: usize },
}

/// What a sending connection does next: done once the response is out;
/// a rate-limited connection writes what is left of its head and what its
/// rate allows, or pauses for a second when that is nothing; any other
/// writes the rest.
pub fn send_step(t: &ConnThrottle, bytes_sent: i64, response_len: usize, now: u64) -> (r: SendStep)
    requires
        0 <= bytes_sent,
        now <= u64::MAX - 1000,
        allowance_fits(*t, bytes_sent, now),
    ensures
        bytes_sent >= response_len ==> r == SendStep::Done,
        bytes_sent < response_len && rate_limited(*t) && throttled_allowance(*t, bytes_sent as int, now) == 0
            ==> r == (SendStep::Pause { until: (now + 1000) as u64 }),
        bytes_sent < response_len && rate_limited(*t) && throttled_allowance(*t, bytes_sent as int, now) > 0
            ==> r == (SendStep::Write { limit: throttled_allowance(*t, bytes_sent as int, now) as usize }),
        bytes_sent < response_len && !rate_limited(*t) ==> r == (SendStep::Write {
            limit: (response_len - bytes_sent) as usize,
        }),
{
    if bytes_sent as i128 >= response_len as i128 {
        return SendStep::Done;
    }
    if t.tnums.len() > 0 && t.max_limit > 0 {
        let elapsed: i64 = match t.started_at {
            Some(s) => {
                let e = now.saturating_sub(s) / 1000;
                if e < 1 { 1 } else { e as i64 }
            },
            None => 1,
        };
        let head_left: i128 = if t.header_len as i128 > bytes_sent as i128 {
            t.header_len as i128 - bytes_sent as i128
        } else {
            0
        };
        let body: i64 = t.max_limit * elapsed - t.body_bytes;
        let body_left: i128 = if body > 0 { body as i128 } else { 0 };
        let limit = (head_left + body_left) as usize;
        if limit == 0 {
            SendStep::Pause { until: now + 1000 }
        } else {
            SendStep::Write { limit }
        }
    } else {
        SendStep::Write { limit: (response_len as i128 - bytes_sent as i128) as usize }
    }
}

/// Body bytes among the bytes `before..after` of a response whose head is
/// `header_len` long.
pub open spec fn body_delta(header_len: int, before: int, after: int) -> int {
    max0(after - header_len) - max0(before - header_len)
}

/// Counts a write of the bytes `before..after` against a throttled
/// connection: its body bytes grow by the body part of the write, which is
/// returned (to be charged to its rules); headers are never charged.
pub fn account_write(t: &mut ConnThrottle, before: i64, after: i64, now: u64) -> (delta: i64)
    requires
        0 <= before <= after,
        old(t).tnums@.len() > 0 ==> old(t).body_bytes + body_delta(old(t).header_len as int, before as int, after as int) <= i64::MAX,
    ensures
        old(t).tnums@.len() > 0 ==> delta == body_delta(old(t).header_len as int, before as int, after as int),
        old(t).tnums@.len() == 0 ==> delta == 0,
        delta > 0 ==> final(t).body_bytes == old(t).body_bytes + delta && final(t).active_at == Some(now),
        delta <= 0 ==> final(t).body_bytes == old(t).body_bytes && final(t).active_at == old(t).active_at,
        final(t).tnums@ == old(t).tnums@,
        final(t).max_limit == old(t).max_limit,
        final(t).min_limit == old(t).min_limit,
        final(t).header_len == old(t).header_len,
        final(t).started_at == old(t).started_at,
        final(t).pause_until == old(t).pause_until,
        final(t).checked == old(t).checked,
{
    if t.tnums.len() == 0 {
        return 0;
    }
    let h: i64 = if t.header_len as u64 > i64::MAX as u64 { i64::MAX } else { t.header_len as i64 };
    assert(h == t.header_len || t.header_len > i64::MAX);
    let body_before: i64 = if before > h { before - h } else { 0 };
    let body_after: i64 = if after > h { after - h } else { 0 };
    let delta = body_after - body_before;
    proof {
        if t.header_len > i64::MAX {
            assert(body_before == 0 && body_after == 0);
        }
    }
    if delta > 0 {
        t.body_bytes = t.body_bytes + delta;
        t.active_at = Some(now);
    }
    delta
}

/// Starts the throttle clock of a connection that begins sending a
/// response whose head is `header_len` bytes long.
pub fn start_sending(t: &mut ConnThrottle, header_len: usize, now: u64)
    ensures
        final(t).header_len == header_len,
        final(t).started_at == Some(now),
        final(t).active_at == Some(now),
        final(t).tnums@ == old(t).tnums@,
        final(t).max_limit == old(t).max_limit,
        final(t).min_limit == old(t).min_limit,
        final(t).body_bytes == old(t).body_bytes,
        final(t).pause_until == old(t).pause_until,
        final(t).checked == old(t).checked,
{
    t.header_len = header_len;
    t.started_at = Some(now);
    t.active_at = Some(now);
}

/// The length of the head that sending counts: a non-CGI HTTP/1.0 (or
/// later) response with no head length recorded gets the offset where its
/// head ends, if it has one.
pub fn sending_header_len(is_cgi: bool, mime_flag: bool, header_len: usize, response: &[u8]) -> (r: usize)
    ensures
        !is_cgi && mime_flag && header_len == 0 ==> r == match crate::serving::header_end(response@) {
            Some(e) => e as usize,
            None => 0usize,
        },
        !(!is_cgi && mime_flag && header_len == 0) ==> r == header_len,
{
    if !is_cgi && mime_flag && header_len == 0 {
        match crate::serving::header_end_offset(response) {
            Some(e) => e,
            None => header_len,
        }
    } else {
        header_len
    }
}

} // verus!
