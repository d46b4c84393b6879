//! The migration proxy's plain data and decisions: backend health, breaker
//! states, configuration defaults, the control protocol's replies, which
//! paths stay out of routing, and which header values are timestamps.

use vstd::prelude::*;
use vstd::string::*;
use crate::text::{sb, chars_of, next_char, find_char, string_of_chars, parse_int_chars, parse_chars_spec};

verus! {

// ---------------------------------------------------------------- health

#[derive(Debug, Clone, Copy, PartialEq, Eq, Structural)]
pub enum Health {
    Healthy,
    Degraded,
    Unhealthy,
}

impl Health {
    /// The health stored as a number: 0 healthy, 1 degraded, anything else
    /// unhealthy.
    pub fn from_u8(value: u8) -> (r: Self)
        ensures
            r == (if value == 0 {
                Health::Healthy
            } else if value == 1 {
                Health::Degraded
            } else {
                Health::Unhealthy
            }),
    {
        match value {
            0 => Health::Healthy,
            1 => Health::Degraded,
            _ => Health::Unhealthy,
        }
    }

    /// The number the health is stored as.
    pub fn to_u8(self) -> (r: u8)
        ensures
            r == (match self {
                Health::Healthy => 0u8,
                Health::Degraded => 1u8,
                Health::Unhealthy => 2u8,
            }),
    {
        match self {
            Health::Healthy => 0,
            Health::Degraded => 1,
            Health::Unhealthy => 2,
        }
    }
}


/// The states of a circuit breaker.
#[derive(Debug, Clone, Copy, PartialEq, Eq, Structural)]
pub enum State {
    Closed,
    Open,
    HalfOpen,
}

impl State {
    /// The state stored as a number: 0 closed, 1 open, anything else
    /// half-open.
    pub fn from_u8(v: u8) -> (r: Self)
        ensures
            r == (if v == 0 {
                State::Closed
            } else if v == 1 {
                State::Open
            } else {
                State::HalfOpen
            }),
    {
        match v {
            0 => State::Closed,
            1 => State::Open,
            _ => State::HalfOpen,
        }
    }

    /// The number the state is stored as.
    pub fn to_u8(self) -> (r: u8)
        ensures
            r == (match self {
                State::Closed => 0u8,
                State::Open => 1u8,
                State::HalfOpen => 2u8,
            }),
    {
        match self {
            State::Closed => 0,
            State::Open => 1,
            State::HalfOpen => 2,
        }
    }
}

// ---------------------------------------------------------------- configuration

pub fn default_log_level() -> (r: String)
    ensures
        r@ == "info"@,
{
    "info".to_owned()
}

pub fn default_state_path() -> (r: String)
    ensures
        r@ == "/var/run/thttpd-migrate/state.json"@,
{
    "/var/run/thttpd-migrate/state.json".to_owned()
}

pub fn default_control_socket() -> (r: String)
    ensures
        r@ == "/var/run/thttpd-migrate/control.sock"@,
{
    "/var/run/thttpd-migrate/control.sock".to_owned()
}

pub fn default_metrics_listen() -> (r: String)
    ensures
        r@ == "127.0.0.1:9100"@,
{
    "127.0.0.1:9100".to_owned()
}

pub fn default_metrics_path() -> (r: String)
    ensures
        r@ == "/metrics"@,
{
    "/metrics".to_owned()
}

pub fn default_shadow_max_body_bytes() -> (r: usize)
    ensures
        r == 1_048_576,
{
    1_048_576
}

pub fn default_weight() -> (r: u32)
    ensures
        r == 1,
{
    1
}

pub fn default_health_path() -> (r: String)
    ensures
        r@ == "/"@,
{
    "/".to_owned()
}

pub fn default_health_interval() -> (r: u64)
    ensures
        r == 1000,
{
    1000
}

pub fn default_health_timeout() -> (r: u64)
    ensures
        r == 500,
{
    500
}

pub fn default_failure_threshold() -> (r: u32)
    ensures
        r == 3,
{
    3
}

pub fn default_success_threshold() -> (r: u32)
    ensures
        r == 2,
{
    2
}

pub fn default_window() -> (r: u64)
    ensures
        r == 30,
{
    30
}

pub fn default_min_requests() -> (r: u32)
    ensures
        r == 20,
{
    20
}

/// Where the proxy publishes its metrics.
pub struct MetricsConfig {
    pub listen: String,
    pub path: String,
}

impl Default for MetricsConfig {
    fn default() -> (r: Self)
        ensures
            r.listen@ == "127.0.0.1:9100"@,
            r.path@ == "/metrics"@,
    {
        MetricsConfig { listen: default_metrics_listen(), path: default_metrics_path() }
    }
}

/// How much of a shadow response body is compared.
pub struct ShadowConfig {
    pub max_body_bytes: usize,
}

impl Default for ShadowConfig {
    fn default() -> (r: Self)
        ensures
            r.max_body_bytes == 1_048_576,
    {
        ShadowConfig { max_body_bytes: default_shadow_max_body_bytes() }
    }
}

/// One backend server.
pub struct BackendConfig {
    pub address: String,
    pub weight: u32,
    pub health_path: String,
}

/// How requests are spread over the backends.
#[derive(Debug, Clone, PartialEq, Eq, Structural)]
pub enum RoutingMode {
    ActiveActive,
    Shadow,
    Canary,
}

impl Default for RoutingMode {
    fn default() -> (r: Self)
        ensures
            r == RoutingMode::ActiveActive,
    {
        RoutingMode::ActiveActive
    }
}

/// Routing configuration.
pub struct RoutingConfig {
    pub mode: RoutingMode,
    /// Live backend in shadow mode.
    pub primary_backend: Option<String>,
    /// Backend that receives mirrored requests in shadow mode.
    pub shadow_backend: Option<String>,
    pub exclude_paths: Vec<String>,
}

impl Default for RoutingConfig {
    fn default() -> (r: Self)
        ensures
            r.mode == RoutingMode::ActiveActive,
            r.primary_backend is None,
            r.shadow_backend is None,
            r.exclude_paths@.len() == 0,
    {
        RoutingConfig {
            mode: RoutingMode::ActiveActive,
            primary_backend: None,
            shadow_backend: None,
            exclude_paths: Vec::new(),
        }
    }
}

/// Active health probing.
pub struct HealthConfig {
    pub interval_ms: u64,
    pub timeout_ms: u64,
    pub failure_threshold: u32,
    pub success_threshold: u32,
}

impl Default for HealthConfig {
    fn default() -> (r: Self)
        ensures
            r.interval_ms == 1000,
            r.timeout_ms == 500,
            r.failure_threshold == 3,
            r.success_threshold == 2,
    {
        HealthConfig {
            interval_ms: default_health_interval(),
            timeout_ms: default_health_timeout(),
            failure_threshold: default_failure_threshold(),
            success_threshold: default_success_threshold(),
        }
    }
}

/// A span of time, in milliseconds.
pub uninterp spec fn millis_duration(ms: u64) -> std::time::Duration;

/// Calls `Duration::from_millis`, which builds the span of `ms`
/// milliseconds.
#[verifier::external_body]
fn duration_from_millis(ms: u64) -> (r: std::time::Duration)
    ensures
        r == millis_duration(ms),
{
    std::time::Duration::from_millis(ms)
}

impl HealthConfig {
    /// The probing period.
    pub fn interval(&self) -> (r: std::time::Duration)
        ensures
            r == millis_duration(self.interval_ms),
    {
        duration_from_millis(self.interval_ms)
    }

    /// The probe timeout.
    pub fn timeout(&self) -> (r: std::time::Duration)
        ensures
            r == millis_duration(self.timeout_ms),
    {
        duration_from_millis(self.timeout_ms)
    }
}

/// First index at or after `k` where `]:` starts, or `a.len()`.
pub open spec fn next_bracket_colon(a: Seq<char>, k: int) -> int
    decreases a.len() - k,
{
    if k < 0 || k + 1 >= a.len() {
        a.len() as int
    } else if a[k] == ']' && a[k + 1] == ':' {
        k
    } else {
        next_bracket_colon(a, k + 1)
    }
}

/// Last index below `k` holding `:`, or -1.
pub open spec fn last_colon(a: Seq<char>, k: int) -> int
    decreases k,
{
    if k <= 0 || k > a.len() {
        -1
    } else if a[k - 1] == ':' {
        k - 1
    } else {
        last_colon(a, k - 1)
    }
}

/// `host:port` split: a bracketed IPv6 host runs up to the first `]:`;
/// otherwise the port follows the last `:`. Gives the host (brackets kept)
/// and the port text, if any.
pub open spec fn host_port(a: Seq<char>) -> (Seq<char>, Option<Seq<char>>) {
    if a.len() > 0 && a[0] == '[' {
        let i = next_bracket_colon(a, 0);
        if i >= a.len() {
            (a, None)
        } else {
            (a.take(i + 1), Some(a.skip(i + 2)))
        }
    } else {
        let i = last_colon(a, a.len() as int);
        if i < 0 {
            (a, None)
        } else {
            (a.take(i), Some(a.skip(i + 1)))
        }
    }
}

/// Split an HTTP authority into host and optional port, handling bracketed
/// IPv6 literals like `[::1]:8080` (the host keeps its brackets).
pub fn split_host_port(authority: &str) -> (r: (String, Option<String>))
    ensures
        r.0@ == host_port(authority@).0,
        r.1 is Some <==> host_port(authority@).1 is Some,
        r.1 is Some ==> r.1.unwrap()@ == host_port(authority@).1.unwrap(),
{
    let cs = chars_of(authority);
    let n = cs.len();
    if n > 0 && cs[0] == '[' {
        let mut i: usize = 0;
        while i < n - 1
            invariant
                n == cs@.len(),
                n > 0,
                cs@ == authority@,
                cs@[0] == '[',
                i <= n,
                next_bracket_colon(cs@, 0) == next_bracket_colon(cs@, i as int),
            decreases n - i,
        {
            if cs[i] == ']' && cs[i + 1] == ':' {
                assert(cs@.subrange(0, i + 1) =~= cs@.take(i + 1));
                assert(cs@.subrange(i + 2, n as int) =~= cs@.skip(i + 2));
                assert(next_bracket_colon(cs@, i as int) == i);
                assert(cs@ == authority@);
                assert(cs@.len() > 0 && cs@[0] == '[');
                assert(next_bracket_colon(cs@, 0) == i);
                assert(host_port(cs@) == (cs@.take(i + 1), Some(cs@.skip(i + 2))));
                let host = string_of_chars(cs.as_slice(), 0, i + 1);
                let port = string_of_chars(cs.as_slice(), i + 2, n);
                assert(host@ == host_port(authority@).0);
                assert(port@ == host_port(authority@).1.unwrap());
                return (host, Some(port));
            }
            i += 1;
        }
        assert(cs@.subrange(0, n as int) =~= cs@);
        (string_of_chars(cs.as_slice(), 0, n), None)
    } else {
        let mut i: usize = n;
        while i > 0
            invariant
                n == cs@.len(),
                cs@ == authority@,
                !(cs@.len() > 0 && cs@[0] == '['),
                i <= n,
                last_colon(cs@, n as int) == last_colon(cs@, i as int),
            decreases i,
        {
            if cs[i - 1] == ':' {
                let k = i - 1;
                assert(cs@.subrange(0, k as int) =~= cs@.take(k as int));
                assert(cs@.subrange(k + 1, n as int) =~= cs@.skip(k + 1));
                assert(last_colon(cs@, i as int) == k);
                assert(cs@ == authority@);
                assert(!(cs@.len() > 0 && cs@[0] == '['));
                assert(host_port(cs@) == (cs@.take(k as int), Some(cs@.skip(k + 1))));
                let host = string_of_chars(cs.as_slice(), 0, k);
                let port = string_of_chars(cs.as_slice(), k + 1, n);
                assert(host@ == host_port(authority@).0);
                assert(port@ == host_port(authority@).1.unwrap());
                return (host, Some(port));
            }
            i -= 1;
        }
        assert(cs@.subrange(0, n as int) =~= cs@);
        (string_of_chars(cs.as_slice(), 0, n), None)
    }
}

// ---------------------------------------------------------------- control protocol

/// Version of the control protocol.
pub const PROTOCOL_VERSION: u32 = 1;

/// One backend in a state snapshot.
pub struct BackendSnapshot {
    pub name: String,
    pub address: String,
    pub weight: u32,
    pub health: String,
}

/// The proxy's published state.
pub struct StateSnapshot {
    pub uptime_secs: u64,
    pub draining: bool,
    pub backends: Vec<BackendSnapshot>,
}

/// A request on the control socket.
pub enum ControlRequest {
    SetWeight { weights: Vec<(String, u32)> },
    Rollback { to: String },
    Drain { timeout_secs: u64 },
    Snapshot,
}

/// A reply on the control socket.
pub struct ControlResponse {
    pub ok: bool,
    pub message: String,
    pub snapshot: Option<StateSnapshot>,
    pub version: u32,
}

impl ControlResponse {
    /// A success reply.
    pub fn ok(message: String, snap: Option<StateSnapshot>) -> (r: Self)
        ensures
            r.ok,
            r.message == message,
            r.snapshot == snap,
            r.version == PROTOCOL_VERSION,
    {
        ControlResponse { ok: true, message, snapshot: snap, version: PROTOCOL_VERSION }
    }

    /// A failure reply, without a snapshot.
    pub fn err(message: String) -> (r: Self)
        ensures
            !r.ok,
            r.message == message,
            r.snapshot is None,
            r.version == PROTOCOL_VERSION,
    {
        ControlResponse { ok: false, message, snapshot: None, version: PROTOCOL_VERSION }
    }
}

// ---------------------------------------------------------------- routing and diffing

/// A pattern ending in `/*`: a directory prefix.
pub open spec fn is_dir_pattern(p: Seq<char>) -> bool {
    p.len() >= 2 && p.last() == '*' && p[p.len() - 2] == '/'
}

/// `path` is left out of routing by `p`: a pattern ending in `/*` matches
/// every path that starts with the rest of it (its `/` kept), any other
/// pattern only the path itself.
pub open spec fn excluded_by(path: Seq<char>, p: Seq<char>) -> bool {
    if is_dir_pattern(p) {
        let prefix = p.drop_last();
        prefix.len() <= path.len() && path.take(prefix.len() as int) == prefix
    } else {
        path == p
    }
}

fn excluded_by_exec(path: &[char], p: &[char]) -> (r: bool)
    ensures
        r == excluded_by(path@, p@),
{
    if p.len() >= 2 && p[p.len() - 1] == '*' && p[p.len() - 2] == '/' {
        let m = p.len() - 1;
        if m > path.len() {
            return false;
        }
        let mut i: usize = 0;
        while i < m
            invariant
                m == p@.len() - 1,
                m <= path@.len(),
                i <= m,
                forall|j: int| 0 <= j < i ==> path@[j] == p@[j],
            decreases m - i,
        {
            if path[i] != p[i] {
                assert(path@.take(m as int)[i as int] != p@.drop_last()[i as int]);
                return false;
            }
            i += 1;
        }
        assert(path@.take(m as int) =~= p@.drop_last());
        true
    } else {
        if path.len() != p.len() {
            return false;
        }
        let mut i: usize = 0;
        while i < p.len()
            invariant
                path@.len() == p@.len(),
                !is_dir_pattern(p@),
                i <= p@.len(),
                forall|j: int| 0 <= j < i ==> path@[j] == p@[j],
            decreases p@.len() - i,
        {
            if path[i] != p[i] {
                assert(path@[i as int] != p@[i as int]);
                return false;
            }
            i += 1;
        }
        assert(path@ =~= p@);
        true
    }
}

/// Whether a request path is excluded from routing by any of the patterns.
pub fn is_excluded(path: &str, patterns: &[String]) -> (r: bool)
    ensures
        r == exists|k: int| 0 <= k < patterns@.len() && excluded_by(path@, #[trigger] patterns@[k]@),
{
    let pc = chars_of(path);
    let mut k: usize = 0;
    while k < patterns.len()
        invariant
            k <= patterns@.len(),
            pc@ == path@,
            forall|j: int| 0 <= j < k ==> !excluded_by(path@, #[trigger] patterns@[j]@),
        decreases patterns@.len() - k,
    {
        let qc = chars_of(patterns[k].as_str());
        if excluded_by_exec(pc.as_slice(), qc.as_slice()) {
            return true;
        }
        k += 1;
    }
    false
}

/// The CLI's level wins over the configured one.
pub fn effective_log_level<'a>(cli: Option<&'a str>, config: &'a str) -> (r: &'a str)
    ensures
        r == (match cli {
            Some(c) => c,
            None => config,
        }),
{
    match cli {
        Some(c) => c,
        None => config,
    }
}

/// What a divergence is about.
#[derive(Debug, Clone, Copy, PartialEq, Eq, Structural)]
pub enum Field {
    Status,
    Headers,
    Body,
    ContentLength,
    ConnectionLifecycle,
}

impl Field {
    pub open spec fn name(self) -> Seq<char> {
        match self {
            Field::Status => "status"@,
            Field::Headers => "headers"@,
            Field::Body => "body"@,
            Field::ContentLength => "content_length"@,
            Field::ConnectionLifecycle => "connection_lifecycle"@,
        }
    }

    /// The field's name in reports.
    pub fn as_str(self) -> (r: &'static str)
        ensures
            r@ == self.name(),
    {
        match self {
            Field::Status => "status",
            Field::Headers => "headers",
            Field::Body => "body",
            Field::ContentLength => "content_length",
            Field::ConnectionLifecycle => "connection_lifecycle",
        }
    }
}

/// Context from the inbound request needed by the diff engine.
pub struct RequestContext {
    pub path: String,
    pub method: String,
    pub request_id: String,
}

/// A difference between the primary and the shadow response.
pub struct Divergence {
    pub field: Field,
    pub expected: String,
    pub actual: String,
    pub path: String,
    pub method: String,
    pub truncated: bool,
}

impl Divergence {
    /// A divergence on `field` for the request in `ctx`, not truncated.
    pub fn new(field: Field, expected: String, actual: String, ctx: &RequestContext) -> (r: Self)
        ensures
            r.field == field,
            r.expected == expected,
            r.actual == actual,
            r.path == ctx.path,
            r.method == ctx.method,
            !r.truncated,
    {
        Divergence {
            field,
            expected,
            actual,
            path: ctx.path.clone(),
            method: ctx.method.clone(),
            truncated: false,
        }
    }
}

pub open spec fn is_ascii_digit(c: u8) -> bool {
    48 <= c <= 57
}

pub open spec fn is_upper(c: u8) -> bool {
    65 <= c <= 90
}

pub open spec fn is_lower(c: u8) -> bool {
    97 <= c <= 122
}

/// The fixed 29-byte date shape `Www, DD Mon YYYY HH:MM:SS GMT`.
pub open spec fn timestamp_shape(b: Seq<u8>) -> bool {
    &&& b.len() == 29
    &&& b[3] == 44 && b[4] == 32 && b[7] == 32 && b[11] == 32 && b[16] == 32 && b[25] == 32
    &&& b[19] == 58 && b[22] == 58
    &&& b[26] == 71 && b[27] == 77 && b[28] == 84
    &&& is_ascii_digit(b[5]) && is_ascii_digit(b[6])
    &&& is_ascii_digit(b[12]) && is_ascii_digit(b[13]) && is_ascii_digit(b[14]) && is_ascii_digit(b[15])
    &&& is_ascii_digit(b[17]) && is_ascii_digit(b[18])
    &&& is_ascii_digit(b[20]) && is_ascii_digit(b[21])
    &&& is_ascii_digit(b[23]) && is_ascii_digit(b[24])
    &&& is_upper(b[0]) && is_lower(b[1]) && is_lower(b[2])
    &&& is_upper(b[8]) && is_lower(b[9]) && is_lower(b[10])
}

/// Whether a header value has the shape of an HTTP date.
pub fn is_timestamp(value: &str) -> (r: bool)
    ensures
        r == timestamp_shape(sb(value)),
{
    let b = value.as_bytes();
    if b.len() != 29 {
        return false;
    }
    let digit = |c: u8| -> (r: bool) ensures r == is_ascii_digit(c) { 48 <= c && c <= 57 };
    let upper = |c: u8| -> (r: bool) ensures r == is_upper(c) { 65 <= c && c <= 90 };
    let lower = |c: u8| -> (r: bool) ensures r == is_lower(c) { 97 <= c && c <= 122 };
    b[3] == 44 && b[4] == 32 && b[7] == 32 && b[11] == 32 && b[16] == 32 && b[25] == 32 && b[19]
        == 58 && b[22] == 58 && b[26] == 71 && b[27] == 77 && b[28] == 84 && digit(b[5]) && digit(
        b[6],
    ) && digit(b[12]) && digit(b[13]) && digit(b[14]) && digit(b[15]) && digit(b[17]) && digit(
        b[18],
    ) && digit(b[20]) && digit(b[21]) && digit(b[23]) && digit(b[24]) && upper(b[0]) && lower(b[1])
        && lower(b[2]) && upper(b[8]) && lower(b[9]) && lower(b[10])
}

} // verus!
