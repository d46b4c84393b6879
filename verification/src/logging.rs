//! Access log lines in the CERN Combined Log Format:
//! `ADDR - USER [DATE] "METHOD URL PROTO" STATUS BYTES "REFERER" "UA"`.

use vstd::prelude::*;
use vstd::string::*;
use crate::text::{
    dec, dec_int, ascii_chars, ascii_string, push_dec, push_dec_i64, lemma_dec_ascii, dec_zero_pad,
    push_dec_pad0, lemma_zero_pad_ascii, push_char, all_digits, digits_value,
};

verus! {

/// A single request's log-relevant fields.
pub struct LogEntry<'a> {
    pub remote_addr: &'a str,
    pub remote_user: &'a str,
    pub method: &'a str,
    pub url: &'a str,
    pub protocol: &'a str,
    pub status: u16,
    pub bytes_sent: i64,
    pub referer: &'a str,
    pub user_agent: &'a str,
}

/// The first `n` characters of `s`.
pub open spec fn cut(s: Seq<char>, n: int) -> Seq<char> {
    if s.len() > n {
        s.take(n)
    } else {
        s
    }
}

/// Truncate to at most `n` characters.
pub fn truncate(s: &str, n: usize) -> (r: &str)
    ensures
        r@ == cut(s@, n as int),
{
    let len = s.unicode_len();
    if len > n {
        s.substring_char(0, n)
    } else {
        assert(s@.subrange(0, len as int) =~= s@);
        s
    }
}

/// The byte count field: the decimal number, or `-` when it is negative.
pub open spec fn bytes_field(n: i64) -> Seq<char> {
    if n >= 0 {
        ascii_chars(dec_int(n as int))
    } else {
        seq!['-']
    }
}

/// The byte count field is the count written in decimal whenever it is
/// zero or more (a `304` logs `0`): digits that read back as the count.
/// Only a negative count is logged as `-`.
pub proof fn law_bytes_field_decimal(n: i64)
    ensures
        n >= 0 ==> {
            let d = dec(n as nat);
            &&& bytes_field(n) == ascii_chars(d)
            &&& d.len() > 0
            &&& all_digits(d)
            &&& digits_value(d) == n
        },
        n < 0 ==> bytes_field(n) == seq!['-'],
{
    if n >= 0 {
        lemma_dec_ascii(n as nat);
    }
}

/// The user field: `-` when there is no user.
pub open spec fn user_field(u: Seq<char>) -> Seq<char> {
    if u.len() == 0 {
        seq!['-']
    } else {
        u
    }
}

/// The log line of an entry, given the formatted local time.
pub open spec fn cern_line(e: LogEntry, date: Seq<char>) -> Seq<char> {
    cut(e.remote_addr@, 80) + " - "@ + cut(user_field(e.remote_user@), 80) + " ["@ + date
        + "] \""@ + cut(e.method@, 80) + " "@ + cut(e.url@, 300) + " "@ + cut(e.protocol@, 80)
        + "\" "@ + ascii_chars(dec(e.status as nat)) + " "@ + bytes_field(e.bytes_sent) + " \""@
        + cut(e.referer@, 200) + "\" \""@ + cut(e.user_agent@, 200) + "\"\n"@
}

fn decimal_string(n: u64) -> (r: String)
    ensures
        r@ == ascii_chars(dec(n as nat)),
{
    let mut v: Vec<u8> = Vec::new();
    push_dec(&mut v, n);
    proof {
        lemma_dec_ascii(n as nat);
    }
    assert(v@ =~= dec(n as nat));
    ascii_string(v.as_slice())
}

fn signed_decimal_string(n: i64) -> (r: String)
    requires
        n >= 0,
    ensures
        r@ == ascii_chars(dec_int(n as int)),
{
    let mut v: Vec<u8> = Vec::new();
    push_dec_i64(&mut v, n);
    proof {
        lemma_dec_ascii(n as nat);
    }
    assert(v@ =~= dec_int(n as int));
    ascii_string(v.as_slice())
}

/// Format a CERN Combined Log line: address, user, date, request line,
/// status, byte count, referer and user agent, each text field cut to at
/// most 80 characters (the path to 300, referer and agent to 200). The
/// local time is formatted by the caller.
pub fn format_cern_line(entry: &LogEntry, date: &str) -> (r: String)
    ensures
        r@ == cern_line(*entry, date@),
{
    let user = if entry.remote_user.unicode_len() == 0 {
        "-"
    } else {
        entry.remote_user
    };
    let bytes = if entry.bytes_sent >= 0 {
        signed_decimal_string(entry.bytes_sent)
    } else {
        "-".to_owned()
    };
    let status = decimal_string(entry.status as u64);
    let mut out = String::new();
    out.append(truncate(entry.remote_addr, 80));
    out.append(" - ");
    out.append(truncate(user, 80));
    out.append(" [");
    out.append(date);
    out.append("] \"");
    out.append(truncate(entry.method, 80));
    out.append(" ");
    out.append(truncate(entry.url, 300));
    out.append(" ");
    out.append(truncate(entry.protocol, 80));
    out.append("\" ");
    out.append(status.as_str());
    out.append(" ");
    out.append(bytes.as_str());
    out.append(" \"");
    out.append(truncate(entry.referer, 200));
    out.append("\" \"");
    out.append(truncate(entry.user_agent, 200));
    out.append("\"\n");
    proof {
        reveal_strlit("-");
        assert(user@ == user_field(entry.remote_user@));
        assert(bytes@ == bytes_field(entry.bytes_sent));
    }
    out
}

// ---------------------------------------------------------------- targets and dates

/// Where access-log lines go.
#[derive(Debug, Clone, Copy, PartialEq, Eq, Structural)]
pub enum LogTargetKind {
    /// No log file was configured (the system log).
    Syslog,
    /// `-l -`: standard output.
    Stdout,
    /// `-l <path>`: appended to a file.
    File,
    /// `-l /dev/null`: logging off.
    Disabled,
}

/// The log target a `-l` setting selects.
pub fn log_target_kind(logfile: Option<&str>) -> (r: LogTargetKind)
    ensures
        r == match logfile {
            None => LogTargetKind::Syslog,
            Some(p) => if p@ == "-"@ {
                LogTargetKind::Stdout
            } else if p@ == "/dev/null"@ {
                LogTargetKind::Disabled
            } else {
                LogTargetKind::File
            },
        },
{
    match logfile {
        None => LogTargetKind::Syslog,
        Some(p) => {
            let cs = crate::text::chars_of(p);
            if crate::text::chars_equal(cs.as_slice(), "-") {
                LogTargetKind::Stdout
            } else if crate::text::chars_equal(cs.as_slice(), "/dev/null") {
                LogTargetKind::Disabled
            } else {
                LogTargetKind::File
            }
        },
    }
}

/// Whether a target writes to a file.
pub fn is_file_backed(kind: LogTargetKind) -> (r: bool)
    ensures
        r == (kind == LogTargetKind::File),
{
    kind == LogTargetKind::File
}

/// The abbreviated month names.
pub open spec fn month_abbr(m: int) -> Seq<char> {
    seq!["Jan"@, "Feb"@, "Mar"@, "Apr"@, "May"@, "Jun"@, "Jul"@, "Aug"@, "Sep"@, "Oct"@, "Nov"@, "Dec"@][m]
}

/// `a / b` rounded toward zero (Rust's integer division).
pub open spec fn div_toward_zero(a: int, b: int) -> int {
    if a >= 0 { a / b } else { -((-a) / b) }
}

/// The `+HHMM` / `-HHMM` zone of an offset in seconds.
pub open spec fn zone_text(gmtoff: i64) -> Seq<char> {
    let z = div_toward_zero(gmtoff as int, 60);
    let a = if z >= 0 { z } else { -z };
    (if z >= 0 { seq!['+'] } else { seq!['-'] }) + ascii_chars(dec_zero_pad(((a / 60) * 100 + a % 60) as nat, 4))
}

/// The date part: `dd/Mon/yyyy` (a month past December shows December).
pub open spec fn cern_day_text(mday: i32, mon: i32, year: i32) -> Seq<char> {
    ascii_chars(dec_zero_pad(mday as nat, 2)) + seq!['/'] + month_abbr(if mon > 11 { 11 } else { mon as int })
        + seq!['/'] + ascii_chars(dec_zero_pad((year + 1900) as nat, 4))
}

/// The time part: `:HH:MM:SS `.
pub open spec fn cern_time_text(hour: i32, min: i32, sec: i32) -> Seq<char> {
    seq![':'] + ascii_chars(dec_zero_pad(hour as nat, 2)) + seq![':'] + ascii_chars(dec_zero_pad(min as nat, 2))
        + seq![':'] + ascii_chars(dec_zero_pad(sec as nat, 2)) + seq![' ']
}

/// A local time in the CERN log format, `dd/Mon/yyyy:HH:MM:SS +ZZZZ`, from
/// the fields of a `struct tm` (month from 0, year since 1900).
pub open spec fn cern_date_text(mday: i32, mon: i32, year: i32, hour: i32, min: i32, sec: i32, gmtoff: i64) -> Seq<char> {
    cern_day_text(mday, mon, year) + cern_time_text(hour, min, sec) + zone_text(gmtoff)
}

fn pad_text(n: u64, w: usize) -> (r: String)
    ensures
        r@ == ascii_chars(dec_zero_pad(n as nat, w as int)),
{
    let mut v: Vec<u8> = Vec::new();
    push_dec_pad0(&mut v, n, w);
    proof {
        lemma_zero_pad_ascii(n as nat, w as int);
    }
    assert(v@ =~= dec_zero_pad(n as nat, w as int));
    ascii_string(v.as_slice())
}

fn month_text(m: usize) -> (r: &'static str)
    requires
        m <= 11,
    ensures
        r@ == month_abbr(m as int),
{
    let names: [&'static str; 12] = ["Jan", "Feb", "Mar", "Apr", "May", "Jun", "Jul", "Aug", "Sep", "Oct", "Nov", "Dec"];
    assert(names@ =~= seq!["Jan", "Feb", "Mar", "Apr", "May", "Jun", "Jul", "Aug", "Sep", "Oct", "Nov", "Dec"]);
    names[m]
}

fn day_part(mday: i32, mon: i32, year: i32) -> (r: String)
    requires
        mday >= 0,
        mon >= 0,
        year >= -1900,
    ensures
        r@ == cern_day_text(mday, mon, year),
{
    let mut out = pad_text(mday as u64, 2);
    push_char(&mut out, '/');
    let m: usize = if mon > 11 { 11 } else { mon as usize };
    out.append(month_text(m));
    push_char(&mut out, '/');
    let y = pad_text((year as i64 + 1900) as u64, 4);
    out.append(y.as_str());
    out
}

fn time_part(hour: i32, min: i32, sec: i32) -> (r: String)
    requires
        hour >= 0,
        min >= 0,
        sec >= 0,
    ensures
        r@ == cern_time_text(hour, min, sec),
{
    let mut out = String::new();
    push_char(&mut out, ':');
    let h = pad_text(hour as u64, 2);
    out.append(h.as_str());
    push_char(&mut out, ':');
    let mi = pad_text(min as u64, 2);
    out.append(mi.as_str());
    push_char(&mut out, ':');
    let se = pad_text(sec as u64, 2);
    out.append(se.as_str());
    push_char(&mut out, ' ');
    out
}

fn zone_part(gmtoff: i64) -> (r: String)
    ensures
        r@ == zone_text(gmtoff),
{
    let z: i64 = gmtoff / 60;
    let mut out = String::new();
    push_char(&mut out, if z >= 0 { '+' } else { '-' });
    let a: i64 = if z >= 0 { z } else { -z };
    assert(a == (if div_toward_zero(gmtoff as int, 60) >= 0 { div_toward_zero(gmtoff as int, 60) } else { -div_toward_zero(gmtoff as int, 60) }));
    assert(0 <= (a / 60) * 100 + a % 60 <= a * 2) by (nonlinear_arith)
        requires a >= 0;
    let zone = pad_text(((a / 60) * 100 + a % 60) as u64, 4);
    out.append(zone.as_str());
    out
}

/// Formats the fields of a local time for the access log.
pub fn cern_date(mday: i32, mon: i32, year: i32, hour: i32, min: i32, sec: i32, gmtoff: i64) -> (r: String)
    requires
        mday >= 0,
        mon >= 0,
        year >= -1900,
        hour >= 0,
        min >= 0,
        sec >= 0,
    ensures
        r@ == cern_date_text(mday, mon, year, hour, min, sec, gmtoff),
{
    let mut out = day_part(mday, mon, year);
    let t = time_part(hour, min, sec);
    out.append(t.as_str());
    let z = zone_part(gmtoff);
    out.append(z.as_str());
    out
}

} // verus!
