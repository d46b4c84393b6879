//! HTTP dates: reading the RFC 1123, RFC 850 and asctime forms (and plain
//! seconds) into Unix timestamps, and writing a timestamp in RFC 1123 form.

use vstd::prelude::*;
use vstd::utf8::*;
use vstd::string::*;
use crate::throttle::tdiv;
use crate::text::{
    no_ws, is_digit, all_digits, is_ws, lemma_words_cons, lemma_words_single, lemma_split_cons,
    lemma_split_single, lemma_parse_zero_pad, lemma_parse_dec, lemma_ascii_chars_concat,
    lemma_ascii_encode, end_non_ws, next_non_ws, lemma_ascii_literal,
    chars_of, trim_chars, words_of, split_chars, parse_int_chars, parse_chars_spec, trim_ws, words,
    split_on,
    dec, dec_zero_pad, push_dec, push_dec_pad0, push_str, ascii_string, ascii_chars, all_ascii,
    sb, lemma_dec_ascii, lemma_ascii_concat, lemma_zero_pad_ascii, stb,
};

verus! {

broadcast use vstd::utf8::group_utf8_lib;

// ---------------------------------------------------------------- calendar

pub open spec fn leap(y: int) -> bool {
    (y % 4 == 0 && y % 100 != 0) || y % 400 == 0
}

pub open spec fn year_days(y: int) -> int {
    if leap(y) { 366 } else { 365 }
}

/// Days in month `m` (0 = January) of year `y`; 0 past December.
pub open spec fn month_days(m: int, y: int) -> int {
    if m == 0 || m == 2 || m == 4 || m == 6 || m == 7 || m == 9 || m == 11 {
        31
    } else if m == 3 || m == 5 || m == 8 || m == 10 {
        30
    } else if m == 1 {
        if leap(y) { 29 } else { 28 }
    } else {
        0
    }
}

/// Days in the years `a..b`.
pub open spec fn days_in_years(a: int, b: int) -> int
    decreases b - a,
{
    if a >= b {
        0
    } else {
        days_in_years(a, b - 1) + year_days(b - 1)
    }
}

/// Days from 1970-01-01 to the first day of year `y` (negative before 1970).
pub open spec fn days_to_year(y: int) -> int {
    if y < 1970 {
        -days_in_years(y, 1970)
    } else {
        days_in_years(1970, y)
    }
}

/// Days in the months before month `m` of year `y`.
pub open spec fn days_to_month(m: int, y: int) -> int
    decreases m,
{
    if m <= 0 {
        0
    } else {
        days_to_month(m - 1, y) + month_days(m - 1, y)
    }
}

/// Seconds since the epoch of a broken-down date (`day` counts from 1).
pub open spec fn epoch_of(year: int, month: int, day: int, hour: int, min: int, sec: int) -> int {
    (days_to_year(year) + days_to_month(month, year) + (day - 1)) * 86400 + hour * 3600 + min * 60
        + sec
}

pub fn is_leap_year(y: i32) -> (r: bool)
    ensures
        r == leap(y as int),
{
    (y % 4 == 0 && y % 100 != 0) || y % 400 == 0
}

pub fn days_in_year(y: i32) -> (r: i32)
    ensures
        r == year_days(y as int),
{
    if is_leap_year(y) { 366 } else { 365 }
}

pub fn days_in_month(m: u32, y: i32) -> (r: u32)
    ensures
        r == month_days(m as int, y as int),
{
    if m == 0 || m == 2 || m == 4 || m == 6 || m == 7 || m == 9 || m == 11 {
        31
    } else if m == 3 || m == 5 || m == 8 || m == 10 {
        30
    } else if m == 1 {
        if is_leap_year(y) { 29 } else { 28 }
    } else {
        0
    }
}

proof fn lemma_days_in_years_bounds(a: int, b: int)
    requires
        a <= b,
    ensures
        365 * (b - a) <= days_in_years(a, b) <= 366 * (b - a),
    decreases b - a,
{
    if a < b {
        lemma_days_in_years_bounds(a, b - 1);
    }
}

proof fn lemma_days_to_month_bounds(m: int, y: int)
    requires
        0 <= m,
    ensures
        0 <= days_to_month(m, y) <= 31 * m,
    decreases m,
{
    if m > 0 {
        lemma_days_to_month_bounds(m - 1, y);
    }
}

/// Seconds since the epoch of a broken-down date; the day is counted from 1.
pub fn date_to_epoch(year: i32, month: u32, day: u32, hour: u32, min: u32, sec: u32) -> (r: i64)
    requires
        month <= 11,
        day >= 1,
    ensures
        r == epoch_of(year as int, month as int, day as int, hour as int, min as int, sec as int),
{
    let mut days: i64 = 0;
    if year < 1970 {
        let mut yr: i32 = year;
        while yr < 1970
            invariant
                year <= yr <= 1970,
                days == days_in_years(year as int, yr as int),
                year < 1970,
            decreases 1970 - yr,
        {
            proof {
                lemma_days_in_years_bounds(year as int, yr as int);
            }
            days = days + days_in_year(yr) as i64;
            yr = yr + 1;
        }
        proof {
            lemma_days_in_years_bounds(year as int, 1970);
        }
        days = -days;
    } else {
        let mut yr: i32 = 1970;
        while yr < year
            invariant
                1970 <= yr <= year,
                days == days_in_years(1970, yr as int),
            decreases year - yr,
        {
            proof {
                lemma_days_in_years_bounds(1970, yr as int);
            }
            days = days + days_in_year(yr) as i64;
            yr = yr + 1;
        }
    }
    proof {
        if year < 1970 {
            lemma_days_in_years_bounds(year as int, 1970);
        } else {
            lemma_days_in_years_bounds(1970, year as int);
        }
    }
    assert(days == days_to_year(year as int));
    let mut m: u32 = 0;
    while m < month
        invariant
            m <= month <= 11,
            days == days_to_year(year as int) + days_to_month(m as int, year as int),
            -800_000_000_000 <= days_to_year(year as int) <= 800_000_000_000,
        decreases month - m,
    {
        proof {
            lemma_days_to_month_bounds(m as int, year as int);
        }
        days = days + days_in_month(m, year) as i64;
        m = m + 1;
    }
    proof {
        lemma_days_to_month_bounds(month as int, year as int);
    }
    days = days + (day - 1) as i64;
    assert(-900_000_000_000 <= days <= 900_000_000_000);
    days * 86400 + (hour as i64) * 3600 + (min as i64) * 60 + sec as i64
}

// ---------------------------------------------------------------- writing

/// Remainder of division that rounds toward zero, as Rust's `%`.
pub open spec fn trem(a: int, b: int) -> int {
    a - tdiv(a, b) * b
}

/// The year holding second `rem` counted from the start of year `y`, and
/// the seconds into that year.
pub open spec fn split_years(rem: int, y: int) -> (int, int)
    decreases rem,
{
    if rem < year_days(y) * 86400 {
        (y, rem)
    } else {
        split_years(rem - year_days(y) * 86400, y + 1)
    }
}

/// The month (from `m` on) holding second `rem` of year `y`, and the
/// seconds into that month.
pub open spec fn split_months(rem: int, m: int, y: int) -> (int, int)
    decreases 12 - m,
{
    if m >= 12 || rem < month_days(m, y) * 86400 {
        (m, rem)
    } else {
        split_months(rem - month_days(m, y) * 86400, m + 1, y)
    }
}

pub open spec fn weekday_text(i: int) -> Seq<u8> {
    if i == 0 {
        sb("Sun")
    } else if i == 1 {
        sb("Mon")
    } else if i == 2 {
        sb("Tue")
    } else if i == 3 {
        sb("Wed")
    } else if i == 4 {
        sb("Thu")
    } else if i == 5 {
        sb("Fri")
    } else {
        sb("Sat")
    }
}

pub open spec fn month_text(i: int) -> Seq<u8> {
    if i == 0 {
        sb("Jan")
    } else if i == 1 {
        sb("Feb")
    } else if i == 2 {
        sb("Mar")
    } else if i == 3 {
        sb("Apr")
    } else if i == 4 {
        sb("May")
    } else if i == 5 {
        sb("Jun")
    } else if i == 6 {
        sb("Jul")
    } else if i == 7 {
        sb("Aug")
    } else if i == 8 {
        sb("Sep")
    } else if i == 9 {
        sb("Oct")
    } else if i == 10 {
        sb("Nov")
    } else {
        sb("Dec")
    }
}

fn weekday_name(i: usize) -> (r: &'static str)
    requires
        i < 7,
    ensures
        sb(r) == weekday_text(i as int),
{
    if i == 0 {
        "Sun"
    } else if i == 1 {
        "Mon"
    } else if i == 2 {
        "Tue"
    } else if i == 3 {
        "Wed"
    } else if i == 4 {
        "Thu"
    } else if i == 5 {
        "Fri"
    } else {
        "Sat"
    }
}

fn month_name(i: u32) -> (r: &'static str)
    requires
        i < 12,
    ensures
        sb(r) == month_text(i as int),
{
    if i == 0 {
        "Jan"
    } else if i == 1 {
        "Feb"
    } else if i == 2 {
        "Mar"
    } else if i == 3 {
        "Apr"
    } else if i == 4 {
        "May"
    } else if i == 5 {
        "Jun"
    } else if i == 6 {
        "Jul"
    } else if i == 7 {
        "Aug"
    } else if i == 8 {
        "Sep"
    } else if i == 9 {
        "Oct"
    } else if i == 10 {
        "Nov"
    } else {
        "Dec"
    }
}

/// The weekday index that the text shows (0 for Sunday): the day count
/// since the epoch, as `i32`, counted on from Thursday, 1 January 1970.
pub open spec fn shown_weekday(ts: int) -> int {
    let total = tdiv(ts, 86400) as i32;
    (trem(total as int, 7) + 11) % 7
}

/// `Www, DD Mon YYYY HH:MM:SS GMT` of the given fields.
#[verifier::opaque]
pub open spec fn date_text(dow: int, day: u32, month: int, year: int, hour: u32, min: u32, sec: u32) -> Seq<u8> {
    weekday_text(dow) + sb(", ") + dec_zero_pad(day as nat, 2) + sb(" ") + month_text(month) + sb(
        " ",
    ) + dec(year as nat) + sb(" ") + dec_zero_pad(hour as nat, 2) + sb(":") + dec_zero_pad(
        min as nat,
        2,
    ) + sb(":") + dec_zero_pad(sec as nat, 2) + sb(" GMT")
}

/// The RFC 1123 text of a timestamp: `Www, DD Mon YYYY HH:MM:SS GMT`.
pub open spec fn http_date_text(ts: int) -> Seq<u8> {
    let (year, r1) = split_years(ts, 1970);
    let (month, r2) = split_months(r1, 0, year);
    let day = ((tdiv(r2, 86400) as u32) + 1) as u32;
    let r3 = trem(r2, 86400);
    let hour = tdiv(r3, 3600) as u32;
    let r4 = trem(r3, 3600);
    let min = tdiv(r4, 60) as u32;
    let sec = trem(r4, 60) as u32;
    date_text(shown_weekday(ts), day, month, year, hour, min, sec)
}

/// Largest timestamp (exclusive) whose year fits in an `i32`.
pub open spec fn last_formattable() -> int {
    days_in_years(1970, i32::MAX as int + 1) * 86400
}

proof fn lemma_days_to_month_total(y: int)
    ensures
        days_to_month(12, y) == year_days(y),
{
    reveal_with_fuel(days_to_month, 13);
}

proof fn lemma_split_months(rem: int, m: int, y: int)
    requires
        0 <= m <= 12,
        m > 0 ==> rem >= 0,
        rem + days_to_month(m, y) * 86400 < year_days(y) * 86400,
    ensures
        split_months(rem, m, y).0 <= 11,
        rem < 0 ==> split_months(rem, m, y) == (m, rem),
    decreases 12 - m,
{
    lemma_days_to_month_total(y);
    if m < 12 && rem >= month_days(m, y) * 86400 {
        assert(days_to_month(m + 1, y) == days_to_month(m, y) + month_days(m, y));
        lemma_split_months(rem - month_days(m, y) * 86400, m + 1, y);
    }
}

fn year_of(timestamp: i64) -> (r: (i32, i64))
    requires
        -86400 < timestamp < last_formattable(),
    ensures
        r.0 >= 1970,
        r.1 < year_days(r.0 as int) * 86400,
        r.1 > -86400,
        r.1 < 0 ==> r.0 == 1970,
        split_years(timestamp as int, 1970) == (r.0 as int, r.1 as int),
{
    let mut remaining = timestamp;
    let mut year: i32 = 1970;
    loop
        invariant
            1970 <= year,
            remaining == timestamp - days_in_years(1970, year as int) * 86400,
            split_years(remaining as int, year as int) == split_years(timestamp as int, 1970),
            remaining > -86400,
            remaining < 0 ==> year == 1970,
            timestamp < last_formattable(),
        ensures
            1970 <= year,
            remaining < year_days(year as int) * 86400,
            remaining > -86400,
            remaining < 0 ==> year == 1970,
            split_years(timestamp as int, 1970) == (year as int, remaining as int),
        decreases remaining,
    {
        let dy = days_in_year(year);
        if remaining < dy as i64 * 86400 {
            break;
        }
        proof {
            if year == i32::MAX {
                lemma_days_in_years_bounds(1970, year as int);
                assert(days_in_years(1970, year as int + 1) == days_in_years(1970, year as int)
                    + year_days(year as int));
                assert(false);
            }
        }
        remaining = remaining - dy as i64 * 86400;
        year = year + 1;
    }
    (year, remaining)
}

fn month_of(r1: i64, year: i32) -> (r: (u32, i64))
    requires
        r1 < year_days(year as int) * 86400,
        r1 > -86400,
    ensures
        r.0 <= 11,
        split_months(r1 as int, 0, year as int) == (r.0 as int, r.1 as int),
        -86400 < r.1 < 31 * 86400,
{
    let mut month: u32 = 0;
    let mut remaining = r1;
    proof {
        lemma_split_months(r1 as int, 0, year as int);
    }
    loop
        invariant
            month <= 12,
            split_months(remaining as int, month as int, year as int) == split_months(r1 as int, 0, year as int),
            split_months(r1 as int, 0, year as int).0 <= 11,
            remaining + days_to_month(month as int, year as int) * 86400 == r1,
            r1 < year_days(year as int) * 86400,
            r1 > -86400,
            remaining > -86400,
            month > 0 ==> remaining >= 0,
        ensures
            month <= 11,
            split_months(r1 as int, 0, year as int) == (month as int, remaining as int),
            -86400 < remaining < 31 * 86400,
        decreases 12 - month,
    {
        proof {
            lemma_days_to_month_total(year as int);
        }
        if month >= 12 {
            proof {
                lemma_split_months(remaining as int, month as int, year as int);
            }
            break;
        }
        let dm = days_in_month(month, year);
        if remaining < dm as i64 * 86400 {
            break;
        }
        remaining = remaining - dm as i64 * 86400;
        month = month + 1;
    }
    (month, remaining)
}

fn write_date(dow: usize, day: u32, month: u32, year: i32, hour: u32, min: u32, sec: u32) -> (r: Vec<u8>)
    requires
        dow < 7,
        month < 12,
        year >= 0,
    ensures
        r@ == date_text(dow as int, day, month as int, year as int, hour, min, sec),
{
    reveal(date_text);
    let mut out: Vec<u8> = Vec::new();
    push_str(&mut out, weekday_name(dow));
    push_str(&mut out, ", ");
    push_dec_pad0(&mut out, day as u64, 2);
    push_str(&mut out, " ");
    push_str(&mut out, month_name(month));
    push_str(&mut out, " ");
    push_dec(&mut out, year as u64);
    push_str(&mut out, " ");
    push_dec_pad0(&mut out, hour as u64, 2);
    push_str(&mut out, ":");
    push_dec_pad0(&mut out, min as u64, 2);
    push_str(&mut out, ":");
    push_dec_pad0(&mut out, sec as u64, 2);
    push_str(&mut out, " GMT");
    out
}

/// Whether the day field of a timestamp's text can be computed: the day
/// number, taken as `u32`, leaves room for one more. Before the epoch the
/// fields are the day and time counts taken as `u32`, which wrap.
pub open spec fn day_field_fits(ts: int) -> bool {
    ts >= 0 || (tdiv(ts, 86400) as u32) < u32::MAX
}

/// The time as an HTTP date string (RFC 1123 form), with the true weekday
/// (1970-01-01 was a Thursday).
pub fn format_http_date(timestamp: i64) -> (r: String)
    requires
        timestamp < last_formattable(),
        day_field_fits(timestamp as int),
    ensures
        stb(r) == http_date_text(timestamp as int),
        r@ == ascii_chars(http_date_text(timestamp as int)),
{
    let (year, r1) = if timestamp < 0 {
        proof {
            assert(year_days(1970) > 0);
            assert(split_years(timestamp as int, 1970) == (1970int, timestamp as int));
        }
        (1970i32, timestamp)
    } else {
        year_of(timestamp)
    };
    let (month, r2) = if timestamp < 0 {
        proof {
            assert(month_days(0, 1970) > 0);
            assert(split_months(timestamp as int, 0, 1970) == (0int, timestamp as int));
        }
        (0u32, r1)
    } else {
        month_of(r1, year)
    };
    let day: u32 = (r2 / 86400) as u32 + 1;
    let r3 = r2 % 86400;
    let hour = (r3 / 3600) as u32;
    let r4 = r3 % 3600;
    let min = (r4 / 60) as u32;
    let sec = (r4 % 60) as u32;
    let total_days = (timestamp / 86400) as i32;
    let dow = ((total_days % 7 + 11) % 7) as usize;
    let out = write_date(dow, day, month, year, hour, min, sec);
    assert(out@ == http_date_text(timestamp as int));
    proof {
        lemma_http_date_ascii(timestamp as int);
    }
    ascii_string(out.as_slice())
}

proof fn lemma_lit_ascii(s: &str)
    requires
        is_ascii(s),
    ensures
        all_ascii(sb(s)),
{
    broadcast use vstd::string::is_ascii_spec_bytes;
    assert forall|i: int| 0 <= i < sb(s).len() implies #[trigger] sb(s)[i] < 0x80 by {
        assert(sb(s)[i] == s@[i] as u8);
    }
}

pub proof fn lemma_names_ascii()
    ensures
        forall|i: int| #![trigger weekday_text(i)] all_ascii(weekday_text(i)),
        forall|i: int| #![trigger month_text(i)] all_ascii(month_text(i)),
{
    reveal_strlit("Sun");
    reveal_strlit("Mon");
    reveal_strlit("Tue");
    reveal_strlit("Wed");
    reveal_strlit("Thu");
    reveal_strlit("Fri");
    reveal_strlit("Sat");
    reveal_strlit("Jan");
    reveal_strlit("Feb");
    reveal_strlit("Mar");
    reveal_strlit("Apr");
    reveal_strlit("May");
    reveal_strlit("Jun");
    reveal_strlit("Jul");
    reveal_strlit("Aug");
    reveal_strlit("Sep");
    reveal_strlit("Oct");
    reveal_strlit("Nov");
    reveal_strlit("Dec");
    lemma_lit_ascii("Sun");
    lemma_lit_ascii("Mon");
    lemma_lit_ascii("Tue");
    lemma_lit_ascii("Wed");
    lemma_lit_ascii("Thu");
    lemma_lit_ascii("Fri");
    lemma_lit_ascii("Sat");
    lemma_lit_ascii("Jan");
    lemma_lit_ascii("Feb");
    lemma_lit_ascii("Mar");
    lemma_lit_ascii("Apr");
    lemma_lit_ascii("May");
    lemma_lit_ascii("Jun");
    lemma_lit_ascii("Jul");
    lemma_lit_ascii("Aug");
    lemma_lit_ascii("Sep");
    lemma_lit_ascii("Oct");
    lemma_lit_ascii("Nov");
    lemma_lit_ascii("Dec");
}

proof fn lemma_http_date_ascii(ts: int)
    ensures
        all_ascii(http_date_text(ts)),
{
    reveal(date_text);
    reveal_strlit("Sun");
    reveal_strlit("Mon");
    reveal_strlit("Tue");
    reveal_strlit("Wed");
    reveal_strlit("Thu");
    reveal_strlit("Fri");
    reveal_strlit("Sat");
    reveal_strlit("Jan");
    reveal_strlit("Feb");
    reveal_strlit("Mar");
    reveal_strlit("Apr");
    reveal_strlit("May");
    reveal_strlit("Jun");
    reveal_strlit("Jul");
    reveal_strlit("Aug");
    reveal_strlit("Sep");
    reveal_strlit("Oct");
    reveal_strlit("Nov");
    reveal_strlit("Dec");
    reveal_strlit(", ");
    reveal_strlit(" ");
    reveal_strlit(":");
    reveal_strlit(" GMT");
    let (year, r1) = split_years(ts, 1970);
    let (month, r2) = split_months(r1, 0, year);
    let day = ((tdiv(r2, 86400) as u32) + 1) as u32;
    let r3 = trem(r2, 86400);
    let hour = tdiv(r3, 3600) as u32;
    let r4 = trem(r3, 3600);
    let min = tdiv(r4, 60) as u32;
    let sec = trem(r4, 60) as u32;
    lemma_names_ascii();
    let w = weekday_text(shown_weekday(ts));
    let mo = month_text(month);
    assert(all_ascii(w));
    assert(all_ascii(mo));
    lemma_lit_ascii(", ");
    lemma_lit_ascii(" ");
    lemma_lit_ascii(":");
    lemma_lit_ascii(" GMT");
    lemma_zero_pad_ascii(day as nat, 2);
    lemma_zero_pad_ascii(hour as nat, 2);
    lemma_zero_pad_ascii(min as nat, 2);
    lemma_zero_pad_ascii(sec as nat, 2);
    lemma_dec_ascii(year as nat);
    let mut t = w;
    lemma_ascii_concat(t, sb(", "));
    t = t + sb(", ");
    lemma_ascii_concat(t, dec_zero_pad(day as nat, 2));
    t = t + dec_zero_pad(day as nat, 2);
    lemma_ascii_concat(t, sb(" "));
    t = t + sb(" ");
    lemma_ascii_concat(t, mo);
    t = t + mo;
    lemma_ascii_concat(t, sb(" "));
    t = t + sb(" ");
    lemma_ascii_concat(t, dec(year as nat));
    t = t + dec(year as nat);
    lemma_ascii_concat(t, sb(" "));
    t = t + sb(" ");
    lemma_ascii_concat(t, dec_zero_pad(hour as nat, 2));
    t = t + dec_zero_pad(hour as nat, 2);
    lemma_ascii_concat(t, sb(":"));
    t = t + sb(":");
    lemma_ascii_concat(t, dec_zero_pad(min as nat, 2));
    t = t + dec_zero_pad(min as nat, 2);
    lemma_ascii_concat(t, sb(":"));
    t = t + sb(":");
    lemma_ascii_concat(t, dec_zero_pad(sec as nat, 2));
    t = t + dec_zero_pad(sec as nat, 2);
    lemma_ascii_concat(t, sb(" GMT"));
    t = t + sb(" GMT");
    assert(t == http_date_text(ts));
}

// ---------------------------------------------------------------- reading

/// `0` for "Jan" through `11` for "Dec".
#[verifier::opaque]
pub open spec fn month_index(name: Seq<char>) -> Option<int> {
    if name == seq!['J', 'a', 'n'] {
        Some(0)
    } else if name == seq!['F', 'e', 'b'] {
        Some(1)
    } else if name == seq!['M', 'a', 'r'] {
        Some(2)
    } else if name == seq!['A', 'p', 'r'] {
        Some(3)
    } else if name == seq!['M', 'a', 'y'] {
        Some(4)
    } else if name == seq!['J', 'u', 'n'] {
        Some(5)
    } else if name == seq!['J', 'u', 'l'] {
        Some(6)
    } else if name == seq!['A', 'u', 'g'] {
        Some(7)
    } else if name == seq!['S', 'e', 'p'] {
        Some(8)
    } else if name == seq!['O', 'c', 't'] {
        Some(9)
    } else if name == seq!['N', 'o', 'v'] {
        Some(10)
    } else if name == seq!['D', 'e', 'c'] {
        Some(11)
    } else {
        None
    }
}

fn eq3(name: &[char], a: char, b: char, c: char) -> (r: bool)
    ensures
        r == (name@ == seq![a, b, c]),
{
    if name.len() != 3 {
        return false;
    }
    let r = name[0] == a && name[1] == b && name[2] == c;
    if r {
        assert(name@ =~= seq![a, b, c]);
    }
    r
}

/// `0` for "Jan" through `11` for "Dec".
pub fn month_num(name: &[char]) -> (r: Option<u32>)
    ensures
        r matches Some(m) ==> month_index(name@) == Some(m as int) && m <= 11,
        r is None ==> month_index(name@) is None,
{
    reveal(month_index);
    if eq3(name, 'J', 'a', 'n') {
        Some(0)
    } else if eq3(name, 'F', 'e', 'b') {
        Some(1)
    } else if eq3(name, 'M', 'a', 'r') {
        Some(2)
    } else if eq3(name, 'A', 'p', 'r') {
        Some(3)
    } else if eq3(name, 'M', 'a', 'y') {
        Some(4)
    } else if eq3(name, 'J', 'u', 'n') {
        Some(5)
    } else if eq3(name, 'J', 'u', 'l') {
        Some(6)
    } else if eq3(name, 'A', 'u', 'g') {
        Some(7)
    } else if eq3(name, 'S', 'e', 'p') {
        Some(8)
    } else if eq3(name, 'O', 'c', 't') {
        Some(9)
    } else if eq3(name, 'N', 'o', 'v') {
        Some(10)
    } else if eq3(name, 'D', 'e', 'c') {
        Some(11)
    } else {
        None
    }
}

pub open spec fn u32_text(t: Seq<char>) -> Option<int> {
    parse_chars_spec(t, 0, u32::MAX as int)
}

pub open spec fn i32_text(t: Seq<char>) -> Option<int> {
    parse_chars_spec(t, i32::MIN as int, i32::MAX as int)
}

fn read_u32(t: &[char]) -> (r: Option<u32>)
    ensures
        r matches Some(v) ==> u32_text(t@) == Some(v as int),
        r is None ==> u32_text(t@) is None,
{
    match parse_int_chars(t, 0, 0xffff_ffff) {
        Some(v) => Some(v as u32),
        None => None,
    }
}

fn read_i32(t: &[char]) -> (r: Option<i32>)
    ensures
        r matches Some(v) ==> i32_text(t@) == Some(v as int),
        r is None ==> i32_text(t@) is None,
{
    match parse_int_chars(t, -0x8000_0000, 0x7fff_ffff) {
        Some(v) => Some(v as i32),
        None => None,
    }
}

/// `HH:MM:SS`: three `u32` fields separated by colons.
pub open spec fn clock_of(t: Seq<char>) -> Option<(int, int, int)> {
    let p = split_on(t, ':');
    if p.len() != 3 {
        None
    } else {
        match (u32_text(p[0]), u32_text(p[1]), u32_text(p[2])) {
            (Some(h), Some(m), Some(s)) => Some((h, m, s)),
            _ => None,
        }
    }
}

fn read_clock(t: &[char]) -> (r: Option<(u32, u32, u32)>)
    ensures
        r matches Some(c) ==> clock_of(t@) == Some((c.0 as int, c.1 as int, c.2 as int)),
        r is None ==> clock_of(t@) is None,
{
    let p = split_chars(t, ':');
    if p.len() != 3 {
        return None;
    }
    let h = match read_u32(p[0].as_slice()) {
        Some(v) => v,
        None => return None,
    };
    let m = match read_u32(p[1].as_slice()) {
        Some(v) => v,
        None => return None,
    };
    let s = match read_u32(p[2].as_slice()) {
        Some(v) => v,
        None => return None,
    };
    Some((h, m, s))
}

/// Fields of the RFC 1123 form `Sun, 06 Nov 1994 08:49:37 GMT`: six
/// whitespace-separated words; the second is the day, the third the month,
/// the fourth the year, the fifth the clock. Gives (year, month, day, hour,
/// minute, second).
pub open spec fn rfc1123_fields(s: Seq<char>) -> Option<(int, int, int, int, int, int)> {
    let w = words(s);
    if w.len() != 6 {
        None
    } else {
        match (u32_text(w[1]), month_index(w[2]), i32_text(w[3]), clock_of(w[4])) {
            (Some(day), Some(mo), Some(y), Some((h, mi, se))) => Some((y, mo, day, h, mi, se)),
            _ => None,
        }
    }
}

/// `c` separates the fields of the RFC 850 form.
pub open spec fn sep850(c: char) -> bool {
    c == ' ' || c == ','
}

pub open spec fn next_sep850(s: Seq<char>, k: int) -> int
    decreases s.len() - k,
{
    if k < 0 || k >= s.len() {
        s.len() as int
    } else if sep850(s[k]) {
        k
    } else {
        next_sep850(s, k + 1)
    }
}

pub open spec fn next_field850(s: Seq<char>, k: int) -> int
    decreases s.len() - k,
{
    if k < 0 || k >= s.len() {
        s.len() as int
    } else if !sep850(s[k]) {
        k
    } else {
        next_field850(s, k + 1)
    }
}

pub proof fn lemma_next850_bounds(s: Seq<char>, k: int)
    requires
        0 <= k <= s.len(),
    ensures
        k <= next_sep850(s, k) <= s.len(),
        k <= next_field850(s, k) <= s.len(),
        next_field850(s, k) < s.len() ==> !sep850(s[next_field850(s, k)]),
        k < s.len() && !sep850(s[k]) ==> next_sep850(s, k) > k,
    decreases s.len() - k,
{
    if k < s.len() {
        lemma_next850_bounds(s, k + 1);
    }
}

/// The non-empty pieces of `s[k..]` split at spaces and commas.
pub open spec fn fields850_from(s: Seq<char>, k: int) -> Seq<Seq<char>>
    decreases s.len() - k,
{
    if k < 0 || k > s.len() {
        Seq::empty()
    } else {
        let a = next_field850(s, k);
        if a >= s.len() {
            Seq::empty()
        } else {
            proof {
                lemma_next850_bounds(s, k);
                lemma_next850_bounds(s, a);
            }
            let b = next_sep850(s, a);
            seq![s.subrange(a, b)] + fields850_from(s, b)
        }
    }
}

/// Fields of the RFC 850 form `Sunday, 06-Nov-94 08:49:37 GMT`: the text
/// split at spaces and commas, empty pieces dropped; the first piece is the
/// weekday, the second `day-month-year` (two-digit years below 70 are
/// 20xx, below 100 19xx), the third the clock. Gives (year, month, day,
/// hour, minute, second).
pub open spec fn rfc850_fields(s: Seq<char>) -> Option<(int, int, int, int, int, int)> {
    let parts = fields850_from(s, 0);
    if parts.len() < 4 {
        None
    } else {
        match (date850_of(parts[1]), clock_of(parts[2])) {
            (Some((day, mo, year)), Some((h, mi, se))) => Some((year, mo, day, h, mi, se)),
            _ => None,
        }
    }
}

/// `day-month-year` of the RFC 850 form, the year widened from two digits.
/// Gives (day, month, year).
pub open spec fn date850_of(t: Seq<char>) -> Option<(int, int, int)> {
    let dp = split_on(t, '-');
    if dp.len() != 3 {
        None
    } else {
        match (u32_text(dp[0]), month_index(dp[1]), i32_text(dp[2])) {
            (Some(day), Some(mo), Some(y)) => Some(
                (day, mo, if y < 70 {
                    y + 2000
                } else if y < 100 {
                    y + 1900
                } else {
                    y
                }),
            ),
            _ => None,
        }
    }
}

/// Fields of the asctime form `Sun Nov  6 08:49:37 1994`: five
/// whitespace-separated words: weekday, month, day, clock, year.
pub open spec fn asctime_fields(s: Seq<char>) -> Option<(int, int, int, int, int, int)> {
    let w = words(s);
    if w.len() != 5 {
        None
    } else {
        match (month_index(w[1]), u32_text(w[2]), clock_of(w[3]), i32_text(w[4])) {
            (Some(mo), Some(day), Some((h, mi, se)), Some(y)) => Some((y, mo, day, h, mi, se)),
            _ => None,
        }
    }
}

/// The first of the three date forms that reads the text.
pub open spec fn date_fields(s: Seq<char>) -> Option<(int, int, int, int, int, int)> {
    if rfc1123_fields(s) is Some {
        rfc1123_fields(s)
    } else if rfc850_fields(s) is Some {
        rfc850_fields(s)
    } else {
        asctime_fields(s)
    }
}

/// What `parse_http_date` reads: the trimmed text as plain seconds, or else
/// as a date in one of the three forms.
pub open spec fn read_http_date(s: Seq<char>) -> Option<int> {
    let t = trim_ws(s);
    match parse_chars_spec(t, i64::MIN as int, i64::MAX as int) {
        Some(v) => Some(v),
        None => match date_fields(t) {
            Some(f) => Some(epoch_of(f.0, f.1, f.2, f.3, f.4, f.5)),
            None => None,
        },
    }
}

/// A date that is read has a day of at least 1 (day 0 underflows).
pub open spec fn fields_ok(f: Option<(int, int, int, int, int, int)>) -> bool {
    f matches Some(v) ==> v.2 >= 1
}

/// The text can be read without the day underflow.
pub open spec fn http_date_readable(s: Seq<char>) -> bool {
    let t = trim_ws(s);
    parse_chars_spec(t, i64::MIN as int, i64::MAX as int) is None ==> fields_ok(date_fields(t))
}

/// The fields of a date: year, month from 0, day, hour, minute, second.
pub type DateParts = (i32, u32, u32, u32, u32, u32);

pub open spec fn fields_view(f: DateParts) -> (int, int, int, int, int, int) {
    (f.0 as int, f.1 as int, f.2 as int, f.3 as int, f.4 as int, f.5 as int)
}

fn read_rfc1123(s: &[char]) -> (r: Option<DateParts>)
    ensures
        match r {
            Some(f) => rfc1123_fields(s@) == Some(fields_view(f)) && f.1 <= 11,
            None => rfc1123_fields(s@) is None,
        },
{
    let parts = words_of(s);
    if parts.len() != 6 {
        return None;
    }
    let day = match read_u32(parts[1].as_slice()) {
        Some(v) => v,
        None => return None,
    };
    let month = match month_num(parts[2].as_slice()) {
        Some(v) => v,
        None => return None,
    };
    let year = match read_i32(parts[3].as_slice()) {
        Some(v) => v,
        None => return None,
    };
    let (hour, min, sec) = match read_clock(parts[4].as_slice()) {
        Some(c) => c,
        None => return None,
    };
    Some((year, month, day, hour, min, sec))
}

fn fields850_of(cs: &[char]) -> (r: Vec<Vec<char>>)
    ensures
        r@.len() == fields850_from(cs@, 0).len(),
        forall|i: int| 0 <= i < r@.len() ==> #[trigger] r@[i]@ == fields850_from(cs@, 0)[i],
{
    let mut out: Vec<Vec<char>> = Vec::new();
    let ghost mut done: Seq<Seq<char>> = Seq::empty();
    let mut k: usize = 0;
    loop
        invariant
            k <= cs@.len(),
            fields850_from(cs@, 0) == done + fields850_from(cs@, k as int),
            out@.len() == done.len(),
            forall|i: int| 0 <= i < out@.len() ==> #[trigger] out@[i]@ == done[i],
        ensures
            fields850_from(cs@, 0) == done,
            out@.len() == done.len(),
            forall|i: int| 0 <= i < out@.len() ==> #[trigger] out@[i]@ == done[i],
        decreases cs@.len() - k,
    {
        let mut a = k;
        while a < cs.len() && (cs[a] == ' ' || cs[a] == ',')
            invariant
                k <= a <= cs@.len(),
                next_field850(cs@, k as int) == next_field850(cs@, a as int),
            decreases cs@.len() - a,
        {
            a += 1;
        }
        if a >= cs.len() {
            assert(fields850_from(cs@, k as int) =~= Seq::<Seq<char>>::empty());
            assert(done + Seq::<Seq<char>>::empty() =~= done);
            break;
        }
        let mut b = a;
        while b < cs.len() && !(cs[b] == ' ' || cs[b] == ',')
            invariant
                a <= b <= cs@.len(),
                next_sep850(cs@, a as int) == next_sep850(cs@, b as int),
            decreases cs@.len() - b,
        {
            b += 1;
        }
        proof {
            lemma_next850_bounds(cs@, a as int);
        }
        let w = copy_chars_local(cs, a, b);
        out.push(w);
        proof {
            assert(fields850_from(cs@, k as int) == seq![cs@.subrange(a as int, b as int)]
                + fields850_from(cs@, b as int));
            done = done.push(cs@.subrange(a as int, b as int));
            assert(fields850_from(cs@, 0) =~= done + fields850_from(cs@, b as int));
        }
        k = b;
    }
    out
}

fn copy_chars_local(cs: &[char], lo: usize, hi: usize) -> (v: Vec<char>)
    requires
        lo <= hi <= cs@.len(),
    ensures
        v@ == cs@.subrange(lo as int, hi as int),
{
    let mut v: Vec<char> = Vec::new();
    let mut i: usize = lo;
    while i < hi
        invariant
            lo <= i <= hi <= cs@.len(),
            v@ == cs@.subrange(lo as int, i as int),
        decreases hi - i,
    {
        v.push(cs[i]);
        i += 1;
    }
    v
}

fn read_date850(t: &[char]) -> (r: Option<(u32, u32, i32)>)
    ensures
        r matches Some(d) ==> date850_of(t@) == Some((d.0 as int, d.1 as int, d.2 as int)) && d.1 <= 11,
        r is None ==> date850_of(t@) is None,
{
    let date_parts = split_chars(t, '-');
    if date_parts.len() != 3 {
        return None;
    }
    let day = match read_u32(date_parts[0].as_slice()) {
        Some(v) => v,
        None => return None,
    };
    let month = match month_num(date_parts[1].as_slice()) {
        Some(v) => v,
        None => return None,
    };
    let mut year = match read_i32(date_parts[2].as_slice()) {
        Some(v) => v,
        None => return None,
    };
    if year < 70 {
        year = year + 2000;
    } else if year < 100 {
        year = year + 1900;
    }
    Some((day, month, year))
}

fn read_rfc850(s: &[char]) -> (r: Option<DateParts>)
    ensures
        match r {
            Some(f) => rfc850_fields(s@) == Some(fields_view(f)) && f.1 <= 11,
            None => rfc850_fields(s@) is None,
        },
{
    let parts = fields850_of(s);
    if parts.len() < 4 {
        return None;
    }
    let (day, month, year) = match read_date850(parts[1].as_slice()) {
        Some(d) => d,
        None => return None,
    };
    let (hour, min, sec) = match read_clock(parts[2].as_slice()) {
        Some(c) => c,
        None => return None,
    };
    Some((year, month, day, hour, min, sec))
}

fn read_asctime(s: &[char]) -> (r: Option<DateParts>)
    ensures
        match r {
            Some(f) => asctime_fields(s@) == Some(fields_view(f)) && f.1 <= 11,
            None => asctime_fields(s@) is None,
        },
{
    let parts = words_of(s);
    if parts.len() != 5 {
        return None;
    }
    let month = match month_num(parts[1].as_slice()) {
        Some(v) => v,
        None => return None,
    };
    let day = match read_u32(parts[2].as_slice()) {
        Some(v) => v,
        None => return None,
    };
    let (hour, min, sec) = match read_clock(parts[3].as_slice()) {
        Some(c) => c,
        None => return None,
    };
    let year = match read_i32(parts[4].as_slice()) {
        Some(v) => v,
        None => return None,
    };
    Some((year, month, day, hour, min, sec))
}

/// Parses an HTTP date into a Unix timestamp. After trimming, the text is
/// read as plain seconds, or in RFC 1123 (`Sun, 06 Nov 1994 08:49:37 GMT`),
/// RFC 850 (`Sunday, 06-Nov-94 08:49:37 GMT`) or asctime
/// (`Sun Nov  6 08:49:37 1994`) form, the first that fits.
pub fn parse_http_date(input: &str) -> (r: Option<i64>)
    requires
        http_date_readable(input@),
    ensures
        r matches Some(v) ==> read_http_date(input@) == Some(v as int),
        r is None ==> read_http_date(input@) is None,
{
    match read_date(input) {
        DateRead::Seconds(v) => Some(v),
        DateRead::Fields(f) => Some(date_to_epoch(f.0, f.1, f.2, f.3, f.4, f.5)),
        DateRead::Unreadable => None,
    }
}

/// What the text of a date gives before the arithmetic.
enum DateRead {
    Seconds(i64),
    Fields(DateParts),
    Unreadable,
}

fn read_date(input: &str) -> (r: DateRead)
    ensures
        match r {
            DateRead::Seconds(v) => parse_chars_spec(trim_ws(input@), i64::MIN as int, i64::MAX as int)
                == Some(v as int),
            DateRead::Fields(f) => parse_chars_spec(trim_ws(input@), i64::MIN as int, i64::MAX as int)
                is None && date_fields(trim_ws(input@)) == Some(fields_view(f)) && f.1 <= 11,
            DateRead::Unreadable => parse_chars_spec(trim_ws(input@), i64::MIN as int, i64::MAX as int)
                is None && date_fields(trim_ws(input@)) is None,
        },
{
    let cs = chars_of(input);
    let t = trim_chars(cs.as_slice());
    match parse_int_chars(t.as_slice(), -0x8000_0000_0000_0000, 0x7fff_ffff_ffff_ffff) {
        Some(v) => {
            return DateRead::Seconds(v as i64);
        },
        None => {},
    }
    if let Some(f) = read_rfc1123(t.as_slice()) {
        return DateRead::Fields(f);
    }
    if let Some(f) = read_rfc850(t.as_slice()) {
        return DateRead::Fields(f);
    }
    if let Some(f) = read_asctime(t.as_slice()) {
        return DateRead::Fields(f);
    }
    DateRead::Unreadable
}

/// `parse_http_date` where the text can be read, `None` where it cannot (a
/// date whose day is 0, on which the reading underflows).
pub fn try_parse_http_date(input: &str) -> (r: Option<Option<i64>>)
    ensures
        r is None <==> !http_date_readable(input@),
        r matches Some(Some(v)) ==> read_http_date(input@) == Some(v as int),
        r matches Some(None) ==> read_http_date(input@) is None,
{
    match read_date(input) {
        DateRead::Seconds(v) => Some(Some(v)),
        DateRead::Fields(f) => {
            if f.2 == 0 {
                None
            } else {
                Some(Some(date_to_epoch(f.0, f.1, f.2, f.3, f.4, f.5)))
            }
        },
        DateRead::Unreadable => Some(None),
    }
}

// ---------------------------------------------------------------- round trip

proof fn lemma_days_in_years_add(a: int, b: int, c: int)
    requires
        a <= b <= c,
    ensures
        days_in_years(a, b) + days_in_years(b, c) == days_in_years(a, c),
    decreases c - b,
{
    if b < c {
        lemma_days_in_years_add(a, b, c - 1);
    }
}

proof fn lemma_split_years_decomp(rem: int, y: int)
    requires
        rem >= 0,
    ensures
        split_years(rem, y).0 >= y,
        0 <= split_years(rem, y).1 < year_days(split_years(rem, y).0) * 86400,
        rem == days_in_years(y, split_years(rem, y).0) * 86400 + split_years(rem, y).1,
    decreases rem,
{
    if rem >= year_days(y) * 86400 {
        let next = rem - year_days(y) * 86400;
        lemma_split_years_decomp(next, y + 1);
        let yy = split_years(next, y + 1).0;
        lemma_days_in_years_add(y, y + 1, yy);
        assert(days_in_years(y, y + 1) == year_days(y)) by {
            reveal_with_fuel(days_in_years, 2);
        }
    }
}

proof fn lemma_split_months_decomp(rem: int, m: int, y: int)
    requires
        0 <= m <= 12,
        rem >= 0,
        rem + days_to_month(m, y) * 86400 < year_days(y) * 86400,
    ensures
        m <= split_months(rem, m, y).0 <= 11,
        0 <= split_months(rem, m, y).1 < month_days(split_months(rem, m, y).0, y) * 86400,
        days_to_month(m, y) * 86400 + rem == days_to_month(split_months(rem, m, y).0, y) * 86400
            + split_months(rem, m, y).1,
    decreases 12 - m,
{
    lemma_split_months(rem, m, y);
    lemma_days_to_month_total(y);
    if m < 12 && rem >= month_days(m, y) * 86400 {
        assert(days_to_month(m + 1, y) == days_to_month(m, y) + month_days(m, y));
        lemma_split_months_decomp(rem - month_days(m, y) * 86400, m + 1, y);
    }
}

/// Every byte is a visible ASCII character (no space, no control).
pub open spec fn visible(b: Seq<u8>) -> bool {
    forall|i: int| 0 <= i < b.len() ==> 33 <= #[trigger] b[i] <= 126
}

proof fn lemma_visible_concat(a: Seq<u8>, b: Seq<u8>)
    requires
        visible(a),
        visible(b),
    ensures
        visible(a + b),
{
    assert forall|i: int| 0 <= i < (a + b).len() implies 33 <= #[trigger] (a + b)[i] <= 126 by {
        if i < a.len() {
            assert((a + b)[i] == a[i]);
        } else {
            assert((a + b)[i] == b[i - a.len()]);
        }
    }
}

proof fn lemma_visible_words(b: Seq<u8>)
    requires
        visible(b),
    ensures
        no_ws(ascii_chars(b)),
        all_ascii(b),
        !ascii_chars(b).contains(' '),
{
    assert forall|i: int| 0 <= i < ascii_chars(b).len() implies !is_ws(#[trigger] ascii_chars(b)[i]) by {
        assert(33 <= b[i] <= 126);
        assert((b[i] as char) as u32 == b[i] as u32);
    }
    if ascii_chars(b).contains(' ') {
        let i = choose|i: int| 0 <= i < ascii_chars(b).len() && ascii_chars(b)[i] == ' ';
        assert(is_ws(ascii_chars(b)[i]));
    }
}

proof fn lemma_digits_visible(b: Seq<u8>)
    requires
        all_digits(b),
    ensures
        visible(b),
        !ascii_chars(b).contains(':'),
{
    assert forall|i: int| 0 <= i < b.len() implies 33 <= #[trigger] b[i] <= 126 by {
        assert(is_digit(b[i]));
    }
    if ascii_chars(b).contains(':') {
        let i = choose|i: int| 0 <= i < ascii_chars(b).len() && ascii_chars(b)[i] == ':';
        assert(is_digit(b[i]));
        assert((b[i] as char) as u32 == b[i] as u32);
    }
}

proof fn lemma_weekday_facts(i: int)
    ensures
        weekday_text(i).len() == 3,
        visible(weekday_text(i)),
        65 <= weekday_text(i)[0] <= 90,
{
    reveal_strlit("Sun");
    reveal_strlit("Mon");
    reveal_strlit("Tue");
    reveal_strlit("Wed");
    reveal_strlit("Thu");
    reveal_strlit("Fri");
    reveal_strlit("Sat");
    lemma_ascii_literal("Sun");
    lemma_ascii_literal("Mon");
    lemma_ascii_literal("Tue");
    lemma_ascii_literal("Wed");
    lemma_ascii_literal("Thu");
    lemma_ascii_literal("Fri");
    lemma_ascii_literal("Sat");
}

proof fn lemma_month_facts(m: int)
    requires
        0 <= m < 12,
    ensures
        month_text(m).len() == 3,
        visible(month_text(m)),
        month_index(ascii_chars(month_text(m))) == Some(m),
{
    reveal(month_index);
    reveal_strlit("Jan");
    reveal_strlit("Feb");
    reveal_strlit("Mar");
    reveal_strlit("Apr");
    reveal_strlit("May");
    reveal_strlit("Jun");
    reveal_strlit("Jul");
    reveal_strlit("Aug");
    reveal_strlit("Sep");
    reveal_strlit("Oct");
    reveal_strlit("Nov");
    reveal_strlit("Dec");
    lemma_ascii_literal("Jan");
    lemma_ascii_literal("Feb");
    lemma_ascii_literal("Mar");
    lemma_ascii_literal("Apr");
    lemma_ascii_literal("May");
    lemma_ascii_literal("Jun");
    lemma_ascii_literal("Jul");
    lemma_ascii_literal("Aug");
    lemma_ascii_literal("Sep");
    lemma_ascii_literal("Oct");
    lemma_ascii_literal("Nov");
    lemma_ascii_literal("Dec");
    assert("Jan"@ =~= seq!['J', 'a', 'n']);
    assert("Feb"@ =~= seq!['F', 'e', 'b']);
    assert("Mar"@ =~= seq!['M', 'a', 'r']);
    assert("Apr"@ =~= seq!['A', 'p', 'r']);
    assert("May"@ =~= seq!['M', 'a', 'y']);
    assert("Jun"@ =~= seq!['J', 'u', 'n']);
    assert("Jul"@ =~= seq!['J', 'u', 'l']);
    assert("Aug"@ =~= seq!['A', 'u', 'g']);
    assert("Sep"@ =~= seq!['S', 'e', 'p']);
    assert("Oct"@ =~= seq!['O', 'c', 't']);
    assert("Nov"@ =~= seq!['N', 'o', 'v']);
    assert("Dec"@ =~= seq!['D', 'e', 'c']);
}

/// The separators of the RFC 1123 text, as bytes.
proof fn lemma_separator_bytes()
    ensures
        sb(", ") == seq![44u8, 32u8],
        sb(" ") == seq![32u8],
        sb(":") == seq![58u8],
        sb(" GMT") == seq![32u8, 71u8, 77u8, 84u8],
{
    reveal_strlit(", ");
    reveal_strlit(" ");
    reveal_strlit(":");
    reveal_strlit(" GMT");
    lemma_ascii_literal(", ");
    lemma_ascii_literal(" ");
    lemma_ascii_literal(":");
    lemma_ascii_literal(" GMT");
    assert(sb(", ") =~= seq![44u8, 32u8]);
    assert(sb(" ") =~= seq![32u8]);
    assert(sb(":") =~= seq![58u8]);
    assert(sb(" GMT") =~= seq![32u8, 71u8, 77u8, 84u8]);
}

/// The clock part `HH:MM:SS` of the text.
pub open spec fn clock_bytes(hour: u32, min: u32, sec: u32) -> Seq<u8> {
    dec_zero_pad(hour as nat, 2) + seq![58u8] + dec_zero_pad(min as nat, 2) + seq![58u8]
        + dec_zero_pad(sec as nat, 2)
}

proof fn lemma_date_text_shape(dow: int, day: u32, month: int, year: int, hour: u32, min: u32, sec: u32)
    ensures
        date_text(dow, day, month, year, hour, min, sec) == (weekday_text(dow) + seq![44u8]) + seq![32u8]
            + dec_zero_pad(day as nat, 2) + seq![32u8] + month_text(month) + seq![32u8] + dec(
            year as nat,
        ) + seq![32u8] + clock_bytes(hour, min, sec) + seq![32u8] + seq![71u8, 77u8, 84u8],
{
    reveal(date_text);
    lemma_separator_bytes();
    assert(date_text(dow, day, month, year, hour, min, sec) =~= (weekday_text(dow) + seq![44u8])
        + seq![32u8] + dec_zero_pad(day as nat, 2) + seq![32u8] + month_text(month) + seq![32u8]
        + dec(year as nat) + seq![32u8] + clock_bytes(hour, min, sec) + seq![32u8] + seq![
        71u8,
        77u8,
        84u8,
    ]);
}

#[verifier::spinoff_prover]
#[verifier::rlimit(50)]
proof fn lemma_clock_text(hour: u32, min: u32, sec: u32)
    ensures
        clock_of(ascii_chars(clock_bytes(hour, min, sec))) == Some((hour as int, min as int, sec as int)),
        visible(clock_bytes(hour, min, sec)),
{
    let h = dec_zero_pad(hour as nat, 2);
    let mi = dec_zero_pad(min as nat, 2);
    let se = dec_zero_pad(sec as nat, 2);
    lemma_parse_zero_pad(hour as nat, 2, 0, u32::MAX as int);
    lemma_parse_zero_pad(min as nat, 2, 0, u32::MAX as int);
    lemma_parse_zero_pad(sec as nat, 2, 0, u32::MAX as int);
    lemma_digits_visible(h);
    lemma_digits_visible(mi);
    lemma_digits_visible(se);
    assert(visible(seq![58u8]));
    lemma_visible_concat(h, seq![58u8]);
    lemma_visible_concat(h + seq![58u8], mi);
    lemma_visible_concat(h + seq![58u8] + mi, seq![58u8]);
    lemma_visible_concat(h + seq![58u8] + mi + seq![58u8], se);
    lemma_ascii_chars_concat(h, seq![58u8]);
    lemma_ascii_chars_concat(h + seq![58u8], mi);
    lemma_ascii_chars_concat(h + seq![58u8] + mi, seq![58u8]);
    lemma_ascii_chars_concat(h + seq![58u8] + mi + seq![58u8], se);
    assert(ascii_chars(seq![58u8]) =~= seq![':']);
    let c5 = ascii_chars(clock_bytes(hour, min, sec));
    assert(c5 =~= ascii_chars(h) + seq![':'] + (ascii_chars(mi) + seq![':'] + ascii_chars(se)));
    lemma_split_cons(ascii_chars(h), ascii_chars(mi) + seq![':'] + ascii_chars(se), ':');
    lemma_split_cons(ascii_chars(mi), ascii_chars(se), ':');
    lemma_split_single(ascii_chars(se), ':');
    assert(split_on(c5, ':') =~= seq![ascii_chars(h), ascii_chars(mi), ascii_chars(se)]);
    lemma_ascii_encode(h);
    lemma_ascii_encode(mi);
    lemma_ascii_encode(se);
}

#[verifier::spinoff_prover]
#[verifier::rlimit(50)]
proof fn lemma_six_words(b1: Seq<u8>, d: Seq<u8>, mo: Seq<u8>, yr: Seq<u8>, b5: Seq<u8>, b6: Seq<u8>)
    requires
        b1.len() > 0,
        d.len() > 0,
        mo.len() > 0,
        yr.len() > 0,
        b5.len() > 0,
        b6.len() > 0,
        visible(b1),
        visible(d),
        visible(mo),
        visible(yr),
        visible(b5),
        visible(b6),
    ensures
        words(ascii_chars(b1 + seq![32u8] + d + seq![32u8] + mo + seq![32u8] + yr + seq![32u8] + b5
            + seq![32u8] + b6)) == seq![
            ascii_chars(b1),
            ascii_chars(d),
            ascii_chars(mo),
            ascii_chars(yr),
            ascii_chars(b5),
            ascii_chars(b6),
        ],
{
    let sp = seq![32u8];
    let blank = seq![' '];
    assert(ascii_chars(sp) =~= blank);
    let c1 = ascii_chars(b1);
    let c2 = ascii_chars(d);
    let c3 = ascii_chars(mo);
    let c4 = ascii_chars(yr);
    let c5 = ascii_chars(b5);
    let c6 = ascii_chars(b6);
    let t = b1 + sp + d + sp + mo + sp + yr + sp + b5 + sp + b6;
    assert(ascii_chars(t) =~= c1 + blank + (c2 + blank + (c3 + blank + (c4 + blank + (c5 + blank
        + c6)))));
    lemma_visible_words(b1);
    lemma_visible_words(d);
    lemma_visible_words(mo);
    lemma_visible_words(yr);
    lemma_visible_words(b5);
    lemma_visible_words(b6);
    lemma_words_cons(c1, c2 + blank + (c3 + blank + (c4 + blank + (c5 + blank + c6))));
    lemma_words_cons(c2, c3 + blank + (c4 + blank + (c5 + blank + c6)));
    lemma_words_cons(c3, c4 + blank + (c5 + blank + c6));
    lemma_words_cons(c4, c5 + blank + c6);
    lemma_words_cons(c5, c6);
    lemma_words_single(c6);
    assert(words(ascii_chars(t)) =~= seq![c1, c2, c3, c4, c5, c6]);
}

#[verifier::spinoff_prover]
#[verifier::rlimit(30)]
proof fn lemma_rfc1123_of_pieces(
    c: Seq<char>,
    c1: Seq<char>,
    c2: Seq<char>,
    c3: Seq<char>,
    c4: Seq<char>,
    c5: Seq<char>,
    c6: Seq<char>,
    fields: (int, int, int, int, int, int),
)
    requires
        words(c) == seq![c1, c2, c3, c4, c5, c6],
        u32_text(c2) == Some(fields.2),
        month_index(c3) == Some(fields.1),
        i32_text(c4) == Some(fields.0),
        clock_of(c5) == Some((fields.3, fields.4, fields.5)),
    ensures
        rfc1123_fields(c) == Some(fields),
{
}

proof fn lemma_piece_facts(day: u32, year: int)
    requires
        0 <= year <= i32::MAX,
    ensures
        u32_text(ascii_chars(dec_zero_pad(day as nat, 2))) == Some(day as int),
        i32_text(ascii_chars(dec(year as nat))) == Some(year),
        visible(dec_zero_pad(day as nat, 2)),
        visible(dec(year as nat)),
        dec_zero_pad(day as nat, 2).len() > 0,
        dec(year as nat).len() > 0,
{
    let d = dec_zero_pad(day as nat, 2);
    let yr = dec(year as nat);
    lemma_parse_zero_pad(day as nat, 2, 0, u32::MAX as int);
    lemma_parse_dec(year as nat, i32::MIN as int, i32::MAX as int);
    lemma_dec_ascii(year as nat);
    lemma_digits_visible(d);
    lemma_digits_visible(yr);
    lemma_ascii_encode(d);
    lemma_ascii_encode(yr);
}

#[verifier::spinoff_prover]
#[verifier::rlimit(40)]
proof fn lemma_date_text_rfc1123(dow: int, day: u32, month: int, year: int, hour: u32, min: u32, sec: u32)
    requires
        0 <= month < 12,
        0 <= year <= i32::MAX,
    ensures
        rfc1123_fields(ascii_chars(date_text(dow, day, month, year, hour, min, sec))) == Some(
            (year, month, day as int, hour as int, min as int, sec as int),
        ),
{
    let text = date_text(dow, day, month, year, hour, min, sec);
    let w = weekday_text(dow);
    let b1 = w + seq![44u8];
    let d = dec_zero_pad(day as nat, 2);
    let mo = month_text(month);
    let yr = dec(year as nat);
    let b5 = clock_bytes(hour, min, sec);
    let b6 = seq![71u8, 77u8, 84u8];
    let c = ascii_chars(text);
    assert(words(c) == seq![
        ascii_chars(b1),
        ascii_chars(d),
        ascii_chars(mo),
        ascii_chars(yr),
        ascii_chars(b5),
        ascii_chars(b6),
    ]) by {
        lemma_date_text_shape(dow, day, month, year, hour, min, sec);
        lemma_weekday_facts(dow);
        lemma_month_facts(month);
        lemma_clock_text(hour, min, sec);
        lemma_piece_facts(day, year);
        assert(visible(seq![44u8]));
        assert(visible(b6));
        lemma_visible_concat(w, seq![44u8]);
        lemma_six_words(b1, d, mo, yr, b5, b6);
    }
    assert(u32_text(ascii_chars(d)) == Some(day as int)) by {
        lemma_piece_facts(day, year);
    }
    assert(i32_text(ascii_chars(yr)) == Some(year)) by {
        lemma_piece_facts(day, year);
    }
    assert(month_index(ascii_chars(mo)) == Some(month)) by {
        lemma_month_facts(month);
    }
    assert(clock_of(ascii_chars(b5)) == Some((hour as int, min as int, sec as int))) by {
        lemma_clock_text(hour, min, sec);
    }
    lemma_rfc1123_of_pieces(
        c,
        ascii_chars(b1),
        ascii_chars(d),
        ascii_chars(mo),
        ascii_chars(yr),
        ascii_chars(b5),
        ascii_chars(b6),
        (year, month, day as int, hour as int, min as int, sec as int),
    );
}

/// The text of a date is ASCII, starts with a capital letter and ends with
/// `T`.
#[verifier::spinoff_prover]
#[verifier::rlimit(50)]
proof fn lemma_date_text_ends(dow: int, day: u32, month: int, year: int, hour: u32, min: u32, sec: u32)
    requires
        0 <= month < 12,
        0 <= year <= i32::MAX,
    ensures
        all_ascii(date_text(dow, day, month, year, hour, min, sec)),
        65 <= date_text(dow, day, month, year, hour, min, sec)[0] <= 90,
        date_text(dow, day, month, year, hour, min, sec).last() == 84u8,
{
    lemma_date_text_shape(dow, day, month, year, hour, min, sec);
    lemma_weekday_facts(dow);
    lemma_month_facts(month);
    lemma_clock_text(hour, min, sec);
    let w = weekday_text(dow);
    let b1 = w + seq![44u8];
    let d = dec_zero_pad(day as nat, 2);
    let yr = dec(year as nat);
    lemma_parse_zero_pad(day as nat, 2, 0, u32::MAX as int);
    lemma_dec_ascii(year as nat);
    lemma_digits_visible(d);
    lemma_digits_visible(yr);
    assert(visible(seq![44u8]));
    assert(visible(seq![71u8, 77u8, 84u8]));
    lemma_visible_concat(w, seq![44u8]);
    lemma_ascii_concat_all(
        b1,
        seq![32u8],
        d,
        month_text(month),
        yr,
        clock_bytes(hour, min, sec),
        seq![71u8, 77u8, 84u8],
    );
}

/// The text of a date reads back, in RFC 1123 form, as its fields.
proof fn lemma_date_text_fields(dow: int, day: u32, month: int, year: int, hour: u32, min: u32, sec: u32)
    requires
        0 <= month < 12,
        0 <= year <= i32::MAX,
    ensures
        trim_ws(ascii_chars(date_text(dow, day, month, year, hour, min, sec))) == ascii_chars(
            date_text(dow, day, month, year, hour, min, sec),
        ),
        parse_chars_spec(
            ascii_chars(date_text(dow, day, month, year, hour, min, sec)),
            i64::MIN as int,
            i64::MAX as int,
        ) is None,
        rfc1123_fields(ascii_chars(date_text(dow, day, month, year, hour, min, sec))) == Some(
            (year, month, day as int, hour as int, min as int, sec as int),
        ),
{
    let text = date_text(dow, day, month, year, hour, min, sec);
    lemma_date_text_rfc1123(dow, day, month, year, hour, min, sec);
    lemma_date_text_ends(dow, day, month, year, hour, min, sec);
    let c = ascii_chars(text);
    lemma_ascii_encode(text);
    assert(c[0] == (text[0] as char));
    assert(!is_ws(c[0]));
    assert(c[c.len() - 1] == (text[text.len() - 1] as char));
    assert(!is_ws(c[c.len() - 1]));
    assert(c.subrange(0, c.len() as int) =~= c);
    assert(!is_digit(text[0]));
}

proof fn lemma_ascii_concat_all(
    b1: Seq<u8>,
    sp: Seq<u8>,
    d: Seq<u8>,
    mo: Seq<u8>,
    yr: Seq<u8>,
    b5: Seq<u8>,
    b6: Seq<u8>,
)
    requires
        visible(b1),
        sp == seq![32u8],
        visible(d),
        visible(mo),
        visible(yr),
        visible(b5),
        visible(b6),
    ensures
        all_ascii(b1 + sp + d + sp + mo + sp + yr + sp + b5 + sp + b6),
{
    let t = b1 + sp + d + sp + mo + sp + yr + sp + b5 + sp + b6;
    assert forall|i: int| 0 <= i < t.len() implies #[trigger] t[i] < 0x80 by {
        let k1 = b1.len() as int;
        let k2 = k1 + 1 + d.len();
        let k3 = k2 + 1 + mo.len();
        let k4 = k3 + 1 + yr.len();
        let k5 = k4 + 1 + b5.len();
        if i < k1 {
            assert(t[i] == b1[i]);
        } else if i == k1 || i == k2 || i == k3 || i == k4 || i == k5 {
            assert(t[i] == 32u8);
        } else if i < k2 {
            assert(t[i] == d[i - k1 - 1]);
        } else if i < k3 {
            assert(t[i] == mo[i - k2 - 1]);
        } else if i < k4 {
            assert(t[i] == yr[i - k3 - 1]);
        } else if i < k5 {
            assert(t[i] == b5[i - k4 - 1]);
        } else {
            assert(t[i] == b6[i - k5 - 1]);
        }
    }
}

proof fn lemma_days_in_years_nonneg(a: int, b: int)
    ensures
        days_in_years(a, b) >= 0,
    decreases b - a,
{
    if a < b {
        lemma_days_in_years_nonneg(a, b - 1);
    }
}

/// The broken-down date of a timestamp gives the timestamp back.
proof fn lemma_fields_epoch(ts: int)
    requires
        0 <= ts < last_formattable(),
    ensures
        ({
            let (year, r1) = split_years(ts, 1970);
            let (month, r2) = split_months(r1, 0, year);
            &&& 1970 <= year <= i32::MAX
            &&& 0 <= month <= 11
            &&& 0 <= r2 < 31 * 86400
            &&& epoch_of(
                year,
                month,
                tdiv(r2, 86400) + 1,
                tdiv(trem(r2, 86400), 3600),
                tdiv(trem(trem(r2, 86400), 3600), 60),
                trem(trem(trem(r2, 86400), 3600), 60),
            ) == ts
        }),
{
    let (year, r1) = split_years(ts, 1970);
    lemma_split_years_decomp(ts, 1970);
    if year > i32::MAX {
        lemma_days_in_years_add(1970, i32::MAX as int + 1, year);
        lemma_days_in_years_nonneg(i32::MAX as int + 1, year);
        assert(false);
    }
    lemma_split_months_decomp(r1, 0, year);
    let (month, r2) = split_months(r1, 0, year);
    assert(month_days(month, year) <= 31);
    assert(days_to_month(0, year) == 0);
    assert(days_to_year(year) == days_in_years(1970, year));
    let day0 = r2 / 86400;
    let r3 = r2 % 86400;
    assert(r2 == day0 * 86400 + r3);
    assert(tdiv(r2, 86400) == day0);
    assert(trem(r2, 86400) == r3);
    assert(r3 == (r3 / 3600) * 3600 + (r3 % 3600));
    assert(tdiv(r3, 3600) == r3 / 3600);
    assert(trem(r3, 3600) == r3 % 3600);
    let r4 = r3 % 3600;
    assert(r4 == (r4 / 60) * 60 + r4 % 60);
    assert(tdiv(r4, 60) == r4 / 60);
    assert(trem(r4, 60) == r4 % 60);
}

/// Reading back what `format_http_date` writes gives the timestamp again,
/// for every timestamp from the epoch on (before the epoch the clock fields
/// are written as wrapped unsigned numbers, which read back as other
/// values).
pub proof fn law_format_then_parse(ts: int)
    requires
        0 <= ts < last_formattable(),
    ensures
        http_date_readable(ascii_chars(http_date_text(ts))),
        read_http_date(ascii_chars(http_date_text(ts))) == Some(ts),
{
    lemma_fields_epoch(ts);
    let (year, r1) = split_years(ts, 1970);
    let (month, r2) = split_months(r1, 0, year);
    let day = ((tdiv(r2, 86400) as u32) + 1) as u32;
    let r3 = trem(r2, 86400);
    let hour = tdiv(r3, 3600) as u32;
    let r4 = trem(r3, 3600);
    let min = tdiv(r4, 60) as u32;
    let sec = trem(r4, 60) as u32;
    assert(day == tdiv(r2, 86400) + 1);
    assert(hour == tdiv(r3, 3600));
    assert(min == tdiv(r4, 60));
    assert(sec == trem(r4, 60));
    lemma_date_text_fields(shown_weekday(ts), day, month, year, hour, min, sec);
    assert(http_date_text(ts) == date_text(shown_weekday(ts), day, month, year, hour, min, sec));
}


/// The weekday names, Sunday first.
pub open spec fn day_names() -> Seq<Seq<u8>> {
    seq![sb("Sun"), sb("Mon"), sb("Tue"), sb("Wed"), sb("Thu"), sb("Fri"), sb("Sat")]
}

/// The weekday a date is written with is the true one: day `d` after
/// Thursday, 1 January 1970 is named `day_names()[(d + 4) % 7]`, for
/// every day count that fits the `i32` the weekday is computed in.
pub proof fn law_http_date_true_weekday(ts: int)
    requires
        0 <= ts,
        ts / 86400 <= i32::MAX,
    ensures
        http_date_text(ts).take(3) == day_names()[(ts / 86400 + 4) % 7],
{
    let d = ts / 86400;
    assert(tdiv(ts, 86400) == d);
    assert((d as i32) as int == d);
    assert(tdiv(d, 7) == d / 7);
    assert(trem(d, 7) == d % 7);
    assert((d % 7 + 11) % 7 == (d + 4) % 7) by (nonlinear_arith)
        requires
            d >= 0,
    ;
    let w = shown_weekday(ts);
    assert(w == (d + 4) % 7);
    let (year, r1) = split_years(ts, 1970);
    let (month, r2) = split_months(r1, 0, year);
    let day = ((tdiv(r2, 86400) as u32) + 1) as u32;
    let r3 = trem(r2, 86400);
    let hour = tdiv(r3, 3600) as u32;
    let r4 = trem(r3, 3600);
    let min = tdiv(r4, 60) as u32;
    let sec = trem(r4, 60) as u32;
    lemma_date_text_shape(w, day, month, year, hour, min, sec);
    lemma_weekday_facts(w);
    let t = http_date_text(ts);
    assert(t == date_text(w, day, month, year, hour, min, sec));
    assert(t.take(3) =~= weekday_text(w));
    assert(weekday_text(w) == day_names()[w]);
}
} // verus!
