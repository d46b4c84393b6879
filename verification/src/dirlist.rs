//! Pieces of the HTML directory listing: escaping names for links, cutting
//! them for display, and the `ls`-style modification time.

use vstd::prelude::*;
use vstd::utf8::*;
use crate::text::{
    lowercase_of, lowercase, lemma_str_bytes,
    sb, stb, dec, dec_int, push_dec_i64, push_all, dec_zero_pad, pad_left, push_dec, push_dec_pad0, push_pad_left, push_str,
    ascii_string, ascii_chars, all_ascii, flat_map_bytes, lemma_ascii_concat, lemma_dec_ascii,
    lemma_zero_pad_ascii, lemma_ascii_literal,
};
use crate::tdate::{month_text, year_days, month_days, leap};

verus! {

broadcast use vstd::utf8::group_utf8_lib;

// ---------------------------------------------------------------- link names

/// Bytes that stay as they are in a link: letters, digits and `.-_~`.
pub open spec fn unreserved(b: u8) -> bool {
    (65 <= b <= 90) || (97 <= b <= 122) || (48 <= b <= 57) || b == 46 || b == 45 || b == 95 || b
        == 126
}

/// An uppercase hexadecimal digit.
pub open spec fn hex_upper(n: u8) -> u8 {
    if n < 10 {
        (48 + n) as u8
    } else {
        (55 + n) as u8
    }
}

/// One byte of a link: kept, or written `%XX`.
pub open spec fn escape_byte(b: u8) -> Seq<u8> {
    if unreserved(b) {
        seq![b]
    } else {
        seq![37u8, hex_upper(b / 16), hex_upper(b % 16)]
    }
}

pub open spec fn url_encoded(s: Seq<u8>) -> Seq<u8> {
    flat_map_bytes(s, |b: u8| escape_byte(b))
}

proof fn lemma_url_encoded_ascii(s: Seq<u8>)
    ensures
        all_ascii(url_encoded(s)),
    decreases s.len(),
{
    if s.len() > 0 {
        lemma_url_encoded_ascii(s.drop_last());
        let e = escape_byte(s.last());
        assert(all_ascii(e));
        lemma_ascii_concat(url_encoded(s.drop_last()), e);
    }
}

fn hex_digit(n: u8) -> (r: u8)
    requires
        n < 16,
    ensures
        r == hex_upper(n),
{
    if n < 10 {
        48 + n
    } else {
        55 + n
    }
}

/// URL-encode a filename for use in a link: every byte but letters, digits
/// and `.-_~` becomes `%XX` in uppercase hex.
pub fn url_encode(s: &str) -> (r: String)
    ensures
        stb(r) == url_encoded(sb(s)),
        r@ == ascii_chars(url_encoded(sb(s))),
{
    let b = s.as_bytes();
    let mut out: Vec<u8> = Vec::new();
    let mut i: usize = 0;
    while i < b.len()
        invariant
            i <= b@.len(),
            out@ == url_encoded(b@.subrange(0, i as int)),
        decreases b@.len() - i,
    {
        let c = b[i];
        if (65 <= c && c <= 90) || (97 <= c && c <= 122) || (48 <= c && c <= 57) || c == 46 || c
            == 45 || c == 95 || c == 126 {
            out.push(c);
        } else {
            out.push(37u8);
            out.push(hex_digit(c / 16));
            out.push(hex_digit(c % 16));
        }
        proof {
            let t = b@.subrange(0, i + 1);
            assert(t.drop_last() =~= b@.subrange(0, i as int));
            assert(t.last() == c);
            assert(out@ =~= url_encoded(t));
        }
        i += 1;
    }
    assert(b@.subrange(0, b@.len() as int) =~= b@);
    proof {
        lemma_url_encoded_ascii(b@);
    }
    ascii_string(out.as_slice())
}

proof fn lemma_hex_round_trip(n: u8)
    requires
        n < 16,
    ensures
        crate::url::is_hex(hex_upper(n)),
        crate::url::hex_val(hex_upper(n)) == n,
{
}

proof fn lemma_decode_escape(x: u8, rest: Seq<u8>)
    ensures
        crate::url::pdecode(escape_byte(x) + rest) == seq![x] + crate::url::pdecode(rest),
{
    let e = escape_byte(x) + rest;
    if unreserved(x) {
        assert(e.drop_first() =~= rest);
    } else {
        lemma_hex_round_trip(x / 16);
        lemma_hex_round_trip(x % 16);
        assert(e[0] == 37u8 && e[1] == hex_upper(x / 16) && e[2] == hex_upper(x % 16));
        assert(e.skip(3) =~= rest);
        assert((x / 16) * 16 + x % 16 == x);
    }
}

/// A link of the listing decodes back to the name it was made from: the
/// server's percent-decoding undoes `url_encode` on every byte string.
pub proof fn law_listing_links_decode_to_names(b: Seq<u8>)
    ensures
        crate::url::pdecode(url_encoded(b)) == b,
    decreases b.len(),
{
    if b.len() > 0 {
        let one = seq![b[0]];
        let rest = b.drop_first();
        crate::text::lemma_flat_map_concat(one, rest, |b: u8| escape_byte(b));
        assert(one + rest =~= b);
        assert(one.drop_last() =~= Seq::<u8>::empty());
        assert(url_encoded(Seq::<u8>::empty()) =~= Seq::<u8>::empty());
        assert(url_encoded(one) =~= escape_byte(b[0]));
        law_listing_links_decode_to_names(rest);
        lemma_decode_escape(b[0], url_encoded(rest));
    }
}

// ---------------------------------------------------------------- display names

/// Largest character boundary of `b` at or below `k`.
pub open spec fn boundary_at_or_before(b: Seq<u8>, k: int) -> int
    decreases k,
{
    if k <= 0 {
        0
    } else if is_char_boundary(b, k) {
        k
    } else {
        boundary_at_or_before(b, k - 1)
    }
}

/// A name cut to at most 80 bytes, on a character boundary.
pub open spec fn cut_80(b: Seq<u8>) -> Seq<u8> {
    if b.len() <= 80 {
        b
    } else {
        b.subrange(0, boundary_at_or_before(b, 80))
    }
}

/// Cut a name to at most 80 bytes without splitting a character.
pub fn truncate_to_80(s: &str) -> (r: &str)
    ensures
        sb(r) == cut_80(sb(s)),
{
    if s.as_bytes().len() <= 80 {
        return s;
    }
    let mut end: usize = 80;
    while !s.is_char_boundary(end)
        invariant
            end <= 80 < sb(s).len(),
            boundary_at_or_before(sb(s), 80) == boundary_at_or_before(sb(s), end as int),
        decreases end,
    {
        end -= 1;
    }
    let (head, _tail) = s.split_at(end);
    head
}

// ---------------------------------------------------------------- listing time

/// The year holding day `days` counted from the start of year `y`, and the
/// day within that year.
pub open spec fn split_year_days(days: int, y: int) -> (int, int)
    decreases days,
{
    if days < year_days(y) {
        (y, days)
    } else {
        split_year_days(days - year_days(y), y + 1)
    }
}

/// The month (from `m` on) holding day `days` of year `y`, and the day
/// within it; the last month keeps whatever is left.
pub open spec fn split_month_days(days: int, m: int, y: int) -> (int, int)
    decreases 12 - m,
{
    if m >= 11 {
        if days < month_days(11, y) {
            (11, days)
        } else {
            (11, days - month_days(11, y))
        }
    } else if days < month_days(m, y) {
        (m, days)
    } else {
        split_month_days(days - month_days(m, y), m + 1, y)
    }
}

/// (year, month from 1, day from 1) of a day count since 1970-01-01.
pub open spec fn ymd(days: int) -> (int, int, int) {
    let (y, d) = split_year_days(days, 1970);
    let (m, r) = split_month_days(d, 0, y);
    (y, m + 1, r + 1)
}

pub fn is_leap(year: u64) -> (r: bool)
    ensures
        r == leap(year as int),
{
    (year % 4 == 0 && year % 100 != 0) || year % 400 == 0
}

fn month_length(m: usize, leap_year: bool) -> (r: u64)
    requires
        m < 12,
    ensures
        forall|y: int| leap(y) == leap_year ==> r == month_days(m as int, y),
{
    if m == 0 || m == 2 || m == 4 || m == 6 || m == 7 || m == 9 || m == 11 {
        31
    } else if m == 3 || m == 5 || m == 8 || m == 10 {
        30
    } else if leap_year {
        29
    } else {
        28
    }
}

/// Convert days since the Unix epoch to (year, month, day).
pub fn days_to_ymd(days: u64) -> (r: (u64, usize, u64))
    ensures
        1 <= r.1 <= 12,
        (r.0 as int, r.1 as int, r.2 as int) == ymd(days as int),
{
    let mut days = days;
    let ghost orig = days;
    let mut year: u64 = 1970;
    loop
        invariant
            1970 <= year <= 1970 + orig,
            days <= orig,
            split_year_days(days as int, year as int) == split_year_days(orig as int, 1970),
            days + (year - 1970) * 365 <= orig,
        ensures
            days < year_days(year as int),
            split_year_days(orig as int, 1970) == (year as int, days as int),
        decreases days,
    {
        let days_in_year: u64 = if is_leap(year) { 366 } else { 365 };
        if days < days_in_year {
            break;
        }
        days = days - days_in_year;
        year = year + 1;
    }
    let lp = is_leap(year);
    let mut month: usize = 0;
    let mut remaining = days;
    loop
        invariant_except_break
            split_month_days(remaining as int, month as int, year as int) == split_month_days(
                days as int,
                0,
                year as int,
            ),
        invariant
            month <= 11,
            lp == leap(year as int),
            remaining <= days < 366,
        ensures
            month <= 11,
            remaining < 366,
            split_month_days(days as int, 0, year as int) == (month as int, remaining as int),
        decreases 11 - month,
    {
        let md = month_length(month, lp);
        if remaining < md {
            break;
        }
        if month == 11 {
            remaining = remaining - md;
            break;
        }
        remaining = remaining - md;
        month = month + 1;
    }
    (year, month + 1, remaining + 1)
}

/// The text of a listing time: `Mon DD  YYYY` when the file is more than
/// 182 days older than `now`, otherwise `Mon DD HH:MM` (UTC).
pub open spec fn ls_time_text(secs: int, now: int) -> Seq<u8> {
    let (year, month, day) = ymd(secs / 86400);
    let tod = secs % 86400;
    let name = month_text(month - 1);
    if now - secs > 60 * 60 * 24 * 182 {
        name + sb(" ") + pad_left(dec(day as nat), 2) + sb("  ") + dec(year as nat)
    } else {
        name + sb(" ") + pad_left(dec(day as nat), 2) + sb(" ") + dec_zero_pad((tod / 3600) as nat, 2)
            + sb(":") + dec_zero_pad(((tod % 3600) / 60) as nat, 2)
    }
}

fn month_name(i: usize) -> (r: &'static str)
    requires
        i < 12,
    ensures
        sb(r) == month_text(i as int),
{
    if i == 0 {
        "Jan"
    } else if i == 1 {
        "Feb"
    } else if i == 2 {
        "Mar"
    } else if i == 3 {
        "Apr"
    } else if i == 4 {
        "May"
    } else if i == 5 {
        "Jun"
    } else if i == 6 {
        "Jul"
    } else if i == 7 {
        "Aug"
    } else if i == 8 {
        "Sep"
    } else if i == 9 {
        "Oct"
    } else if i == 10 {
        "Nov"
    } else {
        "Dec"
    }
}

/// Format a modification time for the listing, `now` being the current
/// time (both in seconds since the epoch).
pub fn format_ls_time(secs: u64, now: u64) -> (r: String)
    ensures
        stb(r) == ls_time_text(secs as int, now as int),
{
    let days_since_epoch = secs / 86400;
    let time_of_day = secs % 86400;
    let (year, month, day) = days_to_ymd(days_since_epoch);
    let mut out: Vec<u8> = Vec::new();
    push_str(&mut out, month_name(month - 1));
    push_str(&mut out, " ");
    let mut d: Vec<u8> = Vec::new();
    push_dec(&mut d, day);
    push_pad_left(&mut out, d.as_slice(), 2);
    let older = if now >= secs { now - secs > 60 * 60 * 24 * 182 } else { false };
    if older {
        push_str(&mut out, "  ");
        push_dec(&mut out, year);
    } else {
        push_str(&mut out, " ");
        push_dec_pad0(&mut out, time_of_day / 3600, 2);
        push_str(&mut out, ":");
        push_dec_pad0(&mut out, (time_of_day % 3600) / 60, 2);
    }
    proof {
        lemma_ls_time_ascii(secs as int, now as int);
    }
    ascii_string(out.as_slice())
}

proof fn lemma_ls_time_ascii(secs: int, now: int)
    requires
        secs >= 0,
    ensures
        all_ascii(ls_time_text(secs, now)),
{
    let (year, month, day) = ymd(secs / 86400);
    let tod = secs % 86400;
    let name = month_text(month - 1);
    crate::tdate::lemma_names_ascii();
    reveal_strlit(" ");
    reveal_strlit("  ");
    reveal_strlit(":");
    lemma_ascii_literal(" ");
    lemma_ascii_literal("  ");
    lemma_ascii_literal(":");
    lemma_dec_ascii(day as nat);
    lemma_dec_ascii(year as nat);
    lemma_zero_pad_ascii((tod / 3600) as nat, 2);
    lemma_zero_pad_ascii(((tod % 3600) / 60) as nat, 2);
    let pd = pad_left(dec(day as nat), 2);
    assert(all_ascii(pd)) by {
        lemma_ascii_concat(crate::text::repeat_byte(32u8, 2 - dec(day as nat).len()), dec(day as nat));
    }
    assert(all_ascii(name));
    lemma_ascii_concat(name, sb(" "));
    lemma_ascii_concat(name + sb(" "), pd);
    lemma_ascii_concat(name + sb(" ") + pd, sb("  "));
    lemma_ascii_concat(name + sb(" ") + pd + sb("  "), dec(year as nat));
    lemma_ascii_concat(name + sb(" ") + pd, sb(" "));
    lemma_ascii_concat(name + sb(" ") + pd + sb(" "), dec_zero_pad((tod / 3600) as nat, 2));
    lemma_ascii_concat(name + sb(" ") + pd + sb(" ") + dec_zero_pad((tod / 3600) as nat, 2), sb(":"));
    lemma_ascii_concat(
        name + sb(" ") + pd + sb(" ") + dec_zero_pad((tod / 3600) as nat, 2) + sb(":"),
        dec_zero_pad(((tod % 3600) / 60) as nat, 2),
    );
}

// ---------------------------------------------------------------- the listing

/// What the listing shows of one directory entry, as the file system
/// reported it: `lstat` data, and whether the entry, links followed (or its
/// own data where the link is broken), is a directory, with its size.
pub struct ListingEntry {
    pub name: String,
    /// `lstat`: a directory.
    pub is_dir: bool,
    /// `lstat`: a symbolic link.
    pub is_symlink: bool,
    /// `lstat`: the permission bits.
    pub mode_bits: u32,
    pub nlink: u64,
    /// `lstat`: the size.
    pub lstat_size: i64,
    /// Links followed: a directory.
    pub target_is_dir: bool,
    /// Links followed: the size.
    pub target_size: i64,
    /// `lstat`: modification time, seconds since the epoch.
    pub mtime: u64,
    /// Where a symbolic link points, when it could be read.
    pub link_target: Option<String>,
}

/// The sort key of an entry: its name in lower case.
pub open spec fn name_key(e: ListingEntry) -> Seq<char> {
    lowercase_of(e.name@)
}

pub open spec fn listing_keys(es: Seq<ListingEntry>) -> Seq<Seq<char>> {
    es.map_values(|e: ListingEntry| name_key(e))
}

/// Entry `a` is listed before entry `b`: a smaller key, or the same key and
/// an earlier place.
pub open spec fn listed_before(keys: Seq<Seq<char>>, a: int, b: int) -> bool {
    crate::diff::text_lt(keys[a], keys[b]) || (keys[a] == keys[b] && a < b)
}

/// `o` gives each place `0..keys.len()` once, in listing order: the
/// stable sort by key.
pub open spec fn is_listing_order(keys: Seq<Seq<char>>, o: Seq<int>) -> bool {
    &&& o.len() == keys.len()
    &&& forall|i: int| 0 <= i < o.len() ==> 0 <= #[trigger] o[i] < keys.len()
    &&& forall|i: int, j: int| 0 <= i < j < o.len() ==> listed_before(keys, #[trigger] o[i], #[trigger] o[j])
}

pub open spec fn idx_seq(v: Seq<usize>) -> Seq<int> {
    v.map_values(|x: usize| x as int)
}

/// The places of the entries in listing order: case-insensitive by name,
/// entries with the same lower-case name in their given order.
fn listing_order(keys: &Vec<Vec<char>>) -> (o: Vec<usize>)
    ensures
        is_listing_order(keys@.map_values(|k: Vec<char>| k@), idx_seq(o@)),
{
    let ghost ks = keys@.map_values(|k: Vec<char>| k@);
    let mut o: Vec<usize> = Vec::new();
    let mut k: usize = 0;
    while k < keys.len()
        invariant
            k <= keys@.len(),
            ks == keys@.map_values(|k: Vec<char>| k@),
            o@.len() == k,
            forall|i: int| 0 <= i < o@.len() ==> #[trigger] o@[i] < k,
            forall|i: int, j: int| 0 <= i < j < o@.len() ==> listed_before(ks, #[trigger] o@[i] as int, #[trigger] o@[j] as int),
        decreases keys@.len() - k,
    {
        let mut p: usize = 0;
        while p < o.len() && !crate::diff::text_less(&keys[k], &keys[o[p]])
            invariant
                p <= o@.len(),
                k < keys@.len(),
                ks == keys@.map_values(|k: Vec<char>| k@),
                forall|i: int| 0 <= i < o@.len() ==> #[trigger] o@[i] < k,
                forall|i: int| 0 <= i < p ==> !crate::diff::text_lt(ks[k as int], ks[#[trigger] o@[i] as int]),
            decreases o@.len() - p,
        {
            assert(keys@[k as int]@ == ks[k as int]);
            assert(keys@[o@[p as int] as int]@ == ks[o@[p as int] as int]);
            p += 1;
        }
        proof {
            if p < o@.len() {
                assert(keys@[k as int]@ == ks[k as int]);
                assert(keys@[o@[p as int] as int]@ == ks[o@[p as int] as int]);
                assert(crate::diff::text_lt(ks[k as int], ks[o@[p as int] as int]));
            }
        }
        let ghost old_o = o@;
        o.insert(p, k);
        proof {
            assert(o@ == old_o.insert(p as int, k));
            assert forall|i: int| 0 <= i < o@.len() implies #[trigger] o@[i] < k + 1 by {
                if i < p {
                    assert(o@[i] == old_o[i]);
                } else if i > p {
                    assert(o@[i] == old_o[i - 1]);
                }
            }
            assert forall|i: int, j: int| 0 <= i < j < o@.len() implies listed_before(ks, #[trigger] o@[i] as int, #[trigger] o@[j] as int) by {
                let kk = ks[k as int];
                if j < p {
                    assert(o@[i] == old_o[i] && o@[j] == old_o[j]);
                } else if j == p {
                    assert(o@[i] == old_o[i]);
                    let x = old_o[i] as int;
                    crate::diff::lemma_text_lt_total(ks[x], kk);
                } else if i > p {
                    assert(o@[i] == old_o[i - 1] && o@[j] == old_o[j - 1]);
                } else if i == p {
                    let y = old_o[j - 1] as int;
                    assert(o@[j] == y);
                    let z = old_o[p as int] as int;
                    assert(crate::diff::text_lt(kk, ks[z]));
                    if j - 1 > p {
                        assert(listed_before(ks, z, y));
                        if crate::diff::text_lt(ks[z], ks[y]) {
                            crate::diff::lemma_text_lt_trans(kk, ks[z], ks[y]);
                        }
                    }
                } else {
                    assert(i < p && p < j);
                    assert(o@[i] == old_o[i] && o@[j] == old_o[j - 1]);
                }
            }
        }
        k += 1;
    }
    proof {
        assert forall|i: int| 0 <= i < o@.len() implies 0 <= #[trigger] idx_seq(o@)[i] < ks.len() by {}
        assert forall|i: int, j: int| 0 <= i < j < o@.len() implies listed_before(ks, #[trigger] idx_seq(o@)[i], #[trigger] idx_seq(o@)[j]) by {
            assert(listed_before(ks, o@[i] as int, o@[j] as int));
        }
    }
    o
}

/// One permission letter, or `-` where the bit is clear.
pub open spec fn perm_letter(bits: u32, mask: u32, c: u8) -> u8 {
    if bits & mask != 0 {
        c
    } else {
        45u8
    }
}

/// `d`, `l` or `-` for the kind, then `rwx` for the world bits.
pub open spec fn mode_text(e: ListingEntry) -> Seq<u8> {
    seq![
        if e.is_dir { 100u8 } else if e.is_symlink { 108u8 } else { 45u8 },
        perm_letter(e.mode_bits, 4, 114u8),
        perm_letter(e.mode_bits, 2, 119u8),
        perm_letter(e.mode_bits, 1, 120u8),
    ]
}

/// The size shown: a directory's own size, otherwise that of what a link
/// leads to.
pub open spec fn shown_size(e: ListingEntry) -> int {
    if e.target_is_dir {
        e.lstat_size as int
    } else {
        e.target_size as int
    }
}

/// The `ls -F` class mark: `/` directory, `@` link, `*` executable.
pub open spec fn class_mark(e: ListingEntry) -> Seq<u8> {
    if e.target_is_dir {
        sb("/")
    } else if e.is_symlink {
        sb("@")
    } else if e.mode_bits & 1 != 0 {
        sb("*")
    } else {
        Seq::empty()
    }
}

/// ` -&gt; target` for a link whose target could be read.
pub open spec fn link_text(e: ListingEntry) -> Seq<u8> {
    if e.is_symlink && e.link_target is Some {
        sb(" -&gt; ") + stb(e.link_target.unwrap())
    } else {
        Seq::empty()
    }
}

/// The mode, link count, size and time of a line.
pub open spec fn row_stats(e: ListingEntry, now: int) -> Seq<u8> {
    mode_text(e) + sb(" ") + pad_left(dec(e.nlink as nat), 3) + sb("  ") + pad_left(dec_int(shown_size(e)), 10)
        + sb("  ") + ls_time_text(e.mtime as int, now)
}

/// The link of a line, `/` after a directory's name, and the name shown.
pub open spec fn row_anchor(e: ListingEntry, prefix: Seq<u8>) -> Seq<u8> {
    sb("  <A HREF=\"/") + prefix + url_encoded(stb(e.name)) + (if e.target_is_dir { sb("/") } else { Seq::empty() })
        + sb("\">") + cut_80(stb(e.name)) + sb("</A>")
}

/// One line of the listing: mode, link count, size, time, the link, and
/// the link target and class mark.
pub open spec fn listing_row(e: ListingEntry, prefix: Seq<u8>, now: int) -> Seq<u8> {
    row_stats(e, now) + row_anchor(e, prefix) + link_text(e) + class_mark(e) + sb("\n")
}

pub open spec fn listing_rows(es: Seq<ListingEntry>, prefix: Seq<u8>, now: int) -> Seq<u8>
    decreases es.len(),
{
    if es.len() == 0 {
        Seq::empty()
    } else {
        listing_rows(es.drop_last(), prefix, now) + listing_row(es.last(), prefix, now)
    }
}

pub open spec fn listing_head(url: Seq<u8>) -> Seq<u8> {
    sb("<HTML>\n<HEAD><TITLE>Index of ") + url
        + sb("</TITLE></HEAD>\n<BODY BGCOLOR=\"#99cc99\" TEXT=\"#000000\" LINK=\"#2020ff\" VLINK=\"#4040cc\">\n<H2>Index of ")
        + url + sb("</H2>\n<PRE>\nmode  links  bytes  last-changed  name\n<HR>")
}

/// The URL path with a `/` at its end.
pub open spec fn url_prefix(url: Seq<u8>) -> Seq<u8> {
    if url.len() > 0 && url.last() == 47u8 {
        url
    } else {
        url.push(47u8)
    }
}

/// The HTML listing of `es`, in the order given.
pub open spec fn listing_html(url: Seq<u8>, es: Seq<ListingEntry>, now: int) -> Seq<u8> {
    listing_head(url) + listing_rows(es, url_prefix(url), now) + sb("</PRE></BODY>\n</HTML>\n")
}

fn push_string(out: &mut Vec<u8>, s: &String)
    ensures
        final(out)@ == old(out)@ + stb(*s),
{
    let r = s.as_str();
    proof {
        lemma_str_bytes(r);
    }
    push_str(out, r);
}

fn perm_byte(bits: u32, mask: u32, c: u8) -> (r: u8)
    ensures
        r == perm_letter(bits, mask, c),
{
    if bits & mask != 0 {
        c
    } else {
        45u8
    }
}

fn push_stats(out: &mut Vec<u8>, e: &ListingEntry, now: u64)
    ensures
        final(out)@ == old(out)@ + row_stats(*e, now as int),
{
    let ghost start = out@;
    out.push(if e.is_dir { 100u8 } else if e.is_symlink { 108u8 } else { 45u8 });
    out.push(perm_byte(e.mode_bits, 4, 114u8));
    out.push(perm_byte(e.mode_bits, 2, 119u8));
    out.push(perm_byte(e.mode_bits, 1, 120u8));
    assert(out@ =~= start + mode_text(*e));
    push_str(out, " ");
    let mut links: Vec<u8> = Vec::new();
    push_dec(&mut links, e.nlink);
    push_pad_left(out, links.as_slice(), 3);
    push_str(out, "  ");
    let size: i64 = if e.target_is_dir { e.lstat_size } else { e.target_size };
    let mut digits: Vec<u8> = Vec::new();
    push_dec_i64(&mut digits, size);
    push_pad_left(out, digits.as_slice(), 10);
    push_str(out, "  ");
    let t = format_ls_time(e.mtime, now);
    push_string(out, &t);
    assert(out@ =~= start + row_stats(*e, now as int));
}

fn push_anchor(out: &mut Vec<u8>, e: &ListingEntry, prefix: &[u8])
    ensures
        final(out)@ == old(out)@ + row_anchor(*e, prefix@),
{
    let ghost start = out@;
    push_str(out, "  <A HREF=\"/");
    push_all(out, prefix);
    let name = e.name.as_str();
    proof {
        lemma_str_bytes(name);
    }
    let enc = url_encode(name);
    push_string(out, &enc);
    if e.target_is_dir {
        push_str(out, "/");
    }
    push_str(out, "\">");
    let shown = truncate_to_80(name);
    push_str(out, shown);
    push_str(out, "</A>");
    assert(out@ =~= start + row_anchor(*e, prefix@));
}

fn push_row(out: &mut Vec<u8>, e: &ListingEntry, prefix: &[u8], now: u64)
    ensures
        final(out)@ == old(out)@ + listing_row(*e, prefix@, now as int),
{
    let ghost start = out@;
    push_stats(out, e, now);
    push_anchor(out, e, prefix);
    let ghost mid = out@;
    if e.is_symlink {
        match &e.link_target {
            Some(t) => {
                push_str(out, " -&gt; ");
                push_string(out, t);
            },
            None => {},
        }
    }
    assert(out@ =~= mid + link_text(*e));
    let ghost mid2 = out@;
    if e.target_is_dir {
        push_str(out, "/");
    } else if e.is_symlink {
        push_str(out, "@");
    } else if e.mode_bits & 1 != 0 {
        push_str(out, "*");
    }
    assert(out@ =~= mid2 + class_mark(*e));
    push_str(out, "\n");
    assert(out@ =~= start + listing_row(*e, prefix@, now as int));
}

/// Renders the HTML listing of a directory: the
/// entries sorted by name without regard to case, entries whose names
/// differ only in case in the order given, one `ls -l` style line each;
/// `now` decides whether a time shows the hour or the year.
pub fn render_listing(url_path: &str, entries: &Vec<ListingEntry>, now: u64) -> (r: Vec<u8>)
    ensures
        exists|o: Seq<int>|
            is_listing_order(listing_keys(entries@), o) && r@ == listing_html(
                sb(url_path),
                o.map_values(|i: int| entries@[i]),
                now as int,
            ),
{
    let mut keys: Vec<Vec<char>> = Vec::new();
    let mut i: usize = 0;
    while i < entries.len()
        invariant
            i <= entries@.len(),
            keys@.len() == i,
            forall|j: int| 0 <= j < i ==> #[trigger] keys@[j]@ == name_key(entries@[j]),
        decreases entries@.len() - i,
    {
        let low = lowercase(entries[i].name.as_str());
        keys.push(crate::text::chars_of(low.as_str()));
        i += 1;
    }
    assert(keys@.map_values(|k: Vec<char>| k@) =~= listing_keys(entries@));
    let order = listing_order(&keys);
    let ghost o = idx_seq(order@);
    let ghost ordered = o.map_values(|i: int| entries@[i]);
    let ub = url_path.as_bytes();
    let mut prefix: Vec<u8> = crate::text::str_to_vec(url_path);
    if !(ub.len() > 0 && ub[ub.len() - 1] == 47u8) {
        prefix.push(47u8);
    }
    assert(prefix@ =~= url_prefix(sb(url_path)));
    let mut out: Vec<u8> = Vec::new();
    push_str(&mut out, "<HTML>\n<HEAD><TITLE>Index of ");
    push_str(&mut out, url_path);
    push_str(&mut out, "</TITLE></HEAD>\n<BODY BGCOLOR=\"#99cc99\" TEXT=\"#000000\" LINK=\"#2020ff\" VLINK=\"#4040cc\">\n<H2>Index of ");
    push_str(&mut out, url_path);
    push_str(&mut out, "</H2>\n<PRE>\nmode  links  bytes  last-changed  name\n<HR>");
    let ghost head = out@;
    assert(head =~= listing_head(sb(url_path)));
    assert forall|j: int| 0 <= j < order@.len() implies #[trigger] order@[j] < entries@.len() by {
        assert(idx_seq(order@)[j] == order@[j] as int);
    }
    let mut k: usize = 0;
    while k < order.len()
        invariant
            k <= order@.len(),
            order@.len() == entries@.len(),
            o == idx_seq(order@),
            ordered == o.map_values(|i: int| entries@[i]),
            forall|j: int| 0 <= j < order@.len() ==> #[trigger] order@[j] < entries@.len(),
            out@ == head + listing_rows(ordered.take(k as int), prefix@, now as int),
        decreases order@.len() - k,
    {
        let ghost before = out@;
        push_row(&mut out, &entries[order[k]], prefix.as_slice(), now);
        proof {
            let t = ordered.take(k + 1);
            assert(t.drop_last() =~= ordered.take(k as int));
            assert(t.last() == entries@[order@[k as int] as int]);
        }
        k += 1;
    }
    assert(ordered.take(k as int) =~= ordered);
    push_str(&mut out, "</PRE></BODY>\n</HTML>\n");
    assert(out@ =~= listing_html(sb(url_path), ordered, now as int));
    assert(is_listing_order(listing_keys(entries@), o));
    out
}

} // verus!
