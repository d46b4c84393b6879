//! The decisions that pick a request's answer: the route a request takes,
//! the answer of a static file, the refusals and the environment of a CGI
//! program, and the throttle admission of a transfer. The caller gathers
//! the facts (file system, clock, processes) and carries out the answer.

use vstd::prelude::*;
use vstd::utf8::*;
use crate::text::{sb, concat3, chars_of, chars_start_with, path_pieces, path_components};
use crate::method::Method;
use crate::connection::{ConnThrottle, start_sending};
use crate::throttle::{
    ThrottleTable, ThrottleDecision, ThrottleEntry, admission_fits, selected, first_out_of_band, clamped_at,
    admitted_at, admitted_max, admitted_min,
};
use crate::request::{FileGate, file_gate, file_gate_of, gate_message, stat_failure, range_end, fill_range_end, not_modified};
use crate::mime::{figure_mime, mime_type_of, mime_encoding_of};
use crate::cgi::{CgiContext, cgi_remote_addr, cgi_remote_addr_of, host_without_port, before_last_colon};
use crate::method::method_name;
use crate::startup::{join_path, path_join};
use crate::config::SERVER_SOFTWARE;
use crate::request::{
    request_line_words, header_block, extract_header, is_one_one, split_query, parse_range, parse_content_length,
    first_forwarded_for, header_in, word_at, request_words, header_block_start, one_one, query_split,
    range_request, content_length_value, forwarded_client, early_refusal, refuse_bad_path, bad_path_status,
    vhost_filename, cgi_matches, cgi_selected, MAX_URL_LENGTH,
};
use crate::parse::{parse_method, first_word};
use crate::method::method_of;
use crate::tdate::{try_parse_http_date, read_http_date, http_date_readable};
use crate::url::{percent_decode, pdecode, normalize_path, normalize_spec};
use crate::text::{utf8_lossy, stb, lowercase, lowercase_of};

verus! {

// ---------------------------------------------------------------- throttle admission

/// Whether the throttle rules admit a transfer of file `f`: no rule
/// matches, or none of the matching ones is out of its band.
pub open spec fn admits(es: Seq<ThrottleEntry>, f: Seq<u8>) -> bool {
    let sel = selected(es, f);
    sel.len() == 0 || first_out_of_band(es, sel) == sel.len()
}

/// The rules after a transfer of `f` is checked against them.
pub open spec fn entries_after_check(es: Seq<ThrottleEntry>, f: Seq<u8>) -> Seq<ThrottleEntry> {
    let sel = selected(es, f);
    let p = first_out_of_band(es, sel);
    if sel.len() == 0 {
        es
    } else if p < sel.len() {
        clamped_at(es, sel.take(p as int))
    } else {
        admitted_at(es, sel)
    }
}

/// The connection's throttle record after its transfer of `f` is checked:
/// marked checked when `mark` says so; on an admission under rules, the
/// matched rules, and (with `limits`) the fair-share maximum and the
/// minimum; everything else as it was.
pub open spec fn conn_after_check(
    old: ConnThrottle,
    new: ConnThrottle,
    es: Seq<ThrottleEntry>,
    f: Seq<u8>,
    mark: bool,
    limits: bool,
) -> bool {
    let sel = selected(es, f);
    let allowed = sel.len() > 0 && first_out_of_band(es, sel) == sel.len();
    &&& new.checked == (old.checked || mark)
    &&& new.header_len == old.header_len && new.body_bytes == old.body_bytes
    &&& new.started_at == old.started_at && new.active_at == old.active_at
    &&& new.pause_until == old.pause_until
    &&& new.tnums@ == if allowed { sel } else { old.tnums@ }
    &&& new.max_limit == if allowed && limits { admitted_max(es, sel) } else { old.max_limit as int }
    &&& new.min_limit == if allowed && limits { admitted_min(es, sel) } else { old.min_limit as int }
}

/// Two throttle records hold the same values.
pub open spec fn conn_same(a: ConnThrottle, b: ConnThrottle) -> bool {
    &&& a.tnums@ == b.tnums@ && a.max_limit == b.max_limit && a.min_limit == b.min_limit
    &&& a.header_len == b.header_len && a.body_bytes == b.body_bytes && a.started_at == b.started_at
    &&& a.active_at == b.active_at && a.pause_until == b.pause_until && a.checked == b.checked
}

/// Checks a transfer of `match_path` against the throttle rules, when
/// there are any, and records the outcome on the connection (see
/// `conn_after_check`). Returns whether the transfer may start.
pub fn admit_transfer(
    throttles: &mut Option<ThrottleTable>,
    match_path: &str,
    conn: &mut ConnThrottle,
    mark: bool,
    limits: bool,
) -> (ok: bool)
    requires
        (*old(throttles)) matches Some(t) ==> admission_fits(t.entries@, sb(match_path)),
    ensures
        match *old(throttles) {
            None => ok && (*final(throttles)) is None && conn_same(*old(conn), *final(conn)),
            Some(t) => ok == admits(t.entries@, sb(match_path)) && ((*final(throttles)) matches Some(t2)
                && t2.entries@ == entries_after_check(t.entries@, sb(match_path))) && conn_after_check(
                *old(conn),
                *final(conn),
                t.entries@,
                sb(match_path),
                mark,
                limits,
            ),
        },
{
    match throttles {
        None => true,
        Some(t) => {
            if mark {
                conn.checked = true;
            }
            match t.check_request(match_path) {
                ThrottleDecision::Allow { tnums, max_limit, min_limit } => {
                    conn.tnums = tnums;
                    if limits {
                        conn.max_limit = max_limit;
                        conn.min_limit = min_limit;
                    }
                    true
                },
                ThrottleDecision::Reject => false,
                ThrottleDecision::Unlimited => true,
            }
        },
    }
}

// ---------------------------------------------------------------- static files

/// Which text an error page quotes.
#[derive(Debug, Clone, Copy, PartialEq, Eq, Structural)]
pub enum Quote {
    /// The request's URL as it came.
    Url,
    /// The server's document directory.
    Dir,
    /// The request's file path.
    RequestPath,
    /// The request's protocol version.
    Version,
    /// The request's method word.
    MethodWord,
    /// The request's decoded path.
    DecodedUrl,
}

/// What a stat of the file found.
#[derive(Debug, Clone, Copy, PartialEq, Eq, Structural)]
pub struct FileStat {
    pub is_dir: bool,
    pub mode: u32,
    pub size: i64,
    pub mtime: i64,
}

/// What is known of a static request once the file system was asked.
pub struct StaticFacts {
    /// Symbolic links are checked against the document tree.
    pub symlink_check: bool,
    /// The canonical document directory, `None` when it could not be
    /// resolved.
    pub root: Option<String>,
    /// The file's path under the document directory.
    pub file_path: String,
    /// The canonical path of the file, `None` when it could not be resolved.
    pub canonical: Option<String>,
    /// The stat of the file that is served (`target_path`), `None` when the
    /// stat failed.
    pub stat: Option<FileStat>,
    /// The failed stat found no such file.
    pub not_found: bool,
    /// The password check of the file's directory refused the request.
    pub unauthorized: bool,
    pub has_path_info: bool,
    pub method: Method,
    pub if_modified_since: Option<i64>,
    pub got_range: bool,
    pub last_byte_index: i64,
}

/// How a static request is answered.
pub enum StaticAnswer {
    /// An error page: status, title, message form, and the text it quotes.
    Refuse { status: u16, title: &'static str, form: &'static str, quote: Quote },
    /// `401`, asking for the password of the URL's realm.
    Unauthorized,
    /// The listing of the directory, dated by its time.
    Listing { mtime: i64 },
    /// Only a head (a `HEAD` request, or `304`): status, title, type,
    /// length (`-1` for none), time, encoding, and the range's last byte.
    HeadOnly {
        status: u16,
        title: &'static str,
        mime_type: &'static str,
        length: i64,
        mtime: i64,
        encoding: Option<&'static str>,
        last_byte_index: i64,
    },
    /// The file: the status logged (`206` for a range, else `200`), type,
    /// size, time, encoding, and the range's last byte.
    File {
        status: u16,
        mime_type: &'static str,
        size: i64,
        mtime: i64,
        encoding: Option<&'static str>,
        last_byte_index: i64,
    },
}

/// A static answer as values.
pub enum StaticView {
    Refuse(u16, Seq<char>, Seq<char>, Quote),
    Unauthorized,
    Listing(i64),
    HeadOnly(u16, Seq<char>, Seq<char>, i64, i64, Option<Seq<char>>, i64),
    File(u16, Seq<char>, i64, i64, Option<Seq<char>>, i64),
}

pub open spec fn opt_str(o: Option<&'static str>) -> Option<Seq<char>> {
    match o {
        Some(s) => Some(s@),
        None => None,
    }
}

pub open spec fn static_view(a: StaticAnswer) -> StaticView {
    match a {
        StaticAnswer::Refuse { status, title, form, quote } => StaticView::Refuse(status, title@, form@, quote),
        StaticAnswer::Unauthorized => StaticView::Unauthorized,
        StaticAnswer::Listing { mtime } => StaticView::Listing(mtime),
        StaticAnswer::HeadOnly { status, title, mime_type, length, mtime, encoding, last_byte_index } =>
            StaticView::HeadOnly(status, title@, mime_type@, length, mtime, opt_str(encoding), last_byte_index),
        StaticAnswer::File { status, mime_type, size, mtime, encoding, last_byte_index } =>
            StaticView::File(status, mime_type@, size, mtime, opt_str(encoding), last_byte_index),
    }
}

/// Whether a path begins at the root directory.
pub open spec fn rooted(p: Seq<char>) -> bool {
    p.len() > 0 && p[0] == '/'
}

/// Whether the component list `a` begins the component list `b`.
pub open spec fn components_prefix(a: Seq<Seq<char>>, b: Seq<Seq<char>>) -> bool {
    a.len() <= b.len() && b.take(a.len() as int) == a
}

/// Whether `p` lies in the tree rooted at `root`, as `Path::starts_with`
/// decides it for absolute paths: both begin at `/` or neither does, and
/// the components of `root` begin those of `p` (empty and `.` pieces do
/// not count).
pub open spec fn within_root_of(root: Seq<char>, p: Seq<char>) -> bool {
    rooted(root) == rooted(p) && components_prefix(path_pieces(root), path_pieces(p))
}

/// Whether the path `canonical` lies in the tree rooted at `root`.
pub fn within_root(root: &str, canonical: &str) -> (r: bool)
    ensures
        r == within_root_of(root@, canonical@),
{
    let rc = chars_of(root);
    let cc = chars_of(canonical);
    let r_rooted = rc.len() > 0 && rc[0] == '/';
    let c_rooted = cc.len() > 0 && cc[0] == '/';
    if r_rooted != c_rooted {
        return false;
    }
    let rp = path_components(rc.as_slice());
    let cp = path_components(cc.as_slice());
    let ghost a = path_pieces(root@);
    let ghost b = path_pieces(canonical@);
    if rp.len() > cp.len() {
        return false;
    }
    let mut i: usize = 0;
    while i < rp.len()
        invariant
            a == path_pieces(root@),
            b == path_pieces(canonical@),
            rooted(root@) == rooted(canonical@),
            rp@.len() == a.len(),
            cp@.len() == b.len(),
            a.len() <= b.len(),
            forall|k: int| 0 <= k < rp@.len() ==> #[trigger] rp@[k]@ == a[k],
            forall|k: int| 0 <= k < cp@.len() ==> #[trigger] cp@[k]@ == b[k],
            i <= rp@.len(),
            forall|k: int| 0 <= k < i ==> #[trigger] a[k] == b[k],
        decreases rp@.len() - i,
    {
        let x = &rp[i];
        let y = &cp[i];
        let same = x.len() == y.len() && chars_start_with(x.as_slice(), y.as_slice());
        assert(x@.take(x@.len() as int) =~= x@);
        if !same {
            assert(x@ != y@);
            assert(b.take(a.len() as int)[i as int] != a[i as int]);
            assert(!components_prefix(a, b));
            return false;
        }
        assert(rp@[i as int]@ =~= cp@[i as int]@);
        i += 1;
    }
    assert(b.take(a.len() as int) =~= a);
    true
}

/// The 256 bytes of `b` from `i` on hold no `/`.
pub open spec fn slash_free_run(b: Seq<u8>, i: int) -> bool {
    forall|k: int| i <= k < i + 256 ==> #[trigger] b[k] != 47u8
}

/// Some piece between `/`s of `b` is longer than 255 bytes.
pub open spec fn long_component_of(b: Seq<u8>) -> bool {
    exists|i: int| 0 <= i && i + 256 <= b.len() && #[trigger] slash_free_run(b, i)
}

/// Whether some piece between `/`s of a path is longer than 255 bytes.
pub fn long_component(path: &str) -> (r: bool)
    ensures
        r == long_component_of(sb(path)),
{
    let b = path.as_bytes();
    let mut run: usize = 0;
    let mut k: usize = 0;
    while k < b.len()
        invariant
            b@ == sb(path),
            k <= b@.len(),
            run <= k,
            run <= 255,
            forall|m: int| k - run <= m < k ==> #[trigger] b@[m] != 47u8,
            k - run > 0 ==> b@[k - run - 1] == 47u8,
            forall|i: int| 0 <= i && i + 256 <= k ==> !#[trigger] slash_free_run(b@, i),
        decreases b@.len() - k,
    {
        if b[k] == 47u8 {
            run = 0;
            k += 1;
            assert forall|i: int| 0 <= i && i + 256 <= k implies !#[trigger] slash_free_run(b@, i) by {
                if i + 256 == k && slash_free_run(b@, i) {
                    assert(b@[k - 1] != 47u8);
                }
            }
        } else {
            run += 1;
            k += 1;
            if run == 256 {
                assert(slash_free_run(b@, k - 256));
                assert(long_component_of(sb(path)));
                return true;
            }
            assert forall|i: int| 0 <= i && i + 256 <= k implies !#[trigger] slash_free_run(b@, i) by {
                if i + 256 == k && slash_free_run(b@, i) {
                    assert(b@[k - run - 1] != 47u8);
                }
            }
        }
    }
    false
}

/// The file a static request serves: its canonical path when links are
/// checked and it resolved, else its path under the document directory.
pub open spec fn static_target(f: StaticFacts) -> Seq<char> {
    match f.canonical {
        Some(c) => if f.symlink_check { c@ } else { f.file_path@ },
        None => f.file_path@,
    }
}

/// The refusal for a failed stat: missing, a name piece too long, or
/// otherwise inaccessible.
pub open spec fn stat_refusal(not_found: bool, long: bool) -> StaticView {
    if not_found {
        StaticView::Refuse(404, "Not Found"@, "The requested URL '%.80s' was not found on this server.\n"@, Quote::Url)
    } else if long {
        StaticView::Refuse(
            500,
            "Internal Error"@,
            "There was an unusual problem serving the requested URL '%.80s'.\n"@,
            Quote::Url,
        )
    } else {
        StaticView::Refuse(403, "Forbidden"@, "The requested URL '%.80s' is not accessible.\n"@, Quote::Url)
    }
}

/// The refusal of the file gate.
pub open spec fn gate_refusal(g: FileGate) -> StaticView {
    StaticView::Refuse(
        403,
        "Forbidden"@,
        if g == FileGate::NotReadable {
            "The requested URL '%.80s' resolves to a file that is not world-readable.\n"@
        } else if g == FileGate::ExecutableNotCgi {
            "The requested URL '%.80s' resolves to a file which is marked executable but is not a CGI file; retrieving it is forbidden.\n"@
        } else {
            "The requested URL '%.80s' resolves to a file plus CGI-style pathinfo, but the file is not a valid CGI file.\n"@
        },
        Quote::Url,
    )
}

/// The answer of a static request before the throttle rules are asked, in
/// the order the checks are made: the document directory must resolve
/// (`500`), the file must lie inside it (`403`), the stat must succeed,
/// the password check must pass (`401`), then the file gate (a directory
/// is listed). `None`: go on to the throttle rules.
pub open spec fn static_before_throttle(f: StaticFacts) -> Option<StaticView> {
    if f.symlink_check && f.root is None {
        Some(
            StaticView::Refuse(
                500,
                "Internal Error"@,
                "There was an unusual problem serving the requested URL '%.80s'.\n"@,
                Quote::Dir,
            ),
        )
    } else if f.symlink_check && (f.canonical matches Some(c) && !within_root_of(f.root->0@, c@)) {
        Some(
            StaticView::Refuse(
                403,
                "Forbidden"@,
                "The requested URL '%.80s' resolves to a file outside the permitted web server directory tree.\n"@,
                Quote::Url,
            ),
        )
    } else {
        match f.stat {
            None => Some(stat_refusal(f.not_found, long_component_of(encode_utf8(static_target(f))))),
            Some(st) => if f.unauthorized {
                Some(StaticView::Unauthorized)
            } else {
                let g = file_gate_of(st.is_dir, st.mode, f.has_path_info);
                if g == FileGate::Listing {
                    Some(StaticView::Listing(st.mtime))
                } else if g == FileGate::Pass {
                    None
                } else {
                    Some(gate_refusal(g))
                }
            },
        }
    }
}

/// The answer of an admitted static request: a `HEAD` gets the head of
/// the file, an `If-Modified-Since` at or after the file's time gets
/// `304`, and otherwise the file is sent (`206` for a range); the type and
/// encoding come from the served file's name, and an open range ends at
/// the end of the file.
pub open spec fn static_delivery(f: StaticFacts) -> StaticView {
    let st = f.stat->0;
    let t = static_target(f);
    let last = range_end(f.got_range, f.last_byte_index, st.size);
    if f.method == Method::Head {
        StaticView::HeadOnly(200, "OK"@, mime_type_of(t), st.size, st.mtime, mime_encoding_of(t), last)
    } else if f.if_modified_since matches Some(ims) && ims >= st.mtime {
        StaticView::HeadOnly(304, "Not Modified"@, mime_type_of(t), -1i64, st.mtime, mime_encoding_of(t), last)
    } else {
        StaticView::File(
            if f.got_range { 206 } else { 200 },
            mime_type_of(t),
            st.size,
            st.mtime,
            mime_encoding_of(t),
            last,
        )
    }
}

/// The refusal of a transfer the throttle rules do not admit.
pub open spec fn over_bandwidth() -> StaticView {
    StaticView::Refuse(
        503,
        "Service Unavailable"@,
        "The requested URL '%.80s' is temporarily over its bandwidth limit.\n"@,
        Quote::RequestPath,
    )
}

/// The status, title and message form of the over-bandwidth page, which
/// quotes the request's file path.
pub fn over_bandwidth_page() -> (r: (u16, &'static str, &'static str))
    ensures
        over_bandwidth() == StaticView::Refuse(r.0, r.1@, r.2@, Quote::RequestPath),
{
    (503, "Service Unavailable", "The requested URL '%.80s' is temporarily over its bandwidth limit.\n")
}

/// The path under the document directory that a static request serves:
/// the canonical path when links are checked and it resolved.
pub fn target_path<'a>(symlink_check: bool, file_path: &'a str, canonical: Option<&'a str>) -> (r: &'a str)
    ensures
        r@ == match canonical {
            Some(c) => if symlink_check { c@ } else { file_path@ },
            None => file_path@,
        },
{
    match canonical {
        Some(c) => if symlink_check { c } else { file_path },
        None => file_path,
    }
}

fn refuse(status: u16, title: &'static str, form: &'static str, quote: Quote) -> (r: StaticAnswer)
    ensures
        static_view(r) == StaticView::Refuse(status, title@, form@, quote),
{
    StaticAnswer::Refuse { status, title, form, quote }
}

/// Decides the answer of a static request from what the file system said
/// (see `static_before_throttle` and `static_delivery`); between the two,
/// the transfer of `request_path` is checked against the throttle rules
/// (refused with `503` when they do not admit it), and the connection
/// records the check and, on an admission under rules, the matched rules
/// and limits.
pub fn static_answer(
    f: &StaticFacts,
    request_path: &str,
    throttles: &mut Option<ThrottleTable>,
    conn: &mut ConnThrottle,
) -> (r: StaticAnswer)
    requires
        f.stat matches Some(st) ==> st.size > i64::MIN,
        static_before_throttle(*f) is None ==> ((*old(throttles)) matches Some(t) ==> admission_fits(
            t.entries@,
            encode_utf8(crate::serving::throttle_path(request_path@)),
        )),
    ensures
        match static_before_throttle(*f) {
            Some(v) => static_view(r) == v && *final(throttles) == *old(throttles) && *final(conn) == *old(conn),
            None => match *old(throttles) {
                None => static_view(r) == static_delivery(*f) && (*final(throttles)) is None && conn_same(
                    *old(conn),
                    *final(conn),
                ),
                Some(t) => {
                    let fb = encode_utf8(crate::serving::throttle_path(request_path@));
                    &&& static_view(r) == (if admits(t.entries@, fb) {
                        static_delivery(*f)
                    } else {
                        over_bandwidth()
                    })
                    &&& (*final(throttles)) matches Some(t2) && t2.entries@ == entries_after_check(t.entries@, fb)
                    &&& conn_after_check(*old(conn), *final(conn), t.entries@, fb, true, true)
                },
            },
        },
{
    if f.symlink_check {
        match &f.root {
            None => {
                return refuse(500, "Internal Error", "There was an unusual problem serving the requested URL '%.80s'.\n", Quote::Dir);
            },
            Some(root) => {
                if let Some(c) = &f.canonical {
                    if !within_root(root.as_str(), c.as_str()) {
                        return refuse(
                            403,
                            "Forbidden",
                            "The requested URL '%.80s' resolves to a file outside the permitted web server directory tree.\n",
                            Quote::Url,
                        );
                    }
                }
            },
        }
    }
    let canonical: Option<&str> = match &f.canonical {
        Some(c) => Some(c.as_str()),
        None => None,
    };
    let target = target_path(f.symlink_check, f.file_path.as_str(), canonical);
    let st = match f.stat {
        None => {
            let (status, title, form) = stat_failure(f.not_found, long_component(target));
            return refuse(status, title, form, Quote::Url);
        },
        Some(st) => st,
    };
    if f.unauthorized {
        return StaticAnswer::Unauthorized;
    }
    let g = file_gate(st.is_dir, st.mode, f.has_path_info);
    match g {
        FileGate::Listing => {
            return StaticAnswer::Listing { mtime: st.mtime };
        },
        FileGate::Pass => {},
        _ => {
            return refuse(403, "Forbidden", gate_message(g), Quote::Url);
        },
    }
    let last = fill_range_end(f.got_range, f.last_byte_index, st.size);
    let mp = crate::serving::throttle_match_path(request_path);
    if !admit_transfer(throttles, mp, conn, true, true) {
        return refuse(
            503,
            "Service Unavailable",
            "The requested URL '%.80s' is temporarily over its bandwidth limit.\n",
            Quote::RequestPath,
        );
    }
    let mime = figure_mime(target);
    if f.method == Method::Head {
        StaticAnswer::HeadOnly {
            status: 200,
            title: "OK",
            mime_type: mime.mime_type,
            length: st.size,
            mtime: st.mtime,
            encoding: mime.encoding,
            last_byte_index: last,
        }
    } else if not_modified(f.if_modified_since, st.mtime) {
        StaticAnswer::HeadOnly {
            status: 304,
            title: "Not Modified",
            mime_type: mime.mime_type,
            length: -1,
            mtime: st.mtime,
            encoding: mime.encoding,
            last_byte_index: last,
        }
    } else {
        StaticAnswer::File {
            status: if f.got_range { 206 } else { 200 },
            mime_type: mime.mime_type,
            size: st.size,
            mtime: st.mtime,
            encoding: mime.encoding,
            last_byte_index: last,
        }
    }
}

// ---------------------------------------------------------------- CGI

/// The concurrency limit on CGI programs when none is configured.
pub const DEFAULT_CGI_LIMIT: i32 = 50;

/// How a CGI request is refused before its program runs, in the order the
/// checks are made: too many programs running (`503`; a limit of 0 or less
/// means none), then a missing script or a directory (`404`).
pub open spec fn cgi_refusal_of(limit: Option<i32>, active: i32, found: bool, is_dir: bool) -> Option<(u16, Seq<char>, Seq<char>)> {
    let l = match limit {
        Some(l) => l,
        None => DEFAULT_CGI_LIMIT,
    };
    if l > 0 && active >= l {
        Some((503, "Service Unavailable"@, "Too many concurrent CGI requests. Please try again later.\n"@))
    } else if !found || is_dir {
        Some((404, "Not Found"@, "The requested URL '%.80s' was not found on this server.\n"@))
    } else {
        None
    }
}

/// Refuses a CGI request before its program runs (see `cgi_refusal_of`);
/// each refusal comes with its title and message form, which quotes the URL.
pub fn cgi_refusal(limit: Option<i32>, active: i32, found: bool, is_dir: bool) -> (r: Option<(u16, &'static str, &'static str)>)
    ensures
        match r {
            Some(t) => cgi_refusal_of(limit, active, found, is_dir) == Some((t.0, t.1@, t.2@)),
            None => cgi_refusal_of(limit, active, found, is_dir) is None,
        },
{
    let l = match limit {
        Some(l) => l,
        None => DEFAULT_CGI_LIMIT,
    };
    if l > 0 && active >= l {
        Some((503, "Service Unavailable", "Too many concurrent CGI requests. Please try again later.\n"))
    } else if !found || is_dir {
        Some((404, "Not Found", "The requested URL '%.80s' was not found on this server.\n"))
    } else {
        None
    }
}

/// The refusals of a CGI request, then the throttle rules: a transfer of
/// `script` that they do not admit is refused with `503` (the connection
/// records only the matched rules of an admission).
pub fn cgi_admission(
    limit: Option<i32>,
    active: i32,
    found: bool,
    is_dir: bool,
    script: &str,
    throttles: &mut Option<ThrottleTable>,
    conn: &mut ConnThrottle,
) -> (r: Option<(u16, &'static str, &'static str)>)
    requires
        cgi_refusal_of(limit, active, found, is_dir) is None ==> ((*old(throttles)) matches Some(t)
            ==> admission_fits(t.entries@, encode_utf8(crate::serving::throttle_path(script@)))),
    ensures
        match cgi_refusal_of(limit, active, found, is_dir) {
            Some(v) => (r matches Some(t) && v == (t.0, t.1@, t.2@)) && *final(throttles) == *old(throttles)
                && *final(conn) == *old(conn),
            None => match *old(throttles) {
                None => r is None && (*final(throttles)) is None && conn_same(*old(conn), *final(conn)),
                Some(t) => {
                    let fb = encode_utf8(crate::serving::throttle_path(script@));
                    &&& (if admits(t.entries@, fb) {
                        r is None
                    } else {
                        r matches Some(x) && x.0 == 503 && x.1@ == "Service Unavailable"@ && x.2@
                            == "The requested URL '%.80s' is temporarily over its bandwidth limit.\n"@
                    })
                    &&& (*final(throttles)) matches Some(t2) && t2.entries@ == entries_after_check(t.entries@, fb)
                    &&& conn_after_check(*old(conn), *final(conn), t.entries@, fb, false, false)
                },
            },
        },
{
    if let Some(x) = cgi_refusal(limit, active, found, is_dir) {
        return Some(x);
    }
    let mp = crate::serving::throttle_match_path(script);
    if admit_transfer(throttles, mp, conn, false, false) {
        None
    } else {
        Some((503, "Service Unavailable", "The requested URL '%.80s' is temporarily over its bandwidth limit.\n"))
    }
}

/// What a CGI program is told of its request.
pub struct CgiRequest {
    pub method: Method,
    pub query: String,
    pub content_type: String,
    pub content_length: Option<i64>,
    pub host: String,
    pub user_agent: String,
    pub referer: String,
    pub accept: String,
    pub accept_encoding: String,
    pub accept_language: String,
    pub cookie: String,
    pub x_forwarded_for: String,
    /// The peer's address.
    pub peer: String,
}

/// A header for the program when its value is not empty.
pub open spec fn header_if(name: Seq<char>, value: Seq<char>) -> Seq<(Seq<char>, Seq<char>)> {
    if value.len() == 0 {
        Seq::empty()
    } else {
        seq![(name, value)]
    }
}

/// The request headers a CGI program gets, in this order: `Host` without
/// its port, `User-Agent`, `Referer`, `Accept`, `Accept-Encoding`,
/// `Accept-Language`, `Cookie`, each only when the request had it.
pub open spec fn cgi_headers_of(req: CgiRequest) -> Seq<(Seq<char>, Seq<char>)> {
    (if req.host@.len() == 0 {
        Seq::empty()
    } else {
        seq![("Host"@, before_last_colon(req.host@))]
    }) + header_if("User-Agent"@, req.user_agent@) + header_if("Referer"@, req.referer@) + header_if(
        "Accept"@,
        req.accept@,
    ) + header_if("Accept-Encoding"@, req.accept_encoding@) + header_if("Accept-Language"@, req.accept_language@)
        + header_if("Cookie"@, req.cookie@)
}

pub open spec fn pairs_text(v: Seq<(String, String)>) -> Seq<(Seq<char>, Seq<char>)> {
    v.map_values(|p: (String, String)| (p.0@, p.1@))
}

pub open spec fn opt_string(o: Option<String>) -> Option<Seq<char>> {
    match o {
        Some(s) => Some(s@),
        None => None,
    }
}

/// The context of a CGI program: the server's software, name and port,
/// `CGI/1.1` over `HTTP/1.0`, the method, the script, the query, the
/// client's address (the forwarded one when given), the body's type
/// (when given) and length, the request headers (`cgi_headers_of`), and
/// with path info, the path info and its place under `dir`; no user.
pub open spec fn cgi_context_ok(
    r: CgiContext,
    req: CgiRequest,
    port: u16,
    server_name: Seq<char>,
    dir: Seq<char>,
    script: Seq<char>,
    info: Seq<char>,
) -> bool {
    &&& r.server_software@ == SERVER_SOFTWARE@
    &&& r.server_name@ == server_name
    &&& r.gateway_interface@ == "CGI/1.1"@
    &&& r.server_protocol@ == "HTTP/1.0"@
    &&& r.server_port == port
    &&& r.request_method@ == method_name(req.method)
    &&& r.script_name@ == script
    &&& r.query_string@ == req.query@
    &&& r.remote_addr@ == cgi_remote_addr_of(req.x_forwarded_for@, req.peer@)
    &&& opt_string(r.content_type) == (if req.content_type@.len() == 0 { None } else { Some(req.content_type@) })
    &&& r.content_length == req.content_length
    &&& pairs_text(r.http_headers@) == cgi_headers_of(req)
    &&& opt_string(r.path_info) == (if info.len() == 0 { None } else { Some(info) })
    &&& opt_string(r.path_translated) == (if info.len() == 0 { None } else { Some(path_join(dir, info.drop_first())) })
    &&& r.remote_user is None
    &&& r.auth_type is None
}

fn copy(s: &str) -> (r: String)
    ensures
        r@ == s@,
{
    let r = concat3(s, "", "");
    proof {
        reveal_strlit("");
    }
    assert(r@ =~= s@);
    r
}

fn push_header(v: &mut Vec<(String, String)>, name: &str, value: &String)
    ensures
        pairs_text(final(v)@) == pairs_text(old(v)@) + header_if(name@, value@),
{
    if value.unicode_len() > 0 {
        v.push((copy(name), value.clone()));
        assert(pairs_text(v@) =~= pairs_text(old(v)@) + header_if(name@, value@));
    } else {
        assert(pairs_text(v@) =~= pairs_text(old(v)@) + header_if(name@, value@));
    }
}

/// Builds the context of a CGI program (see `cgi_context_ok`); the path
/// info, when there is some, begins with a one-byte character (its `/`).
pub fn cgi_context(
    req: &CgiRequest,
    port: u16,
    server_name: String,
    dir: &str,
    script: &str,
    info: &str,
) -> (r: CgiContext)
    requires
        info@.len() > 0 ==> (info@[0] as u32) < 0x80,
    ensures
        cgi_context_ok(r, *req, port, server_name@, dir@, script@, info@),
{
    let mut headers: Vec<(String, String)> = Vec::new();
    if req.host.unicode_len() > 0 {
        headers.push((copy("Host"), host_without_port(req.host.as_str())));
    }
    assert(pairs_text(headers@) =~= (if req.host@.len() == 0 {
        Seq::empty()
    } else {
        seq![("Host"@, before_last_colon(req.host@))]
    }));
    push_header(&mut headers, "User-Agent", &req.user_agent);
    push_header(&mut headers, "Referer", &req.referer);
    push_header(&mut headers, "Accept", &req.accept);
    push_header(&mut headers, "Accept-Encoding", &req.accept_encoding);
    push_header(&mut headers, "Accept-Language", &req.accept_language);
    push_header(&mut headers, "Cookie", &req.cookie);
    let n = info.unicode_len();
    let (path_info, path_translated) = if n == 0 {
        (None, None)
    } else {
        let tail = info.substring_char(1, n);
        assert(tail@ =~= info@.drop_first());
        (Some(copy(info)), Some(join_path(dir, tail)))
    };
    let content_type = if req.content_type.unicode_len() == 0 {
        None
    } else {
        Some(req.content_type.clone())
    };
    CgiContext {
        server_software: copy(SERVER_SOFTWARE),
        server_name,
        gateway_interface: copy("CGI/1.1"),
        server_protocol: copy("HTTP/1.0"),
        server_port: port,
        request_method: copy(req.method.as_str()),
        script_name: copy(script),
        query_string: req.query.clone(),
        remote_addr: cgi_remote_addr(req.x_forwarded_for.as_str(), req.peer.as_str()),
        content_type,
        content_length: req.content_length,
        http_headers: headers,
        path_info,
        path_translated,
        remote_user: None,
        auth_type: None,
    }
}

/// The body handed to a CGI program on its input: what was read from the
/// end of the request head on, when it holds the whole declared length; a
/// request without a length has none.
pub fn cgi_post_body(content_length: Option<i64>, start: usize, buf: &[u8]) -> (r: Option<Vec<u8>>)
    requires
        start <= buf@.len(),
    ensures
        match content_length {
            None => r is None,
            Some(len) => if start + (if len < 0 { 0 } else { len as int }) <= buf@.len() {
                r matches Some(b) && b@ == buf@.skip(start as int)
            } else {
                r is None
            },
        },
{
    match content_length {
        None => None,
        Some(len) => {
            let need: u64 = if len < 0 { 0 } else { len as u64 };
            if (buf.len() - start) as u64 >= need {
                let mut out: Vec<u8> = Vec::new();
                let mut i = start;
                while i < buf.len()
                    invariant
                        start <= i <= buf@.len(),
                        out@ == buf@.subrange(start as int, i as int),
                    decreases buf@.len() - i,
                {
                    out.push(buf[i]);
                    assert(out@ =~= buf@.subrange(start as int, i + 1));
                    i += 1;
                }
                assert(buf@.subrange(start as int, i as int) =~= buf@.skip(start as int));
                Some(out)
            } else {
                None
            }
        },
    }
}

// ---------------------------------------------------------------- requests

/// What a request's head says, as the server uses it.
pub struct RequestFacts {
    pub method: Method,
    /// The method word as written (`UNKNOWN` when the line has none).
    pub method_word: String,
    /// The URL as written (`/` when the line has none).
    pub encoded_url: String,
    /// The decoded URL without its query.
    pub decoded_url: String,
    pub query: String,
    /// The protocol word (`HTTP/0.9` when the line has none).
    pub version: String,
    /// The line has a protocol word: the request carries MIME headers.
    pub mime_flag: bool,
    pub one_one: bool,
    pub host: String,
    pub if_modified_since: Option<i64>,
    /// The request has an `If-Modified-Since` that is no date at all (its
    /// day is 0), which the date arithmetic cannot take.
    pub date_unreadable: bool,
    pub got_range: bool,
    pub first_byte_index: i64,
    pub last_byte_index: i64,
    pub content_type: String,
    pub content_length: Option<i64>,
    pub user_agent: String,
    pub referer: String,
    pub accept: String,
    pub accept_encoding: String,
    pub accept_language: String,
    pub cookie: String,
    pub authorization: String,
    /// The first address of `X-Forwarded-For`.
    pub x_forwarded_for: String,
}

/// The value of a header of the request head `h`.
pub open spec fn head_header(h: Seq<u8>, name: Seq<char>) -> Option<Seq<char>> {
    header_in(h.skip(header_block_start(h)), name)
}

pub open spec fn or_text(o: Option<Seq<char>>, d: Seq<char>) -> Seq<char> {
    match o {
        Some(v) => v,
        None => d,
    }
}

pub open spec fn opt_int(o: Option<i64>) -> Option<int> {
    match o {
        Some(v) => Some(v as int),
        None => None,
    }
}

/// The facts of the request head `h` (its bytes up to the end of the
/// headers): the words of the first line, the decoded URL split from its
/// query, and the header values (empty when absent); a date, a range or a
/// length that cannot be read is left out.
pub open spec fn request_facts_ok(r: RequestFacts, h: Seq<u8>) -> bool {
    let w = request_words(h);
    let decoded = query_split(utf8_lossy(pdecode(encode_utf8(or_text(word_at(w, 1), "/"@)))));
    &&& r.method == method_of(first_word(h))
    &&& r.method_word@ == or_text(word_at(w, 0), "UNKNOWN"@)
    &&& r.encoded_url@ == or_text(word_at(w, 1), "/"@)
    &&& r.version@ == or_text(word_at(w, 2), "HTTP/0.9"@)
    &&& r.mime_flag == word_at(w, 2) is Some
    &&& r.one_one == one_one(word_at(w, 2))
    &&& r.decoded_url@ == decoded.0
    &&& r.query@ == or_text(decoded.1, Seq::empty())
    &&& r.host@ == or_text(head_header(h, "Host"@), Seq::empty())
    &&& opt_int(r.if_modified_since) == match head_header(h, "If-Modified-Since"@) {
        Some(v) => if http_date_readable(v) { read_http_date(v) } else { None },
        None => None,
    }
    &&& r.date_unreadable == (head_header(h, "If-Modified-Since"@) matches Some(v) && !http_date_readable(v))
    &&& match (match head_header(h, "Range"@) {
        Some(v) => range_request(v),
        None => None,
    }) {
        Some((first, last)) => r.got_range && r.first_byte_index == first && r.last_byte_index == match last {
            Some(l) => l,
            None => -1i64,
        },
        None => !r.got_range && r.first_byte_index == 0 && r.last_byte_index == -1,
    }
    &&& r.content_type@ == or_text(head_header(h, "Content-Type"@), Seq::empty())
    &&& opt_int(r.content_length) == match head_header(h, "Content-Length"@) {
        Some(v) => content_length_value(v),
        None => None,
    }
    &&& r.user_agent@ == or_text(head_header(h, "User-Agent"@), Seq::empty())
    &&& r.referer@ == or_text(head_header(h, "Referer"@), Seq::empty())
    &&& r.accept@ == or_text(head_header(h, "Accept"@), Seq::empty())
    &&& r.accept_encoding@ == or_text(head_header(h, "Accept-Encoding"@), Seq::empty())
    &&& r.accept_language@ == or_text(head_header(h, "Accept-Language"@), Seq::empty())
    &&& r.cookie@ == or_text(head_header(h, "Cookie"@), Seq::empty())
    &&& r.authorization@ == or_text(head_header(h, "Authorization"@), Seq::empty())
    &&& r.x_forwarded_for@ == match head_header(h, "X-Forwarded-For"@) {
        Some(v) => forwarded_client(v),
        None => Seq::empty(),
    }
}

fn or_copy(o: Option<String>, d: &str) -> (r: String)
    ensures
        r@ == or_text(crate::request::text_opt(o), d@),
{
    match o {
        Some(v) => v,
        None => copy(d),
    }
}

fn header_or_empty(headers: &[u8], name: &str) -> (r: String)
    ensures
        r@ == or_text(header_in(headers@, name@), Seq::empty()),
{
    match extract_header(headers, name) {
        Some(v) => v,
        None => String::new(),
    }
}

/// Reads the facts of a request whose head ends at `checked_idx` (see
/// `request_facts_ok`).
pub fn request_facts(buf: &[u8], checked_idx: usize) -> (r: RequestFacts)
    requires
        checked_idx <= buf@.len(),
    ensures
        request_facts_ok(r, buf@.take(checked_idx as int)),
{
    let line = crate::text::slice_range(buf, 0, checked_idx);
    assert(line@ =~= buf@.take(checked_idx as int));
    let (method_word, url, version) = request_line_words(line.as_slice());
    let headers = header_block(line.as_slice());
    let mime_flag = version.is_some();
    let one = match &version {
        Some(v) => is_one_one(Some(v.as_str())),
        None => is_one_one(None),
    };
    let encoded_url = or_copy(url, "/");
    let version = or_copy(version, "HTTP/0.9");
    let method_word = or_copy(method_word, "UNKNOWN");
    let method = parse_method(line.as_slice(), line.len());
    assert(line@.subrange(0, line@.len() as int) =~= line@);
    let decoded = percent_decode(encoded_url.as_str());
    let (path, query) = split_query(decoded.as_str());
    let query = match query {
        Some(q) => q,
        None => String::new(),
    };
    let (if_modified_since, date_unreadable) = match extract_header(headers.as_slice(), "If-Modified-Since") {
        Some(v) => match try_parse_http_date(v.as_str()) {
            Some(t) => (t, false),
            None => (None, true),
        },
        None => (None, false),
    };
    let (got_range, first_byte_index, last_byte_index) = match extract_header(headers.as_slice(), "Range") {
        Some(v) => match parse_range(v.as_str()) {
            Some((first, last)) => (true, first, match last {
                Some(l) => l,
                None => -1,
            }),
            None => (false, 0, -1),
        },
        None => (false, 0, -1),
    };
    let content_length = match extract_header(headers.as_slice(), "Content-Length") {
        Some(v) => parse_content_length(v.as_str()),
        None => None,
    };
    let x_forwarded_for = match extract_header(headers.as_slice(), "X-Forwarded-For") {
        Some(v) => first_forwarded_for(v.as_str()),
        None => String::new(),
    };
    RequestFacts {
        method,
        method_word,
        encoded_url,
        decoded_url: path,
        query,
        version,
        mime_flag,
        one_one: one,
        host: header_or_empty(headers.as_slice(), "Host"),
        if_modified_since,
        date_unreadable,
        got_range,
        first_byte_index,
        last_byte_index,
        content_type: header_or_empty(headers.as_slice(), "Content-Type"),
        content_length,
        user_agent: header_or_empty(headers.as_slice(), "User-Agent"),
        referer: header_or_empty(headers.as_slice(), "Referer"),
        accept: header_or_empty(headers.as_slice(), "Accept"),
        accept_encoding: header_or_empty(headers.as_slice(), "Accept-Encoding"),
        accept_language: header_or_empty(headers.as_slice(), "Accept-Language"),
        cookie: header_or_empty(headers.as_slice(), "Cookie"),
        authorization: header_or_empty(headers.as_slice(), "Authorization"),
        x_forwarded_for,
    }
}

/// How a request goes on once its head is read.
pub enum RouteStart {
    /// An error page: status, title, form, the text it quotes, and whether
    /// the page is shaped for the request's user agent (the first checks
    /// come before the headers are looked at).
    Refuse { status: u16, title: &'static str, form: &'static str, quote: Quote, with_user_agent: bool },
    /// The request names `orig_filename`; under virtual hosting its host
    /// directory is `vhost_dir`; `search_path_info` says whether trailing
    /// pieces of the path that do not exist are taken as path info.
    Proceed { orig_filename: String, vhost_dir: String, search_path_info: bool },
}

/// A route start as values.
pub enum RouteView {
    Refuse(u16, Seq<char>, Seq<char>, Quote, bool),
    Proceed(Seq<char>, Seq<char>, bool),
}

pub open spec fn route_view(r: RouteStart) -> RouteView {
    match r {
        RouteStart::Refuse { status, title, form, quote, with_user_agent } => RouteView::Refuse(
            status,
            title@,
            form@,
            quote,
            with_user_agent,
        ),
        RouteStart::Proceed { orig_filename, vhost_dir, search_path_info } => RouteView::Proceed(
            orig_filename@,
            vhost_dir@,
            search_path_info,
        ),
    }
}

/// The start of a request's route, in the order the checks are made: an
/// HTTP/1.1 request without `Host` is refused (`400`, quoting the version),
/// an unknown method (`501`, quoting the method word), a URL over the
/// length limit (`500`), a path that cannot be normalized (`400` or `404`,
/// quoting the decoded path). Otherwise the normalized path is the file
/// name, under virtual hosting (with a host) prefixed by `/` and the host
/// in lower case, which is then the host directory; path info is searched
/// for except under virtual hosting with a host directory.
pub open spec fn route_start_of(f: RequestFacts, vhost: bool) -> RouteView {
    let e400 = "Your request has bad syntax or is inherently impossible to satisfy.\n"@;
    if f.one_one && f.host@.len() == 0 {
        RouteView::Refuse(400, "Bad Request"@, e400, Quote::Version, false)
    } else if f.method == Method::Unknown {
        RouteView::Refuse(
            501,
            "Not Implemented"@,
            "The requested method '%.80s' is not implemented by this server.\n"@,
            Quote::MethodWord,
            false,
        )
    } else if encode_utf8(f.encoded_url@).len() > MAX_URL_LENGTH {
        RouteView::Refuse(
            500,
            "Internal Error"@,
            "There was an unusual problem serving the requested URL '%.80s'.\n"@,
            Quote::Url,
            true,
        )
    } else {
        match normalize_spec(encode_utf8(f.decoded_url@)) {
            None => if bad_path_status(f.decoded_url@) == 400 {
                RouteView::Refuse(400, "Bad Request"@, e400, Quote::DecodedUrl, true)
            } else {
                RouteView::Refuse(
                    404,
                    "Not Found"@,
                    "The requested URL '%.80s' was not found on this server.\n"@,
                    Quote::DecodedUrl,
                    true,
                )
            },
            Some(nb) => if vhost && f.host@.len() > 0 {
                let dir = lowercase_of(f.host@);
                RouteView::Proceed(seq!['/'] + dir + decode_utf8(nb), dir, dir.len() == 0)
            } else {
                RouteView::Proceed(decode_utf8(nb), Seq::empty(), true)
            },
        }
    }
}

/// Starts a request's route (see `route_start_of`).
pub fn request_route(f: &RequestFacts, vhost: bool) -> (r: RouteStart)
    ensures
        route_view(r) == route_start_of(*f, vhost),
{
    broadcast use vstd::utf8::encode_utf8_decode_utf8;
    let unknown = f.method == Method::Unknown;
    if let Some((status, title, form)) = early_refusal(f.one_one, f.host.unicode_len() == 0, unknown, 0) {
        let quote = if status == 400 { Quote::Version } else { Quote::MethodWord };
        return RouteStart::Refuse { status, title, form, quote, with_user_agent: false };
    }
    let url = f.encoded_url.as_str();
    let url_len = url.as_bytes().len();
    if let Some((status, title, form)) = early_refusal(false, false, false, url_len) {
        return RouteStart::Refuse { status, title, form, quote: Quote::Url, with_user_agent: true };
    }
    let normalized = match normalize_path(f.decoded_url.as_str()) {
        Some(p) => p,
        None => {
            let (status, title, form) = refuse_bad_path(f.decoded_url.as_str());
            return RouteStart::Refuse { status, title, form, quote: Quote::DecodedUrl, with_user_agent: true };
        },
    };
    assert(normalized@ == decode_utf8(stb(normalized)));
    if vhost && f.host.unicode_len() > 0 {
        let orig = vhost_filename(f.host.as_str(), normalized.as_str());
        let dir = lowercase(f.host.as_str());
        let search = dir.unicode_len() == 0;
        RouteStart::Proceed { orig_filename: orig, vhost_dir: dir, search_path_info: search }
    } else {
        RouteStart::Proceed { orig_filename: normalized, vhost_dir: String::new(), search_path_info: true }
    }
}

/// Where a request goes once its file and path info are known.
#[derive(Debug, Clone, Copy, PartialEq, Eq, Structural)]
pub enum Dispatch {
    /// Run the file as a CGI program.
    Cgi,
    /// Path info on a file that is not a CGI program: `403`, quoting the URL.
    PathInfoNotCgi,
    /// Serve the file.
    Static,
}

/// A request runs its file as a CGI program when the file name matches
/// the CGI pattern; otherwise path info is refused and the file served.
pub open spec fn dispatch_of(cgi_pattern: Option<Seq<u8>>, orig: Seq<char>, has_path_info: bool) -> Dispatch {
    if cgi_pattern matches Some(p) && cgi_selected(p, orig) {
        Dispatch::Cgi
    } else if has_path_info {
        Dispatch::PathInfoNotCgi
    } else {
        Dispatch::Static
    }
}

pub open spec fn opt_bytes(o: Option<&str>) -> Option<Seq<u8>> {
    match o {
        Some(p) => Some(sb(p)),
        None => None,
    }
}

/// The refusal of path info on a file that is not a CGI program; the form
/// quotes the URL.
pub fn path_info_refusal() -> (r: (u16, &'static str, &'static str))
    ensures
        r.0 == 403 && r.1@ == "Forbidden"@,
        r.2@ == "The requested URL '%.80s' resolves to a file plus CGI-style pathinfo, but the file is not a valid CGI file.\n"@,
{
    (403, "Forbidden", "The requested URL '%.80s' resolves to a file plus CGI-style pathinfo, but the file is not a valid CGI file.\n")
}

/// Where a request goes (see `dispatch_of`).
pub fn request_dispatch(cgi_pattern: Option<&str>, orig_filename: &str, has_path_info: bool) -> (r: Dispatch)
    ensures
        r == dispatch_of(opt_bytes(cgi_pattern), orig_filename@, has_path_info),
{
    let cgi = match cgi_pattern {
        Some(p) => cgi_matches(p, orig_filename),
        None => false,
    };
    if cgi {
        Dispatch::Cgi
    } else if has_path_info {
        Dispatch::PathInfoNotCgi
    } else {
        Dispatch::Static
    }
}

// ---------------------------------------------------------------- sending

/// The throttle record once sending starts at `now` with a head of
/// `header_len` bytes; everything else as it was.
pub open spec fn started(old: ConnThrottle, new: ConnThrottle, header_len: usize, now: u64) -> bool {
    &&& new.header_len == header_len && new.started_at == Some(now) && new.active_at == Some(now)
    &&& new.tnums@ == old.tnums@ && new.max_limit == old.max_limit && new.min_limit == old.min_limit
    &&& new.body_bytes == old.body_bytes && new.pause_until == old.pause_until && new.checked == old.checked
}

/// Starts sending an answer to `request_path`. An answer that is not a
/// CGI program's and whose transfer was not yet checked is checked now
/// against the throttle rules: refused (the answer becomes the `503`
/// over-bandwidth page, and `false` is returned), admitted under rules
/// (the matched rules and limits are recorded and the throttled send
/// starts), or unlimited. A transfer checked before under rules starts
/// its throttled send. Otherwise nothing changes.
pub fn begin_send(
    is_cgi: bool,
    request_path: &str,
    header_len: usize,
    now: u64,
    throttles: &mut Option<ThrottleTable>,
    conn: &mut ConnThrottle,
) -> (ok: bool)
    requires
        !is_cgi && !old(conn).checked ==> ((*old(throttles)) matches Some(t) ==> admission_fits(
            t.entries@,
            encode_utf8(crate::serving::throttle_path(request_path@)),
        )),
    ensures
        ({
            let fb = encode_utf8(crate::serving::throttle_path(request_path@));
            if !is_cgi && !old(conn).checked && (*old(throttles)) is Some {
                let es = old(throttles)->0.entries@;
                let sel = selected(es, fb);
                &&& ok == admits(es, fb)
                &&& (*final(throttles)) matches Some(t2) && t2.entries@ == entries_after_check(es, fb)
                &&& if sel.len() > 0 && first_out_of_band(es, sel) == sel.len() {
                    &&& final(conn).tnums@ == sel
                    &&& final(conn).max_limit == admitted_max(es, sel)
                    &&& final(conn).min_limit == admitted_min(es, sel)
                    &&& final(conn).header_len == header_len && final(conn).started_at == Some(now)
                    &&& final(conn).active_at == Some(now)
                    &&& final(conn).body_bytes == old(conn).body_bytes && final(conn).pause_until == old(
                        conn,
                    ).pause_until && final(conn).checked == old(conn).checked
                } else {
                    conn_same(*old(conn), *final(conn))
                }
            } else if old(conn).checked && old(conn).tnums@.len() > 0 {
                ok && *final(throttles) == *old(throttles) && started(*old(conn), *final(conn), header_len, now)
            } else {
                ok && *final(throttles) == *old(throttles) && conn_same(*old(conn), *final(conn))
            }
        }),
{
    if !is_cgi && !conn.checked {
        match throttles {
            Some(t) => {
                let mp = crate::serving::throttle_match_path(request_path);
                match t.check_request(mp) {
                    ThrottleDecision::Allow { tnums, max_limit, min_limit } => {
                        conn.tnums = tnums;
                        conn.max_limit = max_limit;
                        conn.min_limit = min_limit;
                        start_sending(conn, header_len, now);
                        true
                    },
                    ThrottleDecision::Reject => false,
                    ThrottleDecision::Unlimited => true,
                }
            },
            None => true,
        }
    } else if conn.checked && conn.is_throttled() {
        start_sending(conn, header_len, now);
        true
    } else {
        true
    }
}

} // verus!
