//! Decisions the server takes on a request, apart from the reading and
//! writing: header values, the requested file, CGI selection and the checks
//! a static file must pass before it is sent.

use vstd::prelude::*;
use vstd::string::*;
use vstd::utf8::*;
use crate::text::{
    find_byte, lemma_find_byte, find_byte_from, words, words_of,
    lines_of, lowercase_of, lowercase, lemma_str_bytes, lemma_str_valid, utf8_lossy, string_from_lossy,
    split_chars, line_string, chars_start_with, concat3, split_on, raw_line,
    chars_of, trim_chars, trim_ws, string_of_chars, parse_int_chars, parse_chars_spec, next_char,
    find_char, copy_chars, push_char,
};
use crate::glob::{alt_match, match_pattern};

verus! {

// ---------------------------------------------------------------- header values

/// The client address in `X-Forwarded-For`: the text before the first
/// comma, trimmed.
pub open spec fn forwarded_client(xff: Seq<char>) -> Seq<char> {
    trim_ws(xff.take(next_char(xff, 0, ',')))
}

/// The first address of an `X-Forwarded-For` value.
pub fn first_forwarded_for(xff: &str) -> (r: String)
    ensures
        r@ == forwarded_client(xff@),
{
    let cs = chars_of(xff);
    let comma = find_char(cs.as_slice(), 0, ',');
    let head = copy_chars(cs.as_slice(), 0, comma);
    assert(cs@.subrange(0, comma as int) =~= cs@.take(comma as int));
    let t = trim_chars(head.as_slice());
    string_of_chars_all(t.as_slice())
}

fn string_of_chars_all(cs: &[char]) -> (r: String)
    ensures
        r@ == cs@,
{
    let r = string_of_chars(cs, 0, cs.len());
    assert(cs@.subrange(0, cs@.len() as int) =~= cs@);
    r
}

/// `Content-Length`: the trimmed value as an `i64`, kept only when it is
/// not negative.
pub open spec fn content_length_value(v: Seq<char>) -> Option<int> {
    match parse_chars_spec(trim_ws(v), i64::MIN as int, i64::MAX as int) {
        Some(n) => if n >= 0 { Some(n) } else { None },
        None => None,
    }
}

/// Reads a `Content-Length` value; negative or unreadable values give
/// `None`.
pub fn parse_content_length(v: &str) -> (r: Option<i64>)
    ensures
        r matches Some(n) ==> content_length_value(v@) == Some(n as int),
        r is None ==> content_length_value(v@) is None,
{
    let cs = chars_of(v);
    let t = trim_chars(cs.as_slice());
    match parse_int_chars(t.as_slice(), -0x8000_0000_0000_0000, 0x7fff_ffff_ffff_ffff) {
        Some(n) => if n >= 0 {
            Some(n as i64)
        } else {
            None
        },
        None => None,
    }
}

/// What a `Range: bytes=N-M` value asks for: the first byte (negative
/// values count as 0) and, when the text after the dash reads as a number,
/// the last byte (negative values count as -1). `None` when the value
/// lists several ranges, has no `=`, no dash after the first character of
/// the range, or a first byte that does not read as a number.
pub open spec fn range_request(v: Seq<char>) -> Option<(i64, Option<i64>)> {
    if next_char(v, 0, ',') < v.len() {
        None
    } else {
        let eq = next_char(v, 0, '=');
        if eq >= v.len() {
            None
        } else {
            let spec = v.skip(eq + 1);
            let dash = next_char(spec, 0, '-');
            if dash >= spec.len() || dash == 0 {
                None
            } else {
                match parse_chars_spec(spec.take(dash), i64::MIN as int, i64::MAX as int) {
                    None => None,
                    Some(first) => {
                        let f: i64 = if first < 0 { 0 } else { first as i64 };
                        let last: Option<i64> = if dash + 1 < spec.len() {
                            match parse_chars_spec(spec.skip(dash + 1), i64::MIN as int, i64::MAX as int) {
                                Some(l) => Some(if l < 0 { -1i64 } else { l as i64 }),
                                None => None,
                            }
                        } else {
                            None
                        };
                        Some((f, last))
                    },
                }
            }
        }
    }
}

/// Reads a `Range` header value.
pub fn parse_range(v: &str) -> (r: Option<(i64, Option<i64>)>)
    ensures
        r == range_request(v@),
{
    let cs = chars_of(v);
    let n = cs.len();
    if find_char(cs.as_slice(), 0, ',') < n {
        return None;
    }
    let eq = find_char(cs.as_slice(), 0, '=');
    if eq >= n {
        return None;
    }
    let spec = copy_chars(cs.as_slice(), eq + 1, n);
    assert(cs@.subrange(eq + 1, n as int) =~= cs@.skip(eq + 1));
    let m = spec.len();
    let dash = find_char(spec.as_slice(), 0, '-');
    if dash >= m || dash == 0 {
        return None;
    }
    let first_text = copy_chars(spec.as_slice(), 0, dash);
    assert(spec@.subrange(0, dash as int) =~= spec@.take(dash as int));
    let first = match parse_int_chars(first_text.as_slice(), -0x8000_0000_0000_0000, 0x7fff_ffff_ffff_ffff) {
        Some(x) => x as i64,
        None => return None,
    };
    let f: i64 = if first < 0 { 0 } else { first };
    let last: Option<i64> = if dash + 1 < m {
        let rest = copy_chars(spec.as_slice(), dash + 1, m);
        assert(spec@.subrange(dash + 1, m as int) =~= spec@.skip(dash + 1));
        match parse_int_chars(rest.as_slice(), -0x8000_0000_0000_0000, 0x7fff_ffff_ffff_ffff) {
            Some(l) => Some(if l < 0 { -1i64 } else { l as i64 }),
            None => None,
        }
    } else {
        None
    };
    Some((f, last))
}

/// An HTTP/1.1-style request: it named a protocol, and one other than
/// `HTTP/1.0` (compared without case).
pub open spec fn one_one(version: Option<Seq<char>>) -> bool {
    match version {
        Some(v) => v.len() > 0 && !(v.len() == 8 && lower_ascii_seq(v) == seq!['h', 't', 't', 'p', '/', '1', '.', '0']),
        None => false,
    }
}

pub open spec fn lower_ascii(c: char) -> char {
    if 'A' <= c <= 'Z' {
        ((c as u32) + 32) as char
    } else {
        c
    }
}

pub open spec fn lower_ascii_seq(s: Seq<char>) -> Seq<char> {
    Seq::new(s.len(), |i: int| lower_ascii(s[i]))
}

fn lower_char(c: char) -> (r: char)
    ensures
        r == lower_ascii(c),
{
    if 'A' <= c && c <= 'Z' {
        ((c as u32) + 32) as u8 as char
    } else {
        c
    }
}

/// Whether the request's protocol makes it HTTP/1.1-style (which then
/// requires a `Host` header).
pub fn is_one_one(version: Option<&str>) -> (r: bool)
    ensures
        r == one_one(match version {
            Some(v) => Some(v@),
            None => None,
        }),
{
    match version {
        None => false,
        Some(v) => {
            let cs = chars_of(v);
            if cs.len() == 0 {
                return false;
            }
            if cs.len() != 8 {
                assert(lower_ascii_seq(v@).len() != 8);
                return true;
            }
            let target = ['h', 't', 't', 'p', '/', '1', '.', '0'];
            let mut i: usize = 0;
            while i < 8
                invariant
                    cs@.len() == 8,
                    cs@ == v@,
                    version == Some(v),
                    i <= 8,
                    target@ == seq!['h', 't', 't', 'p', '/', '1', '.', '0'],
                    forall|j: int| 0 <= j < i ==> lower_ascii(cs@[j]) == target@[j],
                decreases 8 - i,
            {
                if lower_char(cs[i]) != target[i] {
                    assert(lower_ascii_seq(v@)[i as int] != target@[i as int]);
                    assert(lower_ascii_seq(v@) != seq!['h', 't', 't', 'p', '/', '1', '.', '0']);
                    assert(v@.len() == 8);
                    assert(one_one(Some(v@)));
                    return true;
                }
                i += 1;
            }
            assert(lower_ascii_seq(v@) =~= seq!['h', 't', 't', 'p', '/', '1', '.', '0']);
            false
        },
    }
}

// ---------------------------------------------------------------- the requested file

/// The decoded URL split at its first `?`: the path, and the query if
/// there is one.
pub open spec fn query_split(d: Seq<char>) -> (Seq<char>, Option<Seq<char>>) {
    let q = next_char(d, 0, '?');
    if q < d.len() {
        (d.take(q), Some(d.skip(q + 1)))
    } else {
        (d, None)
    }
}

/// Split a decoded URL into its path and query.
pub fn split_query(decoded: &str) -> (r: (String, Option<String>))
    ensures
        r.0@ == query_split(decoded@).0,
        r.1 is Some <==> query_split(decoded@).1 is Some,
        r.1 is Some ==> r.1.unwrap()@ == query_split(decoded@).1.unwrap(),
{
    let cs = chars_of(decoded);
    let n = cs.len();
    let q = find_char(cs.as_slice(), 0, '?');
    if q < n {
        assert(cs@.subrange(0, q as int) =~= cs@.take(q as int));
        assert(cs@.subrange(q + 1, n as int) =~= cs@.skip(q + 1));
        (string_of_chars(cs.as_slice(), 0, q), Some(string_of_chars(cs.as_slice(), q + 1, n)))
    } else {
        (string_of_chars_all(cs.as_slice()), None)
    }
}

/// `//` starts at `i`.
pub open spec fn double_slash_at(d: Seq<char>, i: int) -> bool {
    0 <= i && i + 1 < d.len() && d[i] == '/' && d[i + 1] == '/'
}

/// How a path that does not normalize is refused: a `//` in it is a bad
/// request, anything else (a climb out of the tree) is not found.
pub open spec fn bad_path_status(decoded: Seq<char>) -> u16 {
    if exists|i: int| #[trigger] double_slash_at(decoded, i) {
        400
    } else {
        404
    }
}

/// Status, title and message for a path that does not normalize.
pub fn refuse_bad_path(decoded: &str) -> (r: (u16, &'static str, &'static str))
    ensures
        r.0 == bad_path_status(decoded@),
        r.0 == 400 ==> r.1@ == "Bad Request"@ && r.2@
            == "Your request has bad syntax or is inherently impossible to satisfy.\n"@,
        r.0 == 404 ==> r.1@ == "Not Found"@ && r.2@
            == "The requested URL '%.80s' was not found on this server.\n"@,
{
    let cs = chars_of(decoded);
    let n = cs.len();
    let mut i: usize = 0;
    while i < n
        invariant
            n == cs@.len(),
            i <= n,
            cs@ == decoded@,
            forall|j: int| 0 <= j < i ==> !#[trigger] double_slash_at(cs@, j),
        decreases n - i,
    {
        if i + 1 < n && cs[i] == '/' && cs[i + 1] == '/' {
            assert(double_slash_at(cs@, i as int));
            return (
                400,
                "Bad Request",
                "Your request has bad syntax or is inherently impossible to satisfy.\n",
            );
        }
        i += 1;
    }
    proof {
        if exists|j: int| #[trigger] double_slash_at(cs@, j) {
            let j = choose|j: int| #[trigger] double_slash_at(cs@, j);
            assert(j < i);
        }
    }
    (404, "Not Found", "The requested URL '%.80s' was not found on this server.\n")
}

/// The file a normalized path names, relative to the served directory:
/// `index.html` for `/`, otherwise the path without its leading `/`.
pub open spec fn relative_file(normalized: Seq<char>) -> Seq<char> {
    if normalized == seq!['/'] {
        "index.html"@
    } else {
        normalized.drop_first()
    }
}

/// The file a normalized path names, relative to the served directory.
pub fn relative_file_path(normalized: &str) -> (r: String)
    requires
        normalized@.len() > 0,
        normalized@[0] == '/',
    ensures
        r@ == relative_file(normalized@),
{
    let cs = chars_of(normalized);
    if cs.len() == 1 {
        assert(cs@ =~= seq!['/']);
        return "index.html".to_owned();
    }
    assert(cs@ != seq!['/']);
    assert(cs@.subrange(1, cs@.len() as int) =~= cs@.drop_first());
    string_of_chars(cs.as_slice(), 1, cs.len())
}

/// Last index below `k` holding `/`, or -1.
pub open spec fn last_slash(s: Seq<char>, k: int) -> int
    decreases k,
{
    if k <= 0 || k > s.len() {
        -1
    } else if s[k - 1] == '/' {
        k - 1
    } else {
        last_slash(s, k - 1)
    }
}

pub proof fn lemma_last_slash_bounds(s: Seq<char>, k: int)
    requires
        0 <= k <= s.len(),
    ensures
        -1 <= last_slash(s, k) < k,
        last_slash(s, k) >= 0 ==> s[last_slash(s, k)] == '/',
    decreases k,
{
    if k > 0 && s[k - 1] != '/' {
        lemma_last_slash_bounds(s, k - 1);
    }
}

/// Whether the CGI pattern takes the path: the path itself, or one of its
/// prefixes ending before a `/` other than the first.
pub open spec fn cgi_selected(p: Seq<u8>, path: Seq<char>) -> bool
    decreases path.len(),
{
    if alt_match(p, encode_utf8(path)) {
        true
    } else {
        let k = last_slash(path, path.len() as int);
        if k <= 0 {
            false
        } else {
            proof {
                lemma_last_slash_bounds(path, path.len() as int);
            }
            cgi_selected(p, path.take(k))
        }
    }
}

/// Whether a request path is a CGI program under `pattern`, trying the
/// path and then each shorter prefix at a `/` (what remains is path info).
pub fn cgi_matches(pattern: &str, orig: &str) -> (r: bool)
    ensures
        r == cgi_selected(crate::text::sb(pattern), orig@),
{
    let cs = chars_of(orig);
    let mut end: usize = cs.len();
    assert(cs@.take(end as int) =~= cs@);
    loop
        invariant
            end <= cs@.len(),
            cs@ == orig@,
            cgi_selected(crate::text::sb(pattern), orig@) == cgi_selected(
                crate::text::sb(pattern),
                cs@.take(end as int),
            ),
        decreases end,
    {
        let prefix = string_of_chars(cs.as_slice(), 0, end);
        assert(cs@.subrange(0, end as int) =~= cs@.take(end as int));
        if match_pattern(pattern, prefix.as_str()) {
            return true;
        }
        let mut k = end;
        while k > 0 && cs[k - 1] != '/'
            invariant
                k <= end <= cs@.len(),
                last_slash(cs@.take(end as int), end as int) == last_slash(cs@.take(end as int), k as int),
            decreases k,
        {
            k -= 1;
        }
        if k == 0 || k - 1 == 0 {
            return false;
        }
        assert(cs@.take(end as int).take(k - 1) =~= cs@.take(k - 1));
        end = k - 1;
    }
}

/// The last path component split off: the path before the last `/` and
/// the component after it; `None` when the last `/` is the first character
/// or there is none.
pub open spec fn split_last_component(p: Seq<char>) -> Option<(Seq<char>, Seq<char>)> {
    let k = last_slash(p, p.len() as int);
    if k <= 0 {
        None
    } else {
        Some((p.take(k), p.skip(k + 1)))
    }
}

/// Split the last component off a path, for path-info extraction.
pub fn pathinfo_step(test_path: &str) -> (r: Option<(String, String)>)
    ensures
        r is Some <==> split_last_component(test_path@) is Some,
        r is Some ==> r.unwrap().0@ == split_last_component(test_path@).unwrap().0
            && r.unwrap().1@ == split_last_component(test_path@).unwrap().1,
{
    let cs = chars_of(test_path);
    let n = cs.len();
    let mut k = n;
    while k > 0 && cs[k - 1] != '/'
        invariant
            k <= n == cs@.len(),
            cs@ == test_path@,
            last_slash(cs@, n as int) == last_slash(cs@, k as int),
        decreases k,
    {
        k -= 1;
    }
    if k <= 1 {
        return None;
    }
    let slash = k - 1;
    assert(cs@.subrange(0, slash as int) =~= cs@.take(slash as int));
    assert(cs@.subrange(slash + 1, n as int) =~= cs@.skip(slash + 1));
    Some((string_of_chars(cs.as_slice(), 0, slash), string_of_chars(cs.as_slice(), slash + 1, n)))
}

/// Path info grows at the front: `/component` before what was split off
/// already.
pub fn prepend_pathinfo(component: &str, pathinfo: &str) -> (r: String)
    ensures
        r@ == seq!['/'] + component@ + pathinfo@,
{
    let mut r = String::new();
    push_char(&mut r, '/');
    r.append(component);
    r.append(pathinfo);
    r
}

/// A deferred CGI POST can run once the whole body has arrived.
pub open spec fn body_complete(content_length: Option<i64>, checked_idx: int, read_idx: int) -> bool {
    match content_length {
        Some(cl) => cl <= 0 || checked_idx + cl <= read_idx,
        None => true,
    }
}

/// Whether the request body that a deferred CGI waits for is complete.
pub fn cgi_body_complete(content_length: Option<i64>, checked_idx: usize, read_idx: usize) -> (r: bool)
    requires
        (content_length matches Some(cl) && cl > 0) ==> checked_idx + content_length.unwrap()
            <= usize::MAX,
    ensures
        r == body_complete(content_length, checked_idx as int, read_idx as int),
{
    match content_length {
        Some(cl) => if cl > 0 {
            checked_idx + (cl as usize) <= read_idx
        } else {
            true
        },
        None => true,
    }
}

// ---------------------------------------------------------------- static files

/// The realm of a `401` answer: the URL's directory without leading `/`.
pub open spec fn auth_realm_of(url: Seq<char>) -> Seq<char> {
    let k = last_slash(url, url.len() as int);
    if k < 0 {
        Seq::empty()
    } else {
        let dir = url.take(k);
        dir.skip(crate::text::next_other(dir, 0, '/'))
    }
}

/// The realm named in the `WWW-Authenticate` header of a `401` answer.
pub fn auth_realm(encoded_url: &str) -> (r: String)
    ensures
        r@ == auth_realm_of(encoded_url@),
{
    let cs = chars_of(encoded_url);
    let n = cs.len();
    let mut k = n;
    while k > 0 && cs[k - 1] != '/'
        invariant
            k <= n == cs@.len(),
            cs@ == encoded_url@,
            last_slash(cs@, n as int) == last_slash(cs@, k as int),
        decreases k,
    {
        k -= 1;
    }
    if k == 0 {
        return String::new();
    }
    let dir = copy_chars(cs.as_slice(), 0, k - 1);
    assert(cs@.subrange(0, k - 1) =~= cs@.take(k - 1));
    let start = crate::text::find_other(dir.as_slice(), 0, '/');
    let r = string_of_chars(dir.as_slice(), start, dir.len());
    assert(dir@.subrange(start as int, dir@.len() as int) =~= dir@.skip(start as int));
    r
}

/// Status and title when the file cannot be examined: not found is 404, a
/// path component over 255 bytes is 500, anything else 403.
pub fn stat_failure(not_found: bool, long_component: bool) -> (r: (u16, &'static str, &'static str))
    ensures
        not_found ==> r.0 == 404 && r.1@ == "Not Found"@ && r.2@
            == "The requested URL '%.80s' was not found on this server.\n"@,
        !not_found && long_component ==> r.0 == 500 && r.1@ == "Internal Error"@ && r.2@
            == "There was an unusual problem serving the requested URL '%.80s'.\n"@,
        !not_found && !long_component ==> r.0 == 403 && r.1@ == "Forbidden"@ && r.2@
            == "The requested URL '%.80s' is not accessible.\n"@,
{
    if not_found {
        (404, "Not Found", "The requested URL '%.80s' was not found on this server.\n")
    } else if long_component {
        (500, "Internal Error", "There was an unusual problem serving the requested URL '%.80s'.\n")
    } else {
        (403, "Forbidden", "The requested URL '%.80s' is not accessible.\n")
    }
}

/// What to do with an existing file before throttling and sending it.
#[derive(Debug, Clone, Copy, PartialEq, Eq)]
pub enum FileGate {
    /// A directory: send its listing.
    Listing,
    /// Not world-readable.
    NotReadable,
    /// World-executable but not a CGI program.
    ExecutableNotCgi,
    /// Path info on a file that is not a CGI program.
    PathInfoNotCgi,
    /// Go on.
    Pass,
}

/// The checks a static file passes in order: directories are listed, the
/// file must be world-readable and not world-executable, and there must be
/// no path info.
pub open spec fn file_gate_of(is_dir: bool, mode: u32, has_path_info: bool) -> FileGate {
    if is_dir {
        FileGate::Listing
    } else if mode & 4 == 0 {
        FileGate::NotReadable
    } else if mode & 1 != 0 {
        FileGate::ExecutableNotCgi
    } else if has_path_info {
        FileGate::PathInfoNotCgi
    } else {
        FileGate::Pass
    }
}

pub fn file_gate(is_dir: bool, mode: u32, has_path_info: bool) -> (r: FileGate)
    ensures
        r == file_gate_of(is_dir, mode, has_path_info),
{
    if is_dir {
        FileGate::Listing
    } else if mode & 4 == 0 {
        FileGate::NotReadable
    } else if mode & 1 != 0 {
        FileGate::ExecutableNotCgi
    } else if has_path_info {
        FileGate::PathInfoNotCgi
    } else {
        FileGate::Pass
    }
}

/// The message of each refusal of the file gate.
pub fn gate_message(g: FileGate) -> (r: &'static str)
    ensures
        g == FileGate::NotReadable ==> r@
            == "The requested URL '%.80s' resolves to a file that is not world-readable.\n"@,
        g == FileGate::ExecutableNotCgi ==> r@
            == "The requested URL '%.80s' resolves to a file which is marked executable but is not a CGI file; retrieving it is forbidden.\n"@,
        g == FileGate::PathInfoNotCgi ==> r@
            == "The requested URL '%.80s' resolves to a file plus CGI-style pathinfo, but the file is not a valid CGI file.\n"@,
{
    match g {
        FileGate::NotReadable => "The requested URL '%.80s' resolves to a file that is not world-readable.\n",
        FileGate::ExecutableNotCgi => "The requested URL '%.80s' resolves to a file which is marked executable but is not a CGI file; retrieving it is forbidden.\n",
        FileGate::PathInfoNotCgi => "The requested URL '%.80s' resolves to a file plus CGI-style pathinfo, but the file is not a valid CGI file.\n",
        _ => "",
    }
}

/// The last byte a range ends at: the end of the file when the request
/// left it open or named a byte past the end.
pub open spec fn range_end(got_range: bool, last: i64, file_size: i64) -> i64 {
    if got_range && (last == -1 || last >= file_size) {
        (file_size - 1) as i64
    } else {
        last
    }
}

pub fn fill_range_end(got_range: bool, last: i64, file_size: i64) -> (r: i64)
    requires
        file_size > i64::MIN,
    ensures
        r == range_end(got_range, last, file_size),
{
    if got_range && (last == -1 || last >= file_size) {
        file_size - 1
    } else {
        last
    }
}

/// An `If-Modified-Since` at or after the file's time answers `304`.
pub fn not_modified(if_modified_since: Option<i64>, mtime: i64) -> (r: bool)
    ensures
        r == (if_modified_since matches Some(t) && t >= mtime),
{
    match if_modified_since {
        Some(t) => t >= mtime,
        None => false,
    }
}

/// The part of the file a range answer sends: bytes `first..=last` when
/// they lie inside the file, the whole file otherwise.
pub open spec fn range_slice(first: i64, last: i64, len: int) -> (int, int) {
    let start = first as usize as int;
    let end = (last as usize) as int + 1;
    if start < len && end <= len {
        (start, end)
    } else {
        (0, len)
    }
}

pub fn body_range(first: i64, last: i64, len: usize) -> (r: (usize, usize))
    requires
        last as usize + 1 <= usize::MAX,
        (first as usize) < len && (last as usize) + 1 <= len ==> first as usize <= (last as usize)
            + 1,
    ensures
        (r.0 as int, r.1 as int) == range_slice(first, last, len as int),
        r.0 <= r.1 <= len,
{
    let start = first as usize;
    let end = (last as usize) + 1;
    if start < len && end <= len {
        (start, end)
    } else {
        (0, len)
    }
}

/// A satisfiable byte range `first..=last` of a `len`-byte body is sent
/// exactly: the slice starts at `first` and ends after `last`, also when
/// `last` is the body's final byte; a range that starts past the body
/// sends the whole body.
pub proof fn law_range_slice_exact(first: i64, last: i64, len: int)
    requires
        0 <= len <= usize::MAX,
    ensures
        0 <= first <= last < len ==> range_slice(first, last, len) == (first as int, last as int + 1),
        0 <= first <= usize::MAX && len <= first ==> range_slice(first, last, len) == (0int, len),
{
}

/// A response is its head followed by its body; HTTP/0.9 gets only the
/// body.
pub fn assemble_response(mime_flag: bool, head: Vec<u8>, body: Vec<u8>) -> (r: Vec<u8>)
    ensures
        r@ == if mime_flag { head@ + body@ } else { body@ },
{
    if mime_flag {
        let mut r = head;
        crate::text::push_all(&mut r, body.as_slice());
        r
    } else {
        body
    }
}

// ---------------------------------------------------------------- header lines

/// A header line carries the header `search` (`Name:`): the line in lower
/// case starts with `search` in lower case, and the line can be cut after as
/// many bytes as `search` has (where it cannot, the line is passed over).
pub open spec fn header_line_matches(line: Seq<char>, search: Seq<char>) -> bool {
    let ll = lowercase_of(line);
    let ls = lowercase_of(search);
    &&& ls.len() <= ll.len()
    &&& ll.take(ls.len() as int) == ls
    &&& is_char_boundary(encode_utf8(line), encode_utf8(search).len() as int)
}

/// The rest of a header line after `search`'s bytes, trimmed.
pub open spec fn header_line_value(line: Seq<char>, search: Seq<char>) -> Seq<char> {
    trim_ws(decode_utf8(encode_utf8(line).skip(encode_utf8(search).len() as int)))
}

pub open spec fn first_header_from(lines: Seq<Seq<char>>, k: int, search: Seq<char>) -> Option<Seq<char>>
    decreases lines.len() - k,
{
    if k < 0 || k >= lines.len() {
        None
    } else if header_line_matches(lines[k], search) {
        Some(header_line_value(lines[k], search))
    } else {
        first_header_from(lines, k + 1, search)
    }
}

/// The value of the header `name` in a block of header lines: that of the
/// first line (of the text as `from_utf8_lossy` reads it) that names it.
pub open spec fn header_in(headers: Seq<u8>, name: Seq<char>) -> Option<Seq<char>> {
    first_header_from(lines_of(utf8_lossy(headers)), 0, name.push(':'))
}

/// The trimmed value of the first header line named `name` (compared
/// without regard to case), `None` when no line names it.
pub fn extract_header(headers: &[u8], name: &str) -> (r: Option<String>)
    ensures
        match r {
            Some(v) => header_in(headers@, name@) == Some(v@),
            None => header_in(headers@, name@) is None,
        },
{
    let text = string_from_lossy(headers);
    let cs = chars_of(text.as_str());
    let pieces = split_chars(cs.as_slice(), '\n');
    let ghost ps = split_on(text@, '\n');
    let ghost lines = lines_of(text@);
    assert(pieces@.map_values(|p: Vec<char>| p@) =~= ps);
    let search = concat3(name, ":", "");
    proof {
        reveal_strlit(":");
        reveal_strlit("");
    }
    assert(search@ =~= name@.push(':'));
    let ss = search.as_str();
    proof {
        lemma_str_bytes(ss);
    }
    let slen = ss.as_bytes().len();
    let low_search = chars_of(lowercase(ss).as_str());
    let n: usize = if pieces.len() > 0 && pieces[pieces.len() - 1].len() == 0 {
        pieces.len() - 1
    } else {
        pieces.len()
    };
    assert(n == lines.len());
    let mut k: usize = 0;
    while k < n
        invariant
            k <= n == lines.len() <= pieces@.len(),
            pieces@.map_values(|p: Vec<char>| p@) == ps,
            lines == lines_of(text@),
            ps == split_on(text@, '\n'),
            search@ == name@.push(':'),
            low_search@ == lowercase_of(search@),
            slen == encode_utf8(search@).len(),
            text@ == utf8_lossy(headers@),
            first_header_from(lines, 0, search@) == first_header_from(lines, k as int, search@),
        decreases n - k,
    {
        let line = line_string(&pieces, k);
        assert(line@ == lines[k as int]);
        let ls = line.as_str();
        proof {
            lemma_str_bytes(ls);
        }
        let low = chars_of(lowercase(ls).as_str());
        if chars_start_with(low.as_slice(), low_search.as_slice()) && ls.is_char_boundary(slen) {
            let (_head, tail) = ls.split_at(slen);
            proof {
                lemma_str_valid(tail);
                assert(tail.spec_bytes() =~= encode_utf8(line@).skip(slen as int));
            }
            let tc = chars_of(tail);
            let v = trim_chars(tc.as_slice());
            let out = string_of_chars(v.as_slice(), 0, v.len());
            assert(out@ =~= v@);
            return Some(out);
        }
        k += 1;
    }
    None
}

// ---------------------------------------------------------------- the request line

/// Where the request line ends: at the first carriage return, or at the
/// end of the buffer.
pub open spec fn request_line_end(buf: Seq<u8>) -> int {
    if find_byte(buf, 13u8) < 0 {
        buf.len() as int
    } else {
        find_byte(buf, 13u8)
    }
}

/// The words of the request line, read as `from_utf8_lossy` reads it.
pub open spec fn request_words(buf: Seq<u8>) -> Seq<Seq<char>> {
    words(utf8_lossy(buf.take(request_line_end(buf))))
}

/// The `i`th word, if there is one.
pub open spec fn word_at(w: Seq<Seq<char>>, i: int) -> Option<Seq<char>> {
    if 0 <= i < w.len() {
        Some(w[i])
    } else {
        None
    }
}

pub open spec fn text_opt(s: Option<String>) -> Option<Seq<char>> {
    match s {
        Some(v) => Some(v@),
        None => None,
    }
}

/// Where the header lines start: after the first newline, or at 0 when
/// there is none.
pub open spec fn header_block_start(buf: Seq<u8>) -> int {
    if find_byte(buf, 10u8) < 0 {
        0
    } else {
        find_byte(buf, 10u8) + 1
    }
}

fn first_byte_index(b: &[u8], c: u8) -> (r: usize)
    ensures
        r <= b@.len(),
        r == (if find_byte(b@, c) < 0 { b@.len() as int } else { find_byte(b@, c) }),
{
    let r = find_byte_from(b, c, 0);
    proof {
        lemma_find_byte(b@, c);
        let f = find_byte(b@, c);
        if f >= 0 {
            assert(b@[f] == c);
        }
        if r < b@.len() {
            assert(b@.contains(c));
        }
    }
    r
}

/// The method, URL and protocol words of a request's first line (up to
/// the first carriage return), where the line has them.
pub fn request_line_words(buf: &[u8]) -> (r: (Option<String>, Option<String>, Option<String>))
    ensures
        text_opt(r.0) == word_at(request_words(buf@), 0),
        text_opt(r.1) == word_at(request_words(buf@), 1),
        text_opt(r.2) == word_at(request_words(buf@), 2),
{
    let end = first_byte_index(buf, 13u8);
    let head = crate::text::slice_range(buf, 0, end);
    assert(head@ =~= buf@.take(request_line_end(buf@)));
    let line = string_from_lossy(head.as_slice());
    let cs = chars_of(line.as_str());
    let w = words_of(cs.as_slice());
    let ghost ws = request_words(buf@);
    let mut out: Vec<Option<String>> = Vec::new();
    let mut i: usize = 0;
    while i < 3
        invariant
            i <= 3,
            out@.len() == i,
            w@.len() == ws.len(),
            forall|j: int| 0 <= j < w@.len() ==> #[trigger] w@[j]@ == ws[j],
            forall|j: int| 0 <= j < i ==> text_opt(#[trigger] out@[j]) == word_at(ws, j),
        decreases 3 - i,
    {
        if i < w.len() {
            let t = string_of_chars(w[i].as_slice(), 0, w[i].len());
            assert(t@ =~= w@[i as int]@);
            out.push(Some(t));
        } else {
            out.push(None);
        }
        i += 1;
    }
    let c = out.pop().unwrap();
    let b = out.pop().unwrap();
    let a = out.pop().unwrap();
    (a, b, c)
}

/// The header lines of a request: the bytes after its first newline.
pub fn header_block(buf: &[u8]) -> (r: Vec<u8>)
    ensures
        r@ == buf@.skip(header_block_start(buf@)),
{
    let nl = first_byte_index(buf, 10u8);
    let start: usize = if nl < buf.len() { nl + 1 } else { 0 };
    proof {
        lemma_find_byte(buf@, 10u8);
    }
    let r = crate::text::slice_range(buf, start, buf.len());
    assert(r@ =~= buf@.skip(header_block_start(buf@)));
    r
}

// ---------------------------------------------------------------- early refusals

/// The longest encoded URL served.
pub const MAX_URL_LENGTH: usize = 10000;

/// How a request is refused before its path is looked at, in the order the
/// checks are made: an HTTP/1.1 request without `Host` is a bad request, an
/// unknown method is not implemented, a URL over the limit is an internal
/// error. Each comes with its title and message form (whose `%.80s` takes
/// the request's version, the method word, and the URL respectively).
pub fn early_refusal(one_one: bool, host_empty: bool, method_unknown: bool, url_len: usize) -> (r: Option<(u16, &'static str, &'static str)>)
    ensures
        one_one && host_empty ==> (r matches Some(t) && t.0 == 400 && t.1@ == "Bad Request"@
            && t.2@ == "Your request has bad syntax or is inherently impossible to satisfy.\n"@),
        !(one_one && host_empty) && method_unknown ==> (r matches Some(t) && t.0 == 501
            && t.1@ == "Not Implemented"@
            && t.2@ == "The requested method '%.80s' is not implemented by this server.\n"@),
        !(one_one && host_empty) && !method_unknown && url_len > MAX_URL_LENGTH ==> (r matches Some(t)
            && t.0 == 500 && t.1@ == "Internal Error"@
            && t.2@ == "There was an unusual problem serving the requested URL '%.80s'.\n"@),
        !(one_one && host_empty) && !method_unknown && url_len <= MAX_URL_LENGTH ==> r is None,
{
    if one_one && host_empty {
        Some((400, "Bad Request", "Your request has bad syntax or is inherently impossible to satisfy.\n"))
    } else if method_unknown {
        Some((501, "Not Implemented", "The requested method '%.80s' is not implemented by this server.\n"))
    } else if url_len > MAX_URL_LENGTH {
        Some((500, "Internal Error", "There was an unusual problem serving the requested URL '%.80s'.\n"))
    } else {
        None
    }
}

/// The path a request names under virtual hosting: `/`, the host in lower
/// case, then the path.
pub fn vhost_filename(host: &str, orig: &str) -> (r: String)
    ensures
        r@ == seq!['/'] + lowercase_of(host@) + orig@,
{
    let low = lowercase(host);
    let r = concat3("/", low.as_str(), orig);
    proof {
        reveal_strlit("/");
    }
    r
}

} // verus!
