//! Small decisions of the connection loop: the path that throttle rules see,
//! where a response's header block ends, what the access log counts, and the
//! status code a response carries.

use vstd::prelude::*;
use vstd::string::*;
use vstd::utf8::*;
use crate::text::{
    sb, stb, dec, push_dec, ascii_string, ascii_chars, lemma_dec_ascii, occurs_at, next_ws,
    is_first_occurrence, contains_seq, find_seq, slice_range, string_from_utf8, chars_of,
    words_of, words, parse_chars_spec, lemma_str_valid, lemma_ascii_literal, check_utf8,
    string_from_lossy, utf8_lossy, split_on, split_chars, next_char, find_char, trim_ws,
    trim_chars, lower_chars, chars_equal, copy_chars, parse_int_chars, string_of_chars,
};
use crate::response::{
    ResponseBuilder, error_page, error_page_bytes, error_page_cut_ok, opt_bytes, response_bytes,
    ARG_PLACEHOLDER,
};

verus! {

broadcast use vstd::utf8::group_utf8_lib;

/// The request path without one leading `/`, as throttle patterns are
/// stored without it.
pub open spec fn throttle_path(p: Seq<char>) -> Seq<char> {
    if p.len() > 0 && p[0] == '/' {
        p.drop_first()
    } else {
        p
    }
}

/// The path handed to throttle matching: one leading `/` removed.
pub fn throttle_match_path(path: &str) -> (r: &str)
    ensures
        r@ == throttle_path(path@),
{
    let n = path.unicode_len();
    if n > 0 && path.get_char(0) == '/' {
        path.substring_char(1, n)
    } else {
        assert(path@.subrange(0, n as int) =~= path@);
        path
    }
}

/// Offset just past the header terminator: the first `\r\n\r\n`, or else
/// the first `\n\n`.
pub open spec fn header_end(b: Seq<u8>) -> Option<int> {
    if contains_seq(b, seq![13u8, 10, 13, 10]) {
        Some((choose|i: int| is_first_occurrence(b, seq![13u8, 10, 13, 10], i)) + 4)
    } else if contains_seq(b, seq![10u8, 10]) {
        Some((choose|i: int| is_first_occurrence(b, seq![10u8, 10], i)) + 2)
    } else {
        None
    }
}

proof fn lemma_first_occurrence_unique(b: Seq<u8>, pat: Seq<u8>, i: int, j: int)
    requires
        is_first_occurrence(b, pat, i),
        is_first_occurrence(b, pat, j),
    ensures
        i == j,
{
    if i < j {
        assert(!occurs_at(b, pat, i));
    } else if j < i {
        assert(!occurs_at(b, pat, j));
    }
}

/// Offset of the first byte after the blank line that ends the headers.
pub fn header_end_offset(response: &[u8]) -> (r: Option<usize>)
    ensures
        r matches Some(v) ==> header_end(response@) == Some(v as int),
        r is None ==> header_end(response@) is None,
{
    let crlf2: [u8; 4] = [13u8, 10, 13, 10];
    let lf2: [u8; 2] = [10u8, 10];
    assert(crlf2@ =~= seq![13u8, 10, 13, 10]);
    assert(lf2@ =~= seq![10u8, 10]);
    match find_seq(response, crlf2.as_slice()) {
        Some(pos) => {
            proof {
                assert(occurs_at(response@, crlf2@, pos as int));
                assert(response@.len() == response.len());
                let c = choose|i: int| is_first_occurrence(response@, seq![13u8, 10, 13, 10], i);
                lemma_first_occurrence_unique(response@, crlf2@, c, pos as int);
            }
            return Some(pos + 4);
        },
        None => {},
    }
    match find_seq(response, lf2.as_slice()) {
        Some(pos) => {
            proof {
                assert(occurs_at(response@, lf2@, pos as int));
                assert(response@.len() == response.len());
                let c = choose|i: int| is_first_occurrence(response@, seq![10u8, 10], i);
                lemma_first_occurrence_unique(response@, lf2@, c, pos as int);
            }
            Some(pos + 2)
        },
        None => None,
    }
}

/// Bytes reported in the access log: the body bytes sent, the header bytes
/// left out, never below zero.
pub fn entity_bytes_sent(bytes_sent: i64, header_len: usize) -> (r: i64)
    requires
        bytes_sent - header_len >= i64::MIN,
        header_len <= i64::MAX,
    ensures
        r == if bytes_sent - header_len > 0 { bytes_sent - header_len } else { 0 },
{
    let d = bytes_sent - header_len as i64;
    if d > 0 {
        d
    } else {
        0
    }
}

/// The status code of a response: the second word of its first line (up to
/// the first `\r\n`), when that line is UTF-8 and its first word starts
/// with `HTTP/`.
pub open spec fn response_status(b: Seq<u8>) -> Option<int> {
    let crlf = seq![13u8, 10];
    if !contains_seq(b, crlf) {
        None
    } else {
        let e = choose|i: int| is_first_occurrence(b, crlf, i);
        let line = b.subrange(0, e);
        if !valid_utf8(line) {
            None
        } else {
            let w = words(decode_utf8(line));
            if w.len() < 2 || !(w[0].len() >= 5 && w[0].take(5) == seq!['H', 'T', 'T', 'P', '/']) {
                None
            } else {
                parse_chars_spec(w[1], 0, u16::MAX as int)
            }
        }
    }
}

/// The status code on the first line of a response.
pub fn status_code_from_response(response: &[u8]) -> (r: Option<u16>)
    ensures
        r matches Some(v) ==> response_status(response@) == Some(v as int),
        r is None ==> response_status(response@) is None,
{
    let crlf: [u8; 2] = [13u8, 10];
    assert(crlf@ =~= seq![13u8, 10]);
    let end = match find_seq(response, crlf.as_slice()) {
        Some(pos) => pos,
        None => return None,
    };
    proof {
        assert(occurs_at(response@, crlf@, end as int));
        let c = choose|i: int| is_first_occurrence(response@, seq![13u8, 10], i);
        lemma_first_occurrence_unique(response@, crlf@, c, end as int);
    }
    let line = slice_range(response, 0, end);
    if !check_utf8(line.as_slice()) {
        return None;
    }
    let text = string_from_utf8(line.as_slice());
    let cs = chars_of(text.as_str());
    let parts = words_of(cs.as_slice());
    if parts.len() < 2 {
        return None;
    }
    let first = &parts[0];
    if !(first.len() >= 5 && first[0] == 'H' && first[1] == 'T' && first[2] == 'T' && first[3]
        == 'P' && first[4] == '/') {
        proof {
            if first@.len() >= 5 && first@.take(5) == seq!['H', 'T', 'T', 'P', '/'] {
                assert(first@.take(5)[0] == 'H');
                assert(first@.take(5)[4] == '/');
            }
        }
        return None;
    }
    assert(first@.take(5) =~= seq!['H', 'T', 'T', 'P', '/']);
    match crate::text::parse_int_chars(parts[1].as_slice(), 0, 0xffff) {
        Some(v) => Some(v as u16),
        None => None,
    }
}

/// The message of the generic bad-request page.
pub const BAD_REQUEST_FORM: &'static str =
    "Your request has bad syntax or is inherently impossible to satisfy.\n";

/// The bytes of a complete error response: status line, `Content-Type` and
/// `Content-Length` headers, and the error page as the body.
pub open spec fn error_response_bytes(
    code: u16,
    text: Seq<u8>,
    extra: Seq<u8>,
    user_agent: Option<Seq<u8>>,
) -> Seq<u8> {
    let body = error_page_bytes(code, text, sb(BAD_REQUEST_FORM), extra, user_agent);
    response_bytes(
        code,
        text,
        seq![(sb("Content-Type"), sb("text/html")), (sb("Content-Length"), dec(body.len()))],
        body,
    )
}

proof fn lemma_form_has_no_placeholder(arg: Seq<u8>)
    ensures
        error_page_cut_ok(sb(BAD_REQUEST_FORM), arg),
{
    reveal_strlit("Your request has bad syntax or is inherently impossible to satisfy.\n");
    reveal_strlit("%.80s");
    let f = sb(BAD_REQUEST_FORM);
    let p = sb(ARG_PLACEHOLDER);
    lemma_ascii_literal(BAD_REQUEST_FORM);
    lemma_ascii_literal(ARG_PLACEHOLDER);
    assert(p[0] == 37u8);
    assert forall|i: int| 0 <= i < f.len() implies #[trigger] f[i] != 37u8 by {}
    if contains_seq(f, p) {
        let i = choose|i: int| occurs_at(f, p, i);
        assert(f.subrange(i, i + p.len())[0] == p[0]);
    }
}

fn respond(status_code: u16, status_text: &str, body: Vec<u8>) -> (r: Vec<u8>)
    ensures
        r@ == response_bytes(
            status_code,
            sb(status_text),
            seq![(sb("Content-Type"), sb("text/html")), (sb("Content-Length"), dec(body@.len()))],
            body@,
        ),
{
    let mut len_text: Vec<u8> = Vec::new();
    push_dec(&mut len_text, body.len() as u64);
    proof {
        lemma_dec_ascii(body@.len());
    }
    let len_string = ascii_string(len_text.as_slice());
    let ghost n = body@.len();
    let ghost content = body@;
    let b0 = ResponseBuilder::new();
    let b1 = b0.status(status_code, status_text);
    let b2 = b1.header("Content-Type", "text/html");
    let b3 = b2.header("Content-Length", len_string.as_str());
    assert(b3.header_list() =~= seq![(sb("Content-Type"), sb("text/html")), (sb("Content-Length"), dec(n))]);
    let b4 = b3.body(body);
    b4.build()
}

/// A complete HTTP error response with the generic bad-request page.
pub fn build_error_response(
    status_code: u16,
    status_text: &str,
    extra: &str,
    user_agent: Option<&str>,
) -> (r: Vec<u8>)
    ensures
        r@ == error_response_bytes(status_code, sb(status_text), sb(extra), opt_bytes(user_agent)),
{
    proof {
        lemma_form_has_no_placeholder(sb(extra));
    }
    let body = error_page(status_code, status_text, BAD_REQUEST_FORM, extra, user_agent);
    respond(status_code, status_text, body)
}

// ---------------------------------------------------------------- CGI status

/// The header block of CGI output: the bytes before the first `\r\n\r\n`,
/// or else before the first `\n\n`; `None` when there is no blank line.
pub open spec fn cgi_header_block(b: Seq<u8>) -> Option<Seq<u8>> {
    if contains_seq(b, seq![13u8, 10, 13, 10]) {
        Some(b.take(choose|i: int| is_first_occurrence(b, seq![13u8, 10, 13, 10], i)))
    } else if contains_seq(b, seq![10u8, 10]) {
        Some(b.take(choose|i: int| is_first_occurrence(b, seq![10u8, 10], i)))
    } else {
        None
    }
}

/// The leading ASCII digits of a text.
pub open spec fn leading_digits(s: Seq<char>) -> Seq<char>
    decreases s.len(),
{
    if s.len() > 0 && '0' <= s[0] <= '9' {
        seq![s[0]] + leading_digits(s.drop_first())
    } else {
        Seq::empty()
    }
}

/// The status after the header lines `lines[k..]`, from the status and
/// whether it was set so far: a `Status:` line with a number sets it (a
/// later one wins); a `Location:` line sets 302 when nothing set it yet.
/// Header names are trimmed and matched without regard to ASCII case.
pub open spec fn cgi_status_from(lines: Seq<Seq<char>>, k: int, status: u16, set: bool) -> u16
    decreases lines.len() - k,
{
    if k < 0 || k >= lines.len() {
        status
    } else {
        let line = lines[k];
        let c = next_char(line, 0, ':');
        if c >= line.len() {
            cgi_status_from(lines, k + 1, status, set)
        } else {
            let name = lower_chars(trim_ws(line.take(c)));
            if name == "status"@ {
                match parse_chars_spec(leading_digits(trim_ws(line.skip(c + 1))), 0, 0xffff) {
                    Some(code) => cgi_status_from(lines, k + 1, code as u16, true),
                    None => cgi_status_from(lines, k + 1, status, set),
                }
            } else if !set && name == "location"@ {
                cgi_status_from(lines, k + 1, 302, true)
            } else {
                cgi_status_from(lines, k + 1, status, set)
            }
        }
    }
}

/// The code of a leading status line `HTTP/<version> <code> ...`: the
/// digits after the first whitespace (leading whitespace skipped), when
/// there are any and they fit a `u16`.
pub open spec fn status_line_code(line: Seq<char>) -> Option<int> {
    if line.len() >= 5 && line.take(5) == "HTTP/"@ {
        parse_chars_spec(leading_digits(trim_ws(line.skip(next_ws(line, 0)))), 0, 0xffff)
    } else {
        None
    }
}

/// The status that CGI headers (as text) give: the code of a leading
/// `HTTP/` status line; else 200 unless a `Status:` or `Location:` line
/// says otherwise.
pub open spec fn cgi_headers_status(text: Seq<char>) -> u16 {
    let ls = split_on(text, '\n');
    match (if ls.len() > 0 { status_line_code(ls[0]) } else { None }) {
        Some(c) => c as u16,
        None => cgi_status_from(ls, 0, 200, false),
    }
}

/// The title of a status as the CGI output path reports it.
pub open spec fn cgi_title(status: u16) -> Seq<char> {
    if status == 200 {
        "OK"@
    } else if status == 302 {
        "Found"@
    } else if status == 304 {
        "Not Modified"@
    } else if status == 400 {
        "Bad Request"@
    } else if status == 401 {
        "Unauthorized"@
    } else if status == 403 {
        "Forbidden"@
    } else if status == 404 {
        "Not Found"@
    } else if status == 408 {
        "Request Timeout"@
    } else if status == 500 {
        "Internal Error"@
    } else if status == 501 {
        "Not Implemented"@
    } else if status == 503 {
        "Service Unavailable"@
    } else {
        "Something"@
    }
}

fn cgi_title_text(status: u16) -> (r: &'static str)
    ensures
        r@ == cgi_title(status),
{
    match status {
        200 => "OK",
        302 => "Found",
        304 => "Not Modified",
        400 => "Bad Request",
        401 => "Unauthorized",
        403 => "Forbidden",
        404 => "Not Found",
        408 => "Request Timeout",
        500 => "Internal Error",
        501 => "Not Implemented",
        503 => "Service Unavailable",
        _ => "Something",
    }
}

fn digits_prefix(cs: &[char]) -> (r: Vec<char>)
    ensures
        r@ == leading_digits(cs@),
{
    let mut k: usize = 0;
    assert(cs@.skip(0) =~= cs@);
    assert(cs@.take(0) + leading_digits(cs@) =~= leading_digits(cs@));
    while k < cs.len() && '0' <= cs[k] && cs[k] <= '9'
        invariant
            k <= cs@.len(),
            leading_digits(cs@) == cs@.take(k as int) + leading_digits(cs@.skip(k as int)),
        decreases cs@.len() - k,
    {
        assert(cs@.skip(k as int)[0] == cs@[k as int]);
        assert(cs@.skip(k as int).drop_first() =~= cs@.skip(k + 1));
        assert(cs@.take(k + 1) =~= cs@.take(k as int) + seq![cs@[k as int]]);
        k += 1;
    }
    let r = copy_chars(cs, 0, k);
    proof {
        if k < cs@.len() {
            assert(cs@.skip(k as int)[0] == cs@[k as int]);
        } else {
            assert(cs@.skip(k as int) =~= Seq::<char>::empty());
        }
        assert(leading_digits(cs@.skip(k as int)) =~= Seq::<char>::empty());
        assert(r@ =~= cs@.take(k as int));
    }
    r
}

/// The code of a leading `HTTP/` status line, if it has one.
fn status_line_value(line: &[char]) -> (r: Option<u16>)
    ensures
        match status_line_code(line@) {
            Some(c) => r == Some(c as u16),
            None => r is None,
        },
{
    if line.len() < 5 || !(line[0] == 'H' && line[1] == 'T' && line[2] == 'T' && line[3] == 'P' && line[4] == '/') {
        proof {
            reveal_strlit("HTTP/");
            if line@.len() >= 5 && line@.take(5) == "HTTP/"@ {
                assert(line@.take(5)[0] == 'H' && line@.take(5)[1] == 'T' && line@.take(5)[2] == 'T'
                    && line@.take(5)[3] == 'P' && line@.take(5)[4] == '/');
            }
        }
        return None;
    }
    proof {
        reveal_strlit("HTTP/");
        assert(line@.take(5) =~= "HTTP/"@);
    }
    let w = crate::text::find_ws(line, 0);
    let rest = copy_chars(line, w, line.len());
    assert(rest@ =~= line@.skip(w as int));
    let t = trim_chars(rest.as_slice());
    let d = digits_prefix(t.as_slice());
    match parse_int_chars(d.as_slice(), 0, 0xffff) {
        Some(v) => Some(v as u16),
        None => None,
    }
}

/// The status and title that CGI headers (as text) give: the code of a
/// leading `HTTP/` status line; else 200 unless a `Status:` or `Location:`
/// line says otherwise.
pub fn cgi_status_from_headers(headers: &str) -> (r: (u16, String))
    ensures
        r.0 == cgi_headers_status(headers@),
        r.1@ == cgi_title(r.0),
{
    let cs = chars_of(headers);
    let lines = split_chars(cs.as_slice(), '\n');
    let ghost ls = split_on(headers@, '\n');
    if lines.len() > 0 {
        assert(lines@[0]@ == ls[0]);
        match status_line_value(lines[0].as_slice()) {
            Some(code) => {
                return (code, cgi_title_text(code).to_owned());
            },
            None => {},
        }
    }
    let mut status: u16 = 200;
    let mut set = false;
    let mut k: usize = 0;
    while k < lines.len()
        invariant
            k <= lines@.len(),
            lines@.len() == ls.len(),
            forall|i: int| 0 <= i < lines@.len() ==> #[trigger] lines@[i]@ == ls[i],
            cgi_status_from(ls, 0, 200, false) == cgi_status_from(ls, k as int, status, set),
        decreases lines@.len() - k,
    {
        let line = &lines[k];
        assert(line@ == ls[k as int]);
        let c = find_char(line.as_slice(), 0, ':');
        if c < line.len() {
            let name_part = copy_chars(line.as_slice(), 0, c);
            assert(name_part@ =~= line@.take(c as int));
            let trimmed = trim_chars(name_part.as_slice());
            let name_text = string_of_chars(trimmed.as_slice(), 0, trimmed.len());
            assert(name_text@ =~= trimmed@);
            let name = crate::text::lowercase_chars(name_text.as_str());
            if chars_equal(name.as_slice(), "status") {
                let value_part = copy_chars(line.as_slice(), c + 1, line.len());
                assert(value_part@ =~= line@.skip(c + 1));
                let value = trim_chars(value_part.as_slice());
                let digits = digits_prefix(value.as_slice());
                match parse_int_chars(digits.as_slice(), 0, 0xffff) {
                    Some(code) => {
                        status = code as u16;
                        set = true;
                    },
                    None => {},
                }
            } else if !set && chars_equal(name.as_slice(), "location") {
                status = 302;
                set = true;
            }
        }
        k += 1;
    }
    (status, cgi_title_text(status).to_owned())
}

/// The status and title of a CGI program's output: from its header block
/// (read as lossy UTF-8), or `200 OK` when the output has no blank line
/// yet.
pub fn extract_cgi_status(output: &[u8]) -> (r: (u16, String))
    ensures
        match cgi_header_block(output@) {
            Some(h) => r.0 == cgi_headers_status(utf8_lossy(h)),
            None => r.0 == 200,
        },
        r.1@ == cgi_title(r.0),
{
    let crlf2: [u8; 4] = [13u8, 10, 13, 10];
    let lf2: [u8; 2] = [10u8, 10];
    assert(crlf2@ =~= seq![13u8, 10, 13, 10]);
    assert(lf2@ =~= seq![10u8, 10]);
    let end = match find_seq(output, crlf2.as_slice()) {
        Some(pos) => {
            proof {
                let c = choose|i: int| is_first_occurrence(output@, seq![13u8, 10, 13, 10], i);
                lemma_first_occurrence_unique(output@, crlf2@, c, pos as int);
            }
            pos
        },
        None => match find_seq(output, lf2.as_slice()) {
            Some(pos) => {
                proof {
                    let c = choose|i: int| is_first_occurrence(output@, seq![10u8, 10], i);
                    lemma_first_occurrence_unique(output@, lf2@, c, pos as int);
                }
                pos
            },
            None => {
                return (200, "OK".to_owned());
            },
        },
    };
    let head = slice_range(output, 0, end);
    assert(head@ =~= output@.take(end as int));
    let text = string_from_lossy(head.as_slice());
    cgi_status_from_headers(text.as_str())
}

/// The status written to the access log: the one recorded for the
/// connection, or else the one on the response's first line, or 0.
pub fn logged_status_code(status_code: u16, response: &[u8]) -> (r: u16)
    ensures
        status_code > 0 ==> r == status_code,
        status_code == 0 ==> r == match response_status(response@) {
            Some(v) => v as u16,
            None => 0u16,
        },
{
    if status_code > 0 {
        return status_code;
    }
    match status_code_from_response(response) {
        Some(v) => v,
        None => 0,
    }
}

/// The status a CGI program's output gives (see `extract_cgi_status`).
pub open spec fn cgi_output_status(output: Seq<u8>) -> u16 {
    match cgi_header_block(output) {
        Some(h) => cgi_headers_status(utf8_lossy(h)),
        None => 200,
    }
}

/// What is sent for a CGI program's output: a non-parsed-header script's
/// output as it is, any other's after an `HTTP/1.0` status line for the
/// status its headers give.
pub open spec fn cgi_response_bytes(is_nph: bool, output: Seq<u8>) -> Seq<u8> {
    if is_nph {
        output
    } else {
        let code = cgi_output_status(output);
        sb("HTTP/1.0 ") + dec(code as nat) + sb(" ") + encode_utf8(cgi_title(code)) + sb("\r\n") + output
    }
}

/// The response for a CGI program's output.
pub fn cgi_response(is_nph: bool, output: Vec<u8>) -> (r: Vec<u8>)
    ensures
        r@ == cgi_response_bytes(is_nph, output@),
{
    if is_nph {
        return output;
    }
    let (code, title) = extract_cgi_status(output.as_slice());
    let mut out: Vec<u8> = Vec::new();
    crate::text::push_str(&mut out, "HTTP/1.0 ");
    push_dec(&mut out, code as u64);
    crate::text::push_str(&mut out, " ");
    let t = title.as_str();
    proof {
        crate::text::lemma_str_bytes(t);
    }
    crate::text::push_str(&mut out, t);
    crate::text::push_str(&mut out, "\r\n");
    crate::text::push_all(&mut out, output.as_slice());
    assert(out@ =~= cgi_response_bytes(is_nph, output@));
    out
}

} // verus!
