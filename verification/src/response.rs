//! Building HTTP responses: the status line and header block of a response,
//! and the HTML error page that the server sends for a failed request.

use vstd::prelude::*;
use vstd::utf8::*;
use crate::text::{
    sb, stb, dec, push_str, push_dec, push_all, string_from_utf8, flat_map_bytes, ascii_escape,
    lemma_flat_map_valid, lemma_str_valid, contains_seq, occurs_at, is_first_occurrence, find_seq, replace_all,
    replace_all_exec, slice_range, all_ascii, dec_int, push_dec_i64, starts_with,
};
use crate::tdate::{format_http_date, http_date_text, last_formattable};

verus! {

broadcast use vstd::utf8::group_utf8_lib;

/// Server version string that appears in the `Server:` header and error pages.
pub const SERVER_SOFTWARE: &'static str = "sthttpd/2.27.0 03oct2014";

/// Server address for error page footer links.
pub const SERVER_ADDRESS: &'static str = "http://localhost";

/// Placeholder in an error form that takes the (escaped, truncated) argument.
pub const ARG_PLACEHOLDER: &'static str = "%.80s";

/// Longest argument text that an error page shows.
pub const ARG_LIMIT: usize = 80;

pub const PAGE_HEAD_1: &'static str = "<HTML>\n<HEAD><TITLE>";
pub const PAGE_HEAD_2: &'static str = "</TITLE></HEAD>\n<BODY BGCOLOR=\"#cc9999\" TEXT=\"#000000\" LINK=\"#2020ff\" VLINK=\"#4040cc\">\n<H2>";
pub const PAGE_HEAD_3: &'static str = "</H2>\n";
pub const MSIE_OPEN: &'static str = "<!--\n";
pub const MSIE_LINE: &'static str = "Padding so that MSIE deigns to show this error instead of its own canned one.\n";
pub const MSIE_CLOSE: &'static str = "-->\n";
pub const MSIE_MARK: &'static str = "MSIE";
pub const PAGE_TAIL_1: &'static str = "<HR>\n<ADDRESS><A HREF=\"";
pub const PAGE_TAIL_2: &'static str = "\">";
pub const PAGE_TAIL_3: &'static str = "</A></ADDRESS>\n</BODY>\n</HTML>\n";

// ---------------------------------------------------------------- model

/// One `name: value` header line.
pub open spec fn header_line(name: Seq<u8>, value: Seq<u8>) -> Seq<u8> {
    name + sb(": ") + value + sb("\r\n")
}

/// The header lines of a list of headers, in order.
pub open spec fn header_block(h: Seq<(Seq<u8>, Seq<u8>)>) -> Seq<u8>
    decreases h.len(),
{
    if h.len() == 0 {
        Seq::empty()
    } else {
        header_block(h.drop_last()) + header_line(h.last().0, h.last().1)
    }
}

/// The bytes of a complete response: status line, headers, blank line, body.
pub open spec fn response_bytes(
    code: u16,
    reason: Seq<u8>,
    headers: Seq<(Seq<u8>, Seq<u8>)>,
    body: Seq<u8>,
) -> Seq<u8> {
    sb("HTTP/1.0 ") + dec(code as nat) + sb(" ") + reason + sb("\r\n") + header_block(headers)
        + sb("\r\n") + body
}

/// HTTP response builder.
pub struct ResponseBuilder {
    status_code: u16,
    status_text: String,
    headers: Vec<(String, String)>,
    body: Vec<u8>,
}

impl ResponseBuilder {
    /// The status code the response will carry.
    pub closed spec fn code(&self) -> u16 {
        self.status_code
    }

    /// The bytes of the reason phrase.
    pub closed spec fn reason(&self) -> Seq<u8> {
        stb(self.status_text)
    }

    /// The headers, as byte strings, in the order they were added.
    pub closed spec fn header_list(&self) -> Seq<(Seq<u8>, Seq<u8>)> {
        self.headers@.map_values(|p: (String, String)| (stb(p.0), stb(p.1)))
    }

    /// The body bytes.
    pub closed spec fn content(&self) -> Seq<u8> {
        self.body@
    }

    pub fn new() -> (r: Self)
        ensures
            r.code() == 200,
            r.reason() == sb("OK"),
            r.header_list() == Seq::<(Seq<u8>, Seq<u8>)>::empty(),
            r.content() == Seq::<u8>::empty(),
    {
        let r = ResponseBuilder {
            status_code: 200,
            status_text: "OK".to_owned(),
            headers: Vec::new(),
            body: Vec::new(),
        };
        assert(r.header_list() =~= Seq::<(Seq<u8>, Seq<u8>)>::empty());
        r
    }

    pub fn status(self, code: u16, text: &str) -> (r: Self)
        ensures
            r.code() == code,
            r.reason() == sb(text),
            r.header_list() == self.header_list(),
            r.content() == self.content(),
    {
        let mut s = self;
        s.status_code = code;
        s.status_text = text.to_owned();
        s
    }

    /// Add a response header. Order is preserved.
    pub fn header(self, name: &str, value: &str) -> (r: Self)
        ensures
            r.code() == self.code(),
            r.reason() == self.reason(),
            r.header_list() == self.header_list().push((sb(name), sb(value))),
            r.content() == self.content(),
    {
        let mut s = self;
        s.headers.push((name.to_owned(), value.to_owned()));
        assert(s.header_list() =~= self.header_list().push((sb(name), sb(value))));
        s
    }

    /// Set the response body.
    pub fn body(self, body: Vec<u8>) -> (r: Self)
        ensures
            r.code() == self.code(),
            r.reason() == self.reason(),
            r.header_list() == self.header_list(),
            r.content() == body@,
    {
        let mut s = self;
        s.body = body;
        s
    }

    /// Build the complete response as bytes.
    pub fn build(self) -> (r: Vec<u8>)
        ensures
            r@ == response_bytes(self.code(), self.reason(), self.header_list(), self.content()),
    {
        let mut out: Vec<u8> = Vec::new();
        push_str(&mut out, "HTTP/1.0 ");
        push_dec(&mut out, self.status_code as u64);
        push_str(&mut out, " ");
        push_str(&mut out, self.status_text.as_str());
        push_str(&mut out, "\r\n");
        let ghost start = out@;
        let mut i: usize = 0;
        while i < self.headers.len()
            invariant
                i <= self.headers@.len(),
                out@ == start + header_block(self.header_list().subrange(0, i as int)),
            decreases self.headers@.len() - i,
        {
            let (name, value) = &self.headers[i];
            push_str(&mut out, name.as_str());
            push_str(&mut out, ": ");
            push_str(&mut out, value.as_str());
            push_str(&mut out, "\r\n");
            proof {
                let h = self.header_list().subrange(0, i + 1);
                assert(h.drop_last() =~= self.header_list().subrange(0, i as int));
                assert(out@ =~= start + header_block(h));
            }
            i += 1;
        }
        assert(self.header_list().subrange(0, i as int) =~= self.header_list());
        push_str(&mut out, "\r\n");
        push_all(&mut out, self.body.as_slice());
        out
    }
}

impl Default for ResponseBuilder {
    fn default() -> (r: Self)
        ensures
            r.code() == 200,
            r.reason() == sb("OK"),
            r.header_list() == Seq::<(Seq<u8>, Seq<u8>)>::empty(),
            r.content() == Seq::<u8>::empty(),
    {
        Self::new()
    }
}

// ---------------------------------------------------------------- escaping

/// A call on a response builder, with its arguments as bytes.
pub enum BuilderCall {
    Status(u16, Seq<u8>),
    Header(Seq<u8>, Seq<u8>),
    Body(Seq<u8>),
}

/// A builder's contents (status code, reason, headers in order, body)
/// after one call, as each method's contract states it.
pub open spec fn after_call(
    s: (u16, Seq<u8>, Seq<(Seq<u8>, Seq<u8>)>, Seq<u8>),
    c: BuilderCall,
) -> (u16, Seq<u8>, Seq<(Seq<u8>, Seq<u8>)>, Seq<u8>) {
    match c {
        BuilderCall::Status(code, text) => (code, text, s.2, s.3),
        BuilderCall::Header(name, value) => (s.0, s.1, s.2.push((name, value)), s.3),
        BuilderCall::Body(body) => (s.0, s.1, s.2, body),
    }
}

/// The contents of a new builder after a sequence of calls.
pub open spec fn after_calls(calls: Seq<BuilderCall>) -> (u16, Seq<u8>, Seq<(Seq<u8>, Seq<u8>)>, Seq<u8>)
    decreases calls.len(),
{
    if calls.len() == 0 {
        (200, sb("OK"), Seq::empty(), Seq::empty())
    } else {
        after_call(after_calls(calls.drop_last()), calls.last())
    }
}

/// The status of the last `status` call, or `200 OK`.
pub open spec fn last_status(calls: Seq<BuilderCall>) -> (u16, Seq<u8>)
    decreases calls.len(),
{
    if calls.len() == 0 {
        (200, sb("OK"))
    } else {
        match calls.last() {
            BuilderCall::Status(code, text) => (code, text),
            _ => last_status(calls.drop_last()),
        }
    }
}

/// The headers of all `header` calls, in call order, duplicates kept.
pub open spec fn headers_added(calls: Seq<BuilderCall>) -> Seq<(Seq<u8>, Seq<u8>)>
    decreases calls.len(),
{
    if calls.len() == 0 {
        Seq::empty()
    } else {
        match calls.last() {
            BuilderCall::Header(name, value) => headers_added(calls.drop_last()).push((name, value)),
            _ => headers_added(calls.drop_last()),
        }
    }
}

/// The body of the last `body` call, or empty.
pub open spec fn last_body(calls: Seq<BuilderCall>) -> Seq<u8>
    decreases calls.len(),
{
    if calls.len() == 0 {
        Seq::empty()
    } else {
        match calls.last() {
            BuilderCall::Body(body) => body,
            _ => last_body(calls.drop_last()),
        }
    }
}

/// Law: whatever sequence of calls is made on a new builder, the last
/// `status` wins (default `200 OK`), every header appears once per `header`
/// call in call order, and the last `body` wins (default empty); `build`
/// then gives the status line, those header lines, a blank line and the
/// body.
pub proof fn law_builder_calls(calls: Seq<BuilderCall>)
    ensures
        after_calls(calls) == (last_status(calls).0, last_status(calls).1, headers_added(calls), last_body(calls)),
        response_bytes(after_calls(calls).0, after_calls(calls).1, after_calls(calls).2, after_calls(calls).3)
            == sb("HTTP/1.0 ") + dec(last_status(calls).0 as nat) + sb(" ") + last_status(calls).1 + sb("\r\n")
            + header_block(headers_added(calls)) + sb("\r\n") + last_body(calls),
    decreases calls.len(),
{
    if calls.len() > 0 {
        law_builder_calls(calls.drop_last());
    }
}

/// What `defang` writes for one byte: `<` and `>` become entities.
pub open spec fn defang_byte(c: u8) -> Seq<u8> {
    if c == 60 {
        seq![38u8, 108, 116, 59]
    } else if c == 62 {
        seq![38u8, 103, 116, 59]
    } else {
        seq![c]
    }
}

/// HTML escaping of `<` and `>`.
pub open spec fn defang_bytes(b: Seq<u8>) -> Seq<u8> {
    flat_map_bytes(b, |c: u8| defang_byte(c))
}

proof fn lemma_defang_escape()
    ensures
        ascii_escape(|c: u8| defang_byte(c)),
{
    assert forall|c: u8| #![trigger defang_byte(c)]
        (c >= 0x80 ==> defang_byte(c) == seq![c]) && (c < 0x80 ==> all_ascii(defang_byte(c))) by {
    }
}

/// HTML-escape a string for use in error pages: `<` becomes `&lt;` and `>`
/// becomes `&gt;`; everything else is kept.
pub fn defang(s: &str) -> (r: String)
    ensures
        stb(r) == defang_bytes(sb(s)),
{
    let b = s.as_bytes();
    let mut out: Vec<u8> = Vec::new();
    let mut i: usize = 0;
    while i < b.len()
        invariant
            i <= b@.len(),
            b@ == sb(s),
            out@ == defang_bytes(b@.subrange(0, i as int)),
        decreases b@.len() - i,
    {
        let c = b[i];
        if c == 60 {
            out.push(38u8);
            out.push(108u8);
            out.push(116u8);
            out.push(59u8);
        } else if c == 62 {
            out.push(38u8);
            out.push(103u8);
            out.push(116u8);
            out.push(59u8);
        } else {
            out.push(c);
        }
        proof {
            let t = b@.subrange(0, i + 1);
            assert(t.drop_last() =~= b@.subrange(0, i as int));
            assert(t.last() == c);
            assert(out@ =~= defang_bytes(t));
        }
        i += 1;
    }
    assert(b@.subrange(0, b@.len() as int) =~= b@);
    proof {
        lemma_str_valid(s);
        lemma_defang_escape();
        lemma_flat_map_valid(b@, |c: u8| defang_byte(c));
    }
    string_from_utf8(out.as_slice())
}

// ---------------------------------------------------------------- error page

/// The message part of an error page: `form` with the escaped argument,
/// cut to its first 80 bytes, in place of each `%.80s`.
pub open spec fn page_message(form: Seq<u8>, arg: Seq<u8>) -> Seq<u8> {
    let d = defang_bytes(arg);
    if contains_seq(form, sb(ARG_PLACEHOLDER)) {
        let cut = if d.len() > ARG_LIMIT { d.subrange(0, ARG_LIMIT as int) } else { d };
        replace_all(form, sb(ARG_PLACEHOLDER), cut)
    } else {
        form
    }
}

/// The comment block that persuades old MSIE to show the page.
pub open spec fn msie_padding() -> Seq<u8> {
    sb(MSIE_OPEN) + repeat_seq(sb(MSIE_LINE), 6) + sb(MSIE_CLOSE)
}

/// `n` copies of `s`, one after another.
pub open spec fn repeat_seq(s: Seq<u8>, n: nat) -> Seq<u8>
    decreases n,
{
    if n == 0 {
        Seq::empty()
    } else {
        repeat_seq(s, (n - 1) as nat) + s
    }
}

/// Is the user agent one that gets the padding?
pub open spec fn wants_padding(user_agent: Option<Seq<u8>>) -> bool {
    match user_agent {
        Some(ua) => contains_seq(ua, sb(MSIE_MARK)),
        None => false,
    }
}

/// The complete error page.
pub open spec fn error_page_bytes(
    status: u16,
    title: Seq<u8>,
    form: Seq<u8>,
    arg: Seq<u8>,
    user_agent: Option<Seq<u8>>,
) -> Seq<u8> {
    sb(PAGE_HEAD_1) + dec(status as nat) + sb(" ") + title + sb(PAGE_HEAD_2) + dec(status as nat)
        + sb(" ") + title + sb(PAGE_HEAD_3) + page_message(form, arg)
        + (if wants_padding(user_agent) { msie_padding() } else { Seq::empty() })
        + sb(PAGE_TAIL_1) + sb(SERVER_ADDRESS) + sb(PAGE_TAIL_2) + sb(SERVER_SOFTWARE) + sb(
        PAGE_TAIL_3,
    )
}

/// The escaped argument is cut at `ARG_LIMIT` bytes, which must fall on a
/// character boundary.
pub open spec fn error_page_cut_ok(form: Seq<u8>, arg: Seq<u8>) -> bool {
    let d = defang_bytes(arg);
    contains_seq(form, sb(ARG_PLACEHOLDER)) && d.len() > ARG_LIMIT ==> is_char_boundary(
        d,
        ARG_LIMIT as int,
    )
}

pub open spec fn opt_bytes(s: Option<&str>) -> Option<Seq<u8>> {
    match s {
        Some(x) => Some(sb(x)),
        None => None,
    }
}

/// The message part of an error page, computed.
fn build_message(form: &str, arg: &str) -> (r: Vec<u8>)
    requires
        error_page_cut_ok(sb(form), sb(arg)),
    ensures
        r@ == page_message(sb(form), sb(arg)),
{
    let defanged = defang(arg);
    let d = defanged.as_str().as_bytes();
    let f = form.as_bytes();
    assert(f@.subrange(0, f@.len() as int) =~= f@);
    match find_seq(f, ARG_PLACEHOLDER.as_bytes()) {
        Some(i) => {
            assert(occurs_at(f@, sb(ARG_PLACEHOLDER), i as int));
            let cut: Vec<u8> = if d.len() > ARG_LIMIT {
                slice_range(d, 0, ARG_LIMIT)
            } else {
                slice_range(d, 0, d.len())
            };
            assert(d@.subrange(0, d@.len() as int) =~= d@);
            proof {
                reveal_strlit("%.80s");
            }
            replace_all_exec(f, ARG_PLACEHOLDER.as_bytes(), cut.as_slice())
        },
        None => slice_range(f, 0, f.len()),
    }
}

/// Appends the MSIE padding comment.
fn push_msie_padding(out: &mut Vec<u8>)
    ensures
        final(out)@ == old(out)@ + msie_padding(),
{
    push_str(out, MSIE_OPEN);
    let mut n: usize = 0;
    let ghost before = out@;
    while n < 6
        invariant
            n <= 6,
            out@ == before + repeat_seq(sb(MSIE_LINE), n as nat),
        decreases 6 - n,
    {
        push_str(out, MSIE_LINE);
        n += 1;
        assert(out@ =~= before + repeat_seq(sb(MSIE_LINE), n as nat));
    }
    push_str(out, MSIE_CLOSE);
    assert(final(out)@ =~= old(out)@ + msie_padding());
}

/// Generate an HTML error page. `form` is the error-specific message (may
/// contain a `%.80s` placeholder for `arg`). A user agent that contains
/// "MSIE" gets a padding comment between the message and the footer.
pub fn error_page(status: u16, title: &str, form: &str, arg: &str, user_agent: Option<&str>) -> (r:
    Vec<u8>)
    requires
        error_page_cut_ok(sb(form), sb(arg)),
    ensures
        r@ == error_page_bytes(status, sb(title), sb(form), sb(arg), opt_bytes(user_agent)),
{
    let message = build_message(form, arg);
    let mut out: Vec<u8> = Vec::new();
    push_str(&mut out, PAGE_HEAD_1);
    push_dec(&mut out, status as u64);
    push_str(&mut out, " ");
    push_str(&mut out, title);
    push_str(&mut out, PAGE_HEAD_2);
    push_dec(&mut out, status as u64);
    push_str(&mut out, " ");
    push_str(&mut out, title);
    push_str(&mut out, PAGE_HEAD_3);
    push_all(&mut out, message.as_slice());
    let ghost mid = out@;
    let pad = match user_agent {
        Some(ua) => find_seq(ua.as_bytes(), MSIE_MARK.as_bytes()).is_some(),
        None => false,
    };
    proof {
        if let Some(ua) = user_agent {
            if pad {
                let k = choose|k: int| is_first_occurrence(sb(ua), sb(MSIE_MARK), k);
                assert(occurs_at(sb(ua), sb(MSIE_MARK), k));
            }
        }
    }
    assert(pad == wants_padding(opt_bytes(user_agent)));
    if pad {
        push_msie_padding(&mut out);
    }
    let ghost padded = out@;
    assert(padded == mid + (if wants_padding(opt_bytes(user_agent)) { msie_padding() } else { Seq::<u8>::empty() }));
    push_str(&mut out, PAGE_TAIL_1);
    push_str(&mut out, SERVER_ADDRESS);
    push_str(&mut out, PAGE_TAIL_2);
    push_str(&mut out, SERVER_SOFTWARE);
    push_str(&mut out, PAGE_TAIL_3);
    assert(out@ =~= error_page_bytes(status, sb(title), sb(form), sb(arg), opt_bytes(user_agent)));
    out
}

// ---------------------------------------------------------------- full responses

/// What the response head needs to know about the request.
pub struct ResponseContext {
    /// False for an HTTP/0.9 request, which gets no head at all.
    pub mime_flag: bool,
    /// The request's protocol token; empty for HTTP/0.9.
    pub http_version: String,
    pub got_range: bool,
    pub first_byte_index: i64,
    pub last_byte_index: i64,
    pub range_if: Option<i64>,
}

/// The answer becomes `206 Partial Content`: a satisfiable range that is
/// not the whole entity, whose `If-Range` (if any) names this modification
/// time.
pub open spec fn partial_content(ctx: ResponseContext, status: u16, length: i64, mod_time: int) -> bool {
    &&& ctx.got_range
    &&& status == 200
    &&& ctx.last_byte_index >= ctx.first_byte_index
    &&& (ctx.last_byte_index != length - 1 || ctx.first_byte_index != 0)
    &&& (ctx.range_if is None || ctx.range_if == Some(mod_time as i64))
}

/// `text/*` types without a charset get `; charset=iso-8859-1`.
pub open spec fn fixed_content_type(t: Seq<u8>) -> Seq<u8> {
    if t.len() >= 5 && t.take(5) == sb("text/") && !contains_seq(t, sb("charset=")) {
        t + sb("; charset=iso-8859-1")
    } else {
        t
    }
}

/// Where the head's protocol token comes from: the request's, or
/// `HTTP/1.0` when it had none.
pub open spec fn protocol_of(ctx: ResponseContext) -> Seq<u8> {
    if stb(ctx.http_version).len() == 0 {
        sb("HTTP/1.0")
    } else {
        stb(ctx.http_version)
    }
}

/// The standard header lines after the status line.
pub open spec fn standard_headers(content_type: Seq<u8>, now: int, mod_time: int) -> Seq<u8> {
    sb("Server: ") + sb(SERVER_SOFTWARE) + sb("\r\n") + sb("Content-Type: ") + fixed_content_type(
        content_type,
    ) + sb("\r\n") + sb("Date: ") + http_date_text(now) + sb("\r\n") + sb("Last-Modified: ")
        + http_date_text(mod_time) + sb("\r\n") + sb("Accept-Ranges: bytes\r\n") + sb(
        "Connection: close\r\n",
    )
}

/// `Cache-Control` for statuses outside 2xx and 3xx.
pub open spec fn cache_line(status: u16) -> Seq<u8> {
    let s100 = status / 100;
    if s100 != 2 && s100 != 3 {
        sb("Cache-Control: no-cache,no-store\r\n")
    } else {
        Seq::empty()
    }
}

/// `Content-Range` and `Content-Length` for a partial answer, else
/// `Content-Length` when the length is known.
pub open spec fn length_lines(ctx: ResponseContext, partial: bool, length: i64) -> Seq<u8> {
    if partial {
        sb("Content-Range: bytes ") + dec_int(ctx.first_byte_index as int) + sb("-") + dec_int(
            ctx.last_byte_index as int,
        ) + sb("/") + dec_int(length as int) + sb("\r\n") + sb("Content-Length: ") + dec_int(
            ctx.last_byte_index - ctx.first_byte_index + 1,
        ) + sb("\r\n")
    } else if length >= 0 {
        sb("Content-Length: ") + dec_int(length as int) + sb("\r\n")
    } else {
        Seq::empty()
    }
}

/// The status line and standard headers of `send_mime()`: Server,
/// Content-Type, Date, Last-Modified, Accept-Ranges, Connection, then
/// Cache-Control for statuses outside 2xx/3xx, the range or length headers,
/// the extra headers, and a blank line.
pub open spec fn full_response_head(
    ctx: ResponseContext,
    status: u16,
    status_text: Seq<u8>,
    content_type: Seq<u8>,
    length: i64,
    mtime: i64,
    extra: Seq<(Seq<u8>, Seq<u8>)>,
    now: i64,
) -> Seq<u8> {
    let mod_time: int = if mtime == 0 { now as int } else { mtime as int };
    let partial = partial_content(ctx, status, length, mod_time);
    let final_status: u16 = if partial { 206 } else { status };
    let final_text = if partial { sb("Partial Content") } else { status_text };
    protocol_of(ctx) + sb(" ") + dec(final_status as nat) + sb(" ") + final_text + sb("\r\n")
        + standard_headers(content_type, now as int, mod_time) + cache_line(final_status)
        + length_lines(ctx, partial, length) + header_block(extra) + sb("\r\n")
}

/// The dates the head shows can be written.
pub open spec fn full_response_ok(ctx: ResponseContext, length: i64, mtime: i64, now: i64) -> bool {
    &&& -86400 < now < last_formattable()
    &&& (mtime != 0 ==> -86400 < mtime < last_formattable())
    &&& length > i64::MIN
    &&& (ctx.got_range && ctx.last_byte_index >= ctx.first_byte_index ==> ctx.last_byte_index
        - ctx.first_byte_index + 1 <= i64::MAX)
}

pub open spec fn pairs_view(h: Seq<(String, String)>) -> Seq<(Seq<u8>, Seq<u8>)> {
    h.map_values(|p: (String, String)| (stb(p.0), stb(p.1)))
}

fn push_header_pairs(out: &mut Vec<u8>, extra: &[(String, String)])
    ensures
        final(out)@ == old(out)@ + header_block(pairs_view(extra@)),
{
    let ghost start = out@;
    let mut i: usize = 0;
    while i < extra.len()
        invariant
            i <= extra@.len(),
            out@ == start + header_block(pairs_view(extra@).subrange(0, i as int)),
            start == old(out)@,
        decreases extra@.len() - i,
    {
        let (name, value) = &extra[i];
        push_str(out, name.as_str());
        push_str(out, ": ");
        push_str(out, value.as_str());
        push_str(out, "\r\n");
        proof {
            let h = pairs_view(extra@).subrange(0, i + 1);
            assert(h.drop_last() =~= pairs_view(extra@).subrange(0, i as int));
            assert(out@ =~= start + header_block(h));
        }
        i += 1;
    }
    assert(pairs_view(extra@).subrange(0, i as int) =~= pairs_view(extra@));
}

fn fix_content_type(content_type: &str) -> (r: Vec<u8>)
    ensures
        r@ == fixed_content_type(sb(content_type)),
{
    let t = content_type.as_bytes();
    let mut out: Vec<u8> = Vec::new();
    push_str(&mut out, content_type);
    let text_prefix = starts_with(t, "text/".as_bytes());
    if text_prefix {
        proof {
            reveal_strlit("text/");
            crate::text::lemma_ascii_literal("text/");
            assert(sb("text/").len() == 5);
        }
        match find_seq(t, "charset=".as_bytes()) {
            Some(i) => {
                assert(occurs_at(t@, sb("charset="), i as int));
            },
            None => {
                push_str(&mut out, "; charset=iso-8859-1");
            },
        }
    } else {
        proof {
            reveal_strlit("text/");
            crate::text::lemma_ascii_literal("text/");
        }
    }
    out
}

fn push_standard_headers(out: &mut Vec<u8>, content_type: &str, now: i64, mod_time: i64)
    requires
        -86400 < now < last_formattable(),
        -86400 < mod_time < last_formattable(),
    ensures
        final(out)@ == old(out)@ + standard_headers(sb(content_type), now as int, mod_time as int),
{
    let now_str = format_http_date(now);
    let mod_str = format_http_date(mod_time);
    let fixed_type = fix_content_type(content_type);
    push_str(out, "Server: ");
    push_str(out, SERVER_SOFTWARE);
    push_str(out, "\r\n");
    push_str(out, "Content-Type: ");
    push_all(out, fixed_type.as_slice());
    push_str(out, "\r\n");
    push_str(out, "Date: ");
    push_str(out, now_str.as_str());
    push_str(out, "\r\n");
    push_str(out, "Last-Modified: ");
    push_str(out, mod_str.as_str());
    push_str(out, "\r\n");
    push_str(out, "Accept-Ranges: bytes\r\n");
    push_str(out, "Connection: close\r\n");
    assert(final(out)@ =~= old(out)@ + standard_headers(sb(content_type), now as int, mod_time as int));
}

fn push_length_lines(out: &mut Vec<u8>, ctx: &ResponseContext, partial: bool, length: i64)
    requires
        partial ==> ctx.last_byte_index - ctx.first_byte_index + 1 <= i64::MAX,
        partial ==> ctx.last_byte_index >= ctx.first_byte_index,
    ensures
        final(out)@ == old(out)@ + length_lines(*ctx, partial, length),
{
    if partial {
        push_str(out, "Content-Range: bytes ");
        push_dec_i64(out, ctx.first_byte_index);
        push_str(out, "-");
        push_dec_i64(out, ctx.last_byte_index);
        push_str(out, "/");
        push_dec_i64(out, length);
        push_str(out, "\r\n");
        push_str(out, "Content-Length: ");
        push_dec_i64(out, ctx.last_byte_index - ctx.first_byte_index + 1);
        push_str(out, "\r\n");
    } else if length >= 0 {
        push_str(out, "Content-Length: ");
        push_dec_i64(out, length);
        push_str(out, "\r\n");
    }
    assert(final(out)@ =~= old(out)@ + length_lines(*ctx, partial, length));
}

/// The status line and headers of a response to `ctx`, as the legacy
/// `send_mime()` writes them; `now` is the current time. HTTP/0.9 requests
/// get nothing.
pub fn build_full_response(
    ctx: &ResponseContext,
    status: u16,
    status_text: &str,
    content_type: &str,
    length: i64,
    mtime: i64,
    extra_headers: &[(String, String)],
    now: i64,
) -> (r: Vec<u8>)
    requires
        full_response_ok(*ctx, length, mtime, now),
    ensures
        !ctx.mime_flag ==> r@.len() == 0,
        ctx.mime_flag ==> r@ == full_response_head(
            *ctx,
            status,
            sb(status_text),
            sb(content_type),
            length,
            mtime,
            pairs_view(extra_headers@),
            now,
        ),
{
    if !ctx.mime_flag {
        return Vec::new();
    }
    let mod_time = if mtime == 0 { now } else { mtime };
    let partial = ctx.got_range && status == 200 && ctx.last_byte_index >= ctx.first_byte_index
        && (ctx.last_byte_index != length - 1 || ctx.first_byte_index != 0) && (match ctx.range_if {
        None => true,
        Some(t) => t == mod_time,
    });
    assert(partial == partial_content(*ctx, status, length, mod_time as int));
    let final_status: u16 = if partial { 206 } else { status };
    let mut out: Vec<u8> = Vec::new();
    if ctx.http_version.as_str().as_bytes().len() == 0 {
        push_str(&mut out, "HTTP/1.0");
    } else {
        push_str(&mut out, ctx.http_version.as_str());
    }
    push_str(&mut out, " ");
    push_dec(&mut out, final_status as u64);
    push_str(&mut out, " ");
    if partial {
        push_str(&mut out, "Partial Content");
    } else {
        push_str(&mut out, status_text);
    }
    push_str(&mut out, "\r\n");
    push_standard_headers(&mut out, content_type, now, mod_time);
    let s100 = final_status / 100;
    if s100 != 2 && s100 != 3 {
        push_str(&mut out, "Cache-Control: no-cache,no-store\r\n");
    }
    push_length_lines(&mut out, ctx, partial, length);
    push_header_pairs(&mut out, extra_headers);
    push_str(&mut out, "\r\n");
    assert(out@ =~= full_response_head(
        *ctx,
        status,
        sb(status_text),
        sb(content_type),
        length,
        mtime,
        pairs_view(extra_headers@),
        now,
    ));
    out
}

} // verus!
