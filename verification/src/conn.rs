//! The state of one HTTP connection: the read buffer and its indexes, what
//! was parsed of the request, and the response being sent. A kept-alive
//! connection is reset before its next request.

use vstd::prelude::*;
use crate::connection::ConnState;
use crate::method::Method;
use crate::parse_state::ParseState;

verus! {

/// Size of a new connection's read buffer.
pub const READ_BUF_SIZE: usize = 60000;

/// The state of one HTTP connection. The mapping of a served file stays
/// with the caller, which does the file I/O.
pub struct HttpConn {
    pub read_buf: Vec<u8>,
    pub read_idx: usize,
    pub checked_idx: usize,
    pub parse_state: ParseState,
    pub method: Method,
    pub http_version: String,
    /// The request protocol is not `HTTP/1.0`: a `Host` header is required.
    pub one_one: bool,
    pub vhost_dir: String,
    pub encoded_url: String,
    pub decoded_url: String,
    pub path_info: String,
    pub query: String,
    pub fragment: String,
    pub orig_filename: String,
    pub expn_filename: String,
    pub host: String,
    /// First address of an `X-Forwarded-For` header.
    pub x_forwarded_for: String,
    pub content_type: String,
    pub content_length: Option<i64>,
    pub referer: String,
    pub user_agent: String,
    pub cookie: String,
    pub authorization: String,
    pub charset: String,
    pub accept: String,
    pub accept_encoding: String,
    pub accept_language: String,
    pub if_modified_since: Option<i64>,
    /// The request carries MIME headers (false for an HTTP/0.9 request).
    pub mime_flag: bool,
    pub got_range: bool,
    pub first_byte_index: i64,
    pub last_byte_index: i64,
    pub range_if: Option<i64>,
    pub response: Vec<u8>,
    pub response_len: usize,
    pub response_header_len: usize,
    pub status_code: u16,
    pub status_text: String,
    pub headers: Vec<(String, String)>,
    pub bytes_sent: i64,
    pub state: ConnState,
    pub keep_alive: bool,
    pub should_linger: bool,
}

/// Every field but the read buffer in its state before a request: indexes
/// at zero, parsing at the first word, texts empty (the charset
/// `iso-8859-1`), no range (`0` to `-1`), no response, reading.
pub open spec fn request_fresh(c: HttpConn) -> bool {
    &&& c.read_idx == 0 && c.checked_idx == 0
    &&& c.parse_state == ParseState::FirstWord
    &&& c.method == Method::Unknown
    &&& c.http_version@ == Seq::<char>::empty()
    &&& !c.one_one
    &&& c.vhost_dir@ == Seq::<char>::empty()
    &&& c.encoded_url@ == Seq::<char>::empty()
    &&& c.decoded_url@ == Seq::<char>::empty()
    &&& c.path_info@ == Seq::<char>::empty()
    &&& c.query@ == Seq::<char>::empty()
    &&& c.fragment@ == Seq::<char>::empty()
    &&& c.orig_filename@ == Seq::<char>::empty()
    &&& c.expn_filename@ == Seq::<char>::empty()
    &&& c.host@ == Seq::<char>::empty()
    &&& c.x_forwarded_for@ == Seq::<char>::empty()
    &&& c.content_type@ == Seq::<char>::empty()
    &&& c.content_length is None
    &&& c.referer@ == Seq::<char>::empty()
    &&& c.user_agent@ == Seq::<char>::empty()
    &&& c.cookie@ == Seq::<char>::empty()
    &&& c.authorization@ == Seq::<char>::empty()
    &&& c.charset@ == "iso-8859-1"@
    &&& c.accept@ == Seq::<char>::empty()
    &&& c.accept_encoding@ == Seq::<char>::empty()
    &&& c.accept_language@ == Seq::<char>::empty()
    &&& c.if_modified_since is None
    &&& c.mime_flag
    &&& !c.got_range
    &&& c.first_byte_index == 0 && c.last_byte_index == -1
    &&& c.range_if is None
    &&& c.response@ == Seq::<u8>::empty()
    &&& c.response_len == 0 && c.response_header_len == 0
    &&& c.status_code == 0
    &&& c.status_text@ == Seq::<char>::empty()
    &&& c.headers@ == Seq::<(String, String)>::empty()
    &&& c.bytes_sent == 0
    &&& c.state == ConnState::Reading
    &&& !c.keep_alive && !c.should_linger
}

fn empty() -> (s: String)
    ensures
        s@ == Seq::<char>::empty(),
{
    String::new()
}

fn default_charset() -> (s: String)
    ensures
        s@ == "iso-8859-1"@,
{
    "iso-8859-1".to_owned()
}

impl HttpConn {
    /// A connection before its first request, with a zeroed read buffer of
    /// `READ_BUF_SIZE` bytes.
    pub fn new() -> (c: Self)
        ensures
            request_fresh(c),
            c.read_buf@ == Seq::new(READ_BUF_SIZE as nat, |i: int| 0u8),
    {
        let c = HttpConn {
            read_buf: vec![0u8; READ_BUF_SIZE],
            read_idx: 0,
            checked_idx: 0,
            parse_state: ParseState::initial(),
            method: Method::Unknown,
            http_version: empty(),
            one_one: false,
            vhost_dir: empty(),
            encoded_url: empty(),
            decoded_url: empty(),
            path_info: empty(),
            query: empty(),
            fragment: empty(),
            orig_filename: empty(),
            expn_filename: empty(),
            host: empty(),
            x_forwarded_for: empty(),
            content_type: empty(),
            content_length: None,
            referer: empty(),
            user_agent: empty(),
            cookie: empty(),
            authorization: empty(),
            charset: default_charset(),
            accept: empty(),
            accept_encoding: empty(),
            accept_language: empty(),
            if_modified_since: None,
            mime_flag: true,
            got_range: false,
            first_byte_index: 0,
            last_byte_index: -1,
            range_if: None,
            response: Vec::new(),
            response_len: 0,
            response_header_len: 0,
            status_code: 0,
            status_text: empty(),
            headers: Vec::new(),
            bytes_sent: 0,
            state: ConnState::Reading,
            keep_alive: false,
            should_linger: false,
        };
        assert(c.read_buf@ =~= Seq::new(READ_BUF_SIZE as nat, |i: int| 0u8));
        c
    }

    /// Resets the connection for its next request (keep-alive): every
    /// field returns to its state before a request; the read buffer is
    /// kept.
    pub fn reset(&mut self)
        ensures
            request_fresh(*final(self)),
            final(self).read_buf@ == old(self).read_buf@,
    {
        self.read_idx = 0;
        self.checked_idx = 0;
        self.parse_state = ParseState::initial();
        self.method = Method::Unknown;
        self.http_version = empty();
        self.one_one = false;
        self.vhost_dir = empty();
        self.encoded_url = empty();
        self.decoded_url = empty();
        self.path_info = empty();
        self.query = empty();
        self.fragment = empty();
        self.orig_filename = empty();
        self.expn_filename = empty();
        self.host = empty();
        self.x_forwarded_for = empty();
        self.content_type = empty();
        self.content_length = None;
        self.referer = empty();
        self.user_agent = empty();
        self.cookie = empty();
        self.authorization = empty();
        self.charset = default_charset();
        self.accept = empty();
        self.accept_encoding = empty();
        self.accept_language = empty();
        self.if_modified_since = None;
        self.mime_flag = true;
        self.got_range = false;
        self.first_byte_index = 0;
        self.last_byte_index = -1;
        self.range_if = None;
        self.response.clear();
        self.response_len = 0;
        self.response_header_len = 0;
        self.status_code = 0;
        self.status_text = empty();
        self.headers.clear();
        self.bytes_sent = 0;
        self.state = ConnState::Reading;
        self.keep_alive = false;
        self.should_linger = false;
    }
}

impl Default for HttpConn {
    fn default() -> (c: Self)
        ensures
            request_fresh(c),
            c.read_buf@ == Seq::new(READ_BUF_SIZE as nat, |i: int| 0u8),
    {
        HttpConn::new()
    }
}

} // verus!
